//! What holds between several operations, on concrete trees.

use std::collections::hash_map::DefaultHasher;
use std::hash::Hash;
use std::hash::Hasher;

use rowan::ast::SyntaxNodePtr;
use rowan::cursor::SyntaxEditor;
use rowan::cursor::SyntaxElement;
use rowan::cursor::SyntaxNode;
use rowan::cursor::SyntaxToken;
use rowan::BuildError;
use rowan::hashing::Recorder;
use rowan::Direction;
use rowan::EditorElementId;
use rowan::GreenElement;
use rowan::GreenNode;
use rowan::GreenNodeBuilder;
use rowan::GreenToken;
use rowan::Language;
use rowan::NodeCache;
use rowan::NodeOrToken;
use rowan::SyntaxKind;
use rowan::TextRange;
use rowan::TextSize;
use rowan::TraversalError;
use rowan::WalkEvent;

/// A token of a kind and a text.
fn token(kind: u16, text: &str) -> GreenElement {
    match GreenToken::new(SyntaxKind(kind), text) {
        Ok(token) => GreenElement::from(token),
        Err(error) => panic!("{}", error.message()),
    }
}

/// A node of a kind and children.
fn node(kind: u16, children: Vec<GreenElement>) -> GreenNode {
    match GreenNode::new(SyntaxKind(kind), children) {
        Ok(node) => node,
        Err(error) => panic!("{}", error.message()),
    }
}

/// `root(a, inner(empty(), deep(β, c)), hole(), d)`, with an empty node before the nested tokens.
fn sample() -> SyntaxNode {
    let empty = node(4, Vec::new());
    let deep = node(5, vec![token(1, "β"), token(1, "c")]);
    let inner = node(2, vec![GreenElement::from(empty.clone()), GreenElement::from(deep)]);
    SyntaxNode::new_root(node(
        0,
        vec![token(1, "a"), GreenElement::from(inner), GreenElement::from(empty), token(1, "d")],
    ))
}

/// All tokens of a subtree in source order.
fn tokens(root: &SyntaxNode) -> Vec<SyntaxToken> {
    root.descendants_with_tokens().into_iter().filter_map(NodeOrToken::into_token).collect()
}

#[test]
fn tokens_spell_the_text_and_tile_the_range() {
    let root = sample();
    let texts: Vec<String> = tokens(&root).iter().map(|token| token.text().to_owned()).collect();
    assert_eq!(texts.concat(), root.to_string());
    assert_eq!(root.to_string(), "aβcd");
    assert_eq!(root.green().to_string(), "aβcd");
    let mut end = TextSize::from(0);
    for token in tokens(&root) {
        assert!(token.text_range().start() == end);
        end = token.text_range().end();
    }
    assert!(end == root.text_range().end());
    assert!(root.text_range().len() == TextSize::from(5));
}

#[test]
fn token_steps_cross_empty_nodes_and_are_inverse() {
    let root = sample();
    let all = tokens(&root);
    assert!(root.first_token() == Some(all[0].clone()));
    assert!(root.last_token() == Some(all[3].clone()));
    for pair in all.windows(2) {
        assert!(pair[0].next_token() == Some(pair[1].clone()));
        assert!(pair[1].prev_token() == Some(pair[0].clone()));
    }
    assert!(all[0].prev_token().is_none());
    assert!(all[3].next_token().is_none());
    let inner = root.first_child().unwrap();
    assert_eq!(inner.first_token().unwrap().text(), "β");
    assert_eq!(inner.last_token().unwrap().text(), "c");
}

#[test]
fn sibling_steps_are_inverse() {
    let root = sample();
    let inner = root.first_child().unwrap();
    let hole = inner.next_sibling().unwrap();
    assert!(hole.kind() == SyntaxKind(4));
    assert!(hole.prev_sibling() == Some(inner.clone()));
    let elements = root.children_with_tokens().into_vec();
    for pair in elements.windows(2) {
        assert!(pair[0].next_sibling_or_token() == Some(pair[1].clone()));
        assert!(pair[1].prev_sibling_or_token() == Some(pair[0].clone()));
    }
    assert_eq!(inner.siblings(Direction::Next).len(), 2);
    assert!(inner.parent() == Some(root));
}

#[test]
fn walks_are_balanced_and_enter_the_descendants() {
    let root = sample();
    let mut open: Vec<SyntaxElement> = Vec::new();
    let mut entered = Vec::new();
    for event in root.preorder_with_tokens().into_vec() {
        match event {
            WalkEvent::Enter(element) => {
                entered.push(element.clone());
                open.push(element);
            }
            WalkEvent::Leave(element) => {
                assert!(open.pop() == Some(element));
            }
        }
    }
    assert!(open.is_empty());
    assert!(entered == root.descendants_with_tokens());
    assert_eq!(entered.len(), 9);
    let mut preorder = root.preorder();
    assert!(matches!(preorder.next(), Some(WalkEvent::Enter(_))));
    assert!(matches!(preorder.next(), Some(WalkEvent::Enter(_))));
    assert!(preorder.skip_subtree().is_ok());
    let rest = preorder.into_vec();
    assert_eq!(rest.len(), 4);
    assert!(matches!(&rest[0], WalkEvent::Leave(node) if node.kind() == SyntaxKind(2)));
}

#[test]
fn covering_elements_contain_the_range_and_are_deepest() {
    let root = sample();
    let range = TextRange::new(TextSize::from(1), TextSize::from(4));
    let covering = root.covering_element(range).unwrap();
    assert!(covering.kind() == SyntaxKind(5));
    assert!(covering.text_range().contains_range(range));
    let deep = covering.into_node().unwrap();
    assert!(deep.child_or_token_at_range(range).unwrap().is_none());
    let single = TextRange::new(TextSize::from(3), TextSize::from(4));
    assert_eq!(root.covering_element(single).unwrap().into_token().unwrap().text(), "c");
}

#[test]
fn replacing_an_element_by_itself_changes_nothing() {
    let root = sample();
    for node in root.descendants() {
        let again = node.replace_with(node.green().clone()).unwrap();
        assert!(again == *root.green());
    }
    let inner = root.first_child().unwrap();
    let rebuilt = inner.replace_with(node(2, vec![token(1, "xyz")])).unwrap();
    assert_eq!(rebuilt.to_string(), "axyzd");
    let before: Vec<GreenElement> = root.green().children().nth(0).into_iter().map(|e| e.to_owned()).collect();
    let after: Vec<GreenElement> = rebuilt.children().nth(0).into_iter().map(|e| e.to_owned()).collect();
    assert!(before[0].ptr_eq(&after[0]));
}

#[test]
fn green_edits_undo_each_other() {
    let original = node(0, vec![token(1, "a"), token(1, "b"), token(1, "c")]);
    let inserted = original.insert_child(1, token(1, "x")).unwrap();
    assert_eq!(inserted.to_string(), "axbc");
    assert!(inserted.remove_child(1).unwrap() == original);
    let kept: Vec<GreenElement> = vec![
        original.children().nth(1).unwrap().to_owned(),
        original.children().nth(2).unwrap().to_owned(),
    ];
    let spliced = original.splice_children(1..3, vec![token(1, "yz")]).unwrap();
    assert_eq!(spliced.to_string(), "ayz");
    assert!(spliced.splice_children(1..2, kept).unwrap() == original);
}

#[test]
fn equal_trees_hand_the_same_words_to_a_hasher() {
    use_words(&node(0, vec![token(1, "a"), token(2, "")]), &node(0, vec![token(1, "a"), token(2, "")]), true);
    use_words(&node(0, vec![token(1, "a")]), &node(0, vec![token(1, "b")]), false);
}

/// Compare what two trees hand to a hasher.
fn use_words(left: &GreenNode, right: &GreenNode, same: bool) {
    let mut one = DefaultHasher::new();
    left.hash(&mut one);
    let mut two = DefaultHasher::new();
    right.hash(&mut two);
    assert_eq!(one.finish() == two.finish(), same);
    assert_eq!(left == right, same);
}

#[test]
fn detaching_and_inserting_again_restores_the_tree() {
    let root = sample();
    let inner = root.first_child().unwrap();
    let mut editor = SyntaxEditor::new(&root);
    let top = editor.root_id();
    let inner_id = editor.node_id(&inner).unwrap();
    let element = EditorElementId::Node(inner_id.clone());
    let before = editor.children(&top).unwrap();
    assert!(editor.detach(&element).unwrap());
    assert!(editor.parent(&element).unwrap().is_none());
    assert!(editor.text_range(&element).unwrap() == TextRange::up_to(TextSize::from(3)));
    assert!(editor.splice_children(&top, 1..1, vec![element.clone()]).unwrap().detached().is_empty());
    assert!(editor.children(&top).unwrap() == before);
    assert!(editor.parent(&element).unwrap() == Some(top.clone()));
    assert!(editor.index(&element).unwrap() == Some(1));
    assert!(editor.node_id(&inner).unwrap() == inner_id);
    let completed = editor.into_syntax(&top).unwrap();
    assert!(*completed.green() == *root.green());
}

#[test]
fn an_unedited_source_is_completed_to_its_own_allocation() {
    let root = sample();
    let editor = SyntaxEditor::new(&root);
    let top = editor.root_id();
    let completed = editor.into_syntax(&top).unwrap();
    assert!(completed.green().ptr_eq(root.green()));
    let inner = root.first_child().unwrap();
    let nested = SyntaxEditor::new(&inner);
    let nested_top = nested.root_id();
    let rebased = nested.into_syntax(&nested_top).unwrap();
    assert!(rebased.green().ptr_eq(inner.green()));
    assert!(rebased.text_range() == TextRange::up_to(TextSize::from(3)));
}

#[test]
fn editor_links_lengths_and_offsets_agree_after_moves() {
    let root = sample();
    let mut editor = SyntaxEditor::new(&root);
    let top = editor.root_id();
    let children = editor.children(&top).unwrap();
    let inner = children[1].as_node().cloned().unwrap();
    let moved = children[3].clone();
    let outcome = editor.splice_children(&inner, 0..1, vec![moved.clone()]).unwrap();
    assert_eq!(outcome.detached().len(), 1);
    assert!(editor.parent(&moved).unwrap() == Some(inner.clone()));
    let mut pending = vec![EditorElementId::Node(top)];
    while let Some(element) = pending.pop() {
        if let NodeOrToken::Node(node) = &element {
            let mut offset = editor.text_range(&element).unwrap().start();
            for (index, child) in editor.children(node).unwrap().into_iter().enumerate() {
                assert!(editor.parent(&child).unwrap() == Some(node.clone()));
                assert!(editor.index(&child).unwrap() == Some(index));
                assert!(editor.text_range(&child).unwrap().start() == offset);
                offset = offset.checked_add(editor.text_len(&child).unwrap()).unwrap();
                pending.push(child);
            }
            assert!(offset == editor.text_range(&element).unwrap().end());
        }
    }
}

#[test]
fn a_builder_loses_no_text() {
    let mut builder = GreenNodeBuilder::new();
    builder.start_node(SyntaxKind(0));
    builder.token(SyntaxKind(1), "one").unwrap();
    let checkpoint = builder.checkpoint();
    builder.token(SyntaxKind(1), " two").unwrap();
    for kind in 2..6 {
        builder.start_node_at(&checkpoint, SyntaxKind(kind)).unwrap();
        builder.token(SyntaxKind(1), "!").unwrap();
        builder.finish_node().unwrap();
    }
    builder.finish_node().unwrap();
    let root = builder.finish().unwrap_or_else(|error| panic!("{}", error.message()));
    assert_eq!(root.to_string(), "one two!!!!");
    assert_eq!(root.children().len(), 2);
}

#[test]
fn a_shared_cache_hands_out_one_allocation() {
    let mut cache = NodeCache::default();
    let first = cache.token(SyntaxKind(1), "x").unwrap_or_else(|error| panic!("{}", error.message()));
    let second = cache.token(SyntaxKind(1), "x").unwrap_or_else(|error| panic!("{}", error.message()));
    assert!(first.green.ptr_eq(&second.green));
    let interned = cache.intern_token(7, SyntaxKind(1), "y").unwrap_or_else(|error| panic!("{}", error.message()));
    let again = cache.intern_token(7, SyntaxKind(1), "y").unwrap_or_else(|error| panic!("{}", error.message()));
    assert!(interned.hash == Some(7));
    assert!(interned.green.ptr_eq(&again.green));
    let children = [first.clone(), second];
    let one = cache.intern_node(Some(9), SyntaxKind(2), &children).unwrap_or_else(|error| panic!("{}", error.message()));
    let two = cache.intern_node(Some(9), SyntaxKind(2), &children).unwrap_or_else(|error| panic!("{}", error.message()));
    assert!(one.green.ptr_eq(&two.green));
    let fresh = cache.intern_node(None, SyntaxKind(2), &children).unwrap_or_else(|error| panic!("{}", error.message()));
    assert!(!fresh.green.ptr_eq(&one.green));
    assert!(fresh.green == one.green);
    let other_kind = cache.intern_node(Some(9), SyntaxKind(3), &children).unwrap_or_else(|error| panic!("{}", error.message()));
    assert!(!other_kind.green.ptr_eq(&one.green));
}

#[test]
fn slices_compose_and_join() {
    let text = sample().text();
    let whole = text.slice(..).unwrap();
    assert!(whole == text);
    let part = text.slice(TextSize::from(1)..).unwrap();
    let inner = part.slice(TextSize::from(2)..TextSize::from(4)).unwrap();
    let direct = text.slice(TextSize::from(3)..TextSize::from(5)).unwrap();
    assert!(inner == direct);
    assert_eq!(inner.to_string(), "cd");
    let left = text.slice(..TextSize::from(3)).unwrap();
    assert_eq!(left.to_string() + &direct.to_string(), text.to_string());
    let offset = text.find_char('c').unwrap().unwrap();
    assert!(offset == TextSize::from(3));
    assert_eq!(text.char_at(offset).unwrap(), Some('c'));
}

#[test]
fn chunks_touch_the_view_and_join_to_its_text() {
    let text = sample().text();
    let view = text.slice(TextSize::from(1)..TextSize::from(4)).unwrap();
    let mut chunks: Vec<String> = Vec::new();
    view.for_each_chunk(|chunk: &str| chunks.push(chunk.to_owned())).unwrap();
    assert_eq!(chunks, vec!["".to_owned(), "β".to_owned(), "c".to_owned(), "".to_owned()]);
    assert_eq!(chunks.concat(), view.to_string());
}

/// The identity language.
#[derive(Debug, Clone, Copy, PartialEq, Eq, PartialOrd, Ord, Hash)]
enum Plain {}

impl Language for Plain {
    type Kind = SyntaxKind;

    fn kind_from_raw(raw: SyntaxKind) -> SyntaxKind {
        raw
    }

    fn kind_to_raw(kind: SyntaxKind) -> SyntaxKind {
        kind
    }
}

#[test]
fn pointers_resolve_in_their_own_tree() {
    let root = rowan::SyntaxNode::<Plain>::from(sample());
    for node in root.descendants() {
        let resolved = SyntaxNodePtr::new(&node).resolve(&root).unwrap();
        assert!(resolved == Some(node));
    }
    let leaf = node(7, vec![token(1, "x")]);
    let nested = rowan::SyntaxNode::<Plain>::new_root(node(7, vec![GreenElement::from(leaf)]));
    let inner = nested.first_child().unwrap();
    assert!(SyntaxNodePtr::new(&inner).resolve(&nested).unwrap() == Some(inner));
    assert!(SyntaxNodePtr::new(&nested).resolve(&nested).unwrap() == Some(nested.clone()));
}

#[test]
fn pointers_find_empty_nodes_behind_other_empty_nodes() {
    let hole = node(4, Vec::new());
    let wrapped = node(4, vec![GreenElement::from(node(4, Vec::new()))]);
    let same = node(4, Vec::new());
    let green = node(
        0,
        vec![
            token(1, "a"),
            GreenElement::from(node(5, Vec::new())),
            GreenElement::from(hole),
            GreenElement::from(wrapped),
            GreenElement::from(same),
            token(1, "b"),
        ],
    );
    let root = rowan::SyntaxNode::<Plain>::new_root(green);
    for node in root.descendants() {
        let resolved = SyntaxNodePtr::new(&node).resolve(&root).unwrap();
        assert!(resolved == Some(node));
    }
}

#[test]
fn pointers_resolve_by_structure_in_another_tree() {
    let tree = |text: &str| {
        rowan::SyntaxNode::<Plain>::new_root(node(
            0,
            vec![GreenElement::from(node(7, vec![GreenElement::from(node(7, vec![token(1, text)]))]))],
        ))
    };
    let root = tree("x");
    let inner = root.first_child().unwrap().first_child().unwrap();
    let pointer = SyntaxNodePtr::new(&inner);
    let other = tree("x");
    let resolved = pointer.resolve(&other).unwrap().unwrap();
    assert!(resolved == other.first_child().unwrap().first_child().unwrap());
    assert!(!resolved.green().ptr_eq(inner.green()));
    assert!(pointer.resolve(&tree("y")).unwrap().is_none());
    assert!(pointer.resolve(&tree("xx")).unwrap().is_none());
}

#[test]
fn a_skip_leaves_the_entered_node_next() {
    let root = sample();
    let whole = root.preorder().into_vec();
    let mut preorder = root.preorder();
    assert!(preorder.next().is_some());
    let entered = match preorder.next() {
        Some(WalkEvent::Enter(node)) => node,
        _ => panic!("the walk enters the inner node"),
    };
    assert!(preorder.skip_subtree() == Ok(()));
    assert!(preorder.skip_subtree() == Err(TraversalError::SkipAlreadyRequested));
    assert!(preorder.next() == Some(WalkEvent::Leave(entered.clone())));
    assert!(preorder.skip_subtree() == Err(TraversalError::NoNodeSubtree));
    let left = whole.iter().position(|event| *event == WalkEvent::Leave(entered.clone())).unwrap();
    assert!(preorder.into_vec() == whole[left + 1..].to_vec());
    for node in root.descendants() {
        let entries = whole.iter().filter(|event| **event == WalkEvent::Enter(node.clone())).count();
        let exits = whole.iter().filter(|event| **event == WalkEvent::Leave(node.clone())).count();
        assert_eq!((entries, exits), (1, 1));
    }
}

#[test]
fn parts_without_changes_keep_their_allocation_over_many_edits() {
    let left = node(2, vec![GreenElement::from(node(5, vec![token(1, "l")]))]);
    let right = node(3, vec![token(1, "r")]);
    let root = SyntaxNode::new_root(node(
        0,
        vec![GreenElement::from(left.clone()), GreenElement::from(right.clone())],
    ));
    let mut editor = SyntaxEditor::new(&root);
    let top = editor.root_id();
    let children = editor.children(&top).unwrap();
    let right_id = children[1].as_node().cloned().unwrap();
    let added = editor.import_green(token(1, "new")).unwrap();
    editor.splice_children(&right_id, 0..1, vec![added.clone()]).unwrap();
    assert!(editor.detach(&children[0]).unwrap());
    editor.splice_children(&top, 1..1, vec![children[0].clone()]).unwrap();
    assert!(editor.splice_children(&top, 5..9, Vec::new()).is_err());
    let completed = editor.into_syntax(&top).unwrap();
    assert_eq!(completed.to_string(), "newl");
    let kept = completed.last_child().unwrap();
    assert!(kept.green().ptr_eq(&left));
    assert!(!completed.first_child().unwrap().green().ptr_eq(&right));
}

/// Build a small tree with some failing calls between.
fn build_small(cache: &mut NodeCache, failing: bool) -> GreenNode {
    let mut builder = GreenNodeBuilder::with_cache(cache);
    if failing {
        assert!(builder.finish_node() == Err(BuildError::NoOpenNode));
    }
    builder.start_node(SyntaxKind(0));
    let checkpoint = builder.checkpoint();
    builder.token(SyntaxKind(1), "x").unwrap();
    builder.start_node(SyntaxKind(2));
    if failing {
        assert!(builder.start_node_at(&checkpoint, SyntaxKind(9)) == Err(BuildError::StaleCheckpoint));
    }
    builder.token(SyntaxKind(1), "x").unwrap();
    builder.finish_node().unwrap();
    builder.start_node_at(&checkpoint, SyntaxKind(3)).unwrap();
    builder.finish_node().unwrap();
    builder.finish_node().unwrap();
    builder.finish().unwrap_or_else(|error| panic!("{}", error.message()))
}

#[test]
fn failed_calls_change_no_tree_and_equal_runs_share_the_root() {
    let mut cache = NodeCache::default();
    let first = build_small(&mut cache, false);
    let second = build_small(&mut cache, true);
    assert_eq!(first.to_string(), "xx");
    assert!(first.text_len() == TextSize::from(2));
    assert!(first.ptr_eq(&second));
    let apart = build_small(&mut NodeCache::default(), true);
    assert!(apart == first);
    assert!(!apart.ptr_eq(&first));
    let wrapper = first.children().nth(0).unwrap().to_owned().into_node().unwrap();
    let outer = wrapper.children().nth(0).unwrap().to_owned();
    let inner = wrapper.children().nth(1).unwrap().to_owned().into_node().unwrap();
    assert!(outer.ptr_eq(&inner.children().nth(0).unwrap().to_owned()));
}

#[test]
fn debug_texts_quote_and_cut_token_texts() {
    let green = node(0, vec![token(1, "a\n\"b\""), token(2, "abcdefghijklmnopqrstu🙂tail")]);
    let root = rowan::SyntaxNode::<Plain>::new_root(green);
    let first = root.first_token().unwrap();
    assert_eq!(first.debug_string(), "SyntaxKind(1)@0..5 \"a\\n\\\"b\\\"\"");
    assert_eq!(first.green().debug_string(), "GreenToken { kind: SyntaxKind(1), text: \"a\\n\\\"b\\\"\" }");
    let second = root.last_token().unwrap();
    assert_eq!(second.debug_string(), "SyntaxKind(2)@5..34 \"abcdefghijklmnopqrstu\" ...");
    assert_eq!(root.debug_string(), "SyntaxKind(0)@0..34");
    let raw: SyntaxNode = root.into();
    assert_eq!(raw.debug_string(), "SyntaxNode { kind: SyntaxKind(0), text_range: 0..34 }");
}

/// The hash that handing over the allocation of a node gives.
fn identity_hash(green: &GreenNode) -> u64 {
    let mut state = DefaultHasher::new();
    green.hash_identity(&mut Recorder::<'_, DefaultHasher, ()>::new(&mut state));
    state.finish()
}

/// The hash of a value.
fn hash_of(value: &impl Hash) -> u64 {
    let mut state = DefaultHasher::new();
    value.hash(&mut state);
    state.finish()
}

#[test]
fn handles_on_one_allocation_and_equal_cursors_hash_alike() {
    let green = node(0, vec![token(1, "a")]);
    assert_eq!(identity_hash(&green), identity_hash(&green.clone()));
    assert_ne!(identity_hash(&green), identity_hash(&node(0, vec![token(1, "a")])));
    let root = sample();
    for (left, right) in tokens(&root).into_iter().zip(tokens(&root)) {
        assert!(left == right);
        assert_eq!(hash_of(&left), hash_of(&right));
    }
    let inner = root.first_child().unwrap();
    assert_eq!(hash_of(&inner), hash_of(&root.first_child().unwrap()));
    assert_ne!(hash_of(&inner), hash_of(&root));
    let one = GreenToken::new(SyntaxKind(1), "same").unwrap();
    let two = GreenToken::new(SyntaxKind(1), "same").unwrap();
    assert_eq!(hash_of(&one), hash_of(&two));
    assert_ne!(hash_of(&one), hash_of(&GreenToken::new(SyntaxKind(1), "other").unwrap()));
}

#[test]
fn every_detached_element_can_be_inserted_again() {
    let root = sample();
    let mut editor = SyntaxEditor::new(&root);
    let top = editor.root_id();
    let mut pending = vec![EditorElementId::Node(top.clone())];
    let mut all = Vec::new();
    while let Some(element) = pending.pop() {
        if let NodeOrToken::Node(node) = &element {
            pending.extend(editor.children(node).unwrap());
        }
        all.push(element);
    }
    for element in &all {
        let Some(parent) = editor.parent(element).unwrap() else { continue };
        let index = editor.index(element).unwrap().unwrap();
        let ranges: Vec<TextRange> = all.iter().map(|other| editor.text_range(other).unwrap()).collect();
        let places: Vec<_> = all.iter().map(|other| (editor.parent(other).unwrap(), editor.index(other).unwrap())).collect();
        assert!(editor.detach(element).unwrap());
        let outcome = editor.splice_children(&parent, index..index, vec![element.clone()]).unwrap();
        assert!(outcome.detached().is_empty());
        for (position, other) in all.iter().enumerate() {
            assert!(editor.text_range(other).unwrap() == ranges[position]);
            assert!((editor.parent(other).unwrap(), editor.index(other).unwrap()) == places[position]);
        }
    }
    assert!(*editor.into_syntax(&top).unwrap().green() == *root.green());
}
