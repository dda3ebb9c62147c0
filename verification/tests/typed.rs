//! Typed language wrappers.

use rowan::Direction;
use rowan::GreenElement;
use rowan::GreenError;
use rowan::GreenNode;
use rowan::GreenToken;
use rowan::Language;
use rowan::SyntaxEditor;
use rowan::SyntaxElement;
use rowan::SyntaxKind;
use rowan::SyntaxNode;
use rowan::SyntaxToken;
use rowan::TextRange;
use rowan::TextSize;
use rowan::TokenAtOffset;
use rowan::TraversalError;
use rowan::WalkEvent;
use rowan::cursor;

/// What a failed expectation says.
type TestFailure = String;

fn ensure(condition: bool, message: &str) -> Result<(), TestFailure> {
    if condition {
        Ok(())
    } else {
        Err(message.to_owned())
    }
}

fn ensure_eq<Value: PartialEq + ?Sized>(left: &Value, right: &Value, message: &str) -> Result<(), TestFailure> {
    ensure(left == right, message)
}

fn ensure_ok<Value, Failure>(outcome: Result<Value, Failure>, message: &str) -> Result<Value, TestFailure> {
    match outcome {
        Ok(value) => Ok(value),
        Err(_) => Err(message.to_owned()),
    }
}

fn ensure_some<Value>(value: Option<Value>, message: &str) -> Result<Value, TestFailure> {
    match value {
        Some(value) => Ok(value),
        None => Err(message.to_owned()),
    }
}

fn ensure_one_word<Value>(message: &str) -> Result<(), TestFailure> {
    ensure(std::mem::size_of::<Value>() == std::mem::size_of::<usize>(), message)
}

#[derive(Debug, Clone, Copy, PartialEq, Eq, PartialOrd, Ord, Hash)]
enum TestLanguage {}

impl Language for TestLanguage {
    type Kind = SyntaxKind;

    fn kind_from_raw(raw: SyntaxKind) -> SyntaxKind {
        raw
    }

    fn kind_to_raw(kind: SyntaxKind) -> SyntaxKind {
        kind
    }
}

fn typed_token_root(
    root_kind: SyntaxKind,
    token_kind: SyntaxKind,
    text: &str,
) -> Result<SyntaxNode<TestLanguage>, TestFailure> {
    let token = ensure_ok(GreenToken::new(token_kind, text), "the shared typed token must allocate")?;
    let root = ensure_ok(
        GreenNode::new(root_kind, vec![GreenElement::from(token)]),
        "the shared typed root must allocate",
    )?;
    Ok(SyntaxNode::new_root(root))
}

fn drain<Item>(mut next: impl FnMut() -> Option<Item>) -> Vec<Item> {
    let mut items = Vec::new();
    while let Some(item) = next() {
        items.push(item);
    }
    items
}

/// Build the typed tree `root(token a, branch(token b), token c)`.
fn typed_tree() -> Result<SyntaxNode<TestLanguage>, TestFailure> {
    let a = ensure_ok(GreenToken::new(SyntaxKind(1), "a"), "typed token a must allocate")?;
    let b = ensure_ok(GreenToken::new(SyntaxKind(1), "b"), "typed token b must allocate")?;
    let c = ensure_ok(GreenToken::new(SyntaxKind(1), "c"), "typed token c must allocate")?;
    let branch = ensure_ok(
        GreenNode::new(SyntaxKind(2), vec![GreenElement::from(b)]),
        "the typed branch must allocate",
    )?;
    let root = ensure_ok(
        GreenNode::new(SyntaxKind(0), vec![
            GreenElement::from(a),
            GreenElement::from(branch),
            GreenElement::from(c),
        ]),
        "the typed root must allocate",
    )?;
    Ok(SyntaxNode::new_root(root))
}

/// Extract a token from a typed element.
fn typed_token(element: SyntaxElement<TestLanguage>) -> Result<SyntaxToken<TestLanguage>, TestFailure> {
    ensure_some(element.into_token(), "the typed element must be a token")
}

#[test]
fn typed_cursor_root_and_child_navigation_match_raw_semantics() -> Result<(), TestFailure> {
    let root = typed_tree()?;
    ensure(root.kind() == SyntaxKind(0), "typed kind conversion must preserve the root kind")?;
    ensure(
        root.text_range() == TextRange::new(TextSize::from(0), TextSize::from(3)),
        "typed ranges must match raw ranges",
    )?;
    ensure_eq(&root.index(), &0, "a typed root index must be zero")?;
    ensure_eq(
        &root.text().to_string(),
        &"abc".to_owned(),
        "typed text must retain lossless source",
    )?;
    ensure(
        root.green().kind() == SyntaxKind(0),
        "typed green access must borrow the root handle",
    )?;
    ensure(root.parent().is_none(), "a typed root must have no parent")?;
    ensure_eq(&root.ancestors().len(), &1, "typed root ancestors must include the root")?;

    let branch = ensure_some(root.first_child(), "typed node navigation must find the branch")?;
    ensure(branch.kind() == SyntaxKind(2), "typed node navigation must skip direct tokens")?;
    ensure_eq(
        &ensure_some(root.last_child(), "the typed last child must exist")?,
        &branch,
        "the sole child node must be both first and last",
    )?;
    ensure(
        root.first_child_by_kind(&|kind| kind == SyntaxKind(9)).is_none(),
        "typed matcher misses must return None",
    )?;
    ensure(
        root.first_child_by_kind(&|kind| kind == SyntaxKind(2)).is_some(),
        "typed matcher hits must return the node",
    )?;
    ensure_eq(&root.children().into_vec().len(), &1, "typed child iteration must expose direct nodes")?;
    ensure_eq(
        &root.children().by_kind(|kind| kind == SyntaxKind(2)).len(),
        &1,
        "typed child filtering must use typed kinds",
    )?;
    ensure_eq(
        &root.children_with_tokens().into_vec().len(),
        &3,
        "typed element iteration must preserve all children",
    )?;
    ensure_eq(
        &root.children_with_tokens().by_kind(|kind| kind == SyntaxKind(1)).len(),
        &2,
        "typed element filtering must preserve matching tokens",
    )
}

#[test]
fn typed_token_navigation_matches_raw_semantics() -> Result<(), TestFailure> {
    let root = typed_tree()?;
    let first = typed_token(ensure_some(root.first_child_or_token(), "the typed first element must exist")?)?;
    let last = typed_token(ensure_some(root.last_child_or_token(), "the typed final element must exist")?)?;
    ensure_eq(&first.text(), &"a", "the typed first token text must be exact")?;
    ensure_eq(&last.text(), &"c", "the typed final token text must be exact")?;
    ensure(first.kind() == SyntaxKind(1), "typed token kinds must convert from raw")?;
    ensure_eq(&first.index(), &0, "typed token indices must preserve source position")?;
    ensure_eq(&first.green().text(), &"a", "typed token green access must borrow the handle")?;
    ensure(first.parent().is_some(), "a direct typed token must have a parent")?;
    ensure_eq(
        &first.parent_ancestors().len(),
        &1,
        "typed token ancestors must begin at its parent",
    )?;
    ensure(
        ensure_some(first.next_sibling_or_token(), "the typed first token must have a sibling")?.kind() == SyntaxKind(2),
        "typed next-element navigation must cross variants",
    )?;
    ensure(
        ensure_some(last.prev_sibling_or_token(), "the typed final token must have a sibling")?.kind() == SyntaxKind(2),
        "typed previous-element navigation must cross variants",
    )?;
    ensure_eq(
        &first.siblings_with_tokens(Direction::Next).len(),
        &3,
        "typed sibling iteration must include its start",
    )?;
    ensure_eq(
        &ensure_some(first.next_token(), "the first typed token must advance")?.text(),
        &"b",
        "typed token navigation must enter nodes",
    )?;
    ensure_eq(
        &ensure_some(last.prev_token(), "the final typed token must retreat")?.text(),
        &"b",
        "typed token navigation must leave nodes",
    )?;
    ensure(
        root.first_token() == Some(first.clone()),
        "typed first_token must find the leftmost token",
    )?;
    ensure(
        root.last_token() == Some(last.clone()),
        "typed last_token must find the rightmost token",
    )?;
    ensure_eq(&root.descendants().len(), &2, "typed descendants must include root and branch")?;
    ensure_eq(
        &root.descendants_with_tokens().len(),
        &5,
        "typed element descendants must include nodes and tokens",
    )
}

#[test]
fn typed_queries_formatting_and_traversal_match_raw_semantics() -> Result<(), TestFailure> {
    let root = typed_tree()?;
    let touching = ensure_ok(root.token_at_offset(TextSize::from(1)), "typed boundary lookup must validate")?;
    ensure(
        matches!(touching, TokenAtOffset::Between(_, _)),
        "typed boundary lookup must preserve left-to-right polarity",
    )?;
    ensure(
        ensure_some(
            ensure_ok(
                root.child_or_token_at_range(TextRange::new(TextSize::from(1), TextSize::from(2))),
                "typed direct-child range lookup must validate",
            )?,
            "the branch range must select a child",
        )?
        .kind()
            == SyntaxKind(2),
        "typed direct-child queries must preserve raw selection",
    )?;
    ensure(
        ensure_ok(
            root.covering_element(TextRange::new(TextSize::from(1), TextSize::from(2))),
            "typed covering lookup must validate",
        )?
        .kind()
            == SyntaxKind(1),
        "typed covering queries must descend to the token",
    )?;
    ensure(root.clone_subtree().parent().is_none(), "typed subtree cloning must produce a root")?;
    ensure_eq(
        &root.debug_tree(),
        &[
            "SyntaxKind(0)@0..3\n",
            "  SyntaxKind(1)@0..1 \"a\"\n",
            "  SyntaxKind(2)@1..2\n",
            "    SyntaxKind(1)@1..2 \"b\"\n",
            "  SyntaxKind(1)@2..3 \"c\"\n",
        ]
        .concat(),
        "typed alternate debug must render the complete tree with checked indentation",
    )?;

    let mut preorder = root.preorder();
    let events = drain(|| preorder.next());
    ensure(
        matches!(events.first(), Some(WalkEvent::Enter(node)) if node.kind() == SyntaxKind(0)),
        "typed preorder must enter the root first",
    )?;
    let mut token_preorder = root.preorder_with_tokens();
    let token_events = drain(|| token_preorder.next()).len();
    ensure_eq(
        &token_events,
        &10,
        "typed element preorder must emit balanced events for five elements",
    )
}

/// Assert thread-transfer traits through a generic bound.
fn send_sync<Value: Send + Sync>() {}

#[test]
fn typed_handles_remain_one_word_send_and_sync() -> Result<(), TestFailure> {
    send_sync::<SyntaxNode<TestLanguage>>();
    send_sync::<SyntaxToken<TestLanguage>>();
    ensure_one_word::<SyntaxNode<TestLanguage>>("a typed node handle must remain one machine word")?;
    ensure_one_word::<SyntaxToken<TestLanguage>>("a typed token handle must remain one machine word")
}

#[test]
fn typed_node_wrappers_cover_matching_and_sibling_polarities() -> Result<(), TestFailure> {
    ensure(
        TestLanguage::kind_to_raw(SyntaxKind(7)) == SyntaxKind(7),
        "language conversion must preserve typed kinds in both directions",
    )?;
    let root = typed_tree()?;
    ensure_eq(&root.to_string(), &"abc".to_owned(), "typed node display must preserve source text")?;
    let branch = ensure_some(root.first_child(), "the typed branch must exist")?;
    ensure(
        branch.next_sibling().is_none(),
        "the sole direct child node must have no next node sibling",
    )?;
    ensure(
        branch.prev_sibling().is_none(),
        "the sole direct child node must have no previous node sibling",
    )?;
    ensure(
        branch.next_sibling_by_kind(&|kind| kind == SyntaxKind(9)).is_none(),
        "typed node matcher navigation must return None when no later node matches",
    )?;
    ensure_eq(
        &branch.siblings(Direction::Next).len(),
        &1,
        "typed node sibling iteration must include its starting node",
    )?;
    ensure_eq(
        &branch.siblings_with_tokens(Direction::Prev).len(),
        &2,
        "typed reverse element siblings must cross from the branch to the leading token",
    )?;
    ensure(
        ensure_some(branch.next_sibling_or_token(), "the branch must have a trailing token")?.kind() == SyntaxKind(1),
        "typed next-element navigation must cross from a node to a token",
    )?;
    ensure(
        ensure_some(branch.prev_sibling_or_token(), "the branch must have a leading token")?.kind() == SyntaxKind(1),
        "typed previous-element navigation must cross from a node to a token",
    )?;
    ensure(
        branch.next_sibling_or_token_by_kind(&|kind| kind == SyntaxKind(1)).is_some(),
        "typed element matcher navigation must find the trailing token",
    )?;
    ensure(
        root.first_child_or_token_by_kind(&|kind| kind == SyntaxKind(2)).is_some(),
        "typed direct-element matching must find a node across a leading token",
    )?;
    ensure(
        root.first_child_or_token_by_kind(&|kind| kind == SyntaxKind(9)).is_none(),
        "typed direct-element matching must return None on a miss",
    )
}

#[test]
fn typed_element_wrappers_preserve_navigation_and_conversion_identity() -> Result<(), TestFailure> {
    let root = typed_tree()?;
    let branch = ensure_some(root.first_child(), "the typed branch must exist")?;
    let first = typed_token(ensure_some(root.first_child_or_token(), "the first typed element must exist")?)?;
    let node_element = SyntaxElement::from(branch.clone());
    let token_element = SyntaxElement::from(first.clone());
    ensure(
        node_element.text_range() == branch.text_range(),
        "typed node elements must preserve ranges",
    )?;
    ensure(
        token_element.text_range() == first.text_range(),
        "typed token elements must preserve ranges",
    )?;
    ensure(node_element.index() == 1, "typed node elements must preserve indices")?;
    ensure(token_element.index() == 0, "typed token elements must preserve indices")?;
    ensure(
        node_element.parent() == Some(root.clone()),
        "typed node elements must preserve parents",
    )?;
    ensure(
        token_element.parent() == Some(root.clone()),
        "typed token elements must preserve parents",
    )?;
    ensure_eq(
        &node_element.ancestors().len(),
        &2,
        "typed node-element ancestors must include the node and root",
    )?;
    ensure_eq(
        &token_element.ancestors().len(),
        &1,
        "typed token-element ancestors must begin at the parent",
    )?;
    ensure(
        ensure_some(node_element.first_token(), "the node element must have a first token")?.text() == "b",
        "typed node-element first_token must descend",
    )?;
    ensure(
        ensure_some(node_element.last_token(), "the node element must have a last token")?.text() == "b",
        "typed node-element last_token must descend",
    )?;
    ensure(
        (token_element.first_token(), token_element.last_token()) == (Some(first.clone()), Some(first.clone())),
        "typed token elements must return themselves as boundary tokens",
    )?;
    ensure(
        token_element.prev_sibling_or_token().is_none(),
        "the first typed token element must have no previous sibling",
    )?;
    ensure(
        token_element.next_sibling_or_token() == Some(node_element.clone()),
        "typed token-element navigation must cross to the branch",
    )?;
    ensure(
        node_element.prev_sibling_or_token() == Some(token_element.clone()),
        "typed node-element navigation must cross to the leading token",
    )?;
    ensure(
        node_element.next_sibling_or_token().is_some(),
        "typed node-element navigation must cross to the trailing token",
    )?;

    let raw_root: cursor::SyntaxNode = root.clone().into();
    let reconstructed = SyntaxNode::<TestLanguage>::from(raw_root.clone());
    ensure(
        reconstructed == root,
        "typed-to-raw-to-typed node conversion must preserve identity",
    )?;
    let raw_element: cursor::SyntaxElement = node_element.clone().into();
    ensure(
        SyntaxElement::<TestLanguage>::from(raw_element) == node_element,
        "typed-to-raw-to-typed element conversion must preserve variant and identity",
    )?;
    let raw_token: cursor::SyntaxToken = first.clone().into();
    ensure(
        SyntaxToken::<TestLanguage>::from(raw_token) == first,
        "typed-to-raw-to-typed token conversion must preserve identity",
    )
}

#[test]
fn typed_replacements_preserve_success_and_kind_failure() -> Result<(), TestFailure> {
    let root = typed_tree()?;
    let branch = ensure_some(root.first_child(), "the typed branch must exist")?;
    let first = typed_token(ensure_some(root.first_child_or_token(), "the first typed element must exist")?)?;
    let replacement = ensure_ok(
        GreenNode::new(SyntaxKind(2), vec![GreenElement::from(ensure_ok(
            GreenToken::new(SyntaxKind(1), "B"),
            "the typed node replacement token must allocate",
        )?)]),
        "the typed node replacement must allocate",
    )?;
    let rebuilt = ensure_ok(branch.replace_with(replacement), "typed node replacement must delegate")?;
    ensure_eq(
        &rebuilt.to_string(),
        &"aBc".to_owned(),
        "typed node replacement must rebuild its context",
    )?;
    ensure(
        branch.replace_with(ensure_ok(
            GreenNode::new(SyntaxKind(9), Vec::new()),
            "the mismatched typed node must allocate",
        )?)
            == Err(GreenError::KindMismatch {
                expected: SyntaxKind(2),
                actual:   SyntaxKind(9),
            }),
        "typed node replacement must preserve kind-mismatch errors",
    )?;
    let token_rebuilt = ensure_ok(
        first.replace_with(ensure_ok(
            GreenToken::new(SyntaxKind(1), "A"),
            "the typed token replacement must allocate",
        )?),
        "typed token replacement must delegate",
    )?;
    ensure_eq(
        &token_rebuilt.to_string(),
        &"Abc".to_owned(),
        "typed token replacement must rebuild its context",
    )
}

#[test]
fn typed_preorder_delegates_valid_and_invalid_skip_transitions() -> Result<(), TestFailure> {
    let root = typed_tree()?;
    let mut node_preorder = root.preorder();
    let _root_enter = ensure_some(node_preorder.next(), "typed node preorder must enter the root")?;
    ensure_ok(node_preorder.skip_subtree(), "typed node preorder must delegate a valid skip")?;
    let _root_leave = ensure_some(node_preorder.next(), "a typed root skip must retain the leave event")?;
    ensure(node_preorder.next().is_none(), "a typed root skip must omit descendants")?;

    let mut element_preorder = root.preorder_with_tokens();
    let _element_root_enter = ensure_some(element_preorder.next(), "typed element preorder must enter the root")?;
    let _token_enter = ensure_some(element_preorder.next(), "typed element preorder must enter the first token")?;
    ensure(
        element_preorder.skip_subtree() == Err(TraversalError::NoNodeSubtree),
        "typed element preorder must reject a skip after entering a token",
    )?;
    ensure(
        element_preorder.next().is_some(),
        "a rejected typed skip must leave traversal state able to advance",
    )
}

#[test]
fn typed_token_debug_truncates_only_at_unicode_boundaries() -> Result<(), TestFailure> {
    let long_token = ensure_some(
        typed_token_root(SyntaxKind(0), SyntaxKind(1), "abcdefghijklmnopqrstu🙂tail")?.first_token(),
        "the long typed debug token must be reachable",
    )?;
    ensure(
        long_token.debug_string().ends_with(" ..."),
        "typed token debug truncation must stop at a valid UTF-8 boundary",
    )?;
    ensure_eq(
        &long_token.to_string(),
        &"abcdefghijklmnopqrstu🙂tail".to_owned(),
        "typed token display must remain untruncated",
    )
}

#[test]
fn typed_editor_delegates_identity_and_metadata_queries() -> Result<(), TestFailure> {
    let source = typed_tree()?;
    let branch_source = ensure_some(source.first_child(), "the typed source branch must exist")?;
    let b_source = ensure_some(branch_source.first_token(), "the typed source b token must exist")?;
    let editor = SyntaxEditor::new(&source);
    ensure(
        editor.debug_string().contains("SyntaxEditor"),
        "typed editor diagnostics must identify the transactional editor state",
    )?;
    let root = editor.root_id();
    let branch = ensure_ok(editor.node_id(&branch_source), "typed node source lookup must resolve")?;
    let b = ensure_ok(editor.token_id(&b_source), "typed token source lookup must resolve")?;
    let branch_element = rowan::EditorElementId::Node(branch.clone());
    let b_element = rowan::EditorElementId::Token(b.clone());
    ensure(
        ensure_ok(editor.kind(&branch_element), "typed editor kind must resolve")? == SyntaxKind(2),
        "typed editor kind must convert",
    )?;
    ensure(
        ensure_ok(editor.parent(&branch_element), "typed editor parent must resolve")? == Some(root.clone()),
        "typed editor parent must preserve IDs",
    )?;
    ensure(
        ensure_ok(editor.index(&branch_element), "typed editor index must resolve")? == Some(1),
        "typed editor index must be exact",
    )?;
    ensure(
        ensure_ok(editor.children(&branch), "typed editor children must resolve")? == vec![b_element.clone()],
        "typed editor children must preserve order",
    )?;
    ensure(
        ensure_ok(editor.text_len(&branch_element), "typed editor length must resolve")? == TextSize::from(1),
        "typed editor length must be exact",
    )?;
    ensure(
        ensure_ok(editor.text_range(&branch_element), "typed editor range must resolve")?
            == TextRange::new(TextSize::from(1), TextSize::from(2)),
        "typed editor range must be exact",
    )?;
    ensure_eq(
        &ensure_ok(editor.token_text(&b), "typed editor token text must resolve")?,
        &"b",
        "typed editor text must be exact",
    )
}

#[test]
fn typed_editor_delegates_import_splice_and_completion() -> Result<(), TestFailure> {
    let source = typed_tree()?;
    let branch_source = ensure_some(source.first_child(), "the typed source branch must exist")?;
    let b_source = ensure_some(branch_source.first_token(), "the typed source b token must exist")?;
    let mut editor = SyntaxEditor::new(&source);
    let root = editor.root_id();
    let branch = ensure_ok(editor.node_id(&branch_source), "typed node source lookup must resolve")?;
    let b = ensure_ok(editor.token_id(&b_source), "typed token source lookup must resolve")?;
    let b_element = rowan::EditorElementId::Token(b);
    let imported_green = ensure_ok(
        editor.import_green(GreenElement::from(ensure_ok(
            GreenToken::new(SyntaxKind(1), "x"),
            "the typed imported green token must allocate",
        )?)),
        "typed green import must succeed",
    )?;
    let external = typed_tree()?;
    let external_token = ensure_some(external.first_token(), "the typed external token must exist")?;
    let imported_syntax = ensure_ok(
        editor.import(SyntaxElement::from(external_token)),
        "typed syntax import must succeed",
    )?;
    let outcome = ensure_ok(
        editor.splice_children(&branch, 0..1, vec![imported_green, imported_syntax]),
        "typed splice must delegate transactionally",
    )?;
    ensure(
        outcome.detached() == std::slice::from_ref(&b_element),
        "typed splice outcomes must expose detached IDs",
    )?;
    ensure(
        outcome.into_detached() == [b_element.clone()],
        "consuming a typed splice outcome must preserve the detached ID order",
    )?;
    let completed = ensure_ok(editor.into_syntax(&root), "typed completion must succeed")?;
    ensure_eq(
        &completed.to_string(),
        &"axac".to_owned(),
        "typed completion must preserve delegated edit order",
    )
}

#[test]
fn typed_editor_delegates_detachment() -> Result<(), TestFailure> {
    let source = typed_tree()?;
    let branch_source = ensure_some(source.first_child(), "the typed source branch must exist")?;
    let mut detach_editor = SyntaxEditor::new(&source);
    let branch = ensure_ok(detach_editor.node_id(&branch_source), "typed detach source lookup must resolve")?;
    ensure(
        ensure_ok(
            detach_editor.detach(&rowan::EditorElementId::Node(branch)),
            "typed detach must delegate",
        )?,
        "typed detach must report removal",
    )
}
