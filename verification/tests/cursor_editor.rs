//! Transactional editing.

use std::collections::HashSet;

use rowan::EditError;
use rowan::EditorElementId;
use rowan::EditorNodeId;
use rowan::GreenElement;
use rowan::GreenError;
use rowan::GreenNode;
use rowan::GreenToken;
use rowan::NodeOrToken;
use rowan::SyntaxKind;
use rowan::TextRange;
use rowan::TextSize;
use rowan::cursor::SyntaxEditor;
use rowan::cursor::SyntaxNode;
use rowan::cursor_editor::PlannedContent;
use rowan::cursor_editor::PlannedNode;
use rowan::cursor_editor::PlannedRecord;
use rowan::cursor_editor::recompute_lengths;

/// What a failed expectation says.
type TestFailure = String;

fn ensure(condition: bool, message: &str) -> Result<(), TestFailure> {
    if condition {
        Ok(())
    } else {
        Err(message.to_owned())
    }
}

fn ensure_eq<Value: PartialEq + ?Sized>(left: &Value, right: &Value, message: &str) -> Result<(), TestFailure> {
    ensure(left == right, message)
}

fn ensure_ok<Value, Failure>(outcome: Result<Value, Failure>, message: &str) -> Result<Value, TestFailure> {
    match outcome {
        Ok(value) => Ok(value),
        Err(_) => Err(message.to_owned()),
    }
}

fn ensure_some<Value>(value: Option<Value>, message: &str) -> Result<Value, TestFailure> {
    match value {
        Some(value) => Ok(value),
        None => Err(message.to_owned()),
    }
}

/// Build a green token fixture with the shared editor token kind.
fn token(text: &str) -> Result<GreenToken, TestFailure> {
    ensure_ok(GreenToken::new(SyntaxKind(1), text), "the editor token fixture must allocate")
}

/// Build a green node fixture.
fn node(kind: u16, children: impl IntoIterator<Item = GreenElement>) -> Result<GreenNode, TestFailure> {
    ensure_ok(GreenNode::new(SyntaxKind(kind), children.into_iter().collect()), "the editor node fixture must allocate")
}

/// Build a flat token root from borrowed or owned text values.
fn flat_root<Text>(texts: &[Text]) -> Result<SyntaxNode, TestFailure>
where
    Text: AsRef<str>,
{
    let mut children = Vec::with_capacity(texts.len());
    for text in texts {
        children.push(GreenElement::from(token(text.as_ref())?));
    }
    Ok(SyntaxNode::new_root(node(0, children)?))
}

/// Build a root containing `left(a, b)` and `right(c)`.
fn nested_root() -> Result<SyntaxNode, TestFailure> {
    let left = node(2, [GreenElement::from(token("a")?), GreenElement::from(token("b")?)])?;
    let right = node(3, [GreenElement::from(token("c")?)])?;
    Ok(SyntaxNode::new_root(node(0, [
        GreenElement::from(left),
        GreenElement::from(right),
    ])?))
}

/// Extract a token ID from an editor element ID.
fn token_id(element: &EditorElementId) -> Result<rowan::EditorTokenId, TestFailure> {
    ensure_some(element.as_token().cloned(), "the editor element must be a token ID")
}

/// Extract a node ID from an editor element ID.
fn node_id(element: &EditorElementId) -> Result<EditorNodeId, TestFailure> {
    ensure_some(element.as_node().cloned(), "the editor element must be a node ID")
}

/// Build one synthetic node plan for checked-arithmetic and cycle tests.
fn planned_node(parent: Option<EditorNodeId>, children: Vec<EditorElementId>) -> PlannedRecord {
    PlannedRecord {
        parent,
        index: None,
        offset: TextSize::default(),
        text_len: TextSize::default(),
        content: PlannedContent::Node(PlannedNode {
            children,
            dirty: false,
        }),
    }
}

/// Build one synthetic token plan with a chosen validated length.
fn planned_token(text_len: TextSize) -> PlannedRecord {
    PlannedRecord {
        parent: None,
        index: None,
        offset: TextSize::default(),
        text_len,
        content: PlannedContent::Token,
    }
}

/// Observe every public metadata field for a stable set of IDs.
fn observe(editor: &SyntaxEditor, elements: &[EditorElementId]) -> Result<Vec<String>, TestFailure> {
    let mut observations = Vec::with_capacity(elements.len());
    for element in elements {
        let kind = ensure_ok(editor.kind(element), "the observed ID kind must resolve")?;
        let parent = ensure_ok(editor.parent(element), "the observed ID parent must resolve")?;
        let index = ensure_ok(editor.index(element), "the observed ID index must resolve")?;
        let text_len = ensure_ok(editor.text_len(element), "the observed ID length must resolve")?;
        let range = ensure_ok(editor.text_range(element), "the observed ID range must resolve")?;
        let child_count = match element {
            NodeOrToken::Node(node) => ensure_ok(editor.children(node), "observed node children must resolve")?.len(),
            NodeOrToken::Token(_) => 0,
        };
        let token_text = match element {
            NodeOrToken::Node(_) => String::new(),
            NodeOrToken::Token(token) => ensure_ok(editor.token_text(token), "observed token text must resolve")?.to_owned(),
        };
        observations.push(format!(
            "{kind:?}|{}|{index:?}|{text_len:?}|{range:?}|{child_count}|{token_text}",
            parent.map_or(String::new(), |parent| parent.debug_string()),
        ));
    }
    Ok(observations)
}

/// Editor fixture whose complete public view is observed around rejected transactions.
struct RejectionFixture {
    /// Editor under test.
    editor:       SyntaxEditor,
    /// Original source node retained for locator validation.
    left_source:  SyntaxNode,
    /// Root target ID.
    root:         EditorNodeId,
    /// Left child target ID.
    left:         EditorNodeId,
    /// Root ID expressed as an insertion element.
    root_element: EditorElementId,
    /// One valid child used for duplicate attempts.
    duplicate:    EditorElementId,
    /// Stable ID set covering every affected public field.
    observed_ids: Vec<EditorElementId>,
}

impl RejectionFixture {
    /// Build the nested source and its complete observation set.
    fn new() -> Result<Self, TestFailure> {
        let source = nested_root()?;
        let left_source = ensure_some(source.children().next(), "the left source node must exist")?;
        let editor = SyntaxEditor::new(&source);
        let root = editor.root_id();
        let root_element = EditorElementId::Node(root.clone());
        let root_children = ensure_ok(editor.children(&root), "the root children must resolve")?;
        let left = node_id(ensure_some(root_children.first(), "the left ID must exist")?)?;
        let left_children = ensure_ok(editor.children(&left), "the left children must resolve")?;
        let duplicate = ensure_some(left_children.first().cloned(), "the duplicate insertion ID must exist")?;
        let mut observed_ids = vec![root_element.clone()];
        observed_ids.extend(root_children);
        observed_ids.extend(left_children);
        Ok(Self {
            editor,
            left_source,
            root,
            left,
            root_element,
            duplicate,
            observed_ids,
        })
    }

    /// Run one rejected operation and compare every public field before and after it.
    fn rejects_without_change(
        &mut self,
        expected: EditError,
        operation: impl FnOnce(&mut SyntaxEditor) -> Result<(), EditError>,
        message: &'static str,
    ) -> Result<(), TestFailure> {
        let before = observe(&self.editor, &self.observed_ids)?;
        let actual = operation(&mut self.editor);
        ensure(actual == Err(expected), message)?;
        ensure(
            observe(&self.editor, &self.observed_ids)? == before,
            "a rejected transaction must preserve every public editor field",
        )
    }
}

#[test]
fn source_lookup_uses_complete_paths_and_imports_are_independent() -> Result<(), TestFailure> {
    let empty = node(4, std::iter::empty())?;
    let source = SyntaxNode::new_root(node(0, [GreenElement::from(empty.clone()), GreenElement::from(empty)])?);
    let source_children = source.children().into_vec();
    let first_source = ensure_some(source_children.first(), "the first repeated source node must exist")?;
    let second_source = ensure_some(source_children.get(1), "the second repeated source node must exist")?;
    ensure_eq(
        first_source,
        second_source,
        "public cursor identity intentionally coincides for repeated zero-width allocations",
    )?;

    let mut editor = SyntaxEditor::new(&source);
    let first_id = ensure_ok(editor.node_id(first_source), "the first complete source path must resolve")?;
    let second_id = ensure_ok(editor.node_id(second_source), "the second complete source path must resolve")?;
    ensure(
        first_id != second_id,
        "complete child-index paths must distinguish repeated zero-width nodes",
    )?;
    let root_id = editor.root_id();
    ensure(
        ensure_ok(editor.children(&root_id), "the source root children must resolve")?
            == vec![
                EditorElementId::Node(first_id.clone()),
                EditorElementId::Node(second_id.clone()),
            ],
        "source IDs must follow source child order",
    )?;

    let imported_first = ensure_ok(
        editor.import(GreenCursorElement::from(first_source.clone())),
        "the first syntax import must succeed",
    )?;
    let imported_second = ensure_ok(
        editor.import_green(GreenElement::from(first_source.green().clone())),
        "the green import must succeed",
    )?;
    ensure(
        imported_first != imported_second,
        "repeated imports must create independent stable components",
    )?;
    for imported in [&imported_first, &imported_second] {
        ensure(
            ensure_ok(editor.parent(imported), "an imported parent query must resolve")?.is_none(),
            "every imported component must begin detached",
        )?;
        ensure(
            ensure_ok(editor.text_range(imported), "an imported range query must resolve")? == TextRange::empty(TextSize::from(0)),
            "every imported component root must be rebased to zero",
        )?;
    }

    let outside = flat_root(&["outside"])?;
    ensure(
        editor.node_id(&outside) == Err(EditError::UnknownSourceElement),
        "node lookup must reject a source outside the selected subtree",
    )
}

/// Local alias used to make raw syntax-element conversion explicit.
type GreenCursorElement = rowan::cursor::SyntaxElement;

#[test]
fn detach_updates_complete_metadata_and_preserves_the_source() -> Result<(), TestFailure> {
    let source = flat_root(&["a", "b", "c"])?;
    let source_tokens = source
        .children_with_tokens()
        .into_vec()
        .into_iter()
        .filter_map(NodeOrToken::into_token)
        .collect::<Vec<_>>();
    let mut editor = SyntaxEditor::new(&source);
    let root = editor.root_id();
    let children = ensure_ok(editor.children(&root), "the flat root children must resolve")?;
    let middle = ensure_some(children.get(1).cloned(), "the middle token ID must exist")?;

    ensure(
        ensure_ok(editor.detach(&middle), "the attached token must detach")?,
        "the first detach must report true",
    )?;
    ensure(
        ensure_ok(editor.parent(&middle), "the detached parent query must resolve")?.is_none(),
        "the detached token must become a component root",
    )?;
    ensure(
        ensure_ok(editor.index(&middle), "the detached index query must resolve")?.is_none(),
        "the detached token must have no parent index",
    )?;
    ensure(
        ensure_ok(editor.text_range(&middle), "the detached range must resolve")? == TextRange::new(TextSize::from(0), TextSize::from(1)),
        "the detached token range must rebase to zero",
    )?;
    ensure(
        ensure_ok(
            editor.text_len(&EditorElementId::Node(root.clone())),
            "the edited root length must resolve",
        )? == TextSize::from(2),
        "the old parent length must shrink",
    )?;
    ensure(
        ensure_ok(editor.children(&root), "the edited child order must resolve")?
            == vec![
                ensure_some(children.first().cloned(), "the first child must exist")?,
                ensure_some(children.get(2).cloned(), "the final child must exist")?,
            ],
        "the old parent must reindex its unaffected children",
    )?;
    ensure(
        !ensure_ok(editor.detach(&middle), "detaching a component root must succeed as a no-op")?,
        "a second detach must report false",
    )?;
    ensure(
        !ensure_ok(
            editor.detach(&EditorElementId::Node(root)),
            "detaching the source component root must succeed as a no-op",
        )?,
        "the source root is already detached",
    )?;
    ensure_eq(
        &source.to_string(),
        &"abc".to_owned(),
        "editing must never modify the immutable source",
    )?;
    ensure(
        source_tokens.get(1).map(|token| token.text()) == Some("b"),
        "pre-existing source cursors must remain readable",
    )
}

#[test]
fn splice_defines_reorder_reinsertion_and_detachment_without_index_ambiguity() -> Result<(), TestFailure> {
    let source = flat_root(&["a", "b", "c"])?;
    let mut editor = SyntaxEditor::new(&source);
    let root = editor.root_id();
    let original = ensure_ok(editor.children(&root), "the original child sequence must resolve")?;
    let c = ensure_some(original.get(2).cloned(), "the c ID must exist")?;
    let outcome = ensure_ok(editor.splice_children(&root, 0..1, vec![c]), "same-parent reordering must succeed")?;
    ensure(
        outcome.detached() == &original[..1],
        "the removed non-reinserted prefix must be reported detached",
    )?;
    let reordered = ensure_ok(editor.children(&root), "the reordered sequence must resolve")?;
    let reordered_text = reordered
        .iter()
        .map(token_id)
        .collect::<Result<Vec<_>, _>>()?
        .iter()
        .map(|token| ensure_ok(editor.token_text(token), "reordered token text must resolve"))
        .collect::<Result<Vec<_>, _>>()?
        .join("");
    ensure_eq(
        &reordered_text,
        &"cb".to_owned(),
        "same-parent movement must use the locked original-sequence rule",
    )?;

    let source = flat_root(&["a", "b", "c"])?;
    let mut editor = SyntaxEditor::new(&source);
    let root = editor.root_id();
    let original = ensure_ok(editor.children(&root), "the reinsertion source must resolve")?;
    let b = ensure_some(original.get(1).cloned(), "the b ID must exist")?;
    let outcome = ensure_ok(
        editor.splice_children(&root, 1..2, vec![b]),
        "reinsertion from the deletion range must succeed",
    )?;
    ensure(
        outcome.detached().is_empty(),
        "a reinserted range element must not be reported detached",
    )?;
    ensure(
        ensure_ok(editor.children(&root), "the reinserted sequence must resolve")? == original,
        "reinserting the sole deleted element in place must preserve exact order",
    )
}

#[test]
fn splice_moves_across_parents_and_accepts_both_import_surfaces() -> Result<(), TestFailure> {
    let source = nested_root()?;
    let mut source_nodes = source.children();
    let left_source = ensure_some(source_nodes.next(), "the source left node must exist")?;
    let right_source = ensure_some(source_nodes.next(), "the source right node must exist")?;
    let mut left_tokens = left_source.children_with_tokens().into_vec().into_iter().filter_map(NodeOrToken::into_token);
    let _a_source = ensure_some(left_tokens.next(), "the source a token must exist")?;
    let b_source = ensure_some(left_tokens.next(), "the source b token must exist")?;

    let mut editor = SyntaxEditor::new(&source);
    let root = editor.root_id();
    let left = ensure_ok(editor.node_id(&left_source), "the left source path must resolve")?;
    let right = ensure_ok(editor.node_id(&right_source), "the right source path must resolve")?;
    let b = ensure_ok(editor.token_id(&b_source), "the b source path must resolve")?;
    let outcome = ensure_ok(
        editor.splice_children(&right, 1..1, vec![EditorElementId::Token(b.clone())]),
        "a cross-parent move must succeed",
    )?;
    ensure(
        outcome.detached().is_empty(),
        "a moved insertion remains attached and must not be reported detached",
    )?;
    ensure(
        ensure_ok(editor.parent(&EditorElementId::Token(b.clone())), "the moved parent must resolve")? == Some(right.clone()),
        "the moved token must adopt its target parent",
    )?;
    ensure_eq(
        &ensure_ok(editor.children(&left), "the source parent children must resolve")?.len(),
        &1,
        "the source parent must shrink",
    )?;

    let imported_token = ensure_ok(
        editor.import_green(GreenElement::from(token("x")?)),
        "a green token import must succeed",
    )?;
    let external = flat_root(&["y"])?;
    let external_token = ensure_some(external.first_token(), "the external syntax token must exist")?;
    let imported_syntax = ensure_ok(
        editor.import(GreenCursorElement::from(external_token)),
        "a syntax token import must succeed",
    )?;
    let _outcome = ensure_ok(
        editor.splice_children(&left, 1..1, vec![imported_token, imported_syntax]),
        "green and syntax imports must be insertable together",
    )?;
    let completed = ensure_ok(editor.into_syntax(&root), "the detached source root must complete")?;
    ensure_eq(
        &completed.to_string(),
        &"axycb".to_owned(),
        "cross-parent and imported insertions must preserve target source order",
    )?;
    ensure_eq(
        &source.to_string(),
        &"abc".to_owned(),
        "completion must leave the original tree unchanged",
    )
}

#[test]
fn rejected_splices_preserve_the_complete_public_editor_view() -> Result<(), TestFailure> {
    let mut fixture = RejectionFixture::new()?;
    let root = fixture.root.clone();
    fixture.rejects_without_change(
        EditError::InvalidChildRange {
            start:       2,
            end:         1,
            child_count: 2,
        },
        |editor| {
            editor
                .splice_children(
                    &root,
                    std::ops::Range {
                        start: 2, end: 1
                    },
                    Vec::new(),
                )
                .map(|_| ())
        },
        "a reversed range must be rejected",
    )?;
    let root = fixture.root.clone();
    fixture.rejects_without_change(
        EditError::InvalidChildRange {
            start:       0,
            end:         3,
            child_count: 2,
        },
        |editor| editor.splice_children(&root, 0..3, Vec::new()).map(|_| ()),
        "an end beyond the child sequence must be rejected",
    )?;
    let left = fixture.left.clone();
    let duplicate = fixture.duplicate.clone();
    fixture.rejects_without_change(
        EditError::DuplicateInsertion {
            first_position:     0,
            duplicate_position: 1,
        },
        |editor| editor.splice_children(&left, 0..0, vec![duplicate.clone(), duplicate]).map(|_| ()),
        "duplicate insertion IDs must report both positions",
    )?;
    let left = fixture.left.clone();
    let root_element = fixture.root_element.clone();
    fixture.rejects_without_change(
        EditError::Cycle,
        |editor| editor.splice_children(&left, 0..0, vec![root_element]).map(|_| ()),
        "inserting an ancestor below its descendant must be rejected",
    )?;
    let foreign_source = flat_root(&["foreign"])?;
    let foreign_editor = SyntaxEditor::new(&foreign_source);
    let foreign_id = ensure_some(
        ensure_ok(foreign_editor.children(&foreign_editor.root_id()), "foreign children must resolve")?
            .first()
            .cloned(),
        "the foreign token ID must exist",
    )?;
    let left = fixture.left.clone();
    fixture.rejects_without_change(
        EditError::ForeignId,
        |editor| editor.splice_children(&left, 0..0, vec![foreign_id]).map(|_| ()),
        "an insertion owned by another editor must be rejected",
    )?;
    ensure_ok(
        fixture.editor.node_id(&fixture.left_source),
        "the editor must remain queryable after all rejections",
    )?;
    Ok(())
}

#[test]
fn completion_requires_a_component_root_and_reuses_unchanged_green_allocations() -> Result<(), TestFailure> {
    let source = nested_root()?;
    let mut source_children = source.children();
    let left_source = ensure_some(source_children.next(), "the source left node must exist")?;
    let right_source = ensure_some(source_children.next(), "the source right node must exist")?;
    let attached_editor = SyntaxEditor::new(&source);
    let attached_left = ensure_ok(attached_editor.node_id(&left_source), "the attached left path must resolve")?;
    ensure(
        attached_editor.into_syntax(&attached_left) == Err(EditError::RootStillAttached),
        "completion must reject an attached node",
    )?;

    let mut editor = SyntaxEditor::new(&source);
    let root = editor.root_id();
    let left = ensure_ok(editor.node_id(&left_source), "the editable left path must resolve")?;
    let replacement = ensure_ok(
        editor.import_green(GreenElement::from(token("z")?)),
        "the replacement token import must succeed",
    )?;
    let _outcome = ensure_ok(
        editor.splice_children(&left, 0..1, vec![replacement]),
        "the left prefix replacement must succeed",
    )?;
    let completed = ensure_ok(editor.into_syntax(&root), "the detached root must complete")?;
    ensure_eq(
        &completed.to_string(),
        &"zbc".to_owned(),
        "completion must materialize the committed editor state",
    )?;
    ensure(
        !completed.green().ptr_eq(source.green()),
        "a dirty root must receive a new green allocation",
    )?;
    let completed_right = ensure_some(completed.children().into_vec().into_iter().nth(1), "the completed right node must exist")?;
    ensure(
        completed_right.green().ptr_eq(right_source.green()),
        "an unrelated unchanged branch must retain exact green allocation identity",
    )?;
    ensure_eq(
        &source.to_string(),
        &"abc".to_owned(),
        "completion must preserve the immutable source",
    )?;

    let mut detached_editor = SyntaxEditor::new(&source);
    let detached_left = ensure_ok(detached_editor.node_id(&left_source), "the detachable left path must resolve")?;
    ensure(
        ensure_ok(
            detached_editor.detach(&EditorElementId::Node(detached_left.clone())),
            "the attached left node must detach",
        )?,
        "detaching the left node must report true",
    )?;
    let detached = ensure_ok(
        detached_editor.into_syntax(&detached_left),
        "a detached source node must complete independently",
    )?;
    ensure(
        detached.text_range() == TextRange::new(TextSize::from(0), TextSize::from(2)),
        "completion must rebase a detached component",
    )?;
    ensure(
        detached.green().ptr_eq(left_source.green()),
        "an unchanged detached component must reuse its original green allocation",
    )
}

#[test]
fn checked_length_planning_rejects_overflow_before_commit() -> Result<(), TestFailure> {
    let flat = flat_root(&["a", "b"])?;
    let flat_editor = SyntaxEditor::new(&flat);
    let flat_ids = ensure_ok(flat_editor.children(&flat_editor.root_id()), "the flat child sequence must resolve")?;
    let first = token_id(&flat_ids[0])?;
    let second = token_id(&flat_ids[1])?;
    let mut planned = vec![
        planned_node(None, vec![EditorElementId::Token(first), EditorElementId::Token(second)]),
        planned_token(TextSize::from(u32::MAX)),
        planned_token(TextSize::from(1)),
    ];
    ensure(
        recompute_lengths(&mut planned)
            == Err(EditError::Green(GreenError::TextLengthOverflow {
                accumulated: TextSize::from(u32::MAX),
                next:        TextSize::from(1),
            })),
        "the production bottom-up plan must reject aggregate text overflow",
    )?;

    let pair = SyntaxNode::new_root(node(0, [GreenElement::from(node(2, std::iter::empty())?)])?);
    let pair_editor = SyntaxEditor::new(&pair);
    let first_node = pair_editor.root_id();
    let pair_ids = ensure_ok(pair_editor.children(&first_node), "the pair child sequence must resolve")?;
    let second_node = node_id(&pair_ids[0])?;
    let mut cyclic = vec![
        planned_node(Some(second_node.clone()), vec![EditorElementId::Node(second_node)]),
        planned_node(Some(first_node.clone()), vec![EditorElementId::Node(first_node)]),
    ];
    ensure(
        recompute_lengths(&mut cyclic) == Err(EditError::Cycle),
        "the production bottom-up plan must reject a disconnected staged cycle",
    )
}

#[test]
fn foreign_ownership_rejects_every_lookup_without_changing_local_state() -> Result<(), TestFailure> {
    let source = flat_root(&["local"])?;
    let foreign_source = flat_root(&["foreign"])?;
    let mut editor = SyntaxEditor::new(&source);
    let local_root = editor.root_id();
    let before = ensure_ok(editor.children(&local_root), "the local child sequence must resolve")?;

    let foreign_editor = SyntaxEditor::new(&foreign_source);
    let foreign_root = foreign_editor.root_id();
    let foreign_child = ensure_some(
        ensure_ok(foreign_editor.children(&foreign_root), "the foreign child sequence must resolve")?
            .first()
            .cloned(),
        "the foreign token ID must exist",
    )?;
    let foreign_token = token_id(&foreign_child)?;
    let foreign_root_element = EditorElementId::Node(foreign_root.clone());

    let mut hashed_ids = HashSet::new();
    let first_hash_insert = hashed_ids.insert(foreign_root.clone());
    let duplicate_hash_insert = hashed_ids.insert(foreign_root.clone());
    let outside_token = ensure_some(foreign_source.first_token(), "the foreign source token must exist")?;
    let errors = vec![
        editor.node_id(&foreign_source).err(),
        editor.token_id(&outside_token).err(),
        editor.kind(&foreign_root_element).err(),
        editor.parent(&foreign_child).err(),
        editor.index(&foreign_child).err(),
        editor.children(&foreign_root).err(),
        editor.text_len(&foreign_child).err(),
        editor.text_range(&foreign_child).err(),
        editor.token_text(&foreign_token).err(),
        editor.detach(&foreign_child).err(),
    ];
    let after = ensure_ok(
        editor.children(&local_root),
        "the local child sequence must survive rejected foreign operations",
    )?;
    let completion_error = editor.into_syntax(&foreign_root).err();

    ensure(
        (
            first_hash_insert,
            duplicate_hash_insert,
            errors,
            before.clone(),
            after,
            completion_error,
        ) == (
            true,
            false,
            vec![
                Some(EditError::UnknownSourceElement),
                Some(EditError::UnknownSourceElement),
                Some(EditError::ForeignId),
                Some(EditError::ForeignId),
                Some(EditError::ForeignId),
                Some(EditError::ForeignId),
                Some(EditError::ForeignId),
                Some(EditError::ForeignId),
                Some(EditError::ForeignId),
                Some(EditError::ForeignId),
            ],
            before.clone(),
            before,
            Some(EditError::ForeignId),
        ),
        "foreign IDs must preserve hash identity, reject every public lookup, and leave local state unchanged",
    )
}

/// Convert a generated selector into an index below a known non-zero bound.
fn bounded_index(selector: usize, exclusive_bound: usize) -> Result<usize, TestFailure> {
    ensure_some(
        selector.checked_rem(exclusive_bound),
        "the generated model bound must remain non-zero",
    )
}

/// Insert one value at a validated reference-model boundary.
fn reference_insert<Value: Clone>(values: &[Value], boundary: usize, insertion: Value) -> Vec<Value> {
    values
        .iter()
        .take(boundary)
        .cloned()
        .chain(std::iter::once(insertion))
        .chain(values.iter().skip(boundary).cloned())
        .collect()
}

/// Remove one value at a validated reference-model index.
fn reference_remove<Value: Clone>(values: &[Value], removed_index: usize) -> Vec<Value> {
    values
        .iter()
        .enumerate()
        .filter(|(index, _)| *index != removed_index)
        .map(|(_, value)| value.clone())
        .collect()
}

/// Apply the editor's locked same-parent movement rule to a plain reference sequence.
fn reference_move<Value: Clone>(values: &[Value], source_index: usize, boundary: usize) -> Result<Vec<Value>, TestFailure> {
    let moved = ensure_some(values.get(source_index).cloned(), "the generated move source must exist")?;
    let mut reordered = Vec::with_capacity(values.len());
    reordered.extend(
        values
            .iter()
            .enumerate()
            .take(boundary)
            .filter(|(index, _)| *index != source_index)
            .map(|(_, value)| value.clone()),
    );
    reordered.push(moved);
    reordered.extend(
        values
            .iter()
            .enumerate()
            .skip(boundary)
            .filter(|(index, _)| *index != source_index)
            .map(|(_, value)| value.clone()),
    );
    Ok(reordered)
}

/// Compare every attached flat-tree field with an independent plain-text model.
fn validate_flat_model(
    editor: &SyntaxEditor,
    root: &EditorNodeId,
    expected_ids: &[EditorElementId],
    expected_texts: &[String],
) -> Result<(), TestFailure> {
    let attached = ensure_ok(editor.children(root), "the generated attached sequence must resolve")?;
    ensure(
        attached == expected_ids,
        "the generated attached ID order must match the reference sequence",
    )?;
    ensure_eq(
        &expected_ids.len(),
        &expected_texts.len(),
        "the generated identity and text models must remain aligned",
    )?;

    let mut actual = Vec::with_capacity(expected_ids.len());
    let mut expected = Vec::with_capacity(expected_ids.len());
    let mut offset = TextSize::default();
    for (index, (element, text)) in expected_ids.iter().zip(expected_texts).enumerate() {
        let token = token_id(element)?;
        let text_len = ensure_ok(
            rowan::green::text_size_from_usize(text.len()),
            "the bounded generated token text must fit TextSize",
        )?;
        let end = ensure_ok(
            rowan::green::checked_text_add(offset, text_len),
            "the bounded generated model offset must fit TextSize",
        )?;
        actual.push(format!(
            "{:?}|{:?}|{:?}|{:?}|{:?}|{}",
            ensure_ok(editor.kind(element), "the generated kind must resolve")?,
            ensure_ok(editor.parent(element), "the generated parent must resolve")?.map(|parent| parent.debug_string()),
            ensure_ok(editor.index(element), "the generated index must resolve")?,
            ensure_ok(editor.text_len(element), "the generated text length must resolve")?,
            ensure_ok(editor.text_range(element), "the generated text range must resolve")?,
            ensure_ok(editor.token_text(&token), "the generated token text must resolve")?,
        ));
        expected.push(format!(
            "{:?}|{:?}|{:?}|{:?}|{:?}|{}",
            SyntaxKind(1),
            Some(root.debug_string()),
            Some(index),
            text_len,
            TextRange::new(offset, end),
            text,
        ));
        offset = end;
    }
    ensure_eq(
        &actual.join("\n"),
        &expected.join("\n"),
        "generated kinds, parents, indices, lengths, ranges, and token text must match the plain model",
    )?;
    ensure(
        (
            ensure_ok(
                editor.text_len(&EditorElementId::Node(root.clone())),
                "the generated root length must resolve",
            )?,
            ensure_ok(
                editor.text_range(&EditorElementId::Node(root.clone())),
                "the generated root range must resolve",
            )?,
        ) == (offset, TextRange::new(TextSize::default(), offset)),
        "the generated root metadata must equal the accumulated plain-model extent",
    )
}

/// Mutable editor and independent flat-tree model advanced as one unit.
struct FlatEditModel<'model> {
    /// Editor under test.
    editor:         &'model mut SyntaxEditor,
    /// Stable edited root ID.
    root:           &'model EditorNodeId,
    /// Expected attached element identities.
    expected_ids:   &'model mut Vec<EditorElementId>,
    /// Expected attached token text.
    expected_texts: &'model mut Vec<String>,
}

impl FlatEditModel<'_> {
    /// Append one newly imported token.
    fn append(&mut self, inserted_text: String) -> Result<(), TestFailure> {
        let insertion = ensure_ok(
            self.editor.import_green(GreenElement::from(token(&inserted_text)?)),
            "a generated append token must import",
        )?;
        let boundary = self.expected_ids.len();
        let outcome = ensure_ok(
            self.editor.splice_children(self.root, boundary..boundary, vec![insertion.clone()]),
            "a generated append must splice",
        )?;
        ensure(outcome.detached().is_empty(), "a generated append must detach nothing")?;
        self.expected_ids.push(insertion);
        self.expected_texts.push(inserted_text);
        Ok(())
    }

    /// Move one attached token to a selected same-parent boundary.
    fn move_attached(&mut self, source_selector: usize, boundary_selector: usize) -> Result<(), TestFailure> {
        let source_index = bounded_index(source_selector, self.expected_ids.len())?;
        let boundary_bound = ensure_some(
            self.expected_ids.len().checked_add(1),
            "the bounded generated sequence must admit an insertion boundary",
        )?;
        let boundary = bounded_index(boundary_selector, boundary_bound)?;
        let moved = ensure_some(self.expected_ids.get(source_index).cloned(), "the generated moved ID must exist")?;
        let outcome = ensure_ok(
            self.editor.splice_children(self.root, boundary..boundary, vec![moved]),
            "a generated same-parent move must splice",
        )?;
        ensure(outcome.detached().is_empty(), "a generated same-parent move must detach nothing")?;
        *self.expected_ids = reference_move(self.expected_ids, source_index, boundary)?;
        *self.expected_texts = reference_move(self.expected_texts, source_index, boundary)?;
        Ok(())
    }

    /// Replace one attached token with a newly imported token.
    fn replace(&mut self, selector: usize, inserted_text: String) -> Result<(), TestFailure> {
        let replaced_index = bounded_index(selector, self.expected_ids.len())?;
        let range_end = ensure_some(
            replaced_index.checked_add(1),
            "the generated replacement range must have a representable end",
        )?;
        let replaced = ensure_some(
            self.expected_ids.get(replaced_index).cloned(),
            "the generated replaced ID must exist",
        )?;
        let insertion = ensure_ok(
            self.editor.import_green(GreenElement::from(token(&inserted_text)?)),
            "a generated replacement token must import",
        )?;
        let outcome = ensure_ok(
            self
                .editor
                .splice_children(self.root, replaced_index..range_end, vec![insertion.clone()]),
            "a generated replacement must splice",
        )?;
        ensure(
            outcome.detached() == std::slice::from_ref(&replaced),
            "a generated replacement must return exactly its old component",
        )?;
        *ensure_some(
            self.expected_ids.get_mut(replaced_index),
            "the generated identity replacement position must exist",
        )? = insertion;
        *ensure_some(
            self.expected_texts.get_mut(replaced_index),
            "the generated text replacement position must exist",
        )? = inserted_text;
        Ok(())
    }

    /// Detach one token and reinsert its stable ID at another boundary.
    fn detach_and_reinsert(&mut self, source_selector: usize, boundary_selector: usize) -> Result<(), TestFailure> {
        let detached_index = bounded_index(source_selector, self.expected_ids.len())?;
        let detached = ensure_some(
            self.expected_ids.get(detached_index).cloned(),
            "the generated detached ID must exist",
        )?;
        ensure(
            ensure_ok(self.editor.detach(&detached), "a generated attached element must detach")?,
            "a generated detach must report a state change",
        )?;
        let remaining_ids = reference_remove(self.expected_ids, detached_index);
        let remaining_texts = reference_remove(self.expected_texts, detached_index);
        let detached_text = ensure_some(
            self.expected_texts.get(detached_index).cloned(),
            "the generated detached text must exist",
        )?;
        let boundary_bound = ensure_some(
            remaining_ids.len().checked_add(1),
            "the bounded detached sequence must admit a reinsertion boundary",
        )?;
        let boundary = bounded_index(boundary_selector, boundary_bound)?;
        let outcome = ensure_ok(
            self.editor.splice_children(self.root, boundary..boundary, vec![detached.clone()]),
            "a generated detached component must reinsert",
        )?;
        ensure(outcome.detached().is_empty(), "generated reinsertion must detach nothing else")?;
        *self.expected_ids = reference_insert(&remaining_ids, boundary, detached);
        *self.expected_texts = reference_insert(&remaining_texts, boundary, detached_text);
        Ok(())
    }
}

/// Apply one valid generated command through its behavior-specific model transition.
fn apply_valid_command(
    editor: &mut SyntaxEditor,
    root: &EditorNodeId,
    expected_ids: &mut Vec<EditorElementId>,
    expected_texts: &mut Vec<String>,
    generated: (u8, usize, usize, String),
) -> Result<(), TestFailure> {
    let (command, first_selector, second_selector, inserted_text) = generated;
    let mut model = FlatEditModel {
        editor,
        root,
        expected_ids,
        expected_texts,
    };
    match command {
        0 => model.append(inserted_text),
        1 => model.move_attached(first_selector, second_selector),
        2 => model.replace(first_selector, inserted_text),
        _ => model.detach_and_reinsert(first_selector, second_selector),
    }
}

#[test]
fn valid_edit_sequences_match_an_independent_plain_tree_model() -> Result<(), TestFailure> {
    for seed in 0..256 {
            let mut choices = Choices { state: seed };
            let texts = choices.texts();
            let commands = choices.commands();
            let source = flat_root(&texts)?;
            let mut editor = SyntaxEditor::new(&source);
            let root = editor.root_id();
            let mut expected_ids = ensure_ok(editor.children(&root), "the generated initial child sequence must resolve")?;
            let mut expected_texts = texts.clone();

            for command in commands {
                apply_valid_command(&mut editor, &root, &mut expected_ids, &mut expected_texts, command)?;
            }

            validate_flat_model(&editor, &root, &expected_ids, &expected_texts)?;
            let completed = ensure_ok(editor.into_syntax(&root), "the generated edited root must complete")?;
            let expected = expected_texts.concat();
            ensure_eq(
                &completed.to_string(),
                &expected,
                "generated editor completion must match the independent plain-tree text",
            )?;
            ensure_eq(&source.to_string(), &texts.concat(), "the generated source must remain immutable")?;
    }
    Ok(())
}

#[test]
fn invalid_generated_edits_preserve_the_complete_editor_model() -> Result<(), TestFailure> {
    for seed in 0..256 {
            let mut choices = Choices { state: seed };
            let texts = choices.texts();
            let invalid_case = seed % 5;
            let source = flat_root(&texts)?;
            let mut editor = SyntaxEditor::new(&source);
            let root = editor.root_id();
            let children = ensure_ok(editor.children(&root), "the invalid-model child sequence must resolve")?;
            let first = ensure_some(children.first().cloned(), "the invalid-model first child must exist")?;
            let mut observed_ids = vec![EditorElementId::Node(root.clone())];
            observed_ids.extend(children.clone());
            let before = observe(&editor, &observed_ids)?;

            let (actual, expected) = match invalid_case {
                0 => (
                    editor
                        .splice_children(
                            &root,
                            std::ops::Range {
                                start: 1, end: 0
                            },
                            Vec::new(),
                        )
                        .map(|_| ()),
                    EditError::InvalidChildRange {
                        start:       1,
                        end:         0,
                        child_count: children.len(),
                    },
                ),
                1 => {
                    let end = ensure_some(
                        children.len().checked_add(1),
                        "the bounded invalid range end must remain representable",
                    )?;
                    (
                        editor.splice_children(&root, 0..end, Vec::new()).map(|_| ()),
                        EditError::InvalidChildRange {
                            start: 0,
                            end,
                            child_count: children.len(),
                        },
                    )
                }
                2 => (
                    editor.splice_children(&root, 0..0, vec![first.clone(), first]).map(|_| ()),
                    EditError::DuplicateInsertion {
                        first_position:     0,
                        duplicate_position: 1,
                    },
                ),
                3 => {
                    let foreign_source = flat_root(&["foreign"])?;
                    let foreign_editor = SyntaxEditor::new(&foreign_source);
                    let foreign = ensure_some(
                        ensure_ok(
                            foreign_editor.children(&foreign_editor.root_id()),
                            "the generated foreign sequence must resolve",
                        )?
                        .first()
                        .cloned(),
                        "the generated foreign ID must exist",
                    )?;
                    (editor.splice_children(&root, 0..0, vec![foreign]).map(|_| ()), EditError::ForeignId)
                }
                _ => (
                    editor
                        .splice_children(&root, 0..0, vec![EditorElementId::Node(root.clone())])
                        .map(|_| ()),
                    EditError::Cycle,
                ),
            };
            let after = observe(&editor, &observed_ids)?;
            ensure(
                (actual, after) == (Err(expected), before),
                "every generated invalid edit must return its exact error and roll back every observable field",
            )?;
    }
    Ok(())
}

/// Reproducible choices.
struct Choices {
    state: u64,
}

impl Choices {
    /// Choose a number below a bound.
    fn below(&mut self, bound: usize) -> usize {
        self.state = self.state.wrapping_mul(6_364_136_223_846_793_005).wrapping_add(1_442_695_040_888_963_407);
        (self.state >> 33) as usize % bound
    }

    /// Choose one to three lower-case letters.
    fn text(&mut self) -> String {
        let count = 1 + self.below(3);
        (0..count).map(|_| (b'a' + self.below(26) as u8) as char).collect()
    }

    /// Choose one to six texts.
    fn texts(&mut self) -> Vec<String> {
        let count = 1 + self.below(6);
        (0..count).map(|_| self.text()).collect()
    }

    /// Choose one to eleven edit commands.
    fn commands(&mut self) -> Vec<(u8, usize, usize, String)> {
        let count = 1 + self.below(11);
        (0..count).map(|_| (self.below(4) as u8, self.below(32), self.below(32), self.text())).collect()
    }
}
