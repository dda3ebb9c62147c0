//! Immutable raw cursors.

use std::collections::hash_map::DefaultHasher;
use std::hash::Hash;
use std::hash::Hasher;
use std::iter;

use rowan::Direction;
use rowan::GreenElement;
use rowan::GreenError;
use rowan::GreenNode;
use rowan::GreenToken;
use rowan::NodeOrToken;
use rowan::RangeError;
use rowan::SyntaxKind;
use rowan::TextRange;
use rowan::TextSize;
use rowan::TokenAtOffset;
use rowan::WalkEvent;
use rowan::cursor::SyntaxElement;
use rowan::cursor::SyntaxNode;
use rowan::cursor::SyntaxToken;
use rowan::cursor_query::query_selects_child;

/// What a failed expectation says.
type TestFailure = String;

fn ensure(condition: bool, message: &str) -> Result<(), TestFailure> {
    if condition {
        Ok(())
    } else {
        Err(message.to_owned())
    }
}

fn ensure_eq<Value: PartialEq + ?Sized>(left: &Value, right: &Value, message: &str) -> Result<(), TestFailure> {
    ensure(left == right, message)
}

fn ensure_ne<Value: PartialEq + ?Sized>(left: &Value, right: &Value, message: &str) -> Result<(), TestFailure> {
    ensure(left != right, message)
}

fn ensure_ok<Value, Failure>(outcome: Result<Value, Failure>, message: &str) -> Result<Value, TestFailure> {
    match outcome {
        Ok(value) => Ok(value),
        Err(_) => Err(message.to_owned()),
    }
}

fn ensure_some<Value>(value: Option<Value>, message: &str) -> Result<Value, TestFailure> {
    match value {
        Some(value) => Ok(value),
        None => Err(message.to_owned()),
    }
}

fn ensure_one_word<Value>(message: &str) -> Result<(), TestFailure> {
    ensure(std::mem::size_of::<Value>() == std::mem::size_of::<usize>(), message)
}

fn ensure_same_hash<Value>(
    left: &Value,
    right: &Value,
    hash: impl Fn(&Value, &mut DefaultHasher),
    message: &str,
) -> Result<(), TestFailure> {
    let mut left_hash = DefaultHasher::new();
    hash(left, &mut left_hash);
    let mut right_hash = DefaultHasher::new();
    hash(right, &mut right_hash);
    ensure(left_hash.finish() == right_hash.finish(), message)
}

fn event_trace<Element>(
    events: Vec<WalkEvent<Element>>,
    kind: impl Fn(Element) -> SyntaxKind,
) -> Vec<(bool, SyntaxKind)> {
    events
        .into_iter()
        .map(|event| match event {
            WalkEvent::Enter(element) => (true, kind(element)),
            WalkEvent::Leave(element) => (false, kind(element)),
        })
        .collect()
}

fn drain<Item>(mut next: impl FnMut() -> Option<Item>) -> Vec<Item> {
    let mut items = Vec::new();
    while let Some(item) = next() {
        items.push(item);
    }
    items
}

/// Build a token fixture.
fn token(kind: u16, text: &str) -> Result<GreenToken, TestFailure> {
    ensure_ok(GreenToken::new(SyntaxKind(kind), text), "the cursor token fixture must allocate")
}

/// Build a node fixture.
fn node(kind: u16, children: impl IntoIterator<Item = GreenElement>) -> Result<GreenNode, TestFailure> {
    ensure_ok(GreenNode::new(SyntaxKind(kind), children.into_iter().collect()), "the cursor node fixture must allocate")
}

/// Build the shared mixed tree used by cursor behavior tests.
fn mixed_tree() -> Result<SyntaxNode, TestFailure> {
    let empty = node(4, std::iter::empty())?;
    let branch = node(2, [
        GreenElement::from(token(3, "β")?),
        GreenElement::from(empty.clone()),
        GreenElement::from(empty),
        GreenElement::from(token(1, "c")?),
    ])?;
    let root = node(0, [
        GreenElement::from(token(1, "a")?),
        GreenElement::from(branch),
        GreenElement::from(token(1, "d")?),
    ])?;
    Ok(SyntaxNode::new_root(root))
}

/// Return source-order kind labels for elements.
fn element_kinds(elements: impl IntoIterator<Item = SyntaxElement>) -> Vec<SyntaxKind> {
    elements.into_iter().map(|element| element.kind()).collect()
}

#[test]
fn raw_navigation_preserves_order_in_both_directions() -> Result<(), TestFailure> {
    let root = mixed_tree()?;
    let branch = ensure_some(root.first_child(), "the root must contain its branch node")?;
    ensure(branch.kind() == SyntaxKind(2), "node-only navigation must skip the first token")?;
    ensure(
        ensure_some(root.last_child(), "the root must have a last child node")?.kind() == SyntaxKind(2),
        "the branch must be both the first and last direct node",
    )?;
    ensure(
        root.first_child_by_kind(&|kind| kind == SyntaxKind(9)).is_none(),
        "a matcher miss must return None",
    )?;
    ensure(
        ensure_some(
            root.first_child_by_kind(&|kind| kind == SyntaxKind(2)),
            "the matcher must find the branch",
        )?
        .kind()
            == SyntaxKind(2),
        "a matcher hit must preserve the matched node",
    )?;

    let direct = element_kinds(root.children_with_tokens().into_vec());
    ensure(
        direct == vec![SyntaxKind(1), SyntaxKind(2), SyntaxKind(1)],
        "direct element iteration must preserve token-node-token order",
    )?;
    let first = ensure_some(root.first_child_or_token(), "the root must have a first element")?;
    let forward = element_kinds(iter::successors(Some(first), SyntaxElement::next_sibling_or_token));
    ensure(forward == direct, "forward sibling iteration must include the starting element")?;
    let last = ensure_some(root.last_child_or_token(), "the root must have a final element")?;
    let reverse = element_kinds(iter::successors(Some(last), SyntaxElement::prev_sibling_or_token));
    ensure(
        reverse == vec![SyntaxKind(1), SyntaxKind(2), SyntaxKind(1)],
        "reverse sibling iteration must retain reverse source positions even when kinds repeat",
    )?;

    let branch_elements = branch.children_with_tokens().into_vec();
    ensure_eq(&branch_elements.len(), &4, "the branch must expose both repeated empty nodes")?;
    let beta = ensure_some(
        branch_elements.first().cloned().and_then(NodeOrToken::into_token),
        "the branch must begin with beta",
    )?;
    let c = ensure_some(
        branch_elements.last().cloned().and_then(NodeOrToken::into_token),
        "the branch must end with c",
    )?;
    ensure_eq(
        &ensure_some(beta.next_token(), "beta must have a next token")?.text(),
        &"c",
        "next_token must cross zero-width nodes",
    )?;
    ensure_eq(
        &ensure_some(c.prev_token(), "c must have a previous token")?.text(),
        &"β",
        "prev_token must cross zero-width nodes",
    )?;
    ensure_eq(
        &ensure_some(c.next_token(), "c must advance out of its branch")?.text(),
        &"d",
        "next_token must cross an ancestor boundary",
    )?;
    ensure_eq(
        &ensure_some(beta.prev_token(), "beta must retreat out of its branch")?.text(),
        &"a",
        "prev_token must cross an ancestor boundary",
    )?;
    ensure_eq(&branch.ancestors().len(), &2, "branch ancestors must include branch and root")?;
    ensure(
        root.descendants().into_iter().map(|node| node.kind()).collect::<Vec<_>>() == vec![SyntaxKind(0), SyntaxKind(2), SyntaxKind(4), SyntaxKind(4)],
        "node descendants must use preorder and omit tokens",
    )?;
    ensure(
        element_kinds(root.descendants_with_tokens())
            == vec![
                SyntaxKind(0),
                SyntaxKind(1),
                SyntaxKind(2),
                SyntaxKind(3),
                SyntaxKind(4),
                SyntaxKind(4),
                SyntaxKind(1),
                SyntaxKind(1),
            ],
        "element descendants must preserve complete preorder",
    )
}

/// Extract token text from a token-at-offset result.
fn touching_texts(result: TokenAtOffset<SyntaxToken>) -> Vec<String> {
    let mut texts = result.map(|token: SyntaxToken| token.text().to_owned());
    drain(|| texts.next())
}

#[test]
fn range_queries_enforce_closed_offsets_and_fixed_boundary_bias() -> Result<(), TestFailure> {
    let root = mixed_tree()?;
    ensure(
        touching_texts(ensure_ok(
            root.token_at_offset(TextSize::from(0)),
            "the start offset must be valid",
        )?)
            == vec!["a".to_owned()],
        "the start offset must touch only the first token",
    )?;
    ensure(
        touching_texts(ensure_ok(
            root.token_at_offset(TextSize::from(1)),
            "the first boundary must be valid",
        )?)
            == vec!["a".to_owned(), "β".to_owned()],
        "an inter-token boundary must return left then right",
    )?;
    ensure(
        touching_texts(ensure_ok(
            root.token_at_offset(TextSize::from(3)),
            "the inner boundary must be valid",
        )?)
            == vec!["β".to_owned(), "c".to_owned()],
        "zero-width nodes must not displace adjacent non-empty tokens",
    )?;
    ensure(
        touching_texts(ensure_ok(root.token_at_offset(TextSize::from(5)), "the end offset must be valid")?) == vec!["d".to_owned()],
        "the closed end offset must touch the final token",
    )?;
    ensure(
        root.token_at_offset(TextSize::from(6))
            == Err(RangeError::OffsetOutOfBounds {
                offset: TextSize::from(6),
                valid:  TextRange::new(TextSize::from(0), TextSize::from(5)),
            }),
        "an offset beyond the closed interval must be rejected",
    )?;

    let right_biased = ensure_some(
        ensure_ok(
            root.child_or_token_at_range(TextRange::empty(TextSize::from(1))),
            "the internal empty range must be valid",
        )?,
        "the internal empty range must select a direct child",
    )?;
    ensure(
        right_biased.kind() == SyntaxKind(2),
        "an internal empty range must prefer the right child",
    )?;
    let end_biased = ensure_some(
        ensure_ok(
            root.child_or_token_at_range(TextRange::empty(TextSize::from(5))),
            "the end empty range must be valid",
        )?,
        "the end empty range must select the final child",
    )?;
    ensure(end_biased.kind() == SyntaxKind(1), "the container end must select its final child")?;
    ensure(
        ensure_ok(
            root.child_or_token_at_range(TextRange::new(TextSize::from(0), TextSize::from(2))),
            "the spanning range must still be valid",
        )?
        .is_none(),
        "a range spanning direct children must return None",
    )?;
    let covered = ensure_ok(
        root.covering_element(TextRange::new(TextSize::from(1), TextSize::from(3))),
        "the beta range must be coverable",
    )?;
    ensure(
        covered.kind() == SyntaxKind(3),
        "covering_element must descend to the containing token",
    )?;
    ensure(
        root.child_or_token_at_range(TextRange::new(TextSize::from(0), TextSize::from(6)))
            == Err(RangeError::RangeOutOfBounds {
                requested: TextRange::new(TextSize::from(0), TextSize::from(6)),
                valid:     root.text_range(),
            }),
        "out-of-bounds ranges must be rejected",
    )?;

    let empty = SyntaxNode::new_root(node(8, std::iter::empty())?);
    ensure(
        ensure_ok(
            empty.token_at_offset(TextSize::from(0)),
            "an empty root's sole offset must be valid",
        )? == TokenAtOffset::Empty,
        "an empty root must not invent a token",
    )
}

#[test]
fn cursor_identity_uses_green_allocation_and_absolute_offset() -> Result<(), TestFailure> {
    let root = mixed_tree()?;
    let reconstructed = SyntaxNode::new_root(root.green().clone());
    let separate = SyntaxNode::new_root(node(0, [
        GreenElement::from(token(1, "a")?),
        GreenElement::from(node(2, [
            GreenElement::from(token(3, "β")?),
            GreenElement::from(node(4, std::iter::empty())?),
            GreenElement::from(node(4, std::iter::empty())?),
            GreenElement::from(token(1, "c")?),
        ])?),
        GreenElement::from(token(1, "d")?),
    ])?);
    ensure_eq(
        &root,
        &reconstructed,
        "reconstruction from the same green root must preserve cursor identity",
    )?;
    ensure_ne(
        &root,
        &separate,
        "a structurally equal but separate green root must have different cursor identity",
    )?;

    let branch = ensure_some(root.first_child(), "the branch must exist")?;
    let empties = branch.children().into_vec();
    let first_empty = ensure_some(empties.first(), "the first empty node must exist")?;
    let second_empty = ensure_some(empties.get(1), "the second empty node must exist")?;
    ensure_eq(
        first_empty,
        second_empty,
        "repeated zero-width nodes with shared green allocation and offset intentionally share public cursor identity",
    )?;

    let shared_token = token(1, "x")?;
    let repeated = SyntaxNode::new_root(node(9, [
        GreenElement::from(shared_token.clone()),
        GreenElement::from(shared_token),
    ])?);
    let repeated_tokens = repeated
        .children_with_tokens()
        .into_vec()
        .into_iter()
        .filter_map(NodeOrToken::into_token)
        .collect::<Vec<_>>();
    ensure_ne(
        ensure_some(repeated_tokens.first(), "the first repeated token must exist")?,
        ensure_some(repeated_tokens.get(1), "the second repeated token must exist")?,
        "the same token allocation at different absolute offsets must have different cursor identity",
    )?;

    ensure_same_hash(
        &root,
        &reconstructed,
        Hash::hash,
        "equal cursors must produce equal identity hashes",
    )
}

/// Assert thread-transfer traits through a generic bound.
fn send_sync<Value: Send + Sync>() {}

#[test]
fn raw_cursor_handles_are_one_word_send_and_sync() -> Result<(), TestFailure> {
    send_sync::<SyntaxNode>();
    send_sync::<SyntaxToken>();
    ensure_one_word::<SyntaxNode>("a raw syntax node must remain one machine word")?;
    ensure_one_word::<SyntaxToken>("a raw syntax token must remain one machine word")
}

#[test]
fn functional_replacement_rebuilds_only_the_ancestor_spine() -> Result<(), TestFailure> {
    let root = mixed_tree()?;
    let branch = ensure_some(root.first_child(), "the replaceable branch must exist")?;
    let replacement_branch = node(2, [GreenElement::from(token(3, "z")?)])?;
    let rebuilt = ensure_ok(
        branch.replace_with(replacement_branch.clone()),
        "a same-kind node replacement must rebuild the root",
    )?;
    ensure_eq(
        &rebuilt.to_string(),
        &"azd".to_owned(),
        "node replacement must preserve the unaffected context",
    )?;
    ensure(
        ensure_some(rebuilt.children().next(), "the rebuilt root's first child must exist")?
            .to_owned()
            .ptr_eq(&GreenElement::from(token_from_root(&root, "a")?.green().clone())),
        "the unchanged prefix token must retain allocation identity",
    )?;
    ensure_eq(
        &root.to_string(),
        &"aβcd".to_owned(),
        "replacement must leave the immutable source unchanged",
    )?;
    ensure(
        branch.replace_with(node(9, std::iter::empty())?)
            == Err(GreenError::KindMismatch {
                expected: SyntaxKind(2),
                actual:   SyntaxKind(9),
            }),
        "a node kind mismatch must fail before ancestor rebuilding",
    )?;

    let c = token_from_root(&root, "c")?;
    let replaced_token_root = ensure_ok(
        c.replace_with(token(1, "C")?),
        "a same-kind token replacement must rebuild every ancestor",
    )?;
    ensure_eq(
        &replaced_token_root.to_string(),
        &"aβCd".to_owned(),
        "token replacement must preserve all unaffected source text",
    )?;
    ensure(
        c.replace_with(token(9, "C")?)
            == Err(GreenError::KindMismatch {
                expected: SyntaxKind(1),
                actual:   SyntaxKind(9),
            }),
        "a token kind mismatch must fail before ancestor rebuilding",
    )
}

/// Find a token with exact text in one cursor tree.
fn token_from_root(root: &SyntaxNode, text: &str) -> Result<SyntaxToken, TestFailure> {
    ensure_some(
        root
            .descendants_with_tokens()
            .into_iter()
            .filter_map(NodeOrToken::into_token)
            .find(|token| token.text() == text),
        "the requested token fixture must exist",
    )
}

#[test]
fn preorder_emits_balanced_enter_leave_events() -> Result<(), TestFailure> {
    let root = mixed_tree()?;
    let events = event_trace(root.preorder().into_vec(), |node| node.kind());
    ensure(
        events
            == vec![
                (true, SyntaxKind(0)),
                (true, SyntaxKind(2)),
                (true, SyntaxKind(4)),
                (false, SyntaxKind(4)),
                (true, SyntaxKind(4)),
                (false, SyntaxKind(4)),
                (false, SyntaxKind(2)),
                (false, SyntaxKind(0)),
            ],
        "node preorder must emit every balanced event in source order",
    )
}

/// Raw cursor fixture spanning node/token sibling boundaries.
struct RawFixture {
    /// Root cursor.
    root:      SyntaxNode,
    /// First direct child node.
    left:      SyntaxNode,
    /// Last direct child node.
    right:     SyntaxNode,
    /// Intervening separator token.
    separator: SyntaxToken,
}

/// Build the shared raw cursor fixture.
fn raw_fixture() -> Result<RawFixture, TestFailure> {
    let left_green = node(2, [GreenElement::from(token(1, "left")?)])?;
    let right_green = node(3, std::iter::empty())?;
    let root_green = node(0, [
        GreenElement::from(left_green),
        GreenElement::from(token(4, ":")?),
        GreenElement::from(right_green),
        GreenElement::from(token(5, "tail")?),
    ])?;
    let root = SyntaxNode::new_root(root_green);
    let left = ensure_some(root.first_child(), "the left child node must exist")?;
    let right = ensure_some(root.last_child(), "the right child node must exist")?;
    let separator = ensure_some(
        root
            .first_child_or_token_by_kind(&|kind| kind == SyntaxKind(4))
            .and_then(NodeOrToken::into_token),
        "the direct-element matcher must find the separator token",
    )?;
    Ok(RawFixture {
        root,
        left,
        right,
        separator,
    })
}

#[test]
fn raw_node_sibling_navigation_covers_both_directions_and_misses() -> Result<(), TestFailure> {
    let RawFixture {
        left,
        right,
        ..
    } = raw_fixture()?;
    ensure(
        ensure_some(left.next_sibling(), "the left node must have a later node sibling")? == right,
        "next_sibling must skip the intervening token",
    )?;
    ensure(
        ensure_some(right.prev_sibling(), "the right node must have an earlier node sibling")? == left,
        "prev_sibling must skip the intervening token",
    )?;
    ensure(left.prev_sibling().is_none(), "the first node sibling must have no previous node")?;
    ensure(right.next_sibling().is_none(), "the last node sibling must have no next node")?;
    ensure(
        left.next_sibling_by_kind(&|kind| kind == SyntaxKind(3)) == Some(right.clone()),
        "kind-filtered node navigation must find a later matching sibling",
    )?;
    ensure(
        left.next_sibling_by_kind(&|kind| kind == SyntaxKind(9)).is_none(),
        "kind-filtered node navigation must return None on a miss",
    )?;
    ensure(
        left.siblings(Direction::Next).into_iter().map(|node| node.kind()).collect::<Vec<_>>() == vec![SyntaxKind(2), SyntaxKind(3)],
        "forward node siblings must include the starting node and skip tokens",
    )?;
    ensure(
        right.siblings(Direction::Prev).into_iter().map(|node| node.kind()).collect::<Vec<_>>() == vec![SyntaxKind(3), SyntaxKind(2)],
        "reverse node siblings must include the starting node in reverse order",
    )
}

#[test]
fn raw_element_sibling_navigation_crosses_variants_and_preserves_order() -> Result<(), TestFailure> {
    let RawFixture {
        root,
        left,
        right,
        separator,
    } = raw_fixture()?;
    ensure(
        root.first_child_or_token_by_kind(&|kind| kind == SyntaxKind(9)).is_none(),
        "the direct-element matcher must return None on a miss",
    )?;
    ensure(
        left.next_sibling_or_token_by_kind(&|kind| kind == SyntaxKind(3)) == Some(SyntaxElement::from(right.clone())),
        "node element navigation must skip to a later matching variant",
    )?;
    ensure(
        separator.next_sibling_or_token_by_kind(&|kind| kind == SyntaxKind(5)).is_some(),
        "token element navigation must find a later matching sibling",
    )?;
    ensure(
        separator.next_sibling_or_token_by_kind(&|kind| kind == SyntaxKind(9)).is_none(),
        "token element navigation must return None on a miss",
    )?;
    ensure(
        separator
            .siblings_with_tokens(Direction::Prev)
            .into_iter()
            .map(|element| element.kind())
            .collect::<Vec<_>>()
            == vec![SyntaxKind(4), SyntaxKind(2)],
        "reverse token siblings must preserve direct reverse source order",
    )?;
    ensure(
        left
            .siblings_with_tokens(Direction::Next)
            .into_iter()
            .map(|element| element.kind())
            .collect::<Vec<_>>()
            == vec![SyntaxKind(2), SyntaxKind(4), SyntaxKind(3), SyntaxKind(5)],
        "forward node element siblings must cross variants in source order",
    )
}

#[test]
fn raw_element_metadata_and_boundaries_preserve_variant_contracts() -> Result<(), TestFailure> {
    let RawFixture {
        root,
        left,
        separator,
        ..
    } = raw_fixture()?;
    let node_element = SyntaxElement::from(left.clone());
    let token_element = SyntaxElement::from(separator.clone());
    ensure(node_element.index() == 0, "node elements must expose their parent index")?;
    ensure(token_element.index() == 1, "token elements must expose their parent index")?;
    ensure(
        node_element.text_range() == left.text_range(),
        "node elements must preserve node ranges",
    )?;
    ensure(
        token_element.text_range() == separator.text_range(),
        "token elements must preserve token ranges",
    )?;
    ensure(
        node_element.parent() == Some(root.clone()),
        "node elements must preserve their parent",
    )?;
    ensure(
        token_element.parent() == Some(root.clone()),
        "token elements must preserve their parent",
    )?;
    ensure_eq(
        &node_element.ancestors().len(),
        &2,
        "node-element ancestors must begin with the node itself",
    )?;
    ensure_eq(
        &token_element.ancestors().len(),
        &1,
        "token-element ancestors must begin with the token parent",
    )?;
    ensure(
        ensure_some(node_element.first_token(), "the left node element must have a first token")?.text() == "left",
        "node-element first_token must descend into the node",
    )?;
    ensure(
        ensure_some(node_element.last_token(), "the left node element must have a last token")?.text() == "left",
        "node-element last_token must descend into the node",
    )?;
    ensure(
        (token_element.first_token(), token_element.last_token()) == (Some(separator.clone()), Some(separator.clone())),
        "token elements must return themselves as both boundary tokens",
    )?;
    ensure(
        token_element
            .green_owned()
            .ptr_eq(&GreenElement::from(separator.green().clone())),
        "token-element green cloning must preserve allocation identity",
    )?;
    ensure(
        node_element.green_owned().ptr_eq(&GreenElement::from(left.green().clone())),
        "node-element green cloning must preserve allocation identity",
    )?;
    ensure(
        token_element
            .next_sibling_or_token_by_kind(&|kind| kind == SyntaxKind(3))
            .is_some(),
        "element-level matching must delegate across the token-to-node boundary",
    )?;
    ensure(
        node_element.prev_sibling_or_token().is_none(),
        "the first node element must have no previous direct element",
    )
}

#[test]
fn raw_cursor_formatting_hashing_and_empty_navigation_are_total() -> Result<(), TestFailure> {
    let RawFixture {
        root,
        separator,
        ..
    } = raw_fixture()?;
    ensure_eq(
        &separator.to_string(),
        &":".to_owned(),
        "raw token display must preserve exact text",
    )?;
    ensure(
        separator.debug_string().contains("SyntaxToken"),
        "raw token debug output must expose token metadata",
    )?;
    ensure(
        root.debug_string().contains("SyntaxNode"),
        "raw node debug output must expose node metadata",
    )?;
    let reconstructed_separator = ensure_some(
        SyntaxNode::new_root(root.green().clone())
            .children_with_tokens()
            .into_vec()
            .into_iter()
            .find_map(NodeOrToken::into_token),
        "the reconstructed separator token must exist",
    )?;
    ensure_same_hash(
        &separator,
        &reconstructed_separator,
        Hash::hash,
        "equal token cursors reconstructed from the same green root must hash equally",
    )?;

    let empty = SyntaxNode::new_root(node(8, std::iter::empty())?);
    ensure(empty.first_child().is_none(), "an empty node must have no first child node")?;
    ensure(empty.last_child().is_none(), "an empty node must have no last child node")?;
    ensure(empty.first_child_or_token().is_none(), "an empty node must have no first element")?;
    ensure(empty.last_child_or_token().is_none(), "an empty node must have no last element")?;
    ensure(empty.first_token().is_none(), "an empty node must have no first token")?;
    ensure(empty.last_token().is_none(), "an empty node must have no last token")
}

#[test]
fn replacing_a_root_reuses_the_validated_replacement_without_an_ancestor_spine() -> Result<(), TestFailure> {
    let source = SyntaxNode::new_root(node(7, [GreenElement::from(token(1, "old")?)])?);
    let replacement = node(7, [GreenElement::from(token(1, "new")?)])?;
    let rebuilt = ensure_ok(
        source.replace_with(replacement.clone()),
        "a same-kind root replacement must succeed without requiring a parent",
    )?;
    ensure(
        rebuilt.ptr_eq(&replacement),
        "root replacement must return the validated replacement allocation directly",
    )?;
    ensure_eq(
        &rebuilt.to_string(),
        &"new".to_owned(),
        "root replacement must preserve replacement text",
    )?;
    ensure_eq(
        &source.to_string(),
        &"old".to_owned(),
        "root replacement must leave the immutable source reusable",
    )
}

#[test]
fn zero_width_tokens_and_consuming_navigation_preserve_boundary_identity() -> Result<(), TestFailure> {
    let root = SyntaxNode::new_root(node(0, [
        GreenElement::from(token(1, "")?),
        GreenElement::from(token(1, "a")?),
        GreenElement::from(token(1, "b")?),
    ])?);
    let first = ensure_some(root.first_child_or_token(), "the zero-width leading token must exist")?;
    let second = ensure_some(
        first.into_next_sibling_or_token(),
        "consuming navigation must advance from the zero-width token",
    )?;
    let second_range = second.text_range();
    let second_index = second.index();
    let third = ensure_some(
        second.into_next_sibling_or_token(),
        "consuming navigation must advance between non-empty tokens",
    )?;

    let touching_start = touching_texts(ensure_ok(
        root.token_at_offset(TextSize::default()),
        "the root start must remain a valid closed-boundary query",
    )?);
    let touching_end = touching_texts(ensure_ok(
        root.token_at_offset(TextSize::from(2)),
        "the root end must remain a valid closed-boundary query",
    )?);
    let spanning = ensure_ok(
        root.covering_element(TextRange::new(TextSize::default(), TextSize::from(2))),
        "a range spanning both non-empty tokens must remain valid",
    )?;
    let outside = root.covering_element(TextRange::new(TextSize::default(), TextSize::from(3)));
    let selection_polarities = [
        query_selects_child(
            TextRange::new(TextSize::from(1), TextSize::from(3)),
            TextRange::empty(TextSize::from(1)),
        ),
        query_selects_child(
            TextRange::new(TextSize::from(5), TextSize::from(7)),
            TextRange::empty(TextSize::from(4)),
        ),
        query_selects_child(
            TextRange::new(TextSize::from(1), TextSize::from(5)),
            TextRange::empty(TextSize::from(3)),
        ),
        query_selects_child(
            TextRange::new(TextSize::from(1), TextSize::from(3)),
            TextRange::empty(TextSize::from(3)),
        ),
    ];

    let distinct_root = SyntaxNode::new_root(node(0, [GreenElement::from(token(1, "")?)])?);
    let distinct = ensure_some(distinct_root.first_token(), "the separately allocated zero-width token must exist")?;
    let original = ensure_some(root.first_token(), "the original zero-width token must remain reachable")?;

    ensure(
        (
            second_range,
            second_index,
            third.text_range(),
            third.index(),
            touching_start,
            touching_end,
            original == distinct,
            spanning.kind(),
            outside,
            selection_polarities,
        ) == (
            TextRange::new(TextSize::default(), TextSize::from(1)),
            1,
            TextRange::new(TextSize::from(1), TextSize::from(2)),
            2,
            vec!["a".to_owned()],
            vec!["b".to_owned()],
            false,
            SyntaxKind(0),
            Err(RangeError::RangeOutOfBounds {
                requested: TextRange::new(TextSize::default(), TextSize::from(3)),
                valid:     TextRange::new(TextSize::default(), TextSize::from(2)),
            }),
            [true, false, true, false],
        ),
        "zero-width filtering, consuming reuse, closed boundaries, and token allocation identity must remain independent",
    )
}

#[test]
fn deep_cursor_traversal_and_formatting_do_not_recurse() -> Result<(), TestFailure> {
    let mut green = node(7, [GreenElement::from(token(1, "x")?)])?;
    for _ in 0..4_096 {
        green = node(7, [GreenElement::from(green)])?;
    }
    let root = SyntaxNode::new_root(green);
    ensure_eq(
        &root.descendants().len(),
        &4_097,
        "deep node traversal must visit every nested node",
    )?;
    ensure_eq(
        &root.to_string(),
        &"x".to_owned(),
        "deep cursor display must reach the token iteratively",
    )?;
    let leaf = ensure_some(root.first_token(), "the deep leaf token must be reachable")?;
    drop(root);
    drop(leaf);
    Ok(())
}
