//! Child iteration and preorder traversal.

use rowan::GreenElement;
use rowan::GreenNode;
use rowan::GreenToken;
use rowan::NodeOrToken;
use rowan::SyntaxKind;
use rowan::TraversalError;
use rowan::WalkEvent;
use rowan::cursor::SyntaxNode;

/// What a failed expectation says.
type TestFailure = String;

fn ensure(condition: bool, message: &str) -> Result<(), TestFailure> {
    if condition {
        Ok(())
    } else {
        Err(message.to_owned())
    }
}

fn ensure_eq<Value: PartialEq + ?Sized>(left: &Value, right: &Value, message: &str) -> Result<(), TestFailure> {
    ensure(left == right, message)
}

fn ensure_ok<Value, Failure>(outcome: Result<Value, Failure>, message: &str) -> Result<Value, TestFailure> {
    match outcome {
        Ok(value) => Ok(value),
        Err(_) => Err(message.to_owned()),
    }
}

fn ensure_some<Value>(value: Option<Value>, message: &str) -> Result<Value, TestFailure> {
    match value {
        Some(value) => Ok(value),
        None => Err(message.to_owned()),
    }
}

fn event_trace<Element>(
    events: Vec<WalkEvent<Element>>,
    kind: impl Fn(Element) -> SyntaxKind,
) -> Vec<(bool, SyntaxKind)> {
    events
        .into_iter()
        .map(|event| match event {
            WalkEvent::Enter(element) => (true, kind(element)),
            WalkEvent::Leave(element) => (false, kind(element)),
        })
        .collect()
}

fn drain<Item>(mut next: impl FnMut() -> Option<Item>) -> Vec<Item> {
    let mut items = Vec::new();
    while let Some(item) = next() {
        items.push(item);
    }
    items
}

/// Build a node from a fallible green fixture.
fn node(kind: u16, children: impl IntoIterator<Item = GreenElement>) -> Result<GreenNode, TestFailure> {
    ensure_ok(
        GreenNode::new(SyntaxKind(kind), children.into_iter().collect()),
        "the traversal node fixture must allocate",
    )
}

/// Build a token from a fallible green fixture.
fn token(text: &str) -> Result<GreenToken, TestFailure> {
    ensure_ok(GreenToken::new(SyntaxKind(1), text), "the traversal token fixture must allocate")
}

/// Build a root with two child nodes and one direct token.
fn traversal_tree() -> Result<SyntaxNode, TestFailure> {
    let first = node(2, [GreenElement::from(token("a")?)])?;
    let second = node(3, std::iter::empty())?;
    Ok(SyntaxNode::new_root(node(0, [
        GreenElement::from(first),
        GreenElement::from(token("b")?),
        GreenElement::from(second),
    ])?))
}

#[test]
fn node_preorder_skip_state_is_explicit_and_transactional() -> Result<(), TestFailure> {
    let root = traversal_tree()?;
    let mut preorder = root.preorder();
    ensure(
        preorder.skip_subtree() == Err(TraversalError::NoNodeSubtree),
        "skipping before the first event must be rejected",
    )?;
    let root_enter = ensure_some(preorder.next(), "the root enter event must exist")?;
    ensure(matches!(root_enter, WalkEvent::Enter(_)), "the first event must enter the root")?;
    let first_enter = ensure_some(preorder.next(), "the first child enter event must exist")?;
    ensure(
        matches!(first_enter, WalkEvent::Enter(ref node) if node.kind() == SyntaxKind(2)),
        "the traversal must enter the first child",
    )?;
    ensure_ok(preorder.skip_subtree(), "skipping immediately after a node enter must succeed")?;
    ensure(
        preorder.skip_subtree() == Err(TraversalError::SkipAlreadyRequested),
        "a duplicate skip request must be rejected without advancing",
    )?;
    let first_leave = ensure_some(preorder.next(), "the skipped child leave event must remain")?;
    ensure(
        matches!(first_leave, WalkEvent::Leave(ref node) if node.kind() == SyntaxKind(2)),
        "skipping must omit descendants but preserve the matching leave",
    )?;
    let second_enter = ensure_some(preorder.next(), "the second child enter event must follow")?;
    ensure(
        matches!(second_enter, WalkEvent::Enter(ref node) if node.kind() == SyntaxKind(3)),
        "node-only preorder must skip the intervening token and enter the next node",
    )?;
    ensure(
        preorder.skip_subtree() == Ok(()),
        "a new node-entry window must accept a fresh skip",
    )?;
    let _second_leave = ensure_some(preorder.next(), "the second child leave must exist")?;
    let _root_leave = ensure_some(preorder.next(), "the root leave must exist")?;
    ensure(preorder.next().is_none(), "the traversal must exhaust after the root leave")?;
    ensure(
        preorder.skip_subtree() == Err(TraversalError::NoNodeSubtree),
        "skipping after exhaustion must be rejected",
    )
}

#[test]
fn token_entries_never_open_a_skip_window() -> Result<(), TestFailure> {
    let root = traversal_tree()?;
    let mut preorder = root.preorder_with_tokens();
    let _root_enter = ensure_some(preorder.next(), "the root enter must exist")?;
    let _first_node_enter = ensure_some(preorder.next(), "the first child node enter must exist")?;
    let token_enter = ensure_some(preorder.next(), "the first token enter must exist")?;
    ensure(
        matches!(token_enter, WalkEvent::Enter(NodeOrToken::Token(ref token)) if token.text() == "a"),
        "preorder-with-tokens must emit the token entry",
    )?;
    ensure(
        preorder.skip_subtree() == Err(TraversalError::NoNodeSubtree),
        "entering a token must not expose a subtree skip",
    )?;
    let token_leave = ensure_some(preorder.next(), "the token leave must remain after rejection")?;
    ensure(
        matches!(token_leave, WalkEvent::Leave(NodeOrToken::Token(ref token)) if token.text() == "a"),
        "a rejected skip must leave the next event unchanged",
    )
}

#[test]
fn child_filters_and_complete_element_preorder_preserve_live_iterator_state() -> Result<(), TestFailure> {
    let root = traversal_tree()?;
    ensure(
        {
            let mut kept = root.children().by_kind(|kind| kind == SyntaxKind(2));
            drain(|| kept.next()).len()
        } == 1,
        "node filtering must retain the one matching direct child",
    )?;
    ensure(
        root.children().by_kind(|kind| kind == SyntaxKind(9)).next().is_none(),
        "node filtering must exhaust cleanly when no kind matches",
    )?;
    let mut progressed_nodes = root.children();
    let first = ensure_some(progressed_nodes.next(), "the first child node must exist")?;
    ensure(
        first.kind() == SyntaxKind(2),
        "node iteration must begin with the first source node",
    )?;
    let second = ensure_some(
        progressed_nodes.by_kind(|kind| kind == SyntaxKind(3)).next(),
        "filtering a progressed iterator must continue from its live position",
    )?;
    ensure(second.kind() == SyntaxKind(3), "progressed filtering must select the later node")?;

    ensure(
        {
            let mut kept = root.children_with_tokens().by_kind(|kind| kind == SyntaxKind(1));
            drain(|| kept.next()).len()
        } == 1,
        "element filtering must retain the direct token and exclude nested tokens",
    )?;
    ensure(
        root
            .children_with_tokens()
            .by_kind(|kind| kind == SyntaxKind(9))
            .next()
            .is_none(),
        "element filtering must exhaust cleanly on a matcher miss",
    )?;
    let mut progressed_elements = root.children_with_tokens();
    let _first_element = ensure_some(progressed_elements.next(), "the first direct element must exist")?;
    let token = ensure_some(
        progressed_elements
            .by_kind(|kind| kind == SyntaxKind(1))
            .next()
            .and_then(NodeOrToken::into_token),
        "filtering a progressed element iterator must find the direct token",
    )?;
    ensure_eq(&token.text(), &"b", "the progressed element filter must preserve token text")?;

    let events = event_trace(root.preorder_with_tokens().into_vec(), |element| element.kind());
    ensure(
        events
            == vec![
                (true, SyntaxKind(0)),
                (true, SyntaxKind(2)),
                (true, SyntaxKind(1)),
                (false, SyntaxKind(1)),
                (false, SyntaxKind(2)),
                (true, SyntaxKind(1)),
                (false, SyntaxKind(1)),
                (true, SyntaxKind(3)),
                (false, SyntaxKind(3)),
                (false, SyntaxKind(0)),
            ],
        "complete element preorder must emit balanced node and token events in source order",
    )?;

    let mut skipped = root.preorder_with_tokens();
    let _root_enter = ensure_some(skipped.next(), "the root enter event must exist")?;
    ensure_ok(
        skipped.skip_subtree(),
        "element preorder must accept a skip immediately after entering a node",
    )?;
    ensure(
        skipped.skip_subtree() == Err(TraversalError::SkipAlreadyRequested),
        "element preorder must reject a duplicate skip without advancing",
    )?;
    let leave = ensure_some(skipped.next(), "skipping the root must retain its leave event")?;
    ensure(
        matches!(leave, WalkEvent::Leave(NodeOrToken::Node(ref node)) if node.kind() == SyntaxKind(0)),
        "skipping the root must omit all descendants and emit the matching leave",
    )?;
    ensure(
        skipped.skip_subtree() == Err(TraversalError::NoNodeSubtree),
        "the leave event must close the subtree-skip window",
    )?;
    ensure(skipped.next().is_none(), "a root skip must exhaust traversal after the root leave")
}
