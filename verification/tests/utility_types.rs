//! Shared unions, directions and token pairs.

use rowan::NodeOrToken;
use rowan::TokenAtOffset;
use rowan::WalkEvent;

/// What a failed expectation says.
type TestFailure = String;

fn ensure(condition: bool, message: &str) -> Result<(), TestFailure> {
    if condition {
        Ok(())
    } else {
        Err(message.to_owned())
    }
}

fn ensure_eq<Value: PartialEq + ?Sized>(left: &Value, right: &Value, message: &str) -> Result<(), TestFailure> {
    ensure(left == right, message)
}

fn drain<Item>(mut next: impl FnMut() -> Option<Item>) -> Vec<Item> {
    let mut items = Vec::new();
    while let Some(item) = next() {
        items.push(item);
    }
    items
}

#[test]
fn node_or_token_preserves_variant_through_access_and_mapping() -> Result<(), TestFailure> {
    let node = NodeOrToken::<u8, &str>::Node(3);
    ensure(node.as_node() == Some(&3), "node borrowing must preserve the node value")?;
    ensure(node.as_token().is_none(), "node borrowing must not invent a token")?;
    ensure(
        node.as_ref() == NodeOrToken::Node(&3),
        "borrowing the union must preserve the node variant",
    )?;
    ensure_eq(
        &node.map(u16::from, str::len),
        &NodeOrToken::<u16, usize>::Node(3),
        "node mapping must use only the node mapper",
    )?;
    ensure(node.into_node() == Some(3), "node extraction must return the node")?;
    ensure(
        node.into_token().is_none(),
        "extracting a token from the node variant must return None",
    )?;

    let token = NodeOrToken::<u8, &str>::Token("text");
    ensure(token.as_token() == Some(&"text"), "token borrowing must preserve the token value")?;
    ensure(token.as_node().is_none(), "token borrowing must not invent a node")?;
    ensure(
        token.as_ref() == NodeOrToken::Token(&"text"),
        "borrowing the union must preserve the token variant",
    )?;
    ensure_eq(
        &token.map(u16::from, str::len),
        &NodeOrToken::<u16, usize>::Token(4),
        "token mapping must use only the token mapper",
    )?;
    ensure(token.into_token() == Some("text"), "token extraction must return the token")?;
    ensure(
        token.into_node().is_none(),
        "extracting a node from the token variant must return None",
    )?;
    ensure_eq(
        &NodeOrToken::<u8, &str>::Node(7).to_string(),
        &"7".to_owned(),
        "node display must delegate to the contained node",
    )?;
    ensure_eq(
        &NodeOrToken::<u8, &str>::Token("shown").to_string(),
        &"shown".to_owned(),
        "display must delegate to the active variant",
    )
}

#[test]
fn token_at_offset_bias_and_iteration_preserve_left_to_right_order() -> Result<(), TestFailure> {
    ensure(
        TokenAtOffset::<u8>::Between(1, 2).left_biased() == Some(1),
        "left bias must select the left boundary token",
    )?;
    ensure(
        TokenAtOffset::<u8>::Between(1, 2).right_biased() == Some(2),
        "right bias must select the right boundary token",
    )?;
    ensure(
        TokenAtOffset::<u8>::Single(3).left_biased() == Some(3),
        "either bias must preserve a single token",
    )?;
    ensure(
        TokenAtOffset::<u8>::Single(3).right_biased() == Some(3),
        "right bias must preserve a single token",
    )?;
    ensure(
        TokenAtOffset::<u8>::Empty.right_biased().is_none(),
        "biasing no token must remain None",
    )?;
    ensure(
        TokenAtOffset::<u8>::Empty.left_biased().is_none(),
        "left-biasing no token must remain None",
    )?;
    ensure(
        TokenAtOffset::<u8>::Empty.map(u16::from) == TokenAtOffset::Empty,
        "mapping an empty result must remain empty",
    )?;
    ensure(
        TokenAtOffset::Single(4_u8).map(u16::from) == TokenAtOffset::Single(4_u16),
        "mapping a single result must preserve its value",
    )?;
    let none = TokenAtOffset::<u8>::Empty;
    ensure(
        none.size_hint() == (0, Some(0)),
        "an empty result must report an exact zero iterator size",
    )?;
    let single = TokenAtOffset::Single(3_u8);
    ensure(
        single.size_hint() == (1, Some(1)),
        "a single result must report an exact one-token iterator size",
    )?;
    let mut between = TokenAtOffset::Between("left", "right");
    ensure(
        between.size_hint() == (2, Some(2)),
        "a boundary result must report an exact two-token iterator size",
    )?;
    ensure_eq(&between.len(), &2, "a boundary iterator must begin with two tokens")?;
    ensure(between.next() == Some("left"), "boundary iteration must yield the left token first")?;
    ensure_eq(&between.len(), &1, "yielding left must retain one token")?;
    ensure(
        between.next() == Some("right"),
        "boundary iteration must yield the right token second",
    )?;
    ensure(between.next().is_none(), "an exhausted boundary iterator must stay empty")?;
    let mut mapping = TokenAtOffset::Between(1_u8, 2_u8).map(u16::from);
    let mapped = drain(|| mapping.next());
    ensure(mapped == vec![1_u16, 2_u16], "mapping must preserve boundary order")
}

#[test]
fn walk_event_mapping_preserves_enter_leave_polarity() -> Result<(), TestFailure> {
    ensure(
        WalkEvent::Enter(2_u8).map(u16::from) == WalkEvent::Enter(2_u16),
        "enter mapping must remain Enter",
    )?;
    ensure(
        WalkEvent::Leave(3_u8).map(u16::from) == WalkEvent::Leave(3_u16),
        "leave mapping must remain Leave",
    )
}
