//! Owned and borrowed green elements.

use rowan::GreenElement;
use rowan::GreenElementRef;
use rowan::GreenNode;
use rowan::GreenToken;
use rowan::NodeOrToken;
use rowan::SyntaxKind;
use rowan::TextSize;

/// What a failed expectation says.
type TestFailure = String;

fn ensure(condition: bool, message: &str) -> Result<(), TestFailure> {
    if condition {
        Ok(())
    } else {
        Err(message.to_owned())
    }
}

fn ensure_ok<Value, Failure>(outcome: Result<Value, Failure>, message: &str) -> Result<Value, TestFailure> {
    match outcome {
        Ok(value) => Ok(value),
        Err(_) => Err(message.to_owned()),
    }
}

fn ensure_some<Value>(value: Option<Value>, message: &str) -> Result<Value, TestFailure> {
    match value {
        Some(value) => Ok(value),
        None => Err(message.to_owned()),
    }
}

#[test]
fn owned_and_borrowed_elements_preserve_variant_metadata_and_identity() -> Result<(), TestFailure> {
    let token = ensure_ok(GreenToken::new(SyntaxKind(1), "text"), "the element token fixture must allocate")?;
    let node = ensure_ok(
        GreenNode::new(SyntaxKind(2), vec![GreenElement::from(token.clone())]),
        "the element node fixture must allocate",
    )?;
    let owned_node = GreenElement::from(node.clone());
    let owned_token = GreenElement::from(token.clone());

    ensure(owned_node.kind() == SyntaxKind(2), "owned node metadata must retain its kind")?;
    ensure(
        owned_node.text_len() == TextSize::from(4),
        "owned node metadata must retain its aggregate byte length",
    )?;
    ensure(owned_token.kind() == SyntaxKind(1), "owned token metadata must retain its kind")?;
    ensure(
        owned_token.text_len() == TextSize::from(4),
        "owned token metadata must retain its byte length",
    )?;
    ensure(
        !owned_node.ptr_eq(&owned_token),
        "allocation identity must never cross node and token variants",
    )?;

    let borrowed_node = GreenElementRef::from(&node);
    ensure(borrowed_node.kind() == SyntaxKind(2), "borrowed node metadata must retain its kind")?;
    ensure(
        borrowed_node.text_len() == TextSize::from(4),
        "borrowed node metadata must retain its byte length",
    )?;
    ensure(
        borrowed_node.to_owned().ptr_eq(&owned_node),
        "owning a borrowed node must clone its shared handle",
    )?;

    let borrowed_token = GreenElementRef::from(&token);
    ensure(
        borrowed_token.kind() == SyntaxKind(1),
        "borrowed token metadata must retain its kind",
    )?;
    ensure(
        borrowed_token.text_len() == TextSize::from(4),
        "borrowed token metadata must retain its byte length",
    )?;
    let cloned_token = ensure_some(
        borrowed_token.to_owned().into_token(),
        "owning a borrowed token must preserve the token variant",
    )?;
    ensure(cloned_token.ptr_eq(&token), "owning a borrowed token must clone its shared handle")?;
    ensure(
        matches!(borrowed_node, NodeOrToken::Node(_)) && matches!(borrowed_token, NodeOrToken::Token(_)),
        "borrowed conversion must preserve both discriminants",
    )
}
