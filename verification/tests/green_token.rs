//! Compact immutable green tokens.

use std::collections::hash_map::DefaultHasher;
use std::hash::Hash;
use std::hash::Hasher;

use rowan::hashing::Recorder;
use rowan::GreenToken;
use rowan::SyntaxKind;
use rowan::TextSize;

/// What a failed expectation says.
type TestFailure = String;

fn ensure(condition: bool, message: &str) -> Result<(), TestFailure> {
    if condition {
        Ok(())
    } else {
        Err(message.to_owned())
    }
}

fn ensure_eq<Value: PartialEq + ?Sized>(left: &Value, right: &Value, message: &str) -> Result<(), TestFailure> {
    ensure(left == right, message)
}

fn ensure_ne<Value: PartialEq + ?Sized>(left: &Value, right: &Value, message: &str) -> Result<(), TestFailure> {
    ensure(left != right, message)
}

fn ensure_ok<Value, Failure>(outcome: Result<Value, Failure>, message: &str) -> Result<Value, TestFailure> {
    match outcome {
        Ok(value) => Ok(value),
        Err(_) => Err(message.to_owned()),
    }
}

fn ensure_some<Value>(value: Option<Value>, message: &str) -> Result<Value, TestFailure> {
    match value {
        Some(value) => Ok(value),
        None => Err(message.to_owned()),
    }
}

fn ensure_one_word<Value>(message: &str) -> Result<(), TestFailure> {
    ensure(std::mem::size_of::<Value>() == std::mem::size_of::<usize>(), message)
}

fn ensure_same_hash<Value>(
    left: &Value,
    right: &Value,
    hash: impl Fn(&Value, &mut DefaultHasher),
    message: &str,
) -> Result<(), TestFailure> {
    let mut left_hash = DefaultHasher::new();
    hash(left, &mut left_hash);
    let mut right_hash = DefaultHasher::new();
    hash(right, &mut right_hash);
    ensure(left_hash.finish() == right_hash.finish(), message)
}

/// Construct a green token through its real fallible API.
fn token(kind: u16, text: &str) -> Result<GreenToken, TestFailure> {
    ensure_ok(GreenToken::new(SyntaxKind(kind), text), "the green token must allocate")
}

#[test]
fn token_handles_preserve_compact_and_shared_text_contracts() -> Result<(), TestFailure> {
    for text in ["", "short", "a token text long enough to spill", "aβ🙂"] {
        let green = token(7, text)?;
        ensure(green.kind() == SyntaxKind(7), "the token kind must remain exact")?;
        ensure_eq(&green.text(), &text, "the token text must remain exact")?;
        let expected_len = ensure_some(TextSize::from_usize(text.len()), "the fixture length must fit")?;
        ensure(green.text_len() == expected_len, "the token length must count UTF-8 bytes")?;
        ensure_eq(&green.to_string(), &text.to_owned(), "token display must preserve text")?;
    }
    Ok(())
}

#[test]
fn token_identity_is_distinct_from_structural_equality() -> Result<(), TestFailure> {
    let first = token(1, "same")?;
    let shared = first.clone();
    let separate = token(1, "same")?;
    let different_kind = token(2, "same")?;
    let different_text = token(1, "different")?;

    ensure(first.ptr_eq(&shared), "cloning a token handle must retain allocation identity")?;
    ensure(!first.ptr_eq(&separate), "separate equal tokens must retain distinct allocations")?;
    ensure_eq(&first, &separate, "separate equal tokens must compare structurally")?;
    ensure_ne(&first, &different_kind, "different kinds must compare unequal")?;
    ensure_ne(&first, &different_text, "different text must compare unequal")?;
    ensure_eq(
        &first.debug_string(),
        &"GreenToken { kind: SyntaxKind(1), text: \"same\" }".to_owned(),
        "token debug output must expose stable semantic metadata",
    )?;

    ensure_same_hash(
        &first,
        &separate,
        Hash::hash,
        "structurally equal tokens must produce equal structural hashes",
    )?;
    ensure_same_hash(
        &first,
        &shared,
        |token, state| token.hash_identity(&mut Recorder::<'_, DefaultHasher, ()>::new(state)),
        "cloned token handles must produce equal allocation-identity hashes",
    )
}

#[test]
fn token_handle_remains_one_machine_word() -> Result<(), TestFailure> {
    ensure_one_word::<GreenToken>("a green token handle must remain one machine word")
}
