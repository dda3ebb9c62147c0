//! Checked text lengths.

use rowan::GreenError;
use rowan::TextSize;
use rowan::green::checked_text_add;
use rowan::green::text_size_from_usize;

/// What a failed expectation says.
type TestFailure = String;

fn ensure(condition: bool, message: &str) -> Result<(), TestFailure> {
    if condition {
        Ok(())
    } else {
        Err(message.to_owned())
    }
}

fn ensure_ok<Value, Failure>(outcome: Result<Value, Failure>, message: &str) -> Result<Value, TestFailure> {
    match outcome {
        Ok(value) => Ok(value),
        Err(_) => Err(message.to_owned()),
    }
}

#[test]
fn checked_text_helpers_accept_bounds_and_report_overflow() -> Result<(), TestFailure> {
    let converted = ensure_ok(text_size_from_usize(3), "a small byte length must fit")?;
    ensure(converted == TextSize::from(3), "the conversion must preserve the byte length")?;
    let sum = ensure_ok(
        checked_text_add(TextSize::from(2), TextSize::from(3)),
        "representable text lengths must add",
    )?;
    ensure(sum == TextSize::from(5), "checked addition must preserve the exact sum")?;

    ensure(
        checked_text_add(TextSize::from(u32::MAX), TextSize::from(1))
            == Err(GreenError::TextLengthOverflow {
                accumulated: TextSize::from(u32::MAX),
                next:        TextSize::from(1),
            }),
        "overflow must retain both operands in the typed error",
    )
}

#[test]
fn checked_text_conversion_rejects_lengths_above_text_size() -> Result<(), TestFailure> {
    ensure(
        text_size_from_usize(usize::MAX)
            == Err(GreenError::TokenTextTooLong {
                byte_len: usize::MAX
            }),
        "the production conversion helper must reject an unrepresentable byte length",
    )
}
