//! Validated chunked text views.

use std::convert::Infallible;

use rowan::ChunkError;
use rowan::GreenElement;
use rowan::GreenNode;
use rowan::GreenToken;
use rowan::RangeError;
use rowan::SyntaxKind;
use rowan::SyntaxText;
use rowan::SyntaxTextRange;
use rowan::TextRange;
use rowan::TextSize;
use rowan::cursor::SyntaxNode;
use rowan::syntax_text::invalid_chunk_boundary;

/// What a failed expectation says.
type TestFailure = String;

fn ensure(condition: bool, message: &str) -> Result<(), TestFailure> {
    if condition {
        Ok(())
    } else {
        Err(message.to_owned())
    }
}

fn ensure_eq<Value: PartialEq + ?Sized>(left: &Value, right: &Value, message: &str) -> Result<(), TestFailure> {
    ensure(left == right, message)
}

fn ensure_ok<Value, Failure>(outcome: Result<Value, Failure>, message: &str) -> Result<Value, TestFailure> {
    match outcome {
        Ok(value) => Ok(value),
        Err(_) => Err(message.to_owned()),
    }
}

fn ensure_some<Value>(value: Option<Value>, message: &str) -> Result<Value, TestFailure> {
    match value {
        Some(value) => Ok(value),
        None => Err(message.to_owned()),
    }
}

/// Build a chunked text fixture with one token per supplied string.
fn chunked(chunks: &[&str]) -> Result<SyntaxText, TestFailure> {
    let mut children = Vec::with_capacity(chunks.len());
    for chunk in chunks {
        let token = ensure_ok(GreenToken::new(SyntaxKind(1), chunk), "the syntax-text token fixture must allocate")?;
        children.push(GreenElement::from(token));
    }
    let green = ensure_ok(
        GreenNode::new(SyntaxKind(0), children),
        "the syntax-text root fixture must allocate",
    )?;
    Ok(SyntaxNode::new_root(green).text())
}

#[test]
fn character_queries_use_relative_unicode_byte_offsets() -> Result<(), TestFailure> {
    let text = chunked(&["a", "β", "cd"])?;
    ensure(text.len() == TextSize::from(5), "text length must count UTF-8 bytes")?;
    ensure(!text.is_empty(), "the fixture text must be non-empty")?;
    ensure(
        ensure_ok(text.contains_char('β'), "contains_char must validate the view")?,
        "beta must be present",
    )?;
    ensure(
        !ensure_ok(text.contains_char('z'), "contains_char must validate an absent query")?,
        "an absent character must remain absent",
    )?;
    ensure(
        ensure_some(
            ensure_ok(text.find_char('β'), "find_char must validate the view")?,
            "beta must have an offset",
        )? == TextSize::from(1),
        "find_char must report a relative UTF-8 byte offset",
    )?;
    ensure(
        ensure_ok(text.find_char('z'), "an absent find query must still validate")?.is_none(),
        "an absent character must return None",
    )?;
    ensure_eq(
        &ensure_some(
            ensure_ok(text.char_at(TextSize::from(1)), "a character boundary must validate")?,
            "beta must exist",
        )?,
        &'β',
        "char_at must decode a complete multibyte character",
    )?;
    ensure(
        text.char_at(TextSize::from(2))
            == Err(RangeError::NotCharBoundary {
                offset: TextSize::from(2)
            }),
        "an in-range byte inside beta must be rejected",
    )?;
    ensure(
        ensure_ok(text.char_at(TextSize::from(5)), "the end offset must validate")?.is_none(),
        "char_at(len) must return None",
    )?;
    ensure(
        text.char_at(TextSize::from(6))
            == Err(RangeError::OffsetOutOfBounds {
                offset: TextSize::from(6),
                valid:  TextRange::up_to(TextSize::from(5)),
            }),
        "an offset beyond the text must be rejected",
    )
}

/// Caller-defined range used to exercise reversed relative endpoints safely.
struct RelativeRange {
    /// Inclusive start.
    start: TextSize,
    /// Exclusive end.
    end:   TextSize,
}

impl SyntaxTextRange for RelativeRange {
    fn start(&self) -> Option<TextSize> {
        Some(self.start)
    }

    fn end(&self) -> Option<TextSize> {
        Some(self.end)
    }
}

#[test]
fn slices_validate_bounds_and_cross_token_boundaries() -> Result<(), TestFailure> {
    let text = chunked(&["a", "β", "cd"])?;
    let cross_token = ensure_ok(
        text.slice(TextSize::from(1)..TextSize::from(4)),
        "a Unicode-aligned cross-token slice must succeed",
    )?;
    ensure_eq(
        &cross_token.to_string(),
        &"βc".to_owned(),
        "cross-token slices must preserve exact text",
    )?;
    ensure_eq(
        &ensure_ok(cross_token.slice(..), "a full subview slice must succeed")?.to_string(),
        &"βc".to_owned(),
        "slice offsets must be relative to the current text view",
    )?;
    ensure(
        text.slice(RelativeRange {
            start: TextSize::from(4),
            end:   TextSize::from(3),
        }) == Err(RangeError::ReversedRange {
            start: TextSize::from(4),
            end:   TextSize::from(3),
        }),
        "reversed bounds must be rejected before containment",
    )?;
    ensure(
        text.slice(TextSize::from(0)..TextSize::from(6))
            == Err(RangeError::RangeOutOfBounds {
                requested: TextRange::new(TextSize::from(0), TextSize::from(6)),
                valid:     TextRange::up_to(TextSize::from(5)),
            }),
        "an end beyond the view must be rejected",
    )?;
    ensure(
        text.slice(TextSize::from(2)..TextSize::from(3))
            == Err(RangeError::NotCharBoundary {
                offset: TextSize::from(2)
            }),
        "a slice endpoint inside beta must be rejected",
    )
}

#[derive(Debug, Clone, Copy, PartialEq, Eq)]
enum CallbackFailure {
    /// Deliberate caller failure.
    Stop,
}

#[test]
fn chunk_visitors_preserve_segmentation_and_callback_errors() -> Result<(), TestFailure> {
    let text = chunked(&["a", "β", "cd"])?;
    let mut chunks = Vec::new();
    ensure_ok(
        text.for_each_chunk(|chunk| chunks.push(chunk.to_owned())),
        "infallible chunk visitation must succeed",
    )?;
    ensure(
        chunks == vec!["a".to_owned(), "β".to_owned(), "cd".to_owned()],
        "whole-view visitation must retain token segmentation",
    )?;

    let folded = ensure_ok(
        text.try_fold_chunks(String::new(), |mut accumulated, chunk| {
            accumulated.push_str(chunk);
            Ok::<String, Infallible>(accumulated)
        }),
        "a successful callback fold must preserve text",
    )?;
    ensure_eq(&folded, &"aβcd".to_owned(), "folded chunks must reproduce display text")?;

    let callback_error = text.try_for_each_chunk(|chunk| {
        if chunk == "β" {
            Err(CallbackFailure::Stop)
        } else {
            Ok(())
        }
    });
    ensure(
        matches!(callback_error, Err(ChunkError::Callback(CallbackFailure::Stop))),
        "caller failure must remain distinguishable from a Rowan range error",
    )
}

#[test]
fn text_equality_depends_on_content_not_token_segmentation() -> Result<(), TestFailure> {
    let segmented = chunked(&["a", "β", "cd"])?;
    let combined = chunked(&["aβcd"])?;
    let different = chunked(&["aβce"])?;
    ensure_eq(
        &segmented,
        &combined,
        "equal text with different token segmentation must compare equal",
    )?;
    ensure(segmented == "aβcd", "SyntaxText must compare with a matching str")?;
    ensure("aβcd" == segmented, "str must compare symmetrically with SyntaxText")?;
    ensure(segmented != different, "different text must compare unequal")?;

    let empty = chunked(&[])?;
    ensure(empty.is_empty(), "an empty root must produce an empty text view")?;
    ensure_eq(&empty.to_string(), &String::new(), "empty text display must be empty")
}

#[test]
fn text_conversions_and_range_vocabularies_preserve_relative_views() -> Result<(), TestFailure> {
    let text = chunked(&["a", "β", "cd"])?;
    ensure_eq(
        &text.debug_string(),
        &"\"aβcd\"".to_owned(),
        "syntax-text debug output must render the validated complete string",
    )?;
    let owned: String = text.clone().into();
    ensure_eq(&owned, &"aβcd".to_owned(), "String conversion must preserve validated text")?;
    ensure(
        <SyntaxText as PartialEq<&str>>::eq(&text, &"aβcd"),
        "SyntaxText must compare with a borrowed matching str",
    )?;
    ensure(
        <&str as PartialEq<SyntaxText>>::eq(&"aβcd", &text),
        "a borrowed str must compare symmetrically with SyntaxText",
    )?;
    ensure(
        !<SyntaxText as PartialEq<&str>>::eq(&text, &"aβce"),
        "borrowed unequal text must remain unequal",
    )?;

    let by_text_range = ensure_ok(
        text.slice(TextRange::new(TextSize::from(1), TextSize::from(3))),
        "TextRange bounds must be accepted as relative syntax-text offsets",
    )?;
    ensure_eq(
        &by_text_range.to_string(),
        &"β".to_owned(),
        "TextRange slicing must preserve a complete multibyte character",
    )?;
    ensure_eq(
        &ensure_ok(text.slice(TextSize::from(3)..), "RangeFrom bounds must extend through the view end")?.to_string(),
        &"cd".to_owned(),
        "RangeFrom slicing must remain relative to the complete view",
    )?;
    ensure_eq(
        &ensure_ok(text.slice(..TextSize::from(3)), "RangeTo bounds must begin at the view start")?.to_string(),
        &"aβ".to_owned(),
        "RangeTo slicing must retain the aligned prefix",
    )?;
    let empty = ensure_ok(
        text.slice(TextSize::from(3)..TextSize::from(3)),
        "an aligned empty range must be valid",
    )?;
    ensure(empty.is_empty(), "an empty relative range must produce an empty text view")?;
    ensure(
        ensure_ok(text.char_at(TextSize::default()), "the start character must validate")? == Some('a'),
        "char_at at zero must return the first character",
    )?;
    ensure(
        ensure_ok(text.char_at(TextSize::from(3)), "the post-beta boundary must validate")? == Some('c'),
        "char_at must continue correctly after a multibyte character",
    )?;
    ensure(
        text.slice(TextSize::default()..TextSize::from(2))
            == Err(RangeError::NotCharBoundary {
                offset: TextSize::from(2)
            }),
        "a slice end inside a code point must be rejected independently of its start",
    )
}

#[test]
fn invalid_chunk_boundaries_preserve_endpoint_and_arithmetic_polarity() -> Result<(), TestFailure> {
    let maximum = TextSize::from(u32::MAX);
    let observations = [
        invalid_chunk_boundary(
            TextRange::new(TextSize::from(5), TextSize::from(7)),
            TextRange::new(TextSize::from(5), TextSize::from(7)),
            "β",
            TextRange::new(TextSize::from(1), TextSize::from(2)),
        ),
        invalid_chunk_boundary(
            TextRange::new(TextSize::from(5), TextSize::from(7)),
            TextRange::new(TextSize::from(5), TextSize::from(7)),
            "β",
            TextRange::new(TextSize::default(), TextSize::from(1)),
        ),
        invalid_chunk_boundary(
            TextRange::empty(maximum),
            TextRange::empty(maximum),
            "",
            TextRange::new(TextSize::default(), TextSize::from(1)),
        ),
        invalid_chunk_boundary(
            TextRange::empty(TextSize::from(3)),
            TextRange::new(TextSize::from(1), TextSize::from(3)),
            "ab",
            TextRange::new(TextSize::default(), TextSize::from(1)),
        ),
    ];
    ensure(
        observations
            == [
                RangeError::NotCharBoundary {
                    offset: TextSize::from(1)
                },
                RangeError::NotCharBoundary {
                    offset: TextSize::from(1)
                },
                RangeError::OffsetArithmeticOverflow {
                    base:  maximum,
                    delta: TextSize::from(1),
                },
                RangeError::OffsetArithmeticOverflow {
                    base:  TextSize::from(3),
                    delta: TextSize::from(2),
                },
            ],
        "the production boundary classifier must distinguish start, end, addition, and rebasing failures",
    )
}
