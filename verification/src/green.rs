//! Immutable green-tree storage, construction, and interning.

pub mod builder;
pub mod builder_laws;
pub mod cache_laws;
pub mod element;
pub mod hash;
pub mod hash_laws;
pub mod laws;
pub mod node;
pub mod node_cache;
pub mod token;

use vstd::prelude::*;

use crate::text::TextSize;

verus! {

/// A raw kind tag shared by green and red syntax elements.
#[derive(Debug, Clone, Copy, PartialEq, Eq, PartialOrd, Ord, Hash, Structural)]
pub struct SyntaxKind(pub u16);

/// A validated green-tree construction or transformation failure.
#[derive(Debug, Clone, Copy, PartialEq, Eq, Structural)]
pub enum GreenError {
    /// Token text does not fit the `TextSize` coordinate space.
    TokenTextTooLong {
        /// UTF-8 byte length supplied by the caller.
        byte_len: usize,
    },
    /// Adding a child would overflow the text coordinate space.
    TextLengthOverflow {
        /// Length accumulated before the failing child.
        accumulated: TextSize,
        /// Length of the child that could not be added.
        next: TextSize,
    },
    /// A child index does not name an existing child.
    ChildIndexOutOfBounds {
        /// Rejected child index.
        index: usize,
        /// Number of children in the node.
        child_count: usize,
    },
    /// A child splice range is reversed or extends beyond the node.
    InvalidChildRange {
        /// Inclusive range start.
        start: usize,
        /// Exclusive range end.
        end: usize,
        /// Number of children in the node.
        child_count: usize,
    },
    /// A replacement changes the kind of the element it replaces.
    KindMismatch {
        /// Kind of the existing element.
        expected: SyntaxKind,
        /// Kind of the replacement element.
        actual: SyntaxKind,
    },
    /// The backing shared allocation could not be created.
    AllocationFailed,
}

/// Convert a UTF-8 byte length into the coordinate type.
pub fn text_size_from_usize(byte_len: usize) -> (size: Result<TextSize, GreenError>)
    ensures
        match size {
            Ok(size) => size@ == byte_len,
            Err(error) => byte_len > u32::MAX && error == (GreenError::TokenTextTooLong {
                byte_len,
            }),
        },
{
    match TextSize::from_usize(byte_len) {
        Some(size) => Ok(size),
        None => Err(GreenError::TokenTextTooLong { byte_len }),
    }
}

/// Add two text lengths without overflow.
pub fn checked_text_add(accumulated: TextSize, next: TextSize) -> (sum: Result<
    TextSize,
    GreenError,
>)
    ensures
        match sum {
            Ok(sum) => sum@ == accumulated@ + next@,
            Err(error) => accumulated@ + next@ > u32::MAX && error
                == (GreenError::TextLengthOverflow { accumulated, next }),
        },
{
    match accumulated.checked_add(next) {
        Some(sum) => Ok(sum),
        None => Err(GreenError::TextLengthOverflow { accumulated, next }),
    }
}

} // verus!
