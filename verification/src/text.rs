//! Byte offsets and byte ranges inside a source text.

use vstd::prelude::*;

verus! {

/// A byte count or byte offset in a text of at most `u32::MAX` bytes.
#[derive(Debug, Clone, Copy, PartialEq, Eq, PartialOrd, Ord, Hash, Structural)]
pub struct TextSize {
    /// The number of bytes.
    pub raw: u32,
}

/// A pair of offsets `start <= end`.
#[derive(Debug, Clone, Copy, PartialEq, Eq, Hash, Structural)]
pub struct TextRange {
    start: TextSize,
    end: TextSize,
}

/// Values whose text has a byte length.
pub trait TextLen {
    /// The byte length of the text, or `None` when it does not fit a [`TextSize`].
    fn text_len(&self) -> Option<TextSize>;
}

impl View for TextSize {
    type V = nat;

    open spec fn view(&self) -> nat {
        self.raw as nat
    }
}

/// The size that counts `count` bytes.
pub open spec fn size_of_count(count: nat) -> TextSize {
    TextSize { raw: count as u32 }
}

impl TextSize {
    /// Wrap a byte count.
    pub fn new(raw: u32) -> (size: Self)
        ensures
            size.raw == raw,
    {
        TextSize { raw }
    }

    /// Measure `text`, or return `None` when it has more than `u32::MAX` bytes.
    pub fn of(text: &str) -> (size: Option<Self>)
        ensures
            match size {
                Some(size) => size@ == vstd::utf8::encode_utf8(text@).len(),
                None => vstd::utf8::encode_utf8(text@).len() > u32::MAX,
            },
    {
        TextSize::from_usize(text.as_bytes().len())
    }

    /// Convert a byte count that may exceed `u32::MAX`.
    pub fn from_usize(count: usize) -> (size: Option<Self>)
        ensures
            match size {
                Some(size) => size@ == count,
                None => count > u32::MAX,
            },
    {
        if count <= u32::MAX as usize {
            Some(TextSize { raw: count as u32 })
        } else {
            None
        }
    }

    /// The byte count as an index.
    pub fn to_usize(self) -> (count: usize)
        ensures
            count == self@,
    {
        self.raw as usize
    }

    /// Add two sizes, or return `None` when the sum exceeds `u32::MAX`.
    pub fn checked_add(self, other: Self) -> (sum: Option<Self>)
        ensures
            match sum {
                Some(sum) => sum@ == self@ + other@,
                None => self@ + other@ > u32::MAX,
            },
    {
        match self.raw.checked_add(other.raw) {
            Some(raw) => Some(TextSize { raw }),
            None => None,
        }
    }

    /// Subtract a size, or return `None` when `other` is larger.
    pub fn checked_sub(self, other: Self) -> (difference: Option<Self>)
        ensures
            match difference {
                Some(difference) => difference@ == self@ - other@,
                None => self@ < other@,
            },
    {
        match self.raw.checked_sub(other.raw) {
            Some(raw) => Some(TextSize { raw }),
            None => None,
        }
    }
}

impl Default for TextSize {
    fn default() -> (size: Self)
        ensures
            size@ == 0,
    {
        TextSize { raw: 0 }
    }
}

impl From<u32> for TextSize {
    fn from(raw: u32) -> (size: Self) {
        TextSize { raw }
    }
}

impl vstd::std_specs::convert::FromSpecImpl<u32> for TextSize {
    open spec fn obeys_from_spec() -> bool {
        true
    }

    open spec fn from_spec(raw: u32) -> Self {
        TextSize { raw }
    }
}

impl TextLen for &str {
    fn text_len(&self) -> (size: Option<TextSize>)
        ensures
            match size {
                Some(size) => size@ == vstd::utf8::encode_utf8(self@).len(),
                None => vstd::utf8::encode_utf8(self@).len() > u32::MAX,
            },
    {
        TextSize::of(self)
    }
}

/// The range from `start` to `end`.
pub closed spec fn range_of(start: TextSize, end: TextSize) -> TextRange {
    TextRange { start, end }
}

impl TextRange {
    /// The first offset of the range.
    pub closed spec fn lo(self) -> TextSize {
        self.start
    }

    /// The offset behind the last byte of the range.
    pub closed spec fn hi(self) -> TextSize {
        self.end
    }

    /// The order of the endpoints.
    #[verifier::type_invariant]
    pub open spec fn ordered(self) -> bool {
        self.lo()@ <= self.hi()@
    }

    /// The range between two ordered offsets.
    pub fn new(start: TextSize, end: TextSize) -> (range: Self)
        requires
            start@ <= end@,
        ensures
            range == range_of(start, end),
    {
        TextRange { start, end }
    }

    /// The empty range at `offset`.
    pub fn empty(offset: TextSize) -> (range: Self)
        ensures
            range == range_of(offset, offset),
    {
        TextRange { start: offset, end: offset }
    }

    /// The range of the first `end` bytes.
    pub fn up_to(end: TextSize) -> (range: Self)
        ensures
            range == range_of(size_of_count(0), end),
    {
        TextRange { start: TextSize { raw: 0 }, end }
    }

    /// The first offset of the range.
    pub fn start(self) -> (offset: TextSize)
        ensures
            offset == self.lo(),
            self.lo()@ <= self.hi()@,
    {
        proof {
            use_type_invariant(&self);
        }
        self.start
    }

    /// The offset behind the last byte of the range.
    pub fn end(self) -> (offset: TextSize)
        ensures
            offset == self.hi(),
            self.lo()@ <= self.hi()@,
    {
        proof {
            use_type_invariant(&self);
        }
        self.end
    }

    /// The number of bytes between the endpoints.
    pub fn len(self) -> (size: TextSize)
        ensures
            size@ == self.hi()@ - self.lo()@,
    {
        proof {
            use_type_invariant(&self);
        }
        TextSize { raw: self.end.raw - self.start.raw }
    }

    /// Test whether the endpoints are equal.
    pub fn is_empty(self) -> (empty: bool)
        ensures
            empty == (self.lo() == self.hi()),
    {
        self.start.raw == self.end.raw
    }

    /// Test whether `offset` lies in the half-open range.
    pub fn contains(self, offset: TextSize) -> (inside: bool)
        ensures
            inside == (self.lo()@ <= offset@ < self.hi()@),
    {
        self.start.raw <= offset.raw && offset.raw < self.end.raw
    }

    /// Test whether `offset` lies in the closed range.
    pub fn contains_inclusive(self, offset: TextSize) -> (inside: bool)
        ensures
            inside == (self.lo()@ <= offset@ <= self.hi()@),
    {
        self.start.raw <= offset.raw && offset.raw <= self.end.raw
    }

    /// Test whether both endpoints of `other` lie in the closed range.
    pub fn contains_range(self, other: Self) -> (inside: bool)
        ensures
            inside == (self.lo()@ <= other.lo()@ && other.hi()@ <= self.hi()@),
    {
        self.start.raw <= other.start.raw && other.end.raw <= self.end.raw
    }

    /// The common part of two ranges, or `None` when they do not touch.
    pub fn intersect(self, other: Self) -> (common: Option<Self>)
        ensures
            match common {
                Some(common) => {
                    &&& common.lo()@ == if self.lo()@ < other.lo()@ {
                        other.lo()@
                    } else {
                        self.lo()@
                    }
                    &&& common.hi()@ == if self.hi()@ < other.hi()@ {
                        self.hi()@
                    } else {
                        other.hi()@
                    }
                },
                None => self.hi()@ < other.lo()@ || other.hi()@ < self.lo()@,
            },
            common is Some ==> self.lo()@ <= other.hi()@ && other.lo()@ <= self.hi()@,
    {
        proof {
            use_type_invariant(&self);
            use_type_invariant(&other);
        }
        let start = if self.start.raw < other.start.raw {
            other.start
        } else {
            self.start
        };
        let end = if self.end.raw < other.end.raw {
            self.end
        } else {
            other.end
        };
        if end.raw < start.raw {
            None
        } else {
            Some(TextRange { start, end })
        }
    }

    /// Move the range down by `offset`, or return `None` when an endpoint is smaller.
    pub fn checked_sub(self, offset: TextSize) -> (moved: Option<Self>)
        ensures
            match moved {
                Some(moved) => moved.lo()@ == self.lo()@ - offset@ && moved.hi()@ == self.hi()@
                    - offset@,
                None => self.lo()@ < offset@,
            },
    {
        proof {
            use_type_invariant(&self);
        }
        if self.start.raw < offset.raw {
            None
        } else {
            Some(
                TextRange {
                    start: TextSize { raw: self.start.raw - offset.raw },
                    end: TextSize { raw: self.end.raw - offset.raw },
                },
            )
        }
    }
}

/// A range has the endpoints that it was made of.
pub broadcast proof fn lemma_range_endpoints(start: TextSize, end: TextSize)
    ensures
        (#[trigger] range_of(start, end)).lo() == start,
        range_of(start, end).hi() == end,
{
}

/// A range is determined by its endpoints.
pub broadcast proof fn lemma_range_determined(range: TextRange)
    ensures
        range == range_of(#[trigger] range.lo(), range.hi()),
{
}

pub broadcast group group_text_range {
    lemma_range_endpoints,
    lemma_range_determined,
}

} // verus!
