//! Validated chunked text views over syntax subtrees.

use vstd::prelude::*;
use vstd::string::StringExecFns;

use crate::calls::Calls;
use crate::cursor;
use crate::cursor::RangeError;
use crate::cursor::SyntaxElement;
use crate::cursor::SyntaxNode;
use crate::cursor_data::Place;
use crate::cursor_traversal;
use crate::model;
use crate::model::Tree;
use crate::text;
use crate::text::TextRange;
use crate::text::TextSize;
use crate::utility_types::NodeOrToken;

verus! {

/// The UTF-8 bytes of the text at a place.
pub open spec fn text_bytes(place: Place) -> Seq<u8> {
    vstd::utf8::encode_utf8(place.tree().text())
}

/// The nearest offset inside a text of a length.
pub open spec fn clamp(offset: int, len: int) -> int {
    if offset < 0 {
        0
    } else if offset > len {
        len
    } else {
        offset
    }
}

/// The part of bytes that begin at an absolute offset that lies between two absolute offsets.
pub open spec fn clip(bytes: Seq<u8>, start: int, low: int, high: int) -> Seq<u8> {
    bytes.subrange(
        clamp(low - start, bytes.len() as int),
        clamp(high - start, bytes.len() as int),
    )
}

/// The part of a token between two absolute offsets, or `None` for a node and for a token that does
/// not touch them.
pub open spec fn chunk_of(place: Place, low: int, high: int) -> Option<Seq<char>> {
    if place.tree() is Token && low <= place.end() && place.start() <= high {
        Some(
            vstd::utf8::decode_utf8(clip(text_bytes(place), place.start() as int, low, high)),
        )
    } else {
        None
    }
}

/// The parts of the tokens among some places between two absolute offsets.
pub open spec fn chunks_of(places: Seq<Place>, low: int, high: int) -> Seq<Seq<char>>
    decreases places.len(),
{
    if places.len() == 0 {
        Seq::empty()
    } else {
        let rest = chunks_of(places.drop_first(), low, high);
        match chunk_of(places[0], low, high) {
            Some(chunk) => seq![chunk] + rest,
            None => rest,
        }
    }
}

/// Texts after one another.
pub open spec fn joined(chunks: Seq<Seq<char>>) -> Seq<char>
    decreases chunks.len(),
{
    if chunks.len() == 0 {
        Seq::empty()
    } else {
        chunks[0] + joined(chunks.drop_first())
    }
}

/// The bytes of the parts of the tokens among some places between two absolute offsets.
spec fn chunk_bytes(places: Seq<Place>, low: int, high: int) -> Seq<u8>
    decreases places.len(),
{
    if places.len() == 0 {
        Seq::empty()
    } else {
        let rest = chunk_bytes(places.drop_first(), low, high);
        if places[0].tree() is Token {
            clip(text_bytes(places[0]), places[0].start() as int, low, high) + rest
        } else {
            rest
        }
    }
}

/// The bytes of places in a row are the bytes of each part of them.
proof fn lemma_chunk_bytes_concat(left: Seq<Place>, right: Seq<Place>, low: int, high: int)
    ensures
        chunk_bytes(left + right, low, high) == chunk_bytes(left, low, high) + chunk_bytes(
            right,
            low,
            high,
        ),
    decreases left.len(),
{
    if left.len() == 0 {
        assert(left + right =~= right);
        assert(chunk_bytes(left, low, high) + chunk_bytes(right, low, high) =~= chunk_bytes(
            right,
            low,
            high,
        ));
    } else {
        assert((left + right).drop_first() =~= left.drop_first() + right);
        lemma_chunk_bytes_concat(left.drop_first(), right, low, high);
        assert(chunk_bytes(left + right, low, high) =~= chunk_bytes(left, low, high)
            + chunk_bytes(right, low, high));
    }
}

/// Cutting a range out of bytes in a row cuts it out of each part.
proof fn lemma_clip_concat(left: Seq<u8>, right: Seq<u8>, start: int, low: int, high: int)
    requires
        low <= high,
    ensures
        clip(left + right, start, low, high) == clip(left, start, low, high) + clip(
            right,
            start + left.len(),
            low,
            high,
        ),
{
    assert(clip(left + right, start, low, high) =~= clip(left, start, low, high) + clip(
        right,
        start + left.len(),
        low,
        high,
    ));
}

/// The tokens of a subtree hold the bytes of a range of its text.
proof fn lemma_subtree_bytes(place: Place, low: int, high: int)
    requires
        place.valid(),
        low <= high,
    ensures
        chunk_bytes(
            cursor_traversal::subtree_places(place, place.tree(), false),
            low,
            high,
        ) == clip(text_bytes(place), place.start() as int, low, high),
    decreases place.tree(), place.tree().children().len() + 1,
{
    let tree = place.tree();
    let below = cursor_traversal::forest_places(place, tree, 0, false);
    assert(cursor_traversal::subtree_places(place, tree, false).drop_first() =~= below);
    lemma_forest_bytes(place, 0, low, high);
    assert(tree.children().skip(0) =~= tree.children());
    match tree {
        Tree::Node { kind, children } => {
            assert(model::offset_in(children, 0) == 0) by {
                assert(children.take(0) =~= Seq::empty());
            }
        },
        Tree::Token { kind, text } => {
            assert(chunk_bytes(below, low, high) =~= Seq::empty());
            let own = clip(text_bytes(place), place.start() as int, low, high);
            assert(own + chunk_bytes(below, low, high) =~= own);
        },
    }
}

/// The tokens of children hold the bytes of a range of their text.
proof fn lemma_forest_bytes(place: Place, index: int, low: int, high: int)
    requires
        place.valid(),
        low <= high,
        0 <= index <= place.tree().children().len(),
    ensures
        chunk_bytes(
            cursor_traversal::forest_places(place, place.tree(), index, false),
            low,
            high,
        ) == clip(
            vstd::utf8::encode_utf8(model::forest_text(place.tree().children().skip(index))),
            (place.start() + model::offset_in(place.tree().children(), index)) as int,
            low,
            high,
        ),
    decreases place.tree(), place.tree().children().len() - index,
{
    let tree = place.tree();
    let trees = tree.children();
    if index < trees.len() {
        let child = place.child(index);
        let rest = model::forest_text(trees.skip(index + 1));
        place.lemma_child(index);
        lemma_subtree_bytes(child, low, high);
        lemma_forest_bytes(place, index + 1, low, high);
        lemma_chunk_bytes_concat(
            cursor_traversal::subtree_places(child, trees[index], false),
            cursor_traversal::forest_places(place, tree, index + 1, false),
            low,
            high,
        );
        model::lemma_forest_text_skip(trees, index);
        model::lemma_encode_concat(trees[index].text(), rest);
        model::lemma_tree_len_is_text_len(trees[index]);
        model::lemma_offset_step(trees, index);
        lemma_clip_concat(
            text_bytes(child),
            vstd::utf8::encode_utf8(rest),
            child.start() as int,
            low,
            high,
        );
    } else {
        assert(model::forest_text(trees.skip(index)) =~= Seq::empty());
        assert(vstd::utf8::encode_utf8(Seq::<char>::empty()).len() == 0);
    }
}

/// A part of valid bytes between two character boundaries is valid, and keeps the boundaries.
proof fn lemma_part_valid(bytes: Seq<u8>, low: int, high: int)
    requires
        vstd::utf8::valid_utf8(bytes),
        0 <= low <= high <= bytes.len(),
        vstd::utf8::is_char_boundary(bytes, low),
        vstd::utf8::is_char_boundary(bytes, high),
    ensures
        vstd::utf8::valid_utf8(bytes.subrange(low, high)),
        forall|offset: int|
            0 <= offset <= high - low ==> (#[trigger] vstd::utf8::is_char_boundary(
                bytes.subrange(low, high),
                offset,
            ) <==> vstd::utf8::is_char_boundary(bytes, low + offset)),
{
    let front = bytes.subrange(0, high);
    let part = bytes.subrange(low, high);
    vstd::utf8::valid_utf8_split(bytes, high);
    vstd::utf8::is_char_boundary_start_end_of_seq(front);
    if low < high {
        vstd::utf8::is_char_boundary_iff_not_is_continuation_byte(bytes, low);
        vstd::utf8::is_char_boundary_iff_not_is_continuation_byte(front, low);
        assert(front[low] == bytes[low]);
    }
    vstd::utf8::valid_utf8_split(front, low);
    assert(front.subrange(low, front.len() as int) =~= part);
    vstd::utf8::is_char_boundary_start_end_of_seq(part);
    assert forall|offset: int| 0 <= offset <= high - low implies (
    #[trigger] vstd::utf8::is_char_boundary(part, offset) <==> vstd::utf8::is_char_boundary(
        bytes,
        low + offset,
    )) by {
        if offset < high - low {
            vstd::utf8::is_char_boundary_iff_not_is_continuation_byte(bytes, low + offset);
            vstd::utf8::is_char_boundary_iff_not_is_continuation_byte(part, offset);
            assert(part[offset] == bytes[low + offset]);
        }
    }
}

/// The bytes of a place stand in the bytes of every place above it.
proof fn lemma_bytes_inside(top: Place, place: Place)
    requires
        cursor_traversal::inside(top, place),
        top.valid(),
    ensures
        top.start() <= place.start(),
        place.end() <= top.end(),
        text_bytes(place) == text_bytes(top).subrange(
            place.start() - top.start(),
            place.end() - top.start(),
        ),
    decreases place.path.len(),
{
    model::lemma_tree_len_is_text_len(place.tree());
    model::lemma_tree_len_is_text_len(top.tree());
    if place.path.len() == top.path.len() {
        assert(place.path.take(top.path.len() as int) =~= place.path);
        assert(place == top);
        assert(text_bytes(place) =~= text_bytes(top).subrange(
            place.start() - top.start(),
            place.end() - top.start(),
        ));
    } else {
        let parent = place.parent();
        let index = place.index();
        place.lemma_valid();
        let trees = parent.tree().children();
        assert(parent.path.take(top.path.len() as int) =~= place.path.take(
            top.path.len() as int,
        ));
        lemma_bytes_inside(top, parent);
        let before = model::forest_text(trees.take(index));
        let later = model::forest_text(trees.skip(index + 1));
        assert(trees =~= trees.take(index) + trees.skip(index));
        model::lemma_forest_text_concat(trees.take(index), trees.skip(index));
        model::lemma_forest_text_skip(trees, index);
        model::lemma_encode_concat(before, place.tree().text() + later);
        model::lemma_encode_concat(place.tree().text(), later);
        model::lemma_forest_len_is_text_len(trees.take(index));
        model::lemma_child_inside(trees, index);
        model::lemma_tree_len_is_text_len(parent.tree());
        let offset = model::offset_in(trees, index) as int;
        assert(text_bytes(parent) == vstd::utf8::encode_utf8(before) + (text_bytes(place)
            + vstd::utf8::encode_utf8(later)));
        assert(text_bytes(place) =~= text_bytes(parent).subrange(
            offset,
            offset + place.tree().len(),
        ));
        assert(text_bytes(place) =~= text_bytes(top).subrange(
            place.start() - top.start(),
            place.end() - top.start(),
        ));
    }
}

/// A character boundary of a text is one of every token that it touches.
proof fn lemma_boundary_inside(top: Place, place: Place, offset: int)
    requires
        cursor_traversal::inside(top, place),
        top.valid(),
        vstd::utf8::is_char_boundary(text_bytes(top), offset - top.start()),
    ensures
        vstd::utf8::is_char_boundary(
            text_bytes(place),
            clamp(offset - place.start(), text_bytes(place).len() as int),
        ),
{
    let bytes = text_bytes(place);
    let whole = text_bytes(top);
    let index = offset - place.start();
    lemma_bytes_inside(top, place);
    model::lemma_tree_len_is_text_len(place.tree());
    model::lemma_tree_len_is_text_len(top.tree());
    vstd::utf8::encode_utf8_valid_utf8(place.tree().text());
    vstd::utf8::encode_utf8_valid_utf8(top.tree().text());
    vstd::utf8::is_char_boundary_start_end_of_seq(bytes);
    if 0 <= index < bytes.len() {
        let upper = offset - top.start();
        vstd::utf8::is_char_boundary_iff_not_is_continuation_byte(bytes, index);
        vstd::utf8::is_char_boundary_iff_not_is_continuation_byte(whole, upper);
        assert(bytes[index] == whole[upper]);
    }
}

/// Two absolute offsets bound a range of characters of the text at a place.
pub open spec fn bounds_text(place: Place, low: int, high: int) -> bool {
    &&& place.start() <= low <= high <= place.end()
    &&& vstd::utf8::is_char_boundary(text_bytes(place), low - place.start())
    &&& vstd::utf8::is_char_boundary(text_bytes(place), high - place.start())
}

/// The characters of the text at a place between two absolute offsets.
pub open spec fn text_between(place: Place, low: int, high: int) -> Seq<char> {
    vstd::utf8::decode_utf8(clip(text_bytes(place), place.start() as int, low, high))
}

/// The part of a token inside a text view consists of whole characters.
pub proof fn lemma_chunk_valid(top: Place, place: Place, low: int, high: int)
    requires
        top.valid(),
        bounds_text(top, low, high),
        cursor_traversal::inside(top, place),
    ensures
        vstd::utf8::valid_utf8(clip(text_bytes(place), place.start() as int, low, high)),
        vstd::utf8::encode_utf8(text_between(place, low, high)) == clip(
            text_bytes(place),
            place.start() as int,
            low,
            high,
        ),
        vstd::utf8::is_char_boundary(
            text_bytes(place),
            clamp(low - place.start(), text_bytes(place).len() as int),
        ),
        vstd::utf8::is_char_boundary(
            text_bytes(place),
            clamp(high - place.start(), text_bytes(place).len() as int),
        ),
{
    let bytes = text_bytes(place);
    vstd::utf8::encode_utf8_valid_utf8(place.tree().text());
    lemma_boundary_inside(top, place, low);
    lemma_boundary_inside(top, place, high);
    lemma_part_valid(
        bytes,
        clamp(low - place.start(), bytes.len() as int),
        clamp(high - place.start(), bytes.len() as int),
    );
    vstd::utf8::decode_utf8_encode_utf8(clip(bytes, place.start() as int, low, high));
}

/// The chunks of places inside a text view have the bytes of the parts.
proof fn lemma_chunks_bytes(top: Place, places: Seq<Place>, low: int, high: int)
    requires
        top.valid(),
        bounds_text(top, low, high),
        forall|i: int| 0 <= i < places.len()
            ==> cursor_traversal::inside(top, #[trigger] places[i]),
    ensures
        vstd::utf8::encode_utf8(joined(chunks_of(places, low, high))) == chunk_bytes(
            places,
            low,
            high,
        ),
    decreases places.len(),
{
    if places.len() > 0 {
        let place = places[0];
        let rest = places.drop_first();
        assert forall|i: int| 0 <= i < rest.len() implies cursor_traversal::inside(
            top,
            #[trigger] rest[i],
        ) by {
            assert(rest[i] == places[i + 1]);
        }
        lemma_chunks_bytes(top, rest, low, high);
        assert(cursor_traversal::inside(top, places[0]));
        lemma_chunk_valid(top, place, low, high);
        let later = chunks_of(rest, low, high);
        if chunk_of(place, low, high) is Some {
            let chunk = chunk_of(place, low, high)->0;
            assert((seq![chunk] + later).drop_first() =~= later);
            model::lemma_encode_concat(chunk, joined(later));
        } else if place.tree() is Token {
            model::lemma_tree_len_is_text_len(place.tree());
            let own = clip(text_bytes(place), place.start() as int, low, high);
            assert(own =~= Seq::empty());
            assert(own + chunk_bytes(rest, low, high) =~= chunk_bytes(rest, low, high));
        }
    }
}

/// The chunks of a text view joined are its text.
pub proof fn lemma_chunks_join(place: Place, low: int, high: int)
    requires
        place.valid(),
        bounds_text(place, low, high),
    ensures
        joined(
            chunks_of(
                cursor_traversal::subtree_places(place, place.tree(), false),
                low,
                high,
            ),
        ) == text_between(place, low, high),
        vstd::utf8::encode_utf8(text_between(place, low, high)) == text_bytes(place).subrange(
            low - place.start(),
            high - place.start(),
        ),
{
    let places = cursor_traversal::subtree_places(place, place.tree(), false);
    assert(place.path.take(place.path.len() as int) =~= place.path);
    cursor_traversal::lemma_subtree_inside(place, place, false);
    lemma_chunks_bytes(place, places, low, high);
    lemma_subtree_bytes(place, low, high);
    lemma_chunk_valid(place, place, low, high);
    model::lemma_tree_len_is_text_len(place.tree());
    vstd::utf8::encode_utf8_decode_utf8(joined(chunks_of(places, low, high)));
}

/// A range-error or caller callback failure while visiting text chunks.
#[derive(Debug)]
pub enum ChunkError<CallbackError> {
    /// An internal or caller-provided range was rejected.
    Range(RangeError),
    /// The caller's callback returned an error.
    Callback(CallbackError),
}

impl<CallbackError> From<RangeError> for ChunkError<CallbackError> {
    fn from(error: RangeError) -> (converted: Self) {
        ChunkError::Range(error)
    }
}

impl<CallbackError> vstd::std_specs::convert::FromSpecImpl<RangeError> for ChunkError<CallbackError> {
    open spec fn obeys_from_spec() -> bool {
        true
    }

    open spec fn from_spec(error: RangeError) -> Self {
        ChunkError::Range(error)
    }
}

/// Why a part of a token cannot be cut out: the endpoint that is not a character boundary, relative
/// to the view.
pub open spec fn boundary_error(
    view_range: TextRange,
    token_range: TextRange,
    token_text: Seq<char>,
    relative: TextRange,
) -> RangeError {
    let rejected = if vstd::utf8::is_char_boundary(
        vstd::utf8::encode_utf8(token_text),
        relative.lo()@ as int,
    ) {
        relative.hi()
    } else {
        relative.lo()
    };
    let absolute = token_range.lo()@ + rejected@;
    if absolute > u32::MAX {
        RangeError::OffsetArithmeticOverflow { base: token_range.lo(), delta: rejected }
    } else if absolute < view_range.lo()@ {
        RangeError::OffsetArithmeticOverflow {
            base: view_range.lo(),
            delta: text::size_of_count(absolute as nat),
        }
    } else {
        RangeError::NotCharBoundary {
            offset: text::size_of_count((absolute - view_range.lo()@) as nat),
        }
    }
}

/// Describe an invalid token substring boundary relative to its syntax-text view.
pub fn invalid_chunk_boundary(
    view_range: TextRange,
    token_range: TextRange,
    token_text: &str,
    relative: TextRange,
) -> (error: RangeError)
    ensures
        error == boundary_error(view_range, token_range, token_text@, relative),
{
    broadcast use text::group_text_range;

    let start: usize = relative.start().to_usize();
    let rejected = if token_text.is_char_boundary(start) {
        relative.end()
    } else {
        relative.start()
    };
    let absolute = match token_range.start().checked_add(rejected) {
        Some(absolute) => absolute,
        None => {
            return RangeError::OffsetArithmeticOverflow {
                base: token_range.start(),
                delta: rejected,
            };
        },
    };
    match absolute.checked_sub(view_range.start()) {
        Some(offset) => RangeError::NotCharBoundary { offset },
        None => RangeError::OffsetArithmeticOverflow { base: view_range.start(), delta: absolute },
    }
}

/// The part of a token text that a view shows, where the ranges touch.
pub open spec fn common_range(view_range: TextRange, token_range: TextRange) -> TextRange {
    let low = if view_range.lo()@ < token_range.lo()@ {
        token_range.lo()
    } else {
        view_range.lo()
    };
    let high = if view_range.hi()@ < token_range.hi()@ {
        view_range.hi()
    } else {
        token_range.hi()
    };
    text::range_of(
        text::size_of_count((low@ - token_range.lo()@) as nat),
        text::size_of_count((high@ - token_range.lo()@) as nat),
    )
}

/// Borrow the validated token substring intersecting a syntax-text view.
pub fn intersecting_chunk<'a>(
    view_range: TextRange,
    token_range: TextRange,
    token_text: &'a str,
) -> (chunk: Result<Option<&'a str>, RangeError>)
    ensures
        ({
            let bytes = vstd::utf8::encode_utf8(token_text@);
            let part = common_range(view_range, token_range);
            let whole = {
                &&& part.hi()@ <= bytes.len()
                &&& vstd::utf8::is_char_boundary(bytes, part.lo()@ as int)
                &&& vstd::utf8::is_char_boundary(bytes, part.hi()@ as int)
            };
            match chunk {
                Ok(None) => view_range.hi()@ < token_range.lo()@ || token_range.hi()@
                    < view_range.lo()@,
                Ok(Some(chunk)) => {
                    &&& view_range.lo()@ <= token_range.hi()@
                    &&& token_range.lo()@ <= view_range.hi()@
                    &&& whole
                    &&& vstd::utf8::encode_utf8(chunk@) == bytes.subrange(
                        part.lo()@ as int,
                        part.hi()@ as int,
                    )
                },
                Err(error) => {
                    &&& view_range.lo()@ <= token_range.hi()@
                    &&& token_range.lo()@ <= view_range.hi()@
                    &&& !whole
                    &&& error == boundary_error(view_range, token_range, token_text@, part)
                },
            }
        }),
{
    broadcast use text::group_text_range;

    let intersection = match view_range.intersect(token_range) {
        Some(intersection) => intersection,
        None => {
            return Ok(None);
        },
    };
    let relative = match intersection.checked_sub(token_range.start()) {
        Some(relative) => relative,
        None => {
            return Err(
                RangeError::OffsetArithmeticOverflow {
                    base: token_range.start(),
                    delta: intersection.start(),
                },
            );
        },
    };
    let ghost bytes = vstd::utf8::encode_utf8(token_text@);
    let start: usize = relative.start().to_usize();
    let end: usize = relative.end().to_usize();
    assert(relative == common_range(view_range, token_range));
    if !token_text.is_char_boundary(start) || !token_text.is_char_boundary(end) {
        return Err(invalid_chunk_boundary(view_range, token_range, token_text, relative));
    }
    proof {
        vstd::utf8::encode_utf8_valid_utf8(token_text@);
        lemma_boundary_bounded(bytes, end as int);
        lemma_part_valid(bytes, 0, end as int);
    }
    let front = token_text.split_at(end).0;
    assert(vstd::utf8::is_char_boundary(vstd::utf8::encode_utf8(front@), start as int));
    let chunk = front.split_at(start).1;
    assert(vstd::utf8::encode_utf8(chunk@) =~= bytes.subrange(start as int, end as int));
    Ok(Some(chunk))
}

/// A character boundary lies inside the bytes.
proof fn lemma_boundary_bounded(bytes: Seq<u8>, index: int)
    requires
        vstd::utf8::valid_utf8(bytes),
        vstd::utf8::is_char_boundary(bytes, index),
    ensures
        0 <= index <= bytes.len(),
        vstd::utf8::is_char_boundary(bytes, 0),
{
}

/// Range vocabulary accepted by [`SyntaxText::slice`].
pub trait SyntaxTextRange {
    /// Optional inclusive start offset relative to the text view.
    fn start(&self) -> (offset: Option<TextSize>);

    /// Optional exclusive end offset relative to the text view.
    fn end(&self) -> (offset: Option<TextSize>);
}

/// A range gives its optional endpoints.
pub open spec fn range_given<RangeType: SyntaxTextRange>(
    range: RangeType,
    start: Option<TextSize>,
    end: Option<TextSize>,
) -> bool {
    &&& call_ensures(RangeType::start, (&range,), start)
    &&& call_ensures(RangeType::end, (&range,), end)
}

impl SyntaxTextRange for TextRange {
    fn start(&self) -> (offset: Option<TextSize>)
        ensures
            offset == Some(self.lo()),
    {
        Some(TextRange::start(*self))
    }

    fn end(&self) -> (offset: Option<TextSize>)
        ensures
            offset == Some(self.hi()),
    {
        Some(TextRange::end(*self))
    }
}

impl SyntaxTextRange for std::ops::Range<TextSize> {
    fn start(&self) -> (offset: Option<TextSize>)
        ensures
            offset == Some(self.start),
    {
        Some(self.start)
    }

    fn end(&self) -> (offset: Option<TextSize>)
        ensures
            offset == Some(self.end),
    {
        Some(self.end)
    }
}

impl SyntaxTextRange for std::ops::RangeFrom<TextSize> {
    fn start(&self) -> (offset: Option<TextSize>)
        ensures
            offset == Some(self.start),
    {
        Some(self.start)
    }

    fn end(&self) -> (offset: Option<TextSize>)
        ensures
            offset == None::<TextSize>,
    {
        None
    }
}

impl SyntaxTextRange for std::ops::RangeTo<TextSize> {
    fn start(&self) -> (offset: Option<TextSize>)
        ensures
            offset == None::<TextSize>,
    {
        None
    }

    fn end(&self) -> (offset: Option<TextSize>)
        ensures
            offset == Some(self.end),
    {
        Some(self.end)
    }
}

impl SyntaxTextRange for std::ops::RangeFull {
    fn start(&self) -> (offset: Option<TextSize>)
        ensures
            offset == None::<TextSize>,
    {
        None
    }

    fn end(&self) -> (offset: Option<TextSize>)
        ensures
            offset == None::<TextSize>,
    {
        None
    }
}

/// A validated, possibly cross-token text view.
pub struct SyntaxText {
    /// Subtree owning every token referenced by this view.
    node: SyntaxNode,
    /// Absolute validated source range.
    range: TextRange,
}

impl View for SyntaxText {
    type V = Seq<char>;

    /// The text that the view shows.
    open spec fn view(&self) -> Seq<char> {
        text_between(self.place(), self.low(), self.high())
    }
}

impl SyntaxText {
    /// The place of the subtree that the view lies in.
    pub closed spec fn place(self) -> Place {
        self.node.place()
    }

    /// The absolute offset at which the view begins.
    pub closed spec fn low(self) -> int {
        self.range.lo()@ as int
    }

    /// The absolute offset behind the view.
    pub closed spec fn high(self) -> int {
        self.range.hi()@ as int
    }

    /// The view begins and ends between characters of its subtree.
    #[verifier::type_invariant]
    pub open spec fn valid(self) -> bool {
        &&& self.place().valid()
        &&& bounds_text(self.place(), self.low(), self.high())
    }

    /// The UTF-8 bytes of the view.
    pub open spec fn bytes(self) -> Seq<u8> {
        vstd::utf8::encode_utf8(self@)
    }

    /// The chunks of the view: for each token that touches it, in source order, the part inside it.
    pub open spec fn chunks(self) -> Seq<Seq<char>> {
        chunks_of(
            cursor_traversal::subtree_places(self.place(), self.place().tree(), false),
            self.low(),
            self.high(),
        )
    }

    /// What holds of every view.
    pub proof fn lemma_valid(self)
        requires
            self.valid(),
        ensures
            joined(self.chunks()) == self@,
            self.bytes().len() == self.high() - self.low(),
            self.bytes() == text_bytes(self.place()).subrange(
                self.low() - self.place().start(),
                self.high() - self.place().start(),
            ),
            forall|offset: int|
                0 <= offset <= self.bytes().len() ==> (#[trigger] vstd::utf8::is_char_boundary(
                    self.bytes(),
                    offset,
                ) <==> vstd::utf8::is_char_boundary(
                    text_bytes(self.place()),
                    self.low() - self.place().start() + offset,
                )),
    {
        let place = self.place();
        lemma_chunks_join(place, self.low(), self.high());
        model::lemma_tree_len_is_text_len(place.tree());
        vstd::utf8::encode_utf8_valid_utf8(place.tree().text());
        lemma_part_valid(
            text_bytes(place),
            self.low() - place.start(),
            self.high() - place.start(),
        );
    }

    /// Create a whole-subtree text view.
    pub(crate) fn new(node: SyntaxNode) -> (view: Self)
        ensures
            view.place() == node.place(),
            view.low() == node.place().start(),
            view.high() == node.place().end(),
            view@ == node.place().tree().text(),
    {
        proof {
            use_type_invariant(&node);
            node.lemma_valid();
            let tree = node.place().tree();
            vstd::utf8::encode_utf8_valid_utf8(tree.text());
            vstd::utf8::is_char_boundary_start_end_of_seq(text_bytes(node.place()));
            model::lemma_tree_len_is_text_len(tree);
            vstd::utf8::encode_utf8_decode_utf8(tree.text());
            assert(clip(
                text_bytes(node.place()),
                node.place().start() as int,
                node.place().start() as int,
                node.place().end() as int,
            ) =~= text_bytes(node.place()));
        }
        let range = node.text_range();
        SyntaxText { node, range }
    }

    /// Return this view's UTF-8 byte length.
    pub fn len(&self) -> (len: TextSize)
        ensures
            len@ == self.bytes().len(),
            len@ == self.high() - self.low(),
    {
        proof {
            use_type_invariant(self);
            self.lemma_valid();
        }
        self.range.len()
    }

    /// Test whether this view is empty.
    pub fn is_empty(&self) -> (empty: bool)
        ensures
            empty == (self@.len() == 0),
    {
        proof {
            use_type_invariant(self);
            self.lemma_valid();
            lemma_no_bytes(self@);
        }
        self.range.is_empty()
    }

    /// Test whether this view contains `character`.
    pub fn contains_char(&self, character: char) -> (found: Result<bool, RangeError>)
        ensures
            found == Ok::<bool, RangeError>(self@.contains(character)),
    {
        match self.find_char(character) {
            Ok(offset) => Ok(offset.is_some()),
            Err(error) => Err(error),
        }
    }

    /// Find the first relative UTF-8 byte offset of `character`.
    pub fn find_char(&self, character: char) -> (found: Result<Option<TextSize>, RangeError>)
        ensures
            match found {
                Ok(Some(offset)) => exists|index: int| #[trigger]
                    first_at(self@, character, index) && offset@ == vstd::utf8::encode_utf8(
                        self@.take(index),
                    ).len(),
                Ok(None) => !self@.contains(character),
                Err(_) => false,
            },
            found matches Ok(Some(_)) ==> self@.contains(character),
            forall|j: int|
                #![trigger self@[j]]
                0 <= j < self@.len() && self@[j] == character ==> (found matches Ok(Some(offset))
                    && offset@ <= vstd::utf8::encode_utf8(self@.take(j)).len()),
            found matches Ok(Some(offset)) ==> exists|j: int|
                0 <= j < self@.len() && #[trigger] self@[j] == character && offset@
                    == vstd::utf8::encode_utf8(self@.take(j)).len(),
    {
        let owned = match self.validated_string() {
            Ok(owned) => owned,
            Err(error) => {
                return Err(error);
            },
        };
        proof {
            use_type_invariant(self);
            self.lemma_valid();
        }
        let ghost whole = self@;
        let mut characters = owned.as_str().chars();
        let mut byte_index: usize = 0;
        let ghost mut passed: int = 0;
        assert(whole.skip(0) =~= whole);
        assert(whole.take(0) =~= Seq::empty());
        loop
            invariant
                0 <= passed <= whole.len(),
                whole == self@,
                whole.skip(passed) == vstd::std_specs::iter::IteratorSpec::remaining(&characters),
                vstd::std_specs::iter::IteratorSpec::obeys_prophetic_iter_laws(&characters),
                vstd::std_specs::iter::IteratorSpec::decrease(&characters) is Some,
                byte_index == vstd::utf8::encode_utf8(whole.take(passed)).len(),
                vstd::utf8::encode_utf8(whole).len() == self.high() - self.low(),
                self.high() - self.low() <= u32::MAX,
                !whole.take(passed).contains(character),
            decreases whole.len() - passed,
        {
            match characters.next() {
                Some(next) => {
                    proof {
                        assert(whole.skip(passed)[0] == whole[passed]);
                        assert(whole.skip(passed).drop_first() =~= whole.skip(passed + 1));
                        assert(whole =~= whole.take(passed) + seq![next] + whole.skip(passed + 1));
                        assert(whole.take(passed + 1) =~= whole.take(passed) + seq![next]);
                        model::lemma_encode_concat(whole.take(passed), seq![next]);
                        model::lemma_encode_concat(whole.take(passed + 1), whole.skip(passed + 1));
                        assert(whole =~= whole.take(passed + 1) + whole.skip(passed + 1));
                    }
                    if next == character {
                        assert(first_at(whole, character, passed));
                        assert forall|j: int|
                            #![trigger self@[j]]
                            0 <= j < self@.len() && self@[j] == character implies byte_index
                            <= vstd::utf8::encode_utf8(self@.take(j)).len() by {
                            if j < passed {
                                assert(whole.take(passed)[j] == character);
                            } else if passed < j {
                                lemma_prefix_bytes(whole, passed, j);
                            }
                        }
                        return match TextSize::from_usize(byte_index) {
                            Some(offset) => Ok(Some(offset)),
                            None => Err(
                                RangeError::OffsetArithmeticOverflow {
                                    base: TextSize { raw: 0 },
                                    delta: self.len(),
                                },
                            ),
                        };
                    }
                    byte_index += utf8_width(next);
                    proof {
                        let taken = whole.take(passed + 1);
                        assert forall|i: int| 0 <= i < taken.len() implies (#[trigger] taken[i])
                            != character by {
                            if i < passed {
                                assert(whole.take(passed)[i] == taken[i]);
                            }
                        }
                        passed = passed + 1;
                    }
                },
                None => {
                    assert(whole.skip(passed).len() == 0);
                    assert(whole.take(passed) =~= whole);
                    return Ok(None);
                },
            }
        }
    }

    /// Return the character beginning at a relative UTF-8 byte offset.
    ///
    /// The offset behind the view gives `Ok(None)`.
    pub fn char_at(&self, offset: TextSize) -> (found: Result<Option<char>, RangeError>)
        ensures
            match found {
                Ok(Some(character)) => {
                    &&& offset@ < self.bytes().len()
                    &&& vstd::utf8::is_char_boundary(self.bytes(), offset@ as int)
                    &&& exists|index: int|
                        0 <= index < self@.len() && character == self@[index] && offset@
                            == #[trigger] vstd::utf8::encode_utf8(self@.take(index)).len()
                },
                Ok(None) => offset@ == self.bytes().len(),
                Err(RangeError::OffsetOutOfBounds { offset: rejected, valid }) => {
                    &&& offset@ > self.bytes().len()
                    &&& rejected == offset
                    &&& valid.lo()@ == 0
                    &&& valid.hi()@ == self.bytes().len()
                },
                Err(error) => {
                    &&& error == (RangeError::NotCharBoundary { offset })
                    &&& offset@ < self.bytes().len()
                    &&& !vstd::utf8::is_char_boundary(self.bytes(), offset@ as int)
                },
            },
    {
        broadcast use text::group_text_range;

        let valid = TextRange::up_to(self.len());
        if offset.raw > self.len().raw {
            return Err(RangeError::OffsetOutOfBounds { offset, valid });
        }
        if offset.raw == self.len().raw {
            return Ok(None);
        }
        let owned = match self.validated_string() {
            Ok(owned) => owned,
            Err(error) => {
                return Err(error);
            },
        };
        let byte_index: usize = offset.to_usize();
        if !owned.as_str().is_char_boundary(byte_index) {
            return Err(RangeError::NotCharBoundary { offset });
        }
        let (front, suffix) = owned.as_str().split_at(byte_index);
        proof {
            let bytes = self.bytes();
            vstd::utf8::encode_utf8_valid_utf8(self@);
            vstd::utf8::encode_utf8_decode_utf8(self@);
            vstd::utf8::decode_utf8_split(bytes, byte_index as int);
            vstd::utf8::encode_utf8_decode_utf8(front@);
            vstd::utf8::encode_utf8_decode_utf8(suffix@);
            assert(self@ =~= front@ + suffix@);
            lemma_no_bytes(suffix@);
            assert(self@.take(front@.len() as int) =~= front@);
            assert(suffix@[0] == self@[front@.len() as int]);
        }
        let mut characters = suffix.chars();
        Ok(characters.next())
    }

    /// Materialize a validated string for character-oriented operations.
    fn validated_string(&self) -> (owned: Result<String, RangeError>)
        ensures
            owned matches Ok(owned) && owned@ == self@,
    {
        let elements = self.node.descendants_with_tokens();
        let mut owned = String::new();
        let count: usize = elements.len();
        let mut index: usize = 0;
        let ghost places = cursor_traversal::subtree_places(
            self.place(),
            self.place().tree(),
            false,
        );
        proof {
            use_type_invariant(self);
            self.lemma_valid();
            assert(elements@.len() == places.len());
            assert(places.skip(0) =~= places);
            assert(owned@ + joined(self.chunks()) =~= self@);
        }
        while index < count
            invariant
                index <= count,
                count == elements@.len(),
                self.valid(),
                places == cursor_traversal::subtree_places(
                    self.place(),
                    self.place().tree(),
                    false,
                ),
                elements@.map_values(|element: SyntaxElement| cursor::element_place(element))
                    == places,
                count == places.len(),
                owned@ + joined(chunks_of(places.skip(index as int), self.low(), self.high()))
                    == self@,
            decreases count - index,
        {
            let ghost before = owned@;
            let ghost rest = chunks_of(places.skip(index + 1), self.low(), self.high());
            match self.chunk_in(&elements, index) {
                Ok(Some(chunk)) => {
                    owned.append(chunk);
                    proof {
                        assert((seq![chunk@] + rest).drop_first() =~= rest);
                        assert(before + (chunk@ + joined(rest)) =~= before + chunk@ + joined(rest));
                    }
                },
                Ok(None) => {},
                Err(error) => {
                    return Err(error);
                },
            }
            index += 1;
        }
        proof {
            assert(places.skip(index as int).len() == 0);
            assert(owned@ + Seq::<char>::empty() =~= owned@);
        }
        Ok(owned)
    }

    /// Cut out the part of a descendant that the view shows.
    fn chunk_in<'a>(&self, elements: &'a Vec<SyntaxElement>, index: usize) -> (chunk: Result<
        Option<&'a str>,
        RangeError,
    >)
        requires
            index < elements@.len(),
            elements@.map_values(|element: SyntaxElement| cursor::element_place(element))
                == cursor_traversal::subtree_places(self.place(), self.place().tree(), false),
        ensures
            ({
                let places = cursor_traversal::subtree_places(
                    self.place(),
                    self.place().tree(),
                    false,
                );
                let all = chunks_of(places.skip(index as int), self.low(), self.high());
                let rest = chunks_of(places.skip(index + 1), self.low(), self.high());
                match chunk {
                    Ok(Some(chunk)) => all == seq![chunk@] + rest,
                    Ok(None) => all == rest,
                    Err(_) => false,
                }
            }),
    {
        let ghost places = cursor_traversal::subtree_places(
            self.place(),
            self.place().tree(),
            false,
        );
        let ghost top = self.place();
        proof {
            use_type_invariant(self);
            assert(top.path.take(top.path.len() as int) =~= top.path);
            cursor_traversal::lemma_subtree_inside(top, top, false);
            assert(cursor::element_place(elements@[index as int]) == places[index as int]);
            assert(places.skip(index as int).drop_first() =~= places.skip(index + 1));
            assert(places.skip(index as int)[0] == places[index as int]);
        }
        match &elements[index] {
            NodeOrToken::Node(node) => {
                proof {
                    use_type_invariant(node);
                    node.lemma_valid();
                }
                Ok(None)
            },
            NodeOrToken::Token(token) => {
                proof {
                    use_type_invariant(token);
                    token.lemma_valid();
                    lemma_chunk_valid(top, token.place(), self.low(), self.high());
                    model::lemma_tree_len_is_text_len(token.place().tree());
                }
                let chunk = intersecting_chunk(self.range, token.text_range(), token.text());
                proof {
                    broadcast use text::group_text_range;

                    if chunk is Ok && chunk->Ok_0 is Some {
                        vstd::utf8::encode_utf8_decode_utf8(chunk->Ok_0->0@);
                    }
                }
                chunk
            },
        }
    }
}

/// A character stands at an index and nowhere before it.
pub open spec fn first_at(whole: Seq<char>, character: char, index: int) -> bool {
    &&& 0 <= index < whole.len()
    &&& whole[index] == character
    &&& !whole.take(index).contains(character)
}

/// Only the empty text has no bytes.
proof fn lemma_no_bytes(whole: Seq<char>)
    ensures
        vstd::utf8::encode_utf8(whole).len() == 0 <==> whole.len() == 0,
{
}

/// Return the number of UTF-8 bytes of a character.
pub(crate) fn utf8_width(character: char) -> (width: usize)
    ensures
        width == vstd::utf8::encode_utf8(seq![character]).len(),
        1 <= width <= 4,
{
    let scalar: u32 = character as u32;
    proof {
        reveal_with_fuel(vstd::utf8::encode_utf8, 2);
        assert(seq![character].drop_first() =~= Seq::<char>::empty());
    }
    if scalar <= 0x7F {
        1
    } else if scalar <= 0x7FF {
        2
    } else if scalar <= 0xFFFF {
        3
    } else {
        4
    }
}

/// The offset at which a range begins in a view.
pub open spec fn slice_start(start: Option<TextSize>) -> int {
    match start {
        Some(start) => start@ as int,
        None => 0,
    }
}

/// The offset at which a range ends in a view of a length.
pub open spec fn slice_end(end: Option<TextSize>, len: nat) -> int {
    match end {
        Some(end) => end@ as int,
        None => len as int,
    }
}

/// The outcome of taking the part of a view between two relative offsets.
pub open spec fn sliced(
    whole: SyntaxText,
    start: int,
    end: int,
    outcome: Result<SyntaxText, RangeError>,
) -> bool {
    let len = whole.bytes().len();
    match outcome {
        Ok(part) => {
            &&& 0 <= start <= end <= len
            &&& vstd::utf8::is_char_boundary(whole.bytes(), start)
            &&& vstd::utf8::is_char_boundary(whole.bytes(), end)
            &&& part.place() == whole.place()
            &&& part.low() == whole.low() + start
            &&& part.high() == whole.low() + end
            &&& part.bytes() == whole.bytes().subrange(start, end)
        },
        Err(RangeError::ReversedRange { start: first, end: beyond }) => {
            &&& start > end
            &&& first@ == start
            &&& beyond@ == end
        },
        Err(RangeError::RangeOutOfBounds { requested, valid }) => {
            &&& start <= end
            &&& end > len
            &&& requested.lo()@ == start
            &&& requested.hi()@ == end
            &&& valid.lo()@ == 0
            &&& valid.hi()@ == len
        },
        Err(RangeError::NotCharBoundary { offset }) => {
            &&& start <= end <= len
            &&& !vstd::utf8::is_char_boundary(whole.bytes(), offset@ as int)
            &&& offset@ == start || offset@ == end && vstd::utf8::is_char_boundary(
                whole.bytes(),
                start,
            )
        },
        Err(_) => false,
    }
}

/// One call of a callback on a chunk.
pub open spec fn chunk_called<
    Accumulator,
    CallbackError,
    Callback: FnMut(Accumulator, &str) -> Result<Accumulator, CallbackError>,
>(
    callback: Callback,
    accumulator: Accumulator,
    chunk: &str,
    outcome: Result<Accumulator, CallbackError>,
) -> bool {
    callback.ensures((accumulator, chunk), outcome)
}

/// Folding chunks from the left: the callback is called on each chunk with what the call before
/// returned, until it fails.
pub open spec fn folds<
    Accumulator,
    CallbackError,
    Callback: FnMut(Accumulator, &str) -> Result<Accumulator, CallbackError>,
>(
    callback: Callback,
    initial: Accumulator,
    chunks: Seq<Seq<char>>,
    outcome: Result<Accumulator, ChunkError<CallbackError>>,
) -> bool
    decreases chunks.len(),
{
    if chunks.len() == 0 {
        outcome == Ok::<Accumulator, ChunkError<CallbackError>>(initial)
    } else {
        exists|chunk: &str, step: Result<Accumulator, CallbackError>|
            {
                &&& #[trigger] chunk_called(callback, initial, chunk, step)
                &&& chunk@ == chunks[0]
                &&& match step {
                    Ok(next) => folds(callback, next, chunks.drop_first(), outcome),
                    Err(error) => outcome == Err::<Accumulator, ChunkError<CallbackError>>(
                        ChunkError::Callback(error),
                    ),
                }
            }
    }
}

/// One call of a visitor on a chunk.
pub open spec fn chunk_visited<
    CallbackError,
    Callback: FnMut(&str) -> Result<(), CallbackError>,
>(callback: Callback, chunk: &str, outcome: Result<(), CallbackError>) -> bool {
    callback.ensures((chunk,), outcome)
}

/// Visiting chunks from the left: the callback is called on each chunk until it fails.
pub open spec fn visits<CallbackError, Callback: FnMut(&str) -> Result<(), CallbackError>>(
    callback: Callback,
    chunks: Seq<Seq<char>>,
    outcome: Result<(), ChunkError<CallbackError>>,
) -> bool
    decreases chunks.len(),
{
    if chunks.len() == 0 {
        outcome == Ok::<(), ChunkError<CallbackError>>(())
    } else {
        exists|chunk: &str, step: Result<(), CallbackError>|
            {
                &&& #[trigger] chunk_visited(callback, chunk, step)
                &&& chunk@ == chunks[0]
                &&& match step {
                    Ok(_) => visits(callback, chunks.drop_first(), outcome),
                    Err(error) => outcome == Err::<(), ChunkError<CallbackError>>(
                        ChunkError::Callback(error),
                    ),
                }
            }
    }
}

/// One call of a callback that cannot fail on a chunk.
pub open spec fn chunk_seen<Callback: FnMut(&str)>(callback: Callback, chunk: &str) -> bool {
    callback.ensures((chunk,), ())
}

/// A callback was called on a text.
pub open spec fn was_seen<Callback: FnMut(&str)>(callback: Callback, seen: Seq<char>) -> bool {
    exists|chunk: &str| #[trigger] chunk_seen(callback, chunk) && chunk@ == seen
}

impl SyntaxText {
    /// Create a validated subview using offsets relative to this view.
    pub fn slice<RangeType: SyntaxTextRange>(&self, range: RangeType) -> (part: Result<
        Self,
        RangeError,
    >)
        ensures
            exists|start: Option<TextSize>, end: Option<TextSize>| #[trigger]
                range_given(range, start, end) && sliced(
                    *self,
                    slice_start(start),
                    slice_end(end, self.bytes().len()),
                    part,
                ),
    {
        broadcast use text::group_text_range;

        proof {
            use_type_invariant(self);
            self.lemma_valid();
            vstd::utf8::encode_utf8_valid_utf8(self@);
        }
        let given_start = range.start();
        let given_end = range.end();
        assert(range_given(range, given_start, given_end));
        let start = match given_start {
            Some(start) => start,
            None => TextSize { raw: 0 },
        };
        let end = match given_end {
            Some(end) => end,
            None => self.len(),
        };
        if start.raw > end.raw {
            return Err(RangeError::ReversedRange { start, end });
        }
        let valid = TextRange::up_to(self.len());
        if end.raw > self.len().raw {
            return Err(
                RangeError::RangeOutOfBounds { requested: TextRange::new(start, end), valid },
            );
        }
        let owned = match self.validated_string() {
            Ok(owned) => owned,
            Err(error) => {
                return Err(error);
            },
        };
        if !owned.as_str().is_char_boundary(start.to_usize()) {
            return Err(RangeError::NotCharBoundary { offset: start });
        }
        if !owned.as_str().is_char_boundary(end.to_usize()) {
            return Err(RangeError::NotCharBoundary { offset: end });
        }
        proof {
            self.place().lemma_valid();
        }
        let absolute_start = match self.range.start().checked_add(start) {
            Some(absolute) => absolute,
            None => {
                return Err(
                    RangeError::OffsetArithmeticOverflow {
                        base: self.range.start(),
                        delta: start,
                    },
                );
            },
        };
        let absolute_end = match self.range.start().checked_add(end) {
            Some(absolute) => absolute,
            None => {
                return Err(
                    RangeError::OffsetArithmeticOverflow { base: self.range.start(), delta: end },
                );
            },
        };
        let part = SyntaxText {
            node: self.node.clone(),
            range: TextRange::new(absolute_start, absolute_end),
        };
        proof {
            part.lemma_valid();
            let bytes = text_bytes(self.place());
            let base = self.low() - self.place().start();
            model::lemma_tree_len_is_text_len(self.place().tree());
            assert(part.low() == self.low() + start@ && part.high() == self.low() + end@);
            assert(part.bytes() == bytes.subrange(base + start@, base + end@));
            assert(self.bytes() == bytes.subrange(base, self.high() - self.place().start()));
            assert(part.bytes() =~= self.bytes().subrange(start@ as int, end@ as int));
        }
        Ok(part)
    }

    /// Fold every non-overlapping token chunk intersecting this view.
    pub fn try_fold_chunks<
        Accumulator,
        CallbackError,
        Callback: FnMut(Accumulator, &str) -> Result<Accumulator, CallbackError>,
    >(&self, initial: Accumulator, callback: Callback) -> (folded: Result<
        Accumulator,
        ChunkError<CallbackError>,
    >)
        requires
            forall|accumulator: Accumulator, chunk: &str|
                callback.requires((accumulator, chunk)),
        ensures
            folds(callback, initial, self.chunks(), folded),
            exists|calls: Calls<Callback>|
                #[trigger] call_ensures(
                    SyntaxText::fold_chunks::<Accumulator, CallbackError, Callback>,
                    (self, initial, callback),
                    (calls, folded),
                ) && calls.callback() == callback && if folded is Ok {
                    calls.made() == self.chunks()
                } else {
                    0 < calls.made().len() <= self.chunks().len() && calls.made()
                        == self.chunks().take(calls.made().len() as int)
                },
    {
        let (calls, folded) = self.fold_chunks(initial, callback);
        assert(call_ensures(
            SyntaxText::fold_chunks::<Accumulator, CallbackError, Callback>,
            (self, initial, callback),
            (calls, folded),
        ));
        folded
    }

    /// Fold the chunks of this view and give the record of the calls back.
    pub fn fold_chunks<
        Accumulator,
        CallbackError,
        Callback: FnMut(Accumulator, &str) -> Result<Accumulator, CallbackError>,
    >(&self, initial: Accumulator, callback: Callback) -> (folded: (
        Calls<Callback>,
        Result<Accumulator, ChunkError<CallbackError>>,
    ))
        requires
            forall|accumulator: Accumulator, chunk: &str|
                callback.requires((accumulator, chunk)),
        ensures
            folds(callback, initial, self.chunks(), folded.1),
            folded.0.callback() == callback,
            if folded.1 is Ok {
                folded.0.made() == self.chunks()
            } else {
                0 < folded.0.made().len() <= self.chunks().len() && folded.0.made()
                    == self.chunks().take(folded.0.made().len() as int)
            },
    {
        let elements = self.node.descendants_with_tokens();
        let count: usize = elements.len();
        let mut index: usize = 0;
        let mut accumulator = initial;
        let mut calls = Calls::new(callback);
        let ghost places = cursor_traversal::subtree_places(
            self.place(),
            self.place().tree(),
            false,
        );
        proof {
            assert(elements@.len() == places.len());
            assert(places.skip(0) =~= places);
            assert(calls.made() + self.chunks() =~= self.chunks());
        }
        while index < count
            invariant
                index <= count,
                count == elements@.len(),
                calls.callback() == callback,
                calls.made() + chunks_of(places.skip(index as int), self.low(), self.high())
                    == self.chunks(),
                forall|accumulator: Accumulator, chunk: &str|
                    callback.requires((accumulator, chunk)),
                places == cursor_traversal::subtree_places(
                    self.place(),
                    self.place().tree(),
                    false,
                ),
                elements@.map_values(|element: SyntaxElement| cursor::element_place(element))
                    == places,
                count == places.len(),
                forall|outcome: Result<Accumulator, ChunkError<CallbackError>>| #[trigger]
                    folds(
                        callback,
                        accumulator,
                        chunks_of(places.skip(index as int), self.low(), self.high()),
                        outcome,
                    ) ==> folds(callback, initial, self.chunks(), outcome),
            decreases count - index,
        {
            let ghost all = chunks_of(places.skip(index as int), self.low(), self.high());
            let ghost rest = chunks_of(places.skip(index + 1), self.low(), self.high());
            let ghost before = accumulator;
            let ghost earlier = calls.made();
            match self.chunk_in(&elements, index) {
                Ok(Some(chunk)) => {
                    let step = calls.fold(accumulator, chunk);
                    proof {
                        assert(chunk_called(callback, before, chunk, step));
                        assert((seq![chunk@] + rest).drop_first() =~= rest);
                        assert(earlier + (seq![chunk@] + rest) =~= calls.made() + rest);
                    }
                    match step {
                        Ok(next) => {
                            proof {
                                assert forall|
                                    outcome: Result<Accumulator, ChunkError<CallbackError>>,
                                | #[trigger]
                                    folds(callback, next, rest, outcome) implies folds(
                                    callback,
                                    initial,
                                    self.chunks(),
                                    outcome,
                                ) by {
                                    assert(folds(callback, before, all, outcome));
                                }
                            }
                            accumulator = next;
                        },
                        Err(error) => {
                            let outcome = Err(ChunkError::Callback(error));
                            assert(folds(callback, before, all, outcome));
                            assert(self.chunks().take(calls.made().len() as int) =~= calls.made());
                            return (calls, outcome);
                        },
                    }
                },
                Ok(None) => {},
                Err(error) => {
                    return (calls, Err(ChunkError::Range(error)));
                },
            }
            index += 1;
        }
        let outcome = Ok(accumulator);
        proof {
            assert(places.skip(index as int).len() == 0);
            assert(calls.made() =~= self.chunks());
            assert(folds(
                callback,
                accumulator,
                chunks_of(places.skip(index as int), self.low(), self.high()),
                outcome,
            ));
        }
        (calls, outcome)
    }

    /// Visit every non-overlapping token chunk intersecting this view.
    pub fn try_for_each_chunk<CallbackError, Callback: FnMut(&str) -> Result<(), CallbackError>>(
        &self,
        callback: Callback,
    ) -> (visited: Result<(), ChunkError<CallbackError>>)
        requires
            forall|chunk: &str| callback.requires((chunk,)),
        ensures
            visits(callback, self.chunks(), visited),
            exists|calls: Calls<Callback>|
                #[trigger] call_ensures(
                    SyntaxText::try_visit_chunks::<CallbackError, Callback>,
                    (self, callback),
                    (calls, visited),
                ) && calls.callback() == callback && if visited is Ok {
                    calls.made() == self.chunks()
                } else {
                    0 < calls.made().len() <= self.chunks().len() && calls.made()
                        == self.chunks().take(calls.made().len() as int)
                },
    {
        let (calls, visited) = self.try_visit_chunks(callback);
        assert(call_ensures(
            SyntaxText::try_visit_chunks::<CallbackError, Callback>,
            (self, callback),
            (calls, visited),
        ));
        visited
    }

    /// Visit the chunks of this view until a call fails and give the record of the calls back.
    pub fn try_visit_chunks<CallbackError, Callback: FnMut(&str) -> Result<(), CallbackError>>(
        &self,
        callback: Callback,
    ) -> (visited: (Calls<Callback>, Result<(), ChunkError<CallbackError>>))
        requires
            forall|chunk: &str| callback.requires((chunk,)),
        ensures
            visits(callback, self.chunks(), visited.1),
            visited.0.callback() == callback,
            if visited.1 is Ok {
                visited.0.made() == self.chunks()
            } else {
                0 < visited.0.made().len() <= self.chunks().len() && visited.0.made()
                    == self.chunks().take(visited.0.made().len() as int)
            },
    {
        let elements = self.node.descendants_with_tokens();
        let count: usize = elements.len();
        let mut index: usize = 0;
        let mut calls = Calls::new(callback);
        let ghost places = cursor_traversal::subtree_places(
            self.place(),
            self.place().tree(),
            false,
        );
        proof {
            assert(elements@.len() == places.len());
            assert(places.skip(0) =~= places);
            assert(calls.made() + self.chunks() =~= self.chunks());
        }
        while index < count
            invariant
                index <= count,
                count == elements@.len(),
                calls.callback() == callback,
                calls.made() + chunks_of(places.skip(index as int), self.low(), self.high())
                    == self.chunks(),
                forall|chunk: &str| callback.requires((chunk,)),
                places == cursor_traversal::subtree_places(
                    self.place(),
                    self.place().tree(),
                    false,
                ),
                elements@.map_values(|element: SyntaxElement| cursor::element_place(element))
                    == places,
                count == places.len(),
                forall|outcome: Result<(), ChunkError<CallbackError>>| #[trigger]
                    visits(
                        callback,
                        chunks_of(places.skip(index as int), self.low(), self.high()),
                        outcome,
                    ) ==> visits(callback, self.chunks(), outcome),
            decreases count - index,
        {
            let ghost all = chunks_of(places.skip(index as int), self.low(), self.high());
            let ghost rest = chunks_of(places.skip(index + 1), self.low(), self.high());
            let ghost earlier = calls.made();
            match self.chunk_in(&elements, index) {
                Ok(Some(chunk)) => {
                    let step = calls.call(chunk);
                    proof {
                        assert(chunk_visited(callback, chunk, step));
                        assert((seq![chunk@] + rest).drop_first() =~= rest);
                        assert(earlier + (seq![chunk@] + rest) =~= calls.made() + rest);
                    }
                    match step {
                        Ok(_) => {
                            proof {
                                assert forall|outcome: Result<(), ChunkError<CallbackError>>|
                                 #[trigger]
                                    visits(callback, rest, outcome) implies visits(
                                    callback,
                                    self.chunks(),
                                    outcome,
                                ) by {
                                    assert(visits(callback, all, outcome));
                                }
                            }
                        },
                        Err(error) => {
                            let outcome = Err(ChunkError::Callback(error));
                            assert(visits(callback, all, outcome));
                            assert(self.chunks().take(calls.made().len() as int) =~= calls.made());
                            return (calls, outcome);
                        },
                    }
                },
                Ok(None) => {},
                Err(error) => {
                    return (calls, Err(ChunkError::Range(error)));
                },
            }
            index += 1;
        }
        let outcome = Ok(());
        proof {
            assert(places.skip(index as int).len() == 0);
            assert(calls.made() =~= self.chunks());
            assert(visits(
                callback,
                chunks_of(places.skip(index as int), self.low(), self.high()),
                outcome,
            ));
        }
        (calls, outcome)
    }

    /// Visit every non-overlapping token chunk intersecting this view.
    pub fn for_each_chunk<Callback: FnMut(&str)>(&self, callback: Callback) -> (visited: Result<
        (),
        RangeError,
    >)
        requires
            forall|chunk: &str| callback.requires((chunk,)),
        ensures
            visited is Ok,
            forall|i: int|
                0 <= i < self.chunks().len() ==> was_seen(callback, #[trigger] self.chunks()[i]),
            exists|calls: Calls<Callback>|
                #[trigger] call_ensures(
                    SyntaxText::visit_chunks::<Callback>,
                    (self, callback),
                    Ok(calls),
                ) && calls.callback() == callback && calls.made() == self.chunks() && joined(
                    calls.made(),
                ) == self@,
    {
        match self.visit_chunks(callback) {
            Ok(calls) => {
                proof {
                    use_type_invariant(self);
                    self.lemma_valid();
                    assert(call_ensures(
                        SyntaxText::visit_chunks::<Callback>,
                        (self, callback),
                        Ok(calls),
                    ));
                }
                Ok(())
            },
            Err(error) => Err(error),
        }
    }

    /// Visit the chunks of this view and give the record of the calls back.
    pub fn visit_chunks<Callback: FnMut(&str)>(&self, callback: Callback) -> (visited: Result<
        Calls<Callback>,
        RangeError,
    >)
        requires
            forall|chunk: &str| callback.requires((chunk,)),
        ensures
            visited matches Ok(calls) && calls.callback() == callback && calls.made()
                == self.chunks(),
            forall|i: int|
                0 <= i < self.chunks().len() ==> was_seen(callback, #[trigger] self.chunks()[i]),
    {
        let elements = self.node.descendants_with_tokens();
        let count: usize = elements.len();
        let mut index: usize = 0;
        let mut calls = Calls::new(callback);
        let ghost places = cursor_traversal::subtree_places(
            self.place(),
            self.place().tree(),
            false,
        );
        let ghost mut seen: Seq<Seq<char>> = Seq::empty();
        proof {
            assert(elements@.len() == places.len());
            assert(places.skip(0) =~= places);
            assert(calls.made() + self.chunks() =~= self.chunks());
        }
        while index < count
            invariant
                index <= count,
                count == elements@.len(),
                calls.callback() == callback,
                calls.made() + chunks_of(places.skip(index as int), self.low(), self.high())
                    == self.chunks(),
                forall|chunk: &str| callback.requires((chunk,)),
                places == cursor_traversal::subtree_places(
                    self.place(),
                    self.place().tree(),
                    false,
                ),
                elements@.map_values(|element: SyntaxElement| cursor::element_place(element))
                    == places,
                count == places.len(),
                seen == calls.made(),
                forall|i: int|
                    0 <= i < seen.len() ==> was_seen(callback, #[trigger] seen[i]),
            decreases count - index,
        {
            let ghost rest = chunks_of(places.skip(index + 1), self.low(), self.high());
            match self.chunk_in(&elements, index) {
                Ok(Some(chunk)) => {
                    calls.call(chunk);
                    proof {
                        assert(chunk_seen(callback, chunk));
                        assert(seen + (seq![chunk@] + rest) =~= seen.push(chunk@) + rest);
                        assert(was_seen(callback, chunk@));
                        seen = seen.push(chunk@);
                    }
                },
                Ok(None) => {},
                Err(error) => {
                    return Err(error);
                },
            }
            index += 1;
        }
        proof {
            assert(places.skip(index as int).len() == 0);
            assert(seen =~= self.chunks());
        }
        Ok(calls)
    }

    /// Write out the text of this view.
    pub fn to_string(&self) -> (owned: String)
        ensures
            owned@ == self@,
    {
        match self.validated_string() {
            Ok(owned) => owned,
            Err(_) => String::new(),
        }
    }

    /// Test whether this view shows exactly a text.
    fn shows(&self, other: &str) -> (same: bool)
        ensures
            same == (self@ == other@),
    {
        *self.to_string().as_str() == *other
    }
}

impl Clone for SyntaxText {
    fn clone(&self) -> (view: Self)
        ensures
            view == *self,
    {
        proof {
            use_type_invariant(self);
        }
        SyntaxText { node: self.node.clone(), range: self.range }
    }
}

impl From<SyntaxText> for String {
    fn from(view: SyntaxText) -> (owned: Self)
        ensures
            owned@ == view@,
    {
        view.to_string()
    }
}

impl vstd::std_specs::convert::FromSpecImpl<SyntaxText> for String {
    open spec fn obeys_from_spec() -> bool {
        false
    }

    open spec fn from_spec(view: SyntaxText) -> Self {
        arbitrary()
    }
}

impl PartialEq<str> for SyntaxText {
    fn eq(&self, other: &str) -> (same: bool) {
        self.shows(other)
    }
}

impl vstd::std_specs::cmp::PartialEqSpecImpl<str> for SyntaxText {
    open spec fn obeys_eq_spec() -> bool {
        true
    }

    open spec fn eq_spec(&self, other: &str) -> bool {
        self@ == other@
    }
}

impl PartialEq<SyntaxText> for str {
    fn eq(&self, other: &SyntaxText) -> (same: bool) {
        other.shows(self)
    }
}

impl vstd::std_specs::cmp::PartialEqSpecImpl<SyntaxText> for str {
    open spec fn obeys_eq_spec() -> bool {
        true
    }

    open spec fn eq_spec(&self, other: &SyntaxText) -> bool {
        self@ == other@
    }
}

impl PartialEq<&'_ str> for SyntaxText {
    fn eq(&self, other: &&str) -> (same: bool) {
        self.shows(other)
    }
}

impl vstd::std_specs::cmp::PartialEqSpecImpl<&'_ str> for SyntaxText {
    open spec fn obeys_eq_spec() -> bool {
        true
    }

    open spec fn eq_spec(&self, other: &&str) -> bool {
        self@ == other@
    }
}

impl PartialEq<SyntaxText> for &'_ str {
    fn eq(&self, other: &SyntaxText) -> (same: bool) {
        other.shows(self)
    }
}

impl vstd::std_specs::cmp::PartialEqSpecImpl<SyntaxText> for &'_ str {
    open spec fn obeys_eq_spec() -> bool {
        true
    }

    open spec fn eq_spec(&self, other: &SyntaxText) -> bool {
        self@ == other@
    }
}

impl PartialEq for SyntaxText {
    fn eq(&self, other: &Self) -> (same: bool) {
        self.shows(other.to_string().as_str())
    }
}

impl vstd::std_specs::cmp::PartialEqSpecImpl for SyntaxText {
    open spec fn obeys_eq_spec() -> bool {
        true
    }

    open spec fn eq_spec(&self, other: &Self) -> bool {
        self@ == other@
    }
}

impl Eq for SyntaxText {

}

impl SyntaxNode {
    /// Return a chunked text view over this subtree.
    pub fn text(&self) -> (view: SyntaxText)
        ensures
            view.place() == self.place(),
            view.low() == self.place().start(),
            view.high() == self.place().end(),
            view@ == self.place().tree().text(),
    {
        SyntaxText::new(self.clone())
    }
}

/// A slice of a slice is a slice of the whole with the offsets added.
pub proof fn lemma_slice_of_slice(
    whole: SyntaxText,
    start: int,
    end: int,
    part: SyntaxText,
    inner_start: int,
    inner_end: int,
    inner: SyntaxText,
)
    requires
        whole.valid(),
        sliced(whole, start, end, Ok(part)),
        sliced(part, inner_start, inner_end, Ok(inner)),
    ensures
        sliced(whole, start + inner_start, start + inner_end, Ok(inner)),
{
    whole.lemma_valid();
    let bytes = whole.bytes();
    assert(inner.bytes() =~= bytes.subrange(start + inner_start, start + inner_end));
    vstd::utf8::encode_utf8_valid_utf8(whole@);
    lemma_part_valid(bytes, start, end);
}

/// Slicing off nothing gives the same text.
pub proof fn lemma_whole_slice(whole: SyntaxText, part: SyntaxText)
    requires
        sliced(whole, 0, whole.bytes().len() as int, Ok(part)),
    ensures
        part@ == whole@,
        part.low() == whole.low(),
{
    assert(whole.bytes().subrange(0, whole.bytes().len() as int) =~= whole.bytes());
    vstd::utf8::encode_utf8_decode_utf8(part@);
    vstd::utf8::encode_utf8_decode_utf8(whole@);
}

/// Longer prefixes of a text have more bytes.
proof fn lemma_prefix_bytes(whole: Seq<char>, left: int, right: int)
    requires
        0 <= left < right <= whole.len(),
    ensures
        vstd::utf8::encode_utf8(whole.take(left)).len() < vstd::utf8::encode_utf8(
            whole.take(right),
        ).len(),
{
    let between = whole.subrange(left, right);
    assert(whole.take(right) =~= whole.take(left) + between);
    model::lemma_encode_concat(whole.take(left), between);
    lemma_no_bytes(between);
}

/// The character at the offset that a search reports is the one searched for.
pub proof fn lemma_found_char(view: Seq<char>, character: char, index: int, other: int)
    requires
        first_at(view, character, index),
        0 <= other < view.len(),
        vstd::utf8::encode_utf8(view.take(other)).len() == vstd::utf8::encode_utf8(
            view.take(index),
        ).len(),
    ensures
        view[other] == character,
{
    if other < index {
        lemma_prefix_bytes(view, other, index);
    } else if index < other {
        lemma_prefix_bytes(view, index, other);
    }
}

/// Two neighbouring slices show the whole between them.
pub proof fn lemma_slices_join(
    whole: SyntaxText,
    start: int,
    middle: int,
    end: int,
    left: SyntaxText,
    right: SyntaxText,
    both: SyntaxText,
)
    requires
        sliced(whole, start, middle, Ok(left)),
        sliced(whole, middle, end, Ok(right)),
        sliced(whole, start, end, Ok(both)),
    ensures
        both@ == left@ + right@,
{
    let bytes = whole.bytes();
    assert(bytes.subrange(start, end) =~= bytes.subrange(start, middle) + bytes.subrange(
        middle,
        end,
    ));
    model::lemma_encode_concat(left@, right@);
    vstd::utf8::encode_utf8_decode_utf8(both@);
    vstd::utf8::encode_utf8_decode_utf8(left@ + right@);
}

} // verus!
