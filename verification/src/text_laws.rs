//! What text views show, and what slices, searches and visits of them give, in terms of characters
//! and bytes.

use vstd::prelude::*;

use crate::calls::Calls;
use crate::cursor::RangeError;
use crate::cursor_data::Place;
use crate::cursor_laws;
use crate::cursor_traversal;
use crate::model;
use crate::syntax_text;
use crate::syntax_text::ChunkError;
use crate::syntax_text::SyntaxText;
use crate::text;
use crate::text::TextRange;
use crate::text::TextSize;

verus! {

/// Visiting a view calls the callback once for each chunk, in source order; what is handed over,
/// joined, is the text of the view.
pub proof fn lemma_visits_chunks<Callback: FnMut(&str)>(
    view: SyntaxText,
    callback: Callback,
    calls: Calls<Callback>,
)
    requires
        view.valid(),
        call_ensures(SyntaxText::visit_chunks::<Callback>, (&view, callback), Ok(calls)),
    ensures
        calls.callback() == callback,
        calls.made().len() == view.chunks().len(),
        forall|i: int|
            0 <= i < view.chunks().len() ==> #[trigger] calls.made()[i] == view.chunks()[i],
        syntax_text::joined(calls.made()) == view@,
{
    view.lemma_valid();
}

/// A token touches a stretch of offsets.
pub open spec fn touches(token: Place, low: int, high: int) -> bool {
    &&& token.tree() is Token
    &&& token.start() <= high
    &&& low <= token.end()
}

/// The chunks of a view are parts of tokens, one for each token of the subtree that touches the
/// view, in source order; a chunk has the bytes of its token that lie in the view.
pub proof fn lemma_chunks_by_token(view: SyntaxText) -> (tokens: Seq<Place>)
    requires
        view.valid(),
    ensures
        tokens.len() == view.chunks().len(),
        forall|token: Place| #[trigger]
            tokens.contains(token) <==> token.valid() && view.place().holds(token) && touches(
                token,
                view.low(),
                view.high(),
            ),
        forall|i: int, j: int|
            0 <= i < j < tokens.len() ==> model::path_before(
                (#[trigger] tokens[i]).path,
                (#[trigger] tokens[j]).path,
            ),
        forall|i: int|
            #![trigger tokens[i]]
            0 <= i < tokens.len() ==> {
                let token = tokens[i];
                let bytes = vstd::utf8::encode_utf8(token.tree().text());
                let first = if view.low() < token.start() {
                    0
                } else {
                    view.low() - token.start()
                };
                let last = if token.end() < view.high() {
                    bytes.len() as int
                } else {
                    view.high() - token.start()
                };
                vstd::utf8::encode_utf8(view.chunks()[i]) == bytes.subrange(first, last)
            },
{
    let top = view.place();
    let places = cursor_traversal::subtree_places(top, top.tree(), false);
    assert(top.path.take(top.path.len() as int) =~= top.path);
    cursor_traversal::lemma_subtree_inside(top, top, false);
    cursor_laws::lemma_entered_in_preorder(top, top.tree(), false);
    assert forall|i: int, j: int| 0 <= i < j < places.len() && places[i].tree() is Token
        && places[j].tree() is Token implies model::path_before(
        (#[trigger] places[i]).path,
        (#[trigger] places[j]).path,
    ) by {
        assert(cursor_laws::in_preorder(places[i], places[j]));
        assert(cursor_traversal::inside(top, places[i]));
        assert(cursor_traversal::inside(top, places[j]));
        if places[i].holds(places[j]) {
            lemma_token_alone(places[i], places[j]);
            cursor_laws::lemma_places_distinct(top, false);
            assert(places.no_duplicates());
        }
    }
    let tokens = lemma_touching_tokens(top, places, view.low(), view.high());
    assert forall|token: Place| #[trigger] tokens.contains(token) <==> token.valid()
        && view.place().holds(token) && touches(token, view.low(), view.high()) by {
        if tokens.contains(token) {
            let i = choose|i: int| 0 <= i < places.len() && places[i] == token;
            assert(cursor_traversal::inside(top, places[i]));
        }
        if token.valid() && top.holds(token) {
            cursor_laws::lemma_place_listed(top, token);
        }
    }
    tokens
}

/// Nothing lies below a token.
proof fn lemma_token_alone(token: Place, place: Place)
    requires
        token.valid(),
        place.valid(),
        token.tree() is Token,
        token.holds(place),
    ensures
        place == token,
{
    if place.path.len() > token.path.len() {
        cursor_traversal::lemma_step_down(token, place);
    } else {
        assert(place.path.take(token.path.len() as int) =~= place.path);
    }
}

/// The tokens among some places that touch a stretch of offsets, with the parts that they give.
proof fn lemma_touching_tokens(top: Place, places: Seq<Place>, low: int, high: int) -> (tokens: Seq<
    Place,
>)
    requires
        top.valid(),
        syntax_text::bounds_text(top, low, high),
        forall|i: int|
            0 <= i < places.len() ==> cursor_traversal::inside(top, #[trigger] places[i]),
        forall|i: int, j: int|
            0 <= i < j < places.len() && places[i].tree() is Token && places[j].tree() is Token
                ==> model::path_before(
                (#[trigger] places[i]).path,
                (#[trigger] places[j]).path,
            ),
    ensures
        tokens.len() == syntax_text::chunks_of(places, low, high).len(),
        forall|token: Place| #[trigger]
            tokens.contains(token) <==> places.contains(token) && touches(token, low, high),
        forall|i: int, j: int|
            0 <= i < j < tokens.len() ==> model::path_before(
                (#[trigger] tokens[i]).path,
                (#[trigger] tokens[j]).path,
            ),
        forall|i: int|
            #![trigger tokens[i]]
            0 <= i < tokens.len() ==> {
                let token = tokens[i];
                let bytes = vstd::utf8::encode_utf8(token.tree().text());
                let first = if low < token.start() {
                    0
                } else {
                    low - token.start()
                };
                let last = if token.end() < high {
                    bytes.len() as int
                } else {
                    high - token.start()
                };
                vstd::utf8::encode_utf8(syntax_text::chunks_of(places, low, high)[i])
                    == bytes.subrange(first, last)
            },
    decreases places.len(),
{
    let chunks = syntax_text::chunks_of(places, low, high);
    if places.len() == 0 {
        Seq::empty()
    } else {
        let rest = places.drop_first();
        let place = places[0];
        assert forall|i: int| 0 <= i < rest.len() implies cursor_traversal::inside(
            top,
            #[trigger] rest[i],
        ) by {
            assert(rest[i] == places[i + 1]);
        }
        assert forall|i: int, j: int|
            0 <= i < j < rest.len() && rest[i].tree() is Token && rest[j].tree() is Token
            implies model::path_before((#[trigger] rest[i]).path, (#[trigger] rest[j]).path) by {
            assert(rest[i] == places[i + 1] && rest[j] == places[j + 1]);
        }
        let later = lemma_touching_tokens(top, rest, low, high);
        let others = syntax_text::chunks_of(rest, low, high);
        assert(cursor_traversal::inside(top, place));
        syntax_text::lemma_chunk_valid(top, place, low, high);
        model::lemma_tree_len_is_text_len(place.tree());
        let tokens = if touches(place, low, high) {
            seq![place] + later
        } else {
            later
        };
        assert forall|token: Place| #[trigger] tokens.contains(token) <==> places.contains(token)
            && touches(token, low, high) by {
            if tokens.contains(token) {
                let k = choose|k: int| 0 <= k < tokens.len() && tokens[k] == token;
                if token != place {
                    assert(later.contains(token)) by {
                        if touches(place, low, high) {
                            assert(later[k - 1] == token);
                        } else {
                            assert(later[k] == token);
                        }
                    }
                    let a = choose|a: int| 0 <= a < rest.len() && rest[a] == token;
                    assert(places[a + 1] == token);
                } else if !touches(place, low, high) {
                    assert(later[k] == token);
                    assert(later.contains(token));
                }
            }
            if places.contains(token) && touches(token, low, high) {
                let a = choose|a: int| 0 <= a < places.len() && places[a] == token;
                if a > 0 {
                    assert(rest[a - 1] == token);
                    assert(rest.contains(token));
                    assert(later.contains(token));
                    let k = choose|k: int| 0 <= k < later.len() && later[k] == token;
                    if touches(place, low, high) {
                        assert(tokens[k + 1] == token);
                    }
                } else {
                    assert(tokens[0] == token);
                }
            }
        }
        if touches(place, low, high) {
            assert(chunks == seq![syntax_text::chunk_of(place, low, high)->0] + others);
            assert forall|i: int, j: int| 0 <= i < j < tokens.len() implies model::path_before(
                (#[trigger] tokens[i]).path,
                (#[trigger] tokens[j]).path,
            ) by {
                assert(tokens[j] == later[j - 1]);
                if i == 0 {
                    assert(later.contains(later[j - 1]));
                    let a = choose|a: int| 0 <= a < rest.len() && rest[a] == later[j - 1];
                    assert(places[0].tree() is Token && places[a + 1] == tokens[j]);
                } else {
                    assert(tokens[i] == later[i - 1]);
                }
            }
            assert forall|i: int|
                #![trigger tokens[i]]
                0 <= i < tokens.len() implies {
                let token = tokens[i];
                let bytes = vstd::utf8::encode_utf8(token.tree().text());
                let first = if low < token.start() {
                    0
                } else {
                    low - token.start()
                };
                let last = if token.end() < high {
                    bytes.len() as int
                } else {
                    high - token.start()
                };
                vstd::utf8::encode_utf8(chunks[i]) == bytes.subrange(first, last)
            } by {
                if i > 0 {
                    assert(tokens[i] == later[i - 1]);
                    assert(chunks[i] == others[i - 1]);
                } else {
                    vstd::utf8::encode_utf8_decode_utf8(chunks[0]);
                }
            }
        }
        tokens
    }
}

/// A slice between two offsets of a view shows exactly the bytes between them. It is refused where
/// the offsets are reversed, where the end lies behind the view, and where one of them does not
/// stand between two characters. A missing start is the start of the view, a missing end its end.
pub proof fn lemma_slice_outcome(
    whole: SyntaxText,
    start: Option<TextSize>,
    end: Option<TextSize>,
    outcome: Result<SyntaxText, RangeError>,
)
    requires
        syntax_text::sliced(
            whole,
            syntax_text::slice_start(start),
            syntax_text::slice_end(end, whole.bytes().len()),
            outcome,
        ),
    ensures
        ({
            let bytes = vstd::utf8::encode_utf8(whole@);
            let from = if start is Some {
                start->0@ as int
            } else {
                0
            };
            let to = if end is Some {
                end->0@ as int
            } else {
                bytes.len() as int
            };
            if from > to {
                outcome matches Err(RangeError::ReversedRange { start: first, end: beyond })
                    && first@ == from && beyond@ == to
            } else if to > bytes.len() {
                outcome matches Err(RangeError::RangeOutOfBounds { requested, valid })
                    && requested.lo()@ == from && requested.hi()@ == to && valid.lo()@ == 0
                    && valid.hi()@ == bytes.len()
            } else if !vstd::utf8::is_char_boundary(bytes, from) {
                outcome matches Err(RangeError::NotCharBoundary { offset }) && offset@ == from
            } else if !vstd::utf8::is_char_boundary(bytes, to) {
                outcome matches Err(RangeError::NotCharBoundary { offset }) && offset@ == to
            } else {
                outcome matches Ok(part) && vstd::utf8::encode_utf8(part@) == bytes.subrange(
                    from,
                    to,
                )
            }
        }),
{
}

/// What a view and a token have in common holds exactly the offsets that lie in both.
pub proof fn lemma_common_part(view_range: TextRange, token_range: TextRange, offset: int)
    requires
        view_range.ordered(),
        token_range.ordered(),
        view_range.lo()@ <= token_range.hi()@,
        token_range.lo()@ <= view_range.hi()@,
    ensures
        ({
            let part = syntax_text::common_range(view_range, token_range);
            &&& part.lo()@ <= part.hi()@ <= token_range.hi()@ - token_range.lo()@
            &&& view_range.lo()@ <= token_range.lo()@ + part.lo()@
            &&& token_range.lo()@ + part.hi()@ <= view_range.hi()@
            &&& part.lo()@ <= offset - token_range.lo()@ < part.hi()@ <==> view_range.lo()@
                <= offset < view_range.hi()@ && token_range.lo()@ <= offset < token_range.hi()@
        }),
{
    broadcast use text::group_text_range;

}

/// Where a view does not begin and end between characters of a token, the error names an end of the
/// common part that lies inside a character, counted from the start of the view.
pub proof fn lemma_boundary_named(
    view_range: TextRange,
    token_range: TextRange,
    token_text: Seq<char>,
)
    requires
        view_range.ordered(),
        token_range.ordered(),
        view_range.lo()@ <= token_range.hi()@,
        token_range.lo()@ <= view_range.hi()@,
        ({
            let part = syntax_text::common_range(view_range, token_range);
            let bytes = vstd::utf8::encode_utf8(token_text);
            !(vstd::utf8::is_char_boundary(bytes, part.lo()@ as int)
                && vstd::utf8::is_char_boundary(bytes, part.hi()@ as int))
        }),
    ensures
        ({
            let part = syntax_text::common_range(view_range, token_range);
            let bytes = vstd::utf8::encode_utf8(token_text);
            &&& syntax_text::boundary_error(view_range, token_range, token_text, part) matches
                RangeError::NotCharBoundary { offset } && {
                let inside = view_range.lo()@ + offset@ - token_range.lo()@;
                &&& inside == part.lo()@ || inside == part.hi()@
                &&& !vstd::utf8::is_char_boundary(bytes, inside)
            }
        }),
{
    broadcast use text::group_text_range;

    lemma_common_part(view_range, token_range, 0);
}

/// A callback was handed a chunk together with what had been gathered, and gave an outcome.
pub open spec fn gathered<
    Accumulator,
    CallbackError,
    Callback: FnMut(Accumulator, &str) -> Result<Accumulator, CallbackError>,
>(
    callback: Callback,
    before: Accumulator,
    text: Seq<char>,
    outcome: Result<Accumulator, CallbackError>,
) -> bool {
    exists|chunk: &str| chunk@ == text && #[trigger] call_ensures(
        callback,
        (before, chunk),
        outcome,
    )
}

/// A fold hands each chunk to the callback together with what the chunk before gave. It ends at the
/// first chunk that the callback refuses, with its error, or else gives what the last chunk gave.
pub proof fn lemma_fold_gathers<
    Accumulator,
    CallbackError,
    Callback: FnMut(Accumulator, &str) -> Result<Accumulator, CallbackError>,
>(
    callback: Callback,
    initial: Accumulator,
    chunks: Seq<Seq<char>>,
    folded: Result<Accumulator, ChunkError<CallbackError>>,
) -> (states: Seq<Accumulator>)
    requires
        syntax_text::folds(callback, initial, chunks, folded),
    ensures
        0 < states.len() <= chunks.len() + 1,
        states[0] == initial,
        forall|i: int|
            #![trigger chunks[i]]
            0 <= i < states.len() - 1 ==> gathered(
                callback,
                states[i],
                chunks[i],
                Ok(states[i + 1]),
            ),
        match folded {
            Ok(last) => states.len() == chunks.len() + 1 && last == states.last(),
            Err(ChunkError::Callback(error)) => states.len() <= chunks.len() && gathered(
                callback,
                states.last(),
                chunks[states.len() - 1],
                Err(error),
            ),
            Err(_) => false,
        },
    decreases chunks.len(),
{
    if chunks.len() == 0 {
        seq![initial]
    } else {
        let (chunk, step) = choose|chunk: &str, step: Result<Accumulator, CallbackError>|
            {
                &&& #[trigger] syntax_text::chunk_called(callback, initial, chunk, step)
                &&& chunk@ == chunks[0]
                &&& match step {
                    Ok(next) => syntax_text::folds(callback, next, chunks.drop_first(), folded),
                    Err(error) => folded == Err::<Accumulator, ChunkError<CallbackError>>(
                        ChunkError::Callback(error),
                    ),
                }
            };
        assert(call_ensures(callback, (initial, chunk), step));
        match step {
            Ok(next) => {
                let later = lemma_fold_gathers(callback, next, chunks.drop_first(), folded);
                let states = seq![initial] + later;
                assert forall|i: int|
                    #![trigger chunks[i]]
                    0 <= i < states.len() - 1 implies gathered(
                    callback,
                    states[i],
                    chunks[i],
                    Ok(states[i + 1]),
                ) by {
                    if i > 0 {
                        assert(chunks.drop_first()[i - 1] == chunks[i]);
                    }
                }
                assert(states.last() == later.last());
                states
            },
            Err(_) => { seq![initial] },
        }
    }
}

/// A callback was handed a chunk and gave an outcome.
pub open spec fn visited<CallbackError, Callback: FnMut(&str) -> Result<(), CallbackError>>(
    callback: Callback,
    text: Seq<char>,
    outcome: Result<(), CallbackError>,
) -> bool {
    exists|chunk: &str| chunk@ == text && #[trigger] call_ensures(callback, (chunk,), outcome)
}

/// A visit hands over chunk by chunk. It ends at the first chunk that the callback refuses, with its
/// error; `count` chunks were accepted.
pub proof fn lemma_visit_stops<CallbackError, Callback: FnMut(&str) -> Result<(), CallbackError>>(
    callback: Callback,
    chunks: Seq<Seq<char>>,
    outcome: Result<(), ChunkError<CallbackError>>,
) -> (count: nat)
    requires
        syntax_text::visits(callback, chunks, outcome),
    ensures
        forall|i: int|
            0 <= i < count ==> visited::<CallbackError, Callback>(
                callback,
                #[trigger] chunks[i],
                Ok(()),
            ),
        match outcome {
            Ok(_) => count == chunks.len(),
            Err(ChunkError::Callback(error)) => count < chunks.len() && visited(
                callback,
                chunks[count as int],
                Err(error),
            ),
            Err(_) => false,
        },
    decreases chunks.len(),
{
    if chunks.len() == 0 {
        0
    } else {
        let (chunk, step) = choose|chunk: &str, step: Result<(), CallbackError>|
            {
                &&& #[trigger] syntax_text::chunk_visited(callback, chunk, step)
                &&& chunk@ == chunks[0]
                &&& match step {
                    Ok(_) => syntax_text::visits(callback, chunks.drop_first(), outcome),
                    Err(error) => outcome == Err::<(), ChunkError<CallbackError>>(
                        ChunkError::Callback(error),
                    ),
                }
            };
        assert(call_ensures(callback, (chunk,), step));
        match step {
            Ok(nothing) => {
                let later = lemma_visit_stops(callback, chunks.drop_first(), outcome);
                assert(nothing == ());
                assert(visited::<CallbackError, Callback>(callback, chunks[0], Ok(())));
                assert forall|i: int| 0 <= i < later + 1 implies visited::<
                    CallbackError,
                    Callback,
                >(callback, #[trigger] chunks[i], Ok(())) by {
                    if i > 0 {
                        assert(chunks.drop_first()[i - 1] == chunks[i]);
                    }
                }
                later + 1
            },
            Err(_) => { 0 },
        }
    }
}

} // verus!
