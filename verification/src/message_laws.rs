//! Which numbers and kinds messages and debug texts tell, and in which order.

use vstd::prelude::*;

use crate::api_debug;
use crate::ast::AstError;
use crate::cursor::RangeError;
use crate::cursor_data::Place;
use crate::cursor_editor::EditError;
use crate::cursor_editor::SyntaxEditor;
use crate::debug;
use crate::green::builder::BuildError;
use crate::green::GreenError;
use crate::green::SyntaxKind;
use crate::messages;
use crate::model::Tree;
use crate::text::TextRange;
use crate::text::TextSize;

verus! {

/// A text tells one part after the other: both stand in it, the second behind the first.
pub open spec fn tells(text: Seq<char>, first: Seq<char>, second: Seq<char>) -> bool {
    exists|before: Seq<char>, between: Seq<char>, behind: Seq<char>|
        text == #[trigger] (before + first + between + second + behind) && between.len() > 0
}

/// A text that is put together of its parts tells them.
proof fn lemma_tells(
    text: Seq<char>,
    before: Seq<char>,
    first: Seq<char>,
    between: Seq<char>,
    second: Seq<char>,
    behind: Seq<char>,
)
    requires
        text == before + first + between + second + behind,
        between.len() > 0,
    ensures
        tells(text, first, second),
{
}

/// A refused replacement names the kind it has before the kind that it should have.
pub proof fn lemma_mismatch_message(expected: SyntaxKind, actual: SyntaxKind)
    ensures
        tells(
            messages::green_error_message(GreenError::KindMismatch { expected, actual }),
            debug::kind_shown(actual),
            debug::kind_shown(expected),
        ),
{
    reveal_strlit(" does not match expected kind ");
    let text = messages::green_error_message(GreenError::KindMismatch { expected, actual });
    assert(text =~= "replacement kind "@ + debug::kind_shown(actual)
        + " does not match expected kind "@ + debug::kind_shown(expected) + Seq::empty());
    lemma_tells(
        text,
        "replacement kind "@,
        debug::kind_shown(actual),
        " does not match expected kind "@,
        debug::kind_shown(expected),
        Seq::empty(),
    );
}

/// An overflow names the length that was to be added before the length so far.
pub proof fn lemma_overflow_message(accumulated: TextSize, next: TextSize)
    ensures
        tells(
            messages::green_error_message(GreenError::TextLengthOverflow { accumulated, next }),
            debug::digits(next@),
            debug::digits(accumulated@),
        ),
{
    reveal_strlit(" to ");
    let text = messages::green_error_message(
        GreenError::TextLengthOverflow { accumulated, next },
    );
    assert(text =~= "text length overflow while adding "@ + debug::digits(next@) + " to "@
        + debug::digits(accumulated@) + Seq::empty());
    lemma_tells(
        text,
        "text length overflow while adding "@,
        debug::digits(next@),
        " to "@,
        debug::digits(accumulated@),
        Seq::empty(),
    );
}

/// A child index out of bounds is named before the number of children.
pub proof fn lemma_index_message(index: usize, child_count: usize)
    ensures
        tells(
            messages::green_error_message(GreenError::ChildIndexOutOfBounds { index, child_count }),
            debug::digits(index as nat),
            debug::digits(child_count as nat),
        ),
        tells(
            messages::build_error_message(BuildError::CheckpointOutOfBounds { index, child_count }),
            debug::digits(index as nat),
            debug::digits(child_count as nat),
        ),
{
    reveal_strlit(" is out of bounds for ");
    lemma_tells(
        messages::green_error_message(GreenError::ChildIndexOutOfBounds { index, child_count }),
        "child index "@,
        debug::digits(index as nat),
        " is out of bounds for "@,
        debug::digits(child_count as nat),
        " children"@,
    );
    lemma_tells(
        messages::build_error_message(BuildError::CheckpointOutOfBounds { index, child_count }),
        "checkpoint index "@,
        debug::digits(index as nat),
        " is out of bounds for "@,
        debug::digits(child_count as nat),
        " children"@,
    );
}

/// An invalid child range is named from its start to its end, before the number of children.
pub proof fn lemma_child_range_message(start: usize, end: usize, child_count: usize)
    ensures
        tells(
            messages::green_error_message(
                GreenError::InvalidChildRange { start, end, child_count },
            ),
            debug::range_shown(start as nat, end as nat),
            debug::digits(child_count as nat),
        ),
        tells(
            messages::edit_error_message(EditError::InvalidChildRange { start, end, child_count }),
            debug::range_shown(start as nat, end as nat),
            debug::digits(child_count as nat),
        ),
{
    reveal_strlit(" is invalid for ");
    let shown = debug::range_shown(start as nat, end as nat);
    let count = debug::digits(child_count as nat);
    let text = messages::green_error_message(
        GreenError::InvalidChildRange { start, end, child_count },
    );
    let other = messages::edit_error_message(
        EditError::InvalidChildRange { start, end, child_count },
    );
    assert(text =~= "child range "@ + shown + " is invalid for "@ + count + " children"@);
    assert(other =~= "child range "@ + shown + " is invalid for "@ + count + " children"@);
    lemma_tells(text, "child range "@, shown, " is invalid for "@, count, " children"@);
    lemma_tells(other, "child range "@, shown, " is invalid for "@, count, " children"@);
}

/// A duplicate insertion is named before the insertion that it repeats.
pub proof fn lemma_duplicate_message(first_position: usize, duplicate_position: usize)
    ensures
        tells(
            messages::edit_error_message(
                EditError::DuplicateInsertion { first_position, duplicate_position },
            ),
            debug::digits(duplicate_position as nat),
            debug::digits(first_position as nat),
        ),
{
    reveal_strlit(" duplicates position ");
    let text = messages::edit_error_message(
        EditError::DuplicateInsertion { first_position, duplicate_position },
    );
    let last = debug::digits(duplicate_position as nat);
    let first = debug::digits(first_position as nat);
    assert(text =~= "insertion at position "@ + last + " duplicates position "@ + first
        + Seq::empty());
    lemma_tells(
        text,
        "insertion at position "@,
        last,
        " duplicates position "@,
        first,
        Seq::empty(),
    );
}

/// An offset or range out of bounds is named before the range that is valid.
pub proof fn lemma_bounds_message(offset: TextSize, requested: TextRange, valid: TextRange)
    ensures
        tells(
            messages::range_error_message(RangeError::OffsetOutOfBounds { offset, valid }),
            debug::digits(offset@),
            debug::range_shown(valid.lo()@, valid.hi()@),
        ),
        tells(
            messages::range_error_message(RangeError::RangeOutOfBounds { requested, valid }),
            debug::range_shown(requested.lo()@, requested.hi()@),
            debug::range_shown(valid.lo()@, valid.hi()@),
        ),
{
    reveal_strlit(" is outside ");
    let bounds = debug::range_shown(valid.lo()@, valid.hi()@);
    let text = messages::range_error_message(RangeError::OffsetOutOfBounds { offset, valid });
    let other = messages::range_error_message(RangeError::RangeOutOfBounds { requested, valid });
    let asked = debug::range_shown(requested.lo()@, requested.hi()@);
    assert(text =~= "offset "@ + debug::digits(offset@) + " is outside "@ + bounds + Seq::empty());
    assert(other =~= "range "@ + asked + " is outside "@ + bounds + Seq::empty());
    lemma_tells(
        text,
        "offset "@,
        debug::digits(offset@),
        " is outside "@,
        bounds,
        Seq::empty(),
    );
    lemma_tells(other, "range "@, asked, " is outside "@, bounds, Seq::empty());
}

/// A reversed range is named from its start to its end, and failed arithmetic by what was to be added
/// before what it was to be added to.
pub proof fn lemma_offsets_message(start: TextSize, end: TextSize)
    ensures
        tells(
            messages::range_error_message(RangeError::ReversedRange { start, end }),
            debug::digits(start@),
            debug::digits(end@),
        ),
        tells(
            messages::range_error_message(
                RangeError::OffsetArithmeticOverflow { base: end, delta: start },
            ),
            debug::digits(start@),
            debug::digits(end@),
        ),
{
    reveal_strlit(" is after end ");
    reveal_strlit(" to ");
    let first = debug::digits(start@);
    let second = debug::digits(end@);
    let text = messages::range_error_message(RangeError::ReversedRange { start, end });
    let other = messages::range_error_message(
        RangeError::OffsetArithmeticOverflow { base: end, delta: start },
    );
    assert(text =~= "range start "@ + first + " is after end "@ + second + Seq::empty());
    assert(other =~= "offset arithmetic overflow while adding "@ + first + " to "@ + second
        + Seq::empty());
    lemma_tells(text, "range start "@, first, " is after end "@, second, Seq::empty());
    lemma_tells(
        other,
        "offset arithmetic overflow while adding "@,
        first,
        " to "@,
        second,
        Seq::empty(),
    );
}

/// An error that stems from the green tree says what that error says.
pub proof fn lemma_green_message_passed_on(cause: GreenError)
    ensures
        messages::build_error_message(BuildError::Green(cause)) == messages::green_error_message(
            cause,
        ),
        messages::edit_error_message(EditError::Green(cause)) == messages::green_error_message(
            cause,
        ),
{
}

/// Counts of bytes, open nodes and roots, offsets and kinds can be told apart by their messages.
pub proof fn lemma_counts_told(left: usize, right: usize)
    ensures
        messages::green_error_message(GreenError::TokenTextTooLong { byte_len: left })
            == messages::green_error_message(GreenError::TokenTextTooLong { byte_len: right })
            ==> left == right,
        messages::build_error_message(BuildError::UnclosedNodes { count: left })
            == messages::build_error_message(BuildError::UnclosedNodes { count: right }) ==> left
            == right,
        messages::build_error_message(BuildError::InvalidRootArity { count: left })
            == messages::build_error_message(BuildError::InvalidRootArity { count: right })
            ==> left == right,
{
    let first = debug::digits(left as nat);
    let second = debug::digits(right as nat);
    crate::debug_laws::lemma_digits_read(left as nat);
    crate::debug_laws::lemma_digits_read(right as nat);
    lemma_middle("token text length "@, first, second, " does not fit in TextSize"@);
    lemma_middle("builder has "@, first, second, " unclosed nodes"@);
    lemma_middle("builder produced "@, first, second, " root elements instead of one"@);
}

/// Texts that differ only in the middle are equal only where the middles are.
proof fn lemma_middle(front: Seq<char>, left: Seq<char>, right: Seq<char>, back: Seq<char>)
    ensures
        front + left + back == front + right + back ==> left == right,
{
    if front + left + back == front + right + back {
        assert((front + left + back).len() == (front + right + back).len());
        assert(left =~= (front + left + back).subrange(
            front.len() as int,
            (front.len() + left.len()) as int,
        ));
        assert(right =~= (front + right + back).subrange(
            front.len() as int,
            (front.len() + right.len()) as int,
        ));
    }
}

/// Offsets inside characters and rejected kinds can be told apart by their messages.
pub proof fn lemma_offsets_told(left: TextSize, right: TextSize, one: SyntaxKind, other: SyntaxKind)
    ensures
        messages::range_error_message(RangeError::NotCharBoundary { offset: left })
            == messages::range_error_message(RangeError::NotCharBoundary { offset: right })
            ==> left == right,
        messages::ast_error_message(AstError::CloneCastRejected { kind: one })
            == messages::ast_error_message(AstError::CloneCastRejected { kind: other }) ==> one
            == other,
{
    crate::debug_laws::lemma_digits_read(left@);
    crate::debug_laws::lemma_digits_read(right@);
    crate::debug_laws::lemma_digits_read(one.0 as nat);
    crate::debug_laws::lemma_digits_read(other.0 as nat);
    lemma_middle(
        "offset "@,
        debug::digits(left@),
        debug::digits(right@),
        " is not a UTF-8 character boundary"@,
    );
    let front = "AST cast rejected cloned syntax kind "@;
    let first = debug::kind_shown(one);
    let second = debug::kind_shown(other);
    assert(front + first + Seq::empty() =~= front + first);
    assert(front + second + Seq::empty() =~= front + second);
    lemma_middle(front, first, second, Seq::empty());
    lemma_middle(
        "SyntaxKind("@,
        debug::digits(one.0 as nat),
        debug::digits(other.0 as nat),
        ")"@,
    );
}

/// A range is shown from its start to its end.
pub proof fn lemma_range_shown(start: nat, end: nat)
    ensures
        tells(debug::range_shown(start, end), debug::digits(start), debug::digits(end)),
{
    reveal_strlit("..");
    let text = debug::range_shown(start, end);
    let none = Seq::<char>::empty();
    assert(text =~= none + debug::digits(start) + ".."@ + debug::digits(end) + none);
    lemma_tells(text, none, debug::digits(start), ".."@, debug::digits(end), none);
}

/// A green node is shown with its kind, then its length, then the number of its children; a green
/// token with its kind, then its text in quotes.
pub proof fn lemma_green_shown(tree: Tree)
    ensures
        tells(
            debug::green_node_shown(tree),
            debug::kind_shown(tree.kind()),
            debug::digits(tree.len()),
        ),
        tells(
            debug::green_node_shown(tree),
            debug::digits(tree.len()),
            debug::digits(tree.children().len()),
        ),
        tells(
            debug::green_token_shown(tree),
            debug::kind_shown(tree.kind()),
            debug::quoted(tree.text()),
        ),
{
    reveal_strlit(", text_len: ");
    reveal_strlit(", child_count: ");
    reveal_strlit(", text: ");
    let kind = debug::kind_shown(tree.kind());
    let len = debug::digits(tree.len());
    let count = debug::digits(tree.children().len());
    let text = debug::green_node_shown(tree);
    assert(text =~= "GreenNode { kind: "@ + kind + ", text_len: "@ + len + (", child_count: "@
        + count + " }"@));
    lemma_tells(
        text,
        "GreenNode { kind: "@,
        kind,
        ", text_len: "@,
        len,
        ", child_count: "@ + count + " }"@,
    );
    assert(text =~= ("GreenNode { kind: "@ + kind + ", text_len: "@) + len + ", child_count: "@
        + count + " }"@);
    lemma_tells(
        text,
        "GreenNode { kind: "@ + kind + ", text_len: "@,
        len,
        ", child_count: "@,
        count,
        " }"@,
    );
    lemma_tells(
        debug::green_token_shown(tree),
        "GreenToken { kind: "@,
        kind,
        ", text: "@,
        debug::quoted(tree.text()),
        " }"@,
    );
}

/// An element is shown with its kind and then its range, a pointer likewise, and an editor with the
/// number of its records and then the slot of its root.
pub proof fn lemma_located_shown(kind: Seq<char>, place: Place, range: TextRange, editor: SyntaxEditor)
    ensures
        tells(
            api_debug::located(kind, place),
            kind,
            debug::range_shown(place.start(), place.end()),
        ),
        tells(
            api_debug::pointer_shown(kind, range),
            kind,
            debug::range_shown(range.lo()@, range.hi()@),
        ),
        tells(
            debug::editor_shown(editor),
            debug::digits(editor.slots()),
            debug::digits(editor.root().slot() as nat),
        ),
{
    reveal_strlit("@");
    reveal_strlit(", range: ");
    reveal_strlit(", root: ");
    let none = Seq::<char>::empty();
    let spot = debug::range_shown(place.start(), place.end());
    assert(api_debug::located(kind, place) =~= none + kind + "@"@ + spot + none);
    lemma_tells(api_debug::located(kind, place), none, kind, "@"@, spot, none);
    lemma_tells(
        api_debug::pointer_shown(kind, range),
        "SyntaxNodePtr { kind: "@,
        kind,
        ", range: "@,
        debug::range_shown(range.lo()@, range.hi()@),
        " }"@,
    );
    let text = debug::editor_shown(editor);
    let slots = debug::digits(editor.slots());
    let slot = debug::digits(editor.root().slot() as nat);
    let between = ", root: "@ + "EditorNodeId { owner: EditorOwner, slot: "@;
    assert(text =~= "SyntaxEditor { record_count: "@ + slots + between + slot + (" }"@ + " }"@));
    lemma_tells(text, "SyntaxEditor { record_count: "@, slots, between, slot, " }"@ + " }"@);
}

} // verus!
