//! What written-out numbers, dumps and outlines say.

use vstd::prelude::*;

use crate::api::Language;
use crate::api_debug;
use crate::cursor_data::Place;
use crate::cursor_traversal;
use crate::debug;
use crate::model;
use crate::model::Tree;
use crate::outline;
use crate::outline::Outline;
use crate::utility_types::WalkEvent;

verus! {

/// The number that decimal digits stand for.
pub open spec fn number_read(text: Seq<char>) -> int
    decreases text.len(),
{
    if text.len() == 0 {
        0
    } else {
        number_read(text.drop_last()) * 10 + (text.last() as int - '0' as int)
    }
}

/// A written number consists of digits, has no leading zero and reads back as the number.
pub proof fn lemma_digits_read(value: nat)
    ensures
        number_read(debug::digits(value)) == value,
        debug::digits(value).len() > 0,
        forall|i: int|
            0 <= i < debug::digits(value).len() ==> '0' <= (#[trigger] debug::digits(value)[i])
                <= '9',
        value > 0 ==> debug::digits(value)[0] != '0',
    decreases value,
{
    let text = debug::digits(value);
    if value < 10 {
        assert(text.drop_last() =~= Seq::empty());
        assert(number_read(text.drop_last()) == 0);
    } else {
        lemma_digits_read(value / 10);
        assert(text.drop_last() =~= debug::digits(value / 10));
        assert(text[0] == debug::digits(value / 10)[0]);
        assert forall|i: int| 0 <= i < text.len() implies '0' <= (#[trigger] text[i]) <= '9' by {
            if i < text.len() - 1 {
                assert(text[i] == debug::digits(value / 10)[i]);
            }
        }
    }
}

/// An indentation consists of two spaces for each level.
pub proof fn lemma_indentation(level: nat)
    ensures
        api_debug::indentation(level).len() == 2 * level,
        forall|i: int|
            0 <= i < 2 * level ==> #[trigger] api_debug::indentation(level)[i] == ' ',
    decreases level,
{
    reveal_strlit("");
    reveal_strlit("  ");
    if level > 0 {
        lemma_indentation((level - 1) as nat);
    }
}

/// One row for each place, indented by how deep the place lies below the top.
pub open spec fn rows(depth: int, places: Seq<Place>, lines: Seq<Seq<char>>) -> Seq<char>
    decreases places.len(),
{
    if places.len() == 0 {
        Seq::empty()
    } else {
        api_debug::indentation((places[0].path.len() - depth) as nat) + lines[0] + "\n"@ + rows(
            depth,
            places.drop_first(),
            lines.drop_first(),
        )
    }
}

/// A dump of a subtree has one row for each element in preorder, indented by its depth.
pub proof fn lemma_dump_rows(top: Place, tree: Tree, lines: Seq<Seq<char>>)
    requires
        lines.len() == cursor_traversal::subtree_places(top, tree, false).len(),
    ensures
        api_debug::dump(cursor_traversal::walk(top, tree, false), 0, lines) == rows(
            top.path.len() as int,
            cursor_traversal::subtree_places(top, tree, false),
            lines,
        ),
{
    let events = cursor_traversal::walk(top, tree, false);
    let nothing = Seq::<WalkEvent<Place>>::empty();
    let none = Seq::<Seq<char>>::empty();
    assert(events + nothing =~= events);
    assert(lines + none =~= lines);
    lemma_dump_walk(top.path.len() as int, top, tree, lines, nothing, none);
    let written = rows(
        top.path.len() as int,
        cursor_traversal::subtree_places(top, tree, false),
        lines,
    );
    assert(written + api_debug::dump(nothing, 0, none) =~= written);
}

/// Rows of places one after the other.
proof fn lemma_rows_concat(
    depth: int,
    left: Seq<Place>,
    right: Seq<Place>,
    lines: Seq<Seq<char>>,
    later: Seq<Seq<char>>,
)
    requires
        lines.len() == left.len(),
    ensures
        rows(depth, left + right, lines + later) == rows(depth, left, lines) + rows(
            depth,
            right,
            later,
        ),
    decreases left.len(),
{
    if left.len() == 0 {
        assert(left + right =~= right);
        assert(lines + later =~= later);
        assert(rows(depth, left, lines) + rows(depth, right, later) =~= rows(depth, right, later));
    } else {
        lemma_rows_concat(depth, left.drop_first(), right, lines.drop_first(), later);
        assert((left + right).drop_first() =~= left.drop_first() + right);
        assert((lines + later).drop_first() =~= lines.drop_first() + later);
        assert(rows(depth, left + right, lines + later) =~= rows(depth, left, lines) + rows(
            depth,
            right,
            later,
        ));
    }
}

/// The walk through a subtree writes its rows, and the level is then what it was.
proof fn lemma_dump_walk(
    depth: int,
    place: Place,
    tree: Tree,
    lines: Seq<Seq<char>>,
    events: Seq<WalkEvent<Place>>,
    later: Seq<Seq<char>>,
)
    requires
        lines.len() == cursor_traversal::subtree_places(place, tree, false).len(),
        place.path.len() >= depth >= 0,
    ensures
        api_debug::dump(
            cursor_traversal::walk(place, tree, false) + events,
            (place.path.len() - depth) as nat,
            lines + later,
        ) == rows(depth, cursor_traversal::subtree_places(place, tree, false), lines)
            + api_debug::dump(events, (place.path.len() - depth) as nat, later),
    decreases tree, tree.children().len() + 1,
{
    let level = (place.path.len() - depth) as nat;
    let below = cursor_traversal::walk_from(place, tree, 0, false);
    let places = cursor_traversal::subtree_places(place, tree, false);
    let lower = cursor_traversal::forest_places(place, tree, 0, false);
    let leave = seq![WalkEvent::Leave(place)] + events;
    let all = cursor_traversal::walk(place, tree, false) + events;
    let given = lines + later;
    assert(all =~= seq![WalkEvent::Enter(place)] + (below + leave));
    assert(all.drop_first() =~= below + leave);
    assert(given.drop_first() =~= lines.drop_first() + later);
    lemma_dump_walk_from(depth, place, tree, 0, lines.drop_first(), leave, later);
    assert(leave.drop_first() =~= events);
    assert(places.drop_first() =~= lower);
    let head = api_debug::indentation(level) + lines[0] + "\n"@;
    assert(api_debug::dump(all, level, given) == head + api_debug::dump(
        below + leave,
        level + 1,
        lines.drop_first() + later,
    ));
    assert(rows(depth, places, lines) == head + rows(depth, lower, lines.drop_first()));
    assert(api_debug::dump(leave, level + 1, later) == api_debug::dump(events, level, later));
    assert(api_debug::dump(all, level, given) =~= rows(depth, places, lines) + api_debug::dump(
        events,
        level,
        later,
    ));
}

/// The walk through the children from an index on writes their rows.
proof fn lemma_dump_walk_from(
    depth: int,
    place: Place,
    tree: Tree,
    index: int,
    lines: Seq<Seq<char>>,
    events: Seq<WalkEvent<Place>>,
    later: Seq<Seq<char>>,
)
    requires
        lines.len() == cursor_traversal::forest_places(place, tree, index, false).len(),
        place.path.len() >= depth >= 0,
        0 <= index,
    ensures
        api_debug::dump(
            cursor_traversal::walk_from(place, tree, index, false) + events,
            (place.path.len() - depth + 1) as nat,
            lines + later,
        ) == rows(depth, cursor_traversal::forest_places(place, tree, index, false), lines)
            + api_debug::dump(events, (place.path.len() - depth + 1) as nat, later),
    decreases tree, tree.children().len() - index,
{
    let level = (place.path.len() - depth + 1) as nat;
    let places = cursor_traversal::forest_places(place, tree, index, false);
    let walked = cursor_traversal::walk_from(place, tree, index, false);
    if index >= tree.children().len() {
        assert(walked + events =~= events);
        assert(lines + later =~= later);
        assert(rows(depth, places, lines) + api_debug::dump(events, level, later)
            =~= api_debug::dump(events, level, later));
    } else {
        let child = tree.children()[index];
        let lower = place.child(index);
        let own = cursor_traversal::subtree_places(lower, child, false);
        let rest = cursor_traversal::forest_places(place, tree, index + 1, false);
        let after = cursor_traversal::walk_from(place, tree, index + 1, false) + events;
        let own_lines = lines.take(own.len() as int);
        let rest_lines = lines.skip(own.len() as int);
        assert(places == own + rest);
        assert(lines =~= own_lines + rest_lines);
        assert(lines + later =~= own_lines + (rest_lines + later));
        assert(walked + events =~= cursor_traversal::walk(lower, child, false) + after);
        lemma_dump_walk(depth, lower, child, own_lines, after, rest_lines + later);
        lemma_dump_walk_from(depth, place, tree, index + 1, rest_lines, events, later);
        lemma_rows_concat(depth, own, rest, own_lines, rest_lines);
        assert(rows(depth, own, own_lines) + (rows(depth, rest, rest_lines) + api_debug::dump(
            events,
            level,
            later,
        )) =~= rows(depth, places, lines) + api_debug::dump(events, level, later));
    }
}

/// A token text of fewer than twenty-five bytes is shown whole. Of a longer one a front part is shown
/// that ends as close to byte twenty-one as its characters let it, so that it has at least eighteen
/// bytes.
pub proof fn lemma_text_shown(whole: Seq<char>, shown: Seq<char>)
    requires
        api_debug::text_shown(whole, shown),
    ensures
        vstd::utf8::encode_utf8(whole).len() < 25 ==> shown == " "@ + debug::quoted(whole),
        vstd::utf8::encode_utf8(whole).len() >= 25 ==> exists|front: Seq<char>|
            {
                &&& shown == " "@ + #[trigger] debug::quoted(front) + " ..."@
                &&& front.len() < whole.len()
                &&& front == whole.take(front.len() as int)
                &&& 18 <= vstd::utf8::encode_utf8(front).len() <= 21
                &&& front.len() + 1 < whole.len() ==> vstd::utf8::encode_utf8(
                    whole.take(front.len() as int + 1),
                ).len() > 21
            },
{
    if vstd::utf8::encode_utf8(whole).len() >= 25 {
        let count = choose|count: int| #[trigger]
            api_debug::is_cut(whole, count) && shown == " "@ + debug::quoted(whole.take(count))
                + " ..."@;
        let front = whole.take(count);
        let next = seq![whole[count]];
        let longer = whole.take(count + 1);
        assert(longer =~= front + next);
        model::lemma_encode_concat(front, next);
        assert(vstd::utf8::encode_utf8(next).len() <= 4) by {
            reveal_with_fuel(vstd::utf8::encode_utf8, 2);
            assert(next.drop_first() =~= Seq::<char>::empty());
        }
        if count + 1 == whole.len() {
            assert(longer =~= whole);
        }
        assert(shown == " "@ + debug::quoted(front) + " ..."@);
    }
}

/// The texts of the tokens of an outline, one after the other.
pub open spec fn outline_text(outline: Outline) -> Seq<char>
    decreases outline, 1int, 0int,
{
    match outline {
        Outline::Node { children, .. } => outlines_text(children@, children@.len() as int),
        Outline::Token { text, .. } => text@,
    }
}

/// The texts of the first outlines of a list, one after the other.
pub open spec fn outlines_text(list: Seq<Outline>, count: int) -> Seq<char>
    decreases list, 0int, count,
{
    if count <= 0 || count > list.len() {
        Seq::empty()
    } else {
        outlines_text(list, count - 1) + outline_text(list[count - 1])
    }
}

/// The range that an outline shows.
pub open spec fn outline_range(outline: Outline) -> (u32, u32) {
    match outline {
        Outline::Node { text_range, .. } => text_range,
        Outline::Token { text_range, .. } => text_range,
    }
}

/// An outline loses no text: its tokens say what the subtree says, and its range spans as many bytes.
pub proof fn lemma_outline_text<L: Language>(place: Place, tree: Tree, outline: Outline)
    requires
        outline::outlines::<L>(place, tree, outline),
        place.valid(),
        place.tree() == tree,
    ensures
        outline_text(outline) == tree.text(),
        outline_range(outline).1 - outline_range(outline).0 == vstd::utf8::encode_utf8(
            outline_text(outline),
        ).len(),
    decreases tree,
{
    model::lemma_tree_len_is_text_len(tree);
    if let Outline::Node { children, .. } = outline {
        lemma_outlines_text::<L>(place, children@, children@.len() as int);
        assert(tree.children().take(children@.len() as int) =~= tree.children());
    }
}

/// The outlines of the first children say what the children say.
proof fn lemma_outlines_text<L: Language>(place: Place, list: Seq<Outline>, count: int)
    requires
        place.valid(),
        list.len() == place.tree().children().len(),
        0 <= count <= list.len(),
        forall|i: int|
            #![trigger list[i]]
            0 <= i < list.len() ==> outline::outlines::<L>(
                place.child(i),
                place.tree().children()[i],
                list[i],
            ),
    ensures
        outlines_text(list, count) == model::forest_text(place.tree().children().take(count)),
    decreases place.tree(), count,
{
    let trees = place.tree().children();
    if count > 0 {
        lemma_outlines_text::<L>(place, list, count - 1);
        place.lemma_child(count - 1);
        lemma_outline_text::<L>(place.child(count - 1), trees[count - 1], list[count - 1]);
        assert(trees.take(count).drop_last() =~= trees.take(count - 1));
    } else {
        assert(trees.take(0) =~= Seq::empty());
    }
}

} // verus!
