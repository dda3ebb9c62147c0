//! What holds between the steps of navigation, traversal and replacement.

use vstd::prelude::*;

use crate::cursor;
use crate::cursor::SyntaxElement;
use crate::cursor::SyntaxToken;
use crate::cursor_data::Place;
use crate::cursor_query;
use crate::cursor_traversal;
use crate::cursor_traversal::TraversalError;
use crate::cursor_traversal::WalkStatus;
use crate::model;
use crate::model::Tree;
use crate::utility_types::Direction;
use crate::utility_types::WalkEvent;

verus! {

/// The direction back.
pub open spec fn opposite(direction: Direction) -> Direction {
    match direction {
        Direction::Next => Direction::Prev,
        Direction::Prev => Direction::Next,
    }
}

/// The previous node of the next node is the node itself, and the other way round.
pub proof fn lemma_sibling_nodes_inverse(trees: Seq<Tree>, left: int, right: int)
    requires
        0 <= left < trees.len(),
        0 <= right < trees.len(),
        trees[left] is Node,
        trees[right] is Node,
    ensures
        cursor::first_node(trees, left + 1, Some(right)) <==> cursor::last_node(
            trees,
            right,
            Some(left),
        ),
{
}

/// Stepping back from the adjacent element leads to the element itself.
pub proof fn lemma_adjacent_inverse(
    element: SyntaxElement,
    direction: Direction,
    sibling: SyntaxElement,
)
    requires
        cursor::element_place(element).valid(),
        cursor::is_adjacent(cursor::element_place(element), direction, Some(sibling)),
    ensures
        cursor::is_adjacent(cursor::element_place(sibling), opposite(direction), Some(element)),
{
    let place = cursor::element_place(element);
    place.lemma_valid();
    let index = cursor::step(place.index(), direction);
    assert(place.parent().path.push(index).drop_last() =~= place.parent().path);
    assert(cursor::element_place(sibling).parent() == place.parent());
}

/// Of two different tokens one lies before the other.
pub proof fn lemma_tokens_ordered(tree: Tree, left: Seq<int>, right: Seq<int>)
    requires
        model::token_at(tree, left),
        model::token_at(tree, right),
    ensures
        left == right || model::path_before(left, right) || model::path_before(right, left),
{
    model::lemma_before_total(left, right);
    if model::path_through(left, right) {
        lemma_nothing_below(tree, right, left);
    }
    if model::path_through(right, left) {
        lemma_nothing_below(tree, left, right);
    }
}

/// Nothing lies below a token.
proof fn lemma_nothing_below(tree: Tree, upper: Seq<int>, path: Seq<int>)
    requires
        model::token_at(tree, upper),
        model::path_exists(tree, path),
        model::path_through(path, upper),
    ensures
        path == upper,
{
    let depth = upper.len() as int;
    model::lemma_path_prefix(tree, path, depth);
    if path.len() == depth {
        assert(path.take(depth) =~= path);
    }
}

/// No element lies before one that lies before it.
pub proof fn lemma_before_asymmetric(left: Seq<int>, right: Seq<int>)
    ensures
        !(model::path_before(left, right) && model::path_before(right, left)),
{
    if model::path_before(left, right) && model::path_before(right, left) {
        let one = choose|depth: int| #[trigger] model::parts_at(left, right, depth);
        let two = choose|depth: int| #[trigger] model::parts_at(right, left, depth);
        if one < two {
            assert(right.take(two)[one] == left.take(two)[one]);
        } else if two < one {
            assert(left.take(one)[two] == right.take(one)[two]);
        }
    }
}

/// Stepping back from the next token leads to the token itself.
pub proof fn lemma_next_token_inverse(token: SyntaxToken, direction: Direction, next: SyntaxToken)
    requires
        model::token_at(token.place().root@, token.place().path),
        cursor_query::is_next_token(token.place(), direction, Some(next)),
    ensures
        cursor_query::is_next_token(next.place(), opposite(direction), Some(token)),
{
    let tree = token.place().root@;
    let here = token.place().path;
    let there = next.place().path;
    assert forall|path: Seq<int>|
        #[trigger] model::token_at(tree, path) && cursor_query::ahead(
            there,
            path,
            opposite(direction),
        ) implies path == here || cursor_query::ahead(here, path, opposite(direction)) by {
        lemma_tokens_ordered(tree, path, here);
        lemma_before_asymmetric(path, there);
        lemma_before_asymmetric(path, here);
        if cursor_query::ahead(here, path, direction) {
            assert(path == there || cursor_query::ahead(there, path, direction));
            lemma_before_asymmetric(there, there);
        }
    }
}

/// The open elements after events: entering opens one, leaving closes the one opened last.
pub open spec fn open_after(events: Seq<WalkEvent<Place>>, open: Seq<Place>) -> Option<Seq<Place>>
    decreases events.len(),
{
    if events.len() == 0 {
        Some(open)
    } else {
        match events[0] {
            WalkEvent::Enter(place) => open_after(events.drop_first(), open.push(place)),
            WalkEvent::Leave(place) => if open.len() > 0 && open.last() == place {
                open_after(events.drop_first(), open.drop_last())
            } else {
                None
            },
        }
    }
}

/// Running events in a row runs each part of them.
proof fn lemma_open_concat(
    left: Seq<WalkEvent<Place>>,
    right: Seq<WalkEvent<Place>>,
    open: Seq<Place>,
)
    ensures
        open_after(left + right, open) == match open_after(left, open) {
            Some(between) => open_after(right, between),
            None => None,
        },
    decreases left.len(),
{
    if left.len() == 0 {
        assert(left + right =~= right);
    } else {
        assert((left + right).drop_first() =~= left.drop_first() + right);
        match left[0] {
            WalkEvent::Enter(place) => {
                lemma_open_concat(left.drop_first(), right, open.push(place));
            },
            WalkEvent::Leave(place) => {
                if open.len() > 0 && open.last() == place {
                    lemma_open_concat(left.drop_first(), right, open.drop_last());
                }
            },
        }
    }
}

/// A walk is balanced: every element that is entered is left again, after everything below it.
pub proof fn lemma_walk_balanced(place: Place, tree: Tree, nodes_only: bool, open: Seq<Place>)
    ensures
        open_after(cursor_traversal::walk(place, tree, nodes_only), open) == Some(open),
    decreases tree, tree.children().len() + 1,
{
    let enter = seq![WalkEvent::Enter(place)];
    let leave = seq![WalkEvent::<Place>::Leave(place)];
    let inner = cursor_traversal::walk_from(place, tree, 0, nodes_only);
    lemma_children_balanced(place, tree, 0, nodes_only, open.push(place));
    lemma_open_concat(enter + inner, leave, open);
    lemma_open_concat(enter, inner, open);
    reveal_with_fuel(open_after, 2);
    assert(enter.drop_first() =~= Seq::empty());
    assert(leave.drop_first() =~= Seq::empty());
    assert(open.push(place).drop_last() =~= open);
}

/// A walk through children is balanced.
pub proof fn lemma_children_balanced(
    place: Place,
    tree: Tree,
    index: int,
    nodes_only: bool,
    open: Seq<Place>,
)
    ensures
        open_after(cursor_traversal::walk_from(place, tree, index, nodes_only), open) == Some(open),
    decreases tree, tree.children().len() - index,
{
    if 0 <= index < tree.children().len() {
        let child = tree.children()[index];
        let later = cursor_traversal::walk_from(place, tree, index + 1, nodes_only);
        lemma_children_balanced(place, tree, index + 1, nodes_only, open);
        if nodes_only && child is Token {
            assert(cursor_traversal::walk_from(place, tree, index, nodes_only) =~= later);
        } else {
            let own = cursor_traversal::walk(place.child(index), child, nodes_only);
            lemma_walk_balanced(place.child(index), child, nodes_only, open);
            lemma_open_concat(own, later, open);
        }
    }
}

/// Skipping is explicit. After a node was entered, a skip is granted, and a second one is refused.
/// The node is left next, and the events behind that are those of the walk without the skip. Then
/// there is nothing to skip, and asking for it changes nothing.
pub proof fn lemma_skip_leaves(
    fresh: WalkStatus,
    entered: WalkStatus,
    skipped: WalkStatus,
    again: WalkStatus,
    left: WalkStatus,
    late: WalkStatus,
    place: Place,
    nodes_only: bool,
    first: Result<(), TraversalError>,
    second: Result<(), TraversalError>,
    event: Option<WalkEvent<Place>>,
    third: Result<(), TraversalError>,
)
    requires
        place.tree() is Node,
        cursor_traversal::yields(fresh, entered, Some(WalkEvent::Enter(place))),
        cursor_traversal::skips(entered, skipped, nodes_only, first),
        cursor_traversal::skips(skipped, again, nodes_only, second),
        cursor_traversal::yields(again, left, event),
        cursor_traversal::skips(left, late, nodes_only, third),
    ensures
        first is Ok,
        second == Err::<(), TraversalError>(TraversalError::SkipAlreadyRequested),
        event == Some(WalkEvent::Leave(place)),
        entered.remaining == cursor_traversal::walk_from(place, place.tree(), 0, nodes_only)
            + seq![WalkEvent::Leave(place)] + left.remaining,
        third == Err::<(), TraversalError>(TraversalError::NoNodeSubtree),
        late == left,
{
    let inner = cursor_traversal::walk_from(place, place.tree(), 0, nodes_only);
    assert(again.remaining[0] == WalkEvent::Leave(place));
    assert(event is Some);
    assert((seq![event->0] + left.remaining)[0] == event->0);
    assert(inner + (seq![WalkEvent::Leave(place)] + left.remaining) =~= inner + seq![
        WalkEvent::Leave(place),
    ] + left.remaining);
}

/// The place that an event is about.
pub open spec fn event_place(event: WalkEvent<Place>) -> Place {
    match event {
        WalkEvent::Enter(place) => place,
        WalkEvent::Leave(place) => place,
    }
}

/// An event is about a child from an index on, or about what is below such a child.
spec fn about_child(place: Place, index: int, event: WalkEvent<Place>) -> bool {
    let depth = place.path.len() as int;
    let about = event_place(event);
    place.holds(about) && about.path.len() > depth && about.path[depth] >= index
}

/// What a walk through children meets are the children from the index on and what is below them,
/// and no event comes twice.
proof fn lemma_children_met_once(place: Place, tree: Tree, index: int, nodes_only: bool)
    requires
        0 <= index,
    ensures
        cursor_traversal::walk_from(place, tree, index, nodes_only).no_duplicates(),
        forall|i: int|
            0 <= i < cursor_traversal::walk_from(place, tree, index, nodes_only).len()
                ==> about_child(
                place,
                index,
                #[trigger] cursor_traversal::walk_from(place, tree, index, nodes_only)[i],
            ),
    decreases tree, tree.children().len() - index,
{
    let events = cursor_traversal::walk_from(place, tree, index, nodes_only);
    if index < tree.children().len() {
        let child = tree.children()[index];
        let later = cursor_traversal::walk_from(place, tree, index + 1, nodes_only);
        lemma_children_met_once(place, tree, index + 1, nodes_only);
        let own = if nodes_only && child is Token {
            Seq::empty()
        } else {
            cursor_traversal::walk(place.child(index), child, nodes_only)
        };
        let lower = place.child(index);
        let depth = place.path.len() as int;
        assert(events == own + later);
        if !(nodes_only && child is Token) {
            lemma_walk_met_once(lower, child, nodes_only);
            assert forall|i: int| 0 <= i < own.len() implies about_child(place, index, own[i])
                && event_place(own[i]).path[depth] == index by {
                let about = event_place(own[i]);
                assert(lower.holds(about));
                assert(about.path.take(depth) =~= lower.path.take(depth));
                assert(lower.path.take(depth) =~= place.path);
                assert(about.path.take(depth + 1)[depth] == lower.path[depth]);
            }
        }
        assert forall|i: int| 0 <= i < events.len() implies about_child(
            place,
            index,
            #[trigger] events[i],
        ) by {
            if i < own.len() {
                assert(events[i] == own[i]);
            } else {
                assert(events[i] == later[i - own.len()]);
                assert(about_child(place, index + 1, later[i - own.len()]));
            }
        }
        assert forall|i: int, j: int|
            0 <= i < events.len() && 0 <= j < events.len() && i != j implies events[i]
            != events[j] by {
            if i >= own.len() {
                assert(about_child(place, index + 1, later[i - own.len()]));
            }
            if j >= own.len() {
                assert(about_child(place, index + 1, later[j - own.len()]));
            }
        }
    }
}

/// A walk meets only the place and what is below it, and no event comes twice: every place is
/// entered once and left once at most.
pub proof fn lemma_walk_met_once(place: Place, tree: Tree, nodes_only: bool)
    ensures
        cursor_traversal::walk(place, tree, nodes_only).no_duplicates(),
        forall|i: int|
            0 <= i < cursor_traversal::walk(place, tree, nodes_only).len() ==> place.holds(
                event_place(#[trigger] cursor_traversal::walk(place, tree, nodes_only)[i]),
            ),
    decreases tree, tree.children().len() + 1,
{
    let events = cursor_traversal::walk(place, tree, nodes_only);
    let inner = cursor_traversal::walk_from(place, tree, 0, nodes_only);
    lemma_children_met_once(place, tree, 0, nodes_only);
    assert(place.path.take(place.path.len() as int) =~= place.path);
    assert forall|i: int| 0 <= i < events.len() implies place.holds(
        event_place(#[trigger] events[i]),
    ) && (0 < i < events.len() - 1 ==> event_place(events[i]) != place) by {
        if 0 < i < events.len() - 1 {
            assert(events[i] == inner[i - 1]);
            assert(about_child(place, 0, inner[i - 1]));
        }
    }
    assert forall|i: int, j: int|
        0 <= i < events.len() && 0 <= j < events.len() && i != j implies events[i] != events[j] by {
        if 0 < i < events.len() - 1 && 0 < j < events.len() - 1 {
            assert(events[i] == inner[i - 1] && events[j] == inner[j - 1]);
        } else {
            assert(event_place(events[i]) == event_place(events[i]));
            assert(event_place(events[j]) == event_place(events[j]));
        }
    }
}

/// Events enter a place and leave it later.
pub open spec fn met(events: Seq<WalkEvent<Place>>, place: Place) -> bool {
    exists|i: int, j: int|
        0 <= i < j < events.len() && #[trigger] events[i] == WalkEvent::Enter(place)
            && #[trigger] events[j] == WalkEvent::Leave(place)
}

/// What a part of the events meets, all of them meet.
proof fn lemma_met_inside(
    left: Seq<WalkEvent<Place>>,
    events: Seq<WalkEvent<Place>>,
    right: Seq<WalkEvent<Place>>,
    place: Place,
)
    requires
        met(events, place),
    ensures
        met(left + events + right, place),
{
    let (i, j) = choose|i: int, j: int|
        0 <= i < j < events.len() && #[trigger] events[i] == WalkEvent::Enter(place)
            && #[trigger] events[j] == WalkEvent::Leave(place);
    let all = left + events + right;
    assert(all[left.len() + i] == events[i]);
    assert(all[left.len() + j] == events[j]);
}

/// A walk enters every place of the subtree and leaves it later; a walk over nodes, every node.
pub proof fn lemma_walk_meets(top: Place, place: Place, nodes_only: bool)
    requires
        top.valid(),
        place.valid(),
        top.holds(place),
        nodes_only ==> place.tree() is Node,
    ensures
        met(cursor_traversal::walk(top, top.tree(), nodes_only), place),
    decreases place.path.len() - top.path.len(),
{
    let events = cursor_traversal::walk(top, top.tree(), nodes_only);
    let enter = seq![WalkEvent::Enter(top)];
    let leave = seq![WalkEvent::<Place>::Leave(top)];
    let inner = cursor_traversal::walk_from(top, top.tree(), 0, nodes_only);
    if place.path.len() == top.path.len() {
        assert(place.path.take(top.path.len() as int) =~= place.path);
        assert(events[0] == WalkEvent::Enter(place));
        assert(events[events.len() - 1] == WalkEvent::Leave(place));
    } else {
        let index = place.path[top.path.len() as int];
        let lower = top.child(index);
        cursor_traversal::lemma_step_down(top, place);
        top.lemma_child(index);
        if place.path.len() == lower.path.len() {
            assert(place.path.take(lower.path.len() as int) =~= place.path);
        }
        lemma_walk_meets(lower, place, nodes_only);
        lemma_children_meet(top, 0, index, place, nodes_only);
        lemma_met_inside(enter, inner, leave, place);
    }
}

/// What the walk through a child meets, the walk through the children meets.
proof fn lemma_children_meet(top: Place, low: int, index: int, place: Place, nodes_only: bool)
    requires
        top.valid(),
        0 <= low <= index < top.tree().children().len(),
        nodes_only ==> top.tree().children()[index] is Node,
        met(
            cursor_traversal::walk(top.child(index), top.tree().children()[index], nodes_only),
            place,
        ),
    ensures
        met(cursor_traversal::walk_from(top, top.tree(), low, nodes_only), place),
    decreases index - low,
{
    let tree = top.tree();
    let child = tree.children()[low];
    let none = Seq::<WalkEvent<Place>>::empty();
    let later = cursor_traversal::walk_from(top, tree, low + 1, nodes_only);
    let own = if nodes_only && child is Token {
        none
    } else {
        cursor_traversal::walk(top.child(low), child, nodes_only)
    };
    if low == index {
        lemma_met_inside(none, own, later, place);
        assert(none + own + later =~= own + later);
    } else {
        lemma_children_meet(top, low + 1, index, place, nodes_only);
        lemma_met_inside(own, later, none, place);
        assert(own + later + none =~= own + later);
    }
}

/// One place comes before another in preorder: it lies above it or before it in source order.
pub open spec fn in_preorder(left: Place, right: Place) -> bool {
    left.holds(right) || model::path_before(left.path, right.path)
}

/// A walk enters places in preorder.
pub proof fn lemma_entered_in_preorder(place: Place, tree: Tree, nodes_only: bool)
    ensures
        forall|i: int, j: int|
            0 <= i < j < cursor_traversal::subtree_places(place, tree, nodes_only).len()
                ==> in_preorder(
                #[trigger] cursor_traversal::subtree_places(place, tree, nodes_only)[i],
                #[trigger] cursor_traversal::subtree_places(place, tree, nodes_only)[j],
            ),
        forall|i: int|
            0 <= i < cursor_traversal::subtree_places(place, tree, nodes_only).len()
                ==> place.holds(
                #[trigger] cursor_traversal::subtree_places(place, tree, nodes_only)[i],
            ),
    decreases tree, tree.children().len() + 1,
{
    let places = cursor_traversal::subtree_places(place, tree, nodes_only);
    let below = cursor_traversal::forest_places(place, tree, 0, nodes_only);
    lemma_children_in_preorder(place, tree, 0, nodes_only);
    assert(place.path.take(place.path.len() as int) =~= place.path);
    assert forall|i: int| 0 <= i < places.len() implies place.holds(#[trigger] places[i]) by {
        if i > 0 {
            assert(places[i] == below[i - 1]);
            assert(about_child(place, 0, WalkEvent::Enter(below[i - 1])));
        }
    }
    assert forall|i: int, j: int| 0 <= i < j < places.len() implies in_preorder(
        #[trigger] places[i],
        #[trigger] places[j],
    ) by {
        assert(places[j] == below[j - 1]);
        if i > 0 {
            assert(places[i] == below[i - 1]);
        }
    }
}

/// A walk through children enters places in preorder.
proof fn lemma_children_in_preorder(place: Place, tree: Tree, index: int, nodes_only: bool)
    requires
        0 <= index,
    ensures
        forall|i: int, j: int|
            0 <= i < j < cursor_traversal::forest_places(place, tree, index, nodes_only).len()
                ==> in_preorder(
                #[trigger] cursor_traversal::forest_places(place, tree, index, nodes_only)[i],
                #[trigger] cursor_traversal::forest_places(place, tree, index, nodes_only)[j],
            ),
        forall|i: int|
            0 <= i < cursor_traversal::forest_places(place, tree, index, nodes_only).len()
                ==> about_child(
                place,
                index,
                WalkEvent::Enter(
                    #[trigger] cursor_traversal::forest_places(place, tree, index, nodes_only)[i],
                ),
            ),
    decreases tree, tree.children().len() - index,
{
    let places = cursor_traversal::forest_places(place, tree, index, nodes_only);
    if index < tree.children().len() {
        let child = tree.children()[index];
        let lower = place.child(index);
        let depth = place.path.len() as int;
        let later = cursor_traversal::forest_places(place, tree, index + 1, nodes_only);
        let own = if nodes_only && child is Token {
            Seq::empty()
        } else {
            cursor_traversal::subtree_places(lower, child, nodes_only)
        };
        assert(places == own + later);
        lemma_children_in_preorder(place, tree, index + 1, nodes_only);
        if !(nodes_only && child is Token) {
            lemma_entered_in_preorder(lower, child, nodes_only);
            assert forall|i: int| 0 <= i < own.len() implies about_child(
                place,
                index,
                WalkEvent::Enter(#[trigger] own[i]),
            ) && own[i].path[depth] == index by {
                assert(lower.holds(own[i]));
                assert(own[i].path.take(depth) =~= lower.path.take(depth));
                assert(lower.path.take(depth) =~= place.path);
                assert(own[i].path.take(depth + 1)[depth] == lower.path[depth]);
            }
        }
        assert forall|i: int| 0 <= i < places.len() implies about_child(
            place,
            index,
            WalkEvent::Enter(#[trigger] places[i]),
        ) by {
            if i < own.len() {
                assert(places[i] == own[i]);
            } else {
                assert(places[i] == later[i - own.len()]);
                assert(about_child(place, index + 1, WalkEvent::Enter(later[i - own.len()])));
            }
        }
        assert forall|i: int, j: int| 0 <= i < j < places.len() implies in_preorder(
            #[trigger] places[i],
            #[trigger] places[j],
        ) by {
            if j < own.len() {
                assert(places[i] == own[i] && places[j] == own[j]);
            } else if i >= own.len() {
                assert(places[i] == later[i - own.len()] && places[j] == later[j - own.len()]);
            } else {
                assert(places[i] == own[i] && places[j] == later[j - own.len()]);
                assert(about_child(place, index, WalkEvent::Enter(own[i])));
                assert(about_child(place, index + 1, WalkEvent::Enter(later[j - own.len()])));
                assert(model::parts_at(places[i].path, places[j].path, depth));
            }
        }
    }
}

/// Following a path from its first index.
pub proof fn lemma_path_front(tree: Tree, path: Seq<int>)
    requires
        path.len() > 0,
    ensures
        model::tree_at(tree, path) == model::tree_at(tree.children()[path[0]], path.drop_first()),
        model::path_exists(tree, path) <==> 0 <= path[0] < tree.children().len()
            && model::path_exists(tree.children()[path[0]], path.drop_first()),
        model::offset_at(tree, path) == model::offset_in(tree.children(), path[0])
            + model::offset_at(tree.children()[path[0]], path.drop_first()),
    decreases path.len(),
{
    let first = seq![path[0]];
    let lower = path.drop_first();
    assert(first + lower =~= path);
    assert(first =~= Seq::<int>::empty().push(path[0]));
    model::lemma_path_push(tree, Seq::empty(), path[0]);
    model::lemma_path_concat(tree, first, lower);
    if path.len() == 1 {
        assert(path =~= first);
        assert(lower =~= Seq::empty());
    } else {
        assert(path.drop_last()[0] == path[0]);
        assert(path.drop_last().drop_first() =~= lower.drop_last());
        assert(path.last() == lower.last());
        lemma_path_front(tree, path.drop_last());
    }
}

/// Replacing an element by itself changes nothing.
pub proof fn lemma_graft_identity(tree: Tree, path: Seq<int>)
    requires
        model::path_exists(tree, path),
    ensures
        model::graft(tree, path, model::tree_at(tree, path)) == tree,
    decreases path.len(),
{
    if path.len() > 0 {
        lemma_path_front(tree, path);
        lemma_graft_identity(tree.children()[path[0]], path.drop_first());
        assert(tree.children().update(path[0], tree.children()[path[0]]) =~= tree.children());
    }
}

/// The replacement stands where the element was.
pub proof fn lemma_graft_found(tree: Tree, path: Seq<int>, replacement: Tree)
    requires
        model::path_exists(tree, path),
    ensures
        model::path_exists(model::graft(tree, path, replacement), path),
        model::tree_at(model::graft(tree, path, replacement), path) == replacement,
    decreases path.len(),
{
    if path.len() > 0 {
        let grafted = model::graft(tree, path, replacement);
        lemma_path_front(tree, path);
        lemma_path_front(grafted, path);
        lemma_graft_found(tree.children()[path[0]], path.drop_first(), replacement);
    }
}

/// Elements that lie before or behind the replaced one stay as they are.
pub proof fn lemma_graft_elsewhere(
    tree: Tree,
    path: Seq<int>,
    replacement: Tree,
    other: Seq<int>,
)
    requires
        model::path_exists(tree, path),
        model::path_exists(tree, other),
        model::path_before(other, path) || model::path_before(path, other),
    ensures
        model::path_exists(model::graft(tree, path, replacement), other),
        model::tree_at(model::graft(tree, path, replacement), other) == model::tree_at(tree, other),
    decreases path.len(),
{
    let grafted = model::graft(tree, path, replacement);
    lemma_path_front(tree, path);
    lemma_path_front(tree, other);
    lemma_path_front(grafted, other);
    if path[0] == other[0] {
        let child = tree.children()[path[0]];
        lemma_before_front(path, other);
        lemma_before_front(other, path);
        lemma_graft_elsewhere(child, path.drop_first(), replacement, other.drop_first());
    }
}

/// Paths that share their first index part below it.
pub proof fn lemma_before_front(left: Seq<int>, right: Seq<int>)
    requires
        left.len() > 0,
        right.len() > 0,
        left[0] == right[0],
    ensures
        model::path_before(left, right) ==> model::path_before(
            left.drop_first(),
            right.drop_first(),
        ),
{
    if model::path_before(left, right) {
        let depth = choose|depth: int| #[trigger] model::parts_at(left, right, depth);
        assert(left.drop_first().take(depth - 1) =~= left.take(depth).drop_first());
        assert(right.drop_first().take(depth - 1) =~= right.take(depth).drop_first());
        assert(model::parts_at(left.drop_first(), right.drop_first(), depth - 1));
    }
}

/// The texts before and behind a replaced element stay as they are, and what lies before it ends at
/// its offset.
pub proof fn lemma_graft_text(tree: Tree, path: Seq<int>, replacement: Tree)
    requires
        model::path_exists(tree, path),
    ensures
        exists|front: Seq<char>, back: Seq<char>|
            tree.text() == #[trigger] (front + model::tree_at(tree, path).text() + back)
                && model::graft(tree, path, replacement).text() == front + replacement.text()
                + back && vstd::utf8::encode_utf8(front).len() == model::offset_at(tree, path),
    decreases path.len(),
{
    if path.len() == 0 {
        let none = Seq::<char>::empty();
        assert(vstd::utf8::encode_utf8(none).len() == 0);
        assert(none + tree.text() + none =~= tree.text());
        assert(none + replacement.text() + none =~= replacement.text());
        assert(tree.text() == none + model::tree_at(tree, path).text() + none);
    } else {
        let trees = tree.children();
        let index = path[0];
        let child = trees[index];
        let lower = path.drop_first();
        lemma_path_front(tree, path);
        lemma_graft_text(child, lower, replacement);
        let (front, back) = choose|front: Seq<char>, back: Seq<char>|
            child.text() == #[trigger] (front + model::tree_at(child, lower).text() + back)
                && model::graft(child, lower, replacement).text() == front + replacement.text()
                + back && vstd::utf8::encode_utf8(front).len() == model::offset_at(child, lower);
        let grafted = model::graft(child, lower, replacement);
        let updated = trees.update(index, grafted);
        let left = model::forest_text(trees.take(index));
        let right = model::forest_text(trees.skip(index + 1));
        assert(trees =~= trees.take(index) + trees.skip(index));
        assert(updated =~= trees.take(index) + updated.skip(index));
        model::lemma_forest_text_concat(trees.take(index), trees.skip(index));
        model::lemma_forest_text_concat(trees.take(index), updated.skip(index));
        model::lemma_forest_text_skip(trees, index);
        model::lemma_forest_text_skip(updated, index);
        assert(updated.skip(index + 1) =~= trees.skip(index + 1));
        let inner = model::tree_at(tree, path).text();
        assert(tree is Node);
        assert(tree.text() == left + (child.text() + right));
        assert(left + (front + inner + back + right) =~= (left + front) + inner + (back + right));
        assert(left + (front + replacement.text() + back + right) =~= (left + front)
            + replacement.text() + (back + right));
        model::lemma_encode_concat(left, front);
        model::lemma_forest_len_is_text_len(trees.take(index));
        assert(tree.text() == (left + front) + inner + (back + right));
    }
}

/// What a range query finds contains the range.
pub proof fn lemma_covering_contains(tree: Tree, base: nat, start: nat, end: nat)
    requires
        base <= start <= end <= base + tree.len(),
    ensures
        ({
            let path = cursor_query::covering_path(tree, base, start, end);
            let low = base + model::offset_at(tree, path);
            &&& model::path_exists(tree, path)
            &&& low <= start
            &&& end <= low + model::tree_at(tree, path).len()
        }),
    decreases tree,
{
    let path = cursor_query::covering_path(tree, base, start, end);
    if tree is Node {
        cursor_query::lemma_picked_inside(tree, base, start, end);
    }
    match cursor_query::picked_child(tree, base, start, end) {
        Some(index) => {
            if 0 <= index < tree.children().len() {
                let child = tree.children()[index];
                let low = base + model::offset_in(tree.children(), index);
                lemma_covering_contains(child, low, start, end);
                let lower = cursor_query::covering_path(child, low, start, end);
                lemma_path_front(tree, path);
                assert(path.drop_first() =~= lower);
            }
        },
        None => {},
    }
}

/// What a range query finds is the deepest: no child of it is picked for the range.
pub proof fn lemma_covering_deepest(tree: Tree, base: nat, start: nat, end: nat)
    requires
        base <= start <= end <= base + tree.len(),
    ensures
        ({
            let path = cursor_query::covering_path(tree, base, start, end);
            cursor_query::picked_child(
                model::tree_at(tree, path),
                base + model::offset_at(tree, path),
                start,
                end,
            ) is None
        }),
    decreases tree,
{
    let path = cursor_query::covering_path(tree, base, start, end);
    if tree is Node {
        cursor_query::lemma_picked_inside(tree, base, start, end);
    }
    match cursor_query::picked_child(tree, base, start, end) {
        Some(index) => {
            if 0 <= index < tree.children().len() {
                let child = tree.children()[index];
                let low = base + model::offset_in(tree.children(), index);
                lemma_covering_deepest(child, low, start, end);
                let lower = cursor_query::covering_path(child, low, start, end);
                lemma_path_front(tree, path);
                assert(path.drop_first() =~= lower);
            }
        },
        None => {},
    }
}

/// The offset that the tokens among some places reach from an offset without gap or overlap.
pub open spec fn tiled(places: Seq<Place>, from: nat) -> Option<nat>
    decreases places.len(),
{
    if places.len() == 0 {
        Some(from)
    } else if places[0].tree() is Token {
        if places[0].start() == from {
            tiled(places.drop_first(), places[0].end())
        } else {
            None
        }
    } else {
        tiled(places.drop_first(), from)
    }
}

/// Places in a row go on where the part before ends.
proof fn lemma_tiled_concat(left: Seq<Place>, right: Seq<Place>, from: nat)
    ensures
        tiled(left + right, from) == match tiled(left, from) {
            Some(reached) => tiled(right, reached),
            None => None,
        },
    decreases left.len(),
{
    if left.len() == 0 {
        assert(left + right =~= right);
    } else {
        assert((left + right).drop_first() =~= left.drop_first() + right);
        lemma_tiled_concat(left.drop_first(), right, left[0].end());
        lemma_tiled_concat(left.drop_first(), right, from);
    }
}

/// The tokens of a subtree cover its range without gap or overlap, in source order.
pub proof fn lemma_tokens_tile(place: Place)
    requires
        place.valid(),
    ensures
        tiled(cursor_traversal::subtree_places(place, place.tree(), false), place.start()) == Some(
            place.end(),
        ),
    decreases place.tree(), place.tree().children().len() + 1,
{
    let tree = place.tree();
    let trees = tree.children();
    let below = cursor_traversal::forest_places(place, tree, 0, false);
    assert(cursor_traversal::subtree_places(place, tree, false).drop_first() =~= below);
    match tree {
        Tree::Node { kind, children } => {
            assert(model::offset_in(trees, 0) == 0) by {
                assert(trees.take(0) =~= Seq::empty());
            }
            lemma_children_tile(place, 0);
        },
        Tree::Token { kind, text } => {
            assert(below =~= Seq::empty());
            assert(tiled(below, place.end()) == Some(place.end()));
        },
    }
}

/// The tokens of children cover their range without gap or overlap.
proof fn lemma_children_tile(place: Place, index: int)
    requires
        place.valid(),
        place.tree() is Node,
        0 <= index <= place.tree().children().len(),
    ensures
        tiled(
            cursor_traversal::forest_places(place, place.tree(), index, false),
            place.start() + model::offset_in(place.tree().children(), index),
        ) == Some(place.end()),
    decreases place.tree(), place.tree().children().len() - index,
{
    let tree = place.tree();
    let trees = tree.children();
    let from = place.start() + model::offset_in(trees, index);
    if index < trees.len() {
        let child = place.child(index);
        place.lemma_child(index);
        model::lemma_offset_step(trees, index);
        lemma_tokens_tile(child);
        lemma_children_tile(place, index + 1);
        lemma_tiled_concat(
            cursor_traversal::subtree_places(child, trees[index], false),
            cursor_traversal::forest_places(place, tree, index + 1, false),
            from,
        );
    } else {
        assert(trees.take(index) =~= trees);
    }
}

/// The places of a subtree are all different.
pub proof fn lemma_places_distinct(top: Place, nodes_only: bool)
    ensures
        cursor_traversal::subtree_places(top, top.tree(), nodes_only).no_duplicates(),
{
    let events = cursor_traversal::walk(top, top.tree(), nodes_only);
    lemma_walk_met_once(top, top.tree(), nodes_only);
    cursor_traversal::lemma_walk_enters_subtree(top, top.tree(), nodes_only);
    lemma_entered_distinct(events);
}

/// Events that are all different enter places that are all different.
proof fn lemma_entered_distinct(events: Seq<WalkEvent<Place>>)
    requires
        events.no_duplicates(),
    ensures
        cursor_traversal::entered_places(events).no_duplicates(),
        forall|i: int|
            #![trigger cursor_traversal::entered_places(events)[i]]
            0 <= i < cursor_traversal::entered_places(events).len() ==> events.contains(
                WalkEvent::Enter(cursor_traversal::entered_places(events)[i]),
            ),
    decreases events.len(),
{
    let places = cursor_traversal::entered_places(events);
    if events.len() > 0 {
        let rest = events.drop_first();
        let others = cursor_traversal::entered_places(rest);
        assert forall|i: int, j: int| 0 <= i < rest.len() && 0 <= j < rest.len() && i != j
            implies rest[i] != rest[j] by {
            assert(rest[i] == events[i + 1] && rest[j] == events[j + 1]);
        }
        lemma_entered_distinct(rest);
        let skipped = if events[0] is Enter {
            1int
        } else {
            0int
        };
        assert forall|i: int|
            #![trigger places[i]]
            0 <= i < places.len() implies events.contains(WalkEvent::Enter(places[i])) by {
            if i < skipped {
                assert(events[0] == WalkEvent::Enter(places[i]));
            } else {
                assert(places[i] == others[i - skipped]);
                let k = choose|k: int|
                    0 <= k < rest.len() && rest[k] == WalkEvent::Enter(others[i - skipped]);
                assert(events[k + 1] == WalkEvent::Enter(places[i]));
            }
        }
        assert forall|i: int, j: int| 0 <= i < places.len() && 0 <= j < places.len() && i != j
            implies places[i] != places[j] by {
            if i >= skipped && j >= skipped {
                assert(places[i] == others[i - skipped] && places[j] == others[j - skipped]);
            } else {
                let low = if i < skipped {
                    j
                } else {
                    i
                };
                assert(places[low] == others[low - skipped]);
                let k = choose|k: int|
                    0 <= k < rest.len() && rest[k] == WalkEvent::Enter(others[low - skipped]);
                assert(events[k + 1] == WalkEvent::Enter(places[low]));
                assert(events[0] == WalkEvent::Enter(places[0]));
            }
        }
    }
}

/// Every place of a subtree is among its places.
pub proof fn lemma_place_listed(top: Place, place: Place)
    requires
        top.valid(),
        place.valid(),
        top.holds(place),
    ensures
        cursor_traversal::subtree_places(top, top.tree(), false).contains(place),
{
    let events = cursor_traversal::walk(top, top.tree(), false);
    lemma_walk_meets(top, place, false);
    cursor_traversal::lemma_walk_enters_subtree(top, top.tree(), false);
    let (i, j) = choose|i: int, j: int|
        0 <= i < j < events.len() && #[trigger] events[i] == WalkEvent::Enter(place)
            && #[trigger] events[j] == WalkEvent::Leave(place);
    lemma_entered_listed(events, i, place);
}

/// What an event enters is among the places entered.
proof fn lemma_entered_listed(events: Seq<WalkEvent<Place>>, index: int, place: Place)
    requires
        0 <= index < events.len(),
        events[index] == WalkEvent::Enter(place),
    ensures
        cursor_traversal::entered_places(events).contains(place),
    decreases index,
{
    let places = cursor_traversal::entered_places(events);
    if index == 0 {
        assert(places[0] == place);
    } else {
        let rest = events.drop_first();
        lemma_entered_listed(rest, index - 1, place);
        let others = cursor_traversal::entered_places(rest);
        let k = choose|k: int| 0 <= k < others.len() && others[k] == place;
        if events[0] is Enter {
            assert(places[k + 1] == place);
        } else {
            assert(places[k] == place);
        }
    }
}

} // verus!
