//! What queries by offset and by range find, in terms of the offsets and lengths of the elements.

use vstd::prelude::*;

use crate::cursor::SyntaxToken;
use crate::cursor_data::Place;
use crate::cursor_query;
use crate::cursor_traversal;
use crate::model;
use crate::model::Tree;
use crate::text::TextRange;
use crate::utility_types::TokenAtOffset;

verus! {

/// Where the text of a forest is not empty, every offset in its closed range touches a tree that is
/// not empty.
proof fn lemma_some_child_touches(trees: Seq<Tree>, offset: nat) -> (index: int)
    requires
        model::forest_len(trees) > 0,
        offset <= model::forest_len(trees),
    ensures
        0 <= index < trees.len(),
        trees[index].len() > 0,
        model::offset_in(trees, index) <= offset <= model::offset_in(trees, index)
            + trees[index].len(),
    decreases trees.len(),
{
    let last = trees.len() - 1;
    let front = trees.drop_last();
    assert(trees.take(last) =~= front);
    if trees.last().len() > 0 && model::forest_len(front) <= offset {
        last
    } else {
        let index = lemma_some_child_touches(front, offset);
        assert(trees.take(index) =~= front.take(index));
        index
    }
}

/// Where the text of a tree is not empty, every offset in its closed range touches a token that is
/// not empty.
proof fn lemma_some_token_touches(tree: Tree, offset: nat) -> (path: Seq<int>)
    requires
        0 < tree.len(),
        offset <= tree.len(),
    ensures
        model::token_at(tree, path),
        model::tree_at(tree, path).len() > 0,
        model::offset_at(tree, path) <= offset <= model::offset_at(tree, path) + model::tree_at(
            tree,
            path,
        ).len(),
    decreases tree,
{
    match tree {
        Tree::Token { kind, text } => Seq::empty(),
        Tree::Node { kind, children } => {
            let index = lemma_some_child_touches(children, offset);
            let start = model::offset_in(children, index);
            let lower = lemma_some_token_touches(children[index], (offset - start) as nat);
            let path = seq![index] + lower;
            let step = seq![index];
            assert(step.drop_last() =~= Seq::empty());
            assert(model::tree_at(tree, step) == children[index]) by {
                reveal_with_fuel(model::tree_at, 2);
            }
            assert(model::offset_at(tree, step) == start) by {
                reveal_with_fuel(model::offset_at, 2);
                reveal_with_fuel(model::tree_at, 2);
            }
            assert(model::path_exists(tree, step)) by {
                reveal_with_fuel(model::path_exists, 2);
                reveal_with_fuel(model::tree_at, 2);
            }
            model::lemma_path_concat(tree, step, lower);
            path
        },
    }
}

/// The tokens found at an offset are the tokens of the subtree whose text is not empty and whose
/// closed range contains the offset; there is one wherever the subtree has text.
pub proof fn lemma_tokens_at_offset(
    place: Place,
    offset: nat,
    found: TokenAtOffset<SyntaxToken>,
)
    requires
        place.valid(),
        place.start() <= offset <= place.end(),
        cursor_query::are_touching(place, offset, found.tokens()),
    ensures
        place.start() < place.end() ==> !(found is Empty),
        match found {
            TokenAtOffset::Empty => true,
            TokenAtOffset::Single(token) => found_at(place, offset, token),
            TokenAtOffset::Between(left, right) => {
                &&& found_at(place, offset, left)
                &&& found_at(place, offset, right)
                &&& left.place().end() == offset
                &&& right.place().start() == offset
            },
        },
        forall|token: Place|
            #![trigger token.valid()]
            token.valid() && place.holds(token) && token.tree() is Token && token.start() < offset
                < token.end() ==> (found matches TokenAtOffset::Single(single) && single.place()
                == token),
        forall|token: Place|
            #![trigger token.valid()]
            token.valid() && place.holds(token) && token.tree() is Token && token.start()
                < token.end() && token.start() <= offset <= token.end() ==> match found {
                TokenAtOffset::Empty => false,
                TokenAtOffset::Single(single) => single.place() == token,
                TokenAtOffset::Between(left, right) => left.place() == token || right.place()
                    == token,
            },
{
    let tokens = found.tokens();
    let root = place.root@;
    assert forall|i: int| 0 <= i < tokens.len() implies found_at(
        place,
        offset,
        #[trigger] tokens[i],
    ) by {
        assert(cursor_query::touches(place, tokens[i].place().path, offset));
    }
    if place.start() < place.end() {
        let lower = lemma_some_token_touches(place.tree(), (offset - place.start()) as nat);
        model::lemma_path_concat(root, place.path, lower);
        let path = place.path + lower;
        assert(path.take(place.path.len() as int) =~= place.path);
        assert(cursor_query::touches(place, path, offset));
    }
    match found {
        TokenAtOffset::Empty => {},
        TokenAtOffset::Single(token) => {
            assert(tokens[0] == token);
        },
        TokenAtOffset::Between(left, right) => {
            assert(tokens[0] == left && tokens[1] == right);
            model::lemma_before_offsets(root, left.place().path, right.place().path);
        },
    }
    assert forall|token: Place|
        #![trigger token.valid()]
        token.valid() && place.holds(token) && token.tree() is Token && token.start() < token.end()
            && token.start() <= offset <= token.end() implies match found {
        TokenAtOffset::Empty => false,
        TokenAtOffset::Single(single) => single.place() == token,
        TokenAtOffset::Between(left, right) => left.place() == token || right.place() == token,
    } by {
        assert(cursor_query::touches(place, token.path, offset));
        let i = choose|i: int|
            0 <= i < tokens.len() && (#[trigger] tokens[i]).place().path == token.path;
        assert(tokens[i].place() == token);
    }
    assert forall|token: Place|
        #![trigger token.valid()]
        token.valid() && place.holds(token) && token.tree() is Token && token.start() < offset
            < token.end() implies (found matches TokenAtOffset::Single(single) && single.place()
        == token) by {}
}

/// A token lies in the subtree, has text, and its closed range contains the offset.
pub open spec fn found_at(place: Place, offset: nat, token: SyntaxToken) -> bool {
    &&& place.holds(token.place())
    &&& token.place().tree() is Token
    &&& token.place().start() < token.place().end()
    &&& token.place().start() <= offset <= token.place().end()
}

/// At most one child contains a range that is not empty.
proof fn lemma_containing_unique(trees: Seq<Tree>, start: nat, end: nat, left: int, right: int)
    requires
        start < end,
        0 <= left < trees.len(),
        0 <= right < trees.len(),
        model::offset_in(trees, left) <= start,
        end <= model::offset_in(trees, left) + trees[left].len(),
        model::offset_in(trees, right) <= start,
        end <= model::offset_in(trees, right) + trees[right].len(),
    ensures
        left == right,
{
    if left < right {
        model::lemma_offset_step(trees, left);
        model::lemma_offset_order(trees, left + 1, right);
    } else if right < left {
        model::lemma_offset_step(trees, right);
        model::lemma_offset_order(trees, right + 1, left);
    }
}

/// A child that a query selects is found, unless one before it is.
proof fn lemma_selected_first(
    trees: Seq<Tree>,
    base: nat,
    start: nat,
    end: nat,
    low: int,
    index: int,
)
    requires
        0 <= low <= index < trees.len(),
        cursor_query::selects(
            base + model::offset_in(trees, index),
            base + model::offset_in(trees, index) + trees[index].len(),
            start,
            end,
        ),
    ensures
        cursor_query::selected_from(trees, base, start, end, low) matches Some(found) && low
            <= found <= index,
    decreases index - low,
{
    if low < index {
        lemma_selected_first(trees, base, start, end, low + 1, index);
    }
}

/// No child before the one found is selected.
proof fn lemma_none_selected_before(
    trees: Seq<Tree>,
    base: nat,
    start: nat,
    end: nat,
    low: int,
    index: int,
)
    requires
        0 <= low <= index < trees.len(),
        match cursor_query::selected_from(trees, base, start, end, low) {
            Some(found) => index < found,
            None => true,
        },
    ensures
        !cursor_query::selects(
            base + model::offset_in(trees, index),
            base + model::offset_in(trees, index) + trees[index].len(),
            start,
            end,
        ),
    decreases index - low,
{
    if cursor_query::selects(
        base + model::offset_in(trees, index),
        base + model::offset_in(trees, index) + trees[index].len(),
        start,
        end,
    ) {
        lemma_selected_first(trees, base, start, end, low, index);
    }
}

/// The child that a range query finds contains the range. A range that is not empty finds the child
/// that contains it, wherever there is one. An empty range at the end of the node finds the last
/// child; elsewhere it finds the first child that starts at it or has it strictly inside.
pub proof fn lemma_child_at_range(place: Place, start: nat, end: nat)
    requires
        place.valid(),
        place.tree() is Node,
        place.start() <= start <= end <= place.end(),
    ensures
        ({
            let count = place.tree().children().len();
            let found = cursor_query::picked_child(place.tree(), place.start(), start, end);
            &&& found matches Some(index) ==> 0 <= index < count && place.child(index).start()
                <= start && end <= place.child(index).end()
            &&& start < end ==> forall|i: int|
                #![trigger place.child(i)]
                0 <= i < count && place.child(i).start() <= start && end <= place.child(i).end()
                    ==> found == Some(i)
            &&& start == end && start == place.end() && count > 0 ==> found == Some(count - 1)
            &&& start == end && start < place.end() ==> (found matches Some(index) && {
                &&& place.child(index).start() == start || place.child(index).start() < start
                    < place.child(index).end()
                &&& forall|i: int|
                    #![trigger place.child(i)]
                    0 <= i < index ==> place.child(i).start() < start && place.child(i).end()
                        <= start
            })
        }),
{
    let trees = place.tree().children();
    let base = place.start();
    let found = cursor_query::picked_child(place.tree(), base, start, end);
    cursor_query::lemma_picked_inside(place.tree(), base, start, end);
    if found is Some {
        place.lemma_child(found->0);
    }
    if start < end {
        assert forall|i: int|
            #![trigger place.child(i)]
            0 <= i < trees.len() && place.child(i).start() <= start && end <= place.child(
                i,
            ).end() implies found == Some(i) by {
            place.lemma_child(i);
            lemma_selected_first(trees, base, start, end, 0, i);
            lemma_containing_unique(
                trees,
                (start - base) as nat,
                (end - base) as nat,
                i,
                found->0,
            );
        }
    } else if start < place.end() {
        let offset = (start - base) as nat;
        let touched = lemma_some_child_touches(trees, offset);
        let chosen = if offset == model::offset_in(trees, touched) + trees[touched].len() {
            model::lemma_offset_step(trees, touched);
            model::lemma_offset_order(trees, 0, trees.len() as int);
            touched + 1
        } else {
            touched
        };
        assert(chosen < trees.len());
        lemma_selected_first(trees, base, start, end, 0, chosen);
        cursor_query::lemma_selected_inside(trees, base, start, end, 0);
        let index = found->0;
        assert forall|i: int|
            #![trigger place.child(i)]
            0 <= i < index implies place.child(i).start() < start && place.child(i).end()
            <= start by {
            place.lemma_child(i);
            lemma_none_selected_before(trees, base, start, end, 0, i);
            model::lemma_offset_step(trees, i);
            model::lemma_offset_order(trees, i, index);
        }
    }
}

/// The deepest element that contains a range contains it and lies in the subtree. For a range that
/// is not empty, every element of the subtree that contains the range is that element or lies above
/// it; for an empty one the element has no children.
pub proof fn lemma_covering(place: Place, start: nat, end: nat)
    requires
        place.valid(),
        place.start() <= start <= end <= place.end(),
    ensures
        ({
            let covering = place.below(
                cursor_query::covering_path(place.tree(), place.start(), start, end),
            );
            &&& covering.valid()
            &&& place.holds(covering)
            &&& covering.start() <= start
            &&& end <= covering.end()
            &&& start < end ==> forall|other: Place|
                #![trigger other.valid()]
                other.valid() && place.holds(other) && other.start() <= start && end
                    <= other.end() ==> other.holds(covering)
            &&& start < end ==> forall|i: int|
                #![trigger covering.child(i)]
                0 <= i < covering.tree().children().len() ==> !(covering.child(i).start() <= start
                    && end <= covering.child(i).end())
            &&& start == end ==> covering.tree().children().len() == 0
        }),
    decreases place.tree(),
{
    let tree = place.tree();
    let path = cursor_query::covering_path(tree, place.start(), start, end);
    let covering = place.below(path);
    assert(place.path.take(place.path.len() as int) =~= place.path);
    if tree is Node {
        lemma_child_at_range(place, start, end);
    }
    match cursor_query::picked_child(tree, place.start(), start, end) {
        Some(index) => {
            let lower = place.child(index);
            place.lemma_child(index);
            lemma_covering(lower, start, end);
            let rest = cursor_query::covering_path(lower.tree(), lower.start(), start, end);
            assert(place.path + (seq![index] + rest) =~= place.path.push(index) + rest);
            assert(covering == lower.below(rest));
            assert(covering.path.take(place.path.len() as int) =~= place.path);
            if start < end {
                assert forall|other: Place|
                    #![trigger other.valid()]
                    other.valid() && place.holds(other) && other.start() <= start && end
                        <= other.end() implies other.holds(covering) by {
                    if other.path.len() == place.path.len() {
                        assert(other.path.take(place.path.len() as int) =~= other.path);
                        assert(other == place);
                    } else {
                        let step = other.path[place.path.len() as int];
                        cursor_traversal::lemma_step_down(place, other);
                        let between = place.child(step);
                        model::lemma_inside_upper(place.root@, between.path, other.path);
                        assert(place.child(step).start() <= start);
                        assert(step == index);
                    }
                }
            }
        },
        None => {
            assert(place.path + Seq::<int>::empty() =~= place.path);
            assert(covering == place);
            if start < end {
                assert forall|i: int|
                    #![trigger covering.child(i)]
                    0 <= i < covering.tree().children().len() implies !(covering.child(i).start()
                    <= start && end <= covering.child(i).end()) by {
                    assert(place.child(i) == covering.child(i));
                }
                assert forall|other: Place|
                    #![trigger other.valid()]
                    other.valid() && place.holds(other) && other.start() <= start && end
                        <= other.end() implies other.holds(covering) by {
                    if other.path.len() == place.path.len() {
                        assert(other.path.take(place.path.len() as int) =~= other.path);
                    } else {
                        let step = other.path[place.path.len() as int];
                        cursor_traversal::lemma_step_down(place, other);
                        let between = place.child(step);
                        model::lemma_inside_upper(place.root@, between.path, other.path);
                        assert(place.child(step).start() <= start);
                    }
                }
            }
        },
    }
}

/// Every offset of a range inside an element, ends included, is an offset of the element. A range
/// whose ends are offsets of the element lies inside it.
pub proof fn lemma_range_inside(place: Place, range: TextRange, offset: int)
    requires
        range.ordered(),
        range.lo()@ <= offset <= range.hi()@,
    ensures
        cursor_query::range_inside(place, range) ==> place.start() <= offset <= place.end(),
        place.start() <= range.lo()@ <= place.end() && place.start() <= range.hi()@ <= place.end()
            ==> cursor_query::range_inside(place, range),
{
}

/// The range of an element begins and ends where the element does.
pub proof fn lemma_range_at(place: Place)
    requires
        place.valid(),
    ensures
        cursor_query::range_at(place).lo()@ == place.start(),
        cursor_query::range_at(place).hi()@ == place.end(),
{
    broadcast use crate::text::group_text_range;

    place.lemma_valid();
}

} // verus!
