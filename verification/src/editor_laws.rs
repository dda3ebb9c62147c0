//! What edits of a transactional editor keep and undo.

use vstd::prelude::*;

use crate::cursor_data;
use crate::cursor_editor;
use crate::cursor_editor::EditError;
use crate::cursor_editor::EditorElementId;
use crate::cursor_editor::EditorNodeId;
use crate::cursor_editor::SpliceOutcome;
use crate::cursor_editor::SyntaxEditor;
use crate::green::element::GreenElement;
use crate::green::node;
use crate::green::node::GreenNode;
use crate::model;
use crate::utility_types::NodeOrToken;

verus! {

/// IDs stay valid across every splice.
pub proof fn lemma_ids_survive_splice(
    before: SyntaxEditor,
    after: SyntaxEditor,
    target: int,
    start: int,
    end: int,
    insertions: Seq<EditorElementId>,
    element: EditorElementId,
)
    requires
        before.valid(),
        after.valid(),
        cursor_editor::splicing::spliced(before, after, target, start, end, insertions),
    ensures
        after.owns(element) <==> before.owns(element),
{
    if before.owns(element) {
        before.lemma_owned(element);
        assert(after.id(cursor_editor::slot_of(element)) == before.id(
            cursor_editor::slot_of(element),
        ));
        after.lemma_element(cursor_editor::slot_of(element));
    }
    if after.owns(element) {
        after.lemma_owned(element);
        assert(after.id(cursor_editor::slot_of(element)) == before.id(
            cursor_editor::slot_of(element),
        ));
        before.lemma_element(cursor_editor::slot_of(element));
    }
}

/// IDs stay valid when a component is imported.
pub proof fn lemma_ids_survive_import(
    before: SyntaxEditor,
    after: SyntaxEditor,
    id: EditorElementId,
    green: GreenElement,
    tree: model::Tree,
    element: EditorElementId,
)
    requires
        before.valid(),
        after.valid(),
        cursor_editor::materialization::component_added(before, after, id, green, tree),
        before.owns(element),
    ensures
        after.owns(element),
        element != id,
{
    before.lemma_owned(element);
    assert(after.id(cursor_editor::slot_of(element)) == before.id(
        cursor_editor::slot_of(element),
    ));
    after.lemma_element(cursor_editor::slot_of(element));
}

/// An ID that carries another identity is rejected.
pub proof fn lemma_foreign_rejected(editor: SyntaxEditor, element: EditorElementId)
    requires
        editor.valid(),
        cursor_editor::owner_of(element) != editor.owner(),
    ensures
        !editor.owns(element),
{
    if editor.owns(element) {
        editor.lemma_owned(element);
    }
}

/// An element that is inserted ends up below the target, and in the order of the insertions.
pub proof fn lemma_insertion_attached(
    before: SyntaxEditor,
    after: SyntaxEditor,
    target: EditorNodeId,
    start: int,
    end: int,
    insertions: Seq<EditorElementId>,
    position: int,
)
    requires
        before.valid(),
        after.valid(),
        before.owns(NodeOrToken::Node(target)),
        cursor_editor::splicing::spliced(before, after, target.slot(), start, end, insertions),
        0 <= position < insertions.len(),
    ensures
        ({
            let slot = cursor_editor::slot_of(insertions[position]);
            let prefix = cursor_editor::checks::outside(
                before.children_at(target.slot()).take(start),
                insertions,
            );
            &&& after.parent_at(slot) == Some(target)
            &&& after.index_at(slot) == Some((prefix.len() + position) as usize)
        }),
{
    let prefix = cursor_editor::checks::outside(
        before.children_at(target.slot()).take(start),
        insertions,
    );
    before.lemma_owned(NodeOrToken::Node(target));
    assert(after.id(target.slot()) == before.id(target.slot()));
    let kids = after.children_at(target.slot());
    assert(kids == cursor_editor::splicing::spliced_kids(
        before,
        target.slot(),
        start,
        end,
        insertions,
        target.slot(),
    ));
    assert(kids[prefix.len() + position] == insertions[position]);
    after.lemma_child(target.slot(), prefix.len() + position);
}

/// An element of the replaced range that is not inserted again becomes a component of its own.
pub proof fn lemma_removed_detached(
    before: SyntaxEditor,
    after: SyntaxEditor,
    target: EditorNodeId,
    start: int,
    end: int,
    insertions: Seq<EditorElementId>,
    index: int,
)
    requires
        before.valid(),
        after.valid(),
        before.owns(NodeOrToken::Node(target)),
        cursor_editor::splicing::spliced(before, after, target.slot(), start, end, insertions),
        0 <= start <= index < end <= before.children_at(target.slot()).len(),
        !insertions.contains(before.children_at(target.slot())[index]),
    ensures
        ({
            let slot = cursor_editor::slot_of(before.children_at(target.slot())[index]);
            &&& after.parent_at(slot) is None
            &&& after.index_at(slot) is None
            &&& after.offset_at(slot) == 0
        }),
{
    let children = before.children_at(target.slot());
    let element = children[index];
    let slot = cursor_editor::slot_of(element);
    before.lemma_owned(NodeOrToken::Node(target));
    before.lemma_element(target.slot());
    before.lemma_child(target.slot(), index);
    before.lemma_owned(element);
    assert(after.id(slot) == before.id(slot));
    after.lemma_element(slot);
    if after.parent_at(slot) is Some {
        let parent = after.parent_at(slot)->0;
        let upper = parent.slot();
        after.lemma_owned(NodeOrToken::Node(parent));
        let kids = after.children_at(upper);
        let position = after.index_at(slot)->0 as int;
        assert(after.id(upper) == before.id(upper));
        assert(kids == cursor_editor::splicing::spliced_kids(
            before,
            target.slot(),
            start,
            end,
            insertions,
            upper,
        ));
        assert(kids[position] == element);
        assert(kids.contains(element));
        if upper == target.slot() {
            let front = cursor_editor::checks::outside(children.take(start), insertions);
            let back = cursor_editor::checks::outside(children.skip(end), insertions);
            cursor_editor::checks::lemma_outside_members(children.take(start), insertions, element);
            cursor_editor::checks::lemma_outside_members(children.skip(end), insertions, element);
            if position < front.len() {
                assert(front[position] == element);
                assert(front.contains(element));
                let i = choose|i: int|
                    0 <= i < children.take(start).len() && children.take(start)[i] == element;
                assert(children[i] == element);
            } else if position < front.len() + insertions.len() {
                assert(insertions[position - front.len()] == element);
            } else {
                assert(back[position - front.len() - insertions.len()] == element);
                assert(back.contains(element));
                let i = choose|i: int|
                    0 <= i < children.skip(end).len() && children.skip(end)[i] == element;
                assert(children[end + i] == element);
            }
        } else {
            let others = before.children_at(upper);
            cursor_editor::checks::lemma_outside_members(others, insertions, element);
            let i = choose|i: int| 0 <= i < others.len() && others[i] == element;
            before.lemma_child(upper, i);
            before.lemma_element(upper);
        }
    }
}

/// An element that is neither removed nor inserted keeps its parent.
pub proof fn lemma_others_keep_parent(
    before: SyntaxEditor,
    after: SyntaxEditor,
    target: EditorNodeId,
    start: int,
    end: int,
    insertions: Seq<EditorElementId>,
    slot: int,
)
    requires
        before.valid(),
        after.valid(),
        before.owns(NodeOrToken::Node(target)),
        cursor_editor::splicing::spliced(before, after, target.slot(), start, end, insertions),
        0 <= start <= end <= before.children_at(target.slot()).len(),
        0 <= slot < before.slots(),
        !insertions.contains(before.id(slot)),
        !before.children_at(target.slot()).subrange(start, end).contains(before.id(slot)),
    ensures
        after.parent_at(slot) == before.parent_at(slot),
{
    let element = before.id(slot);
    let children = before.children_at(target.slot());
    before.lemma_owned(NodeOrToken::Node(target));
    before.lemma_element(slot);
    assert(after.id(slot) == before.id(slot));
    after.lemma_element(slot);
    if before.parent_at(slot) is Some {
        let parent = before.parent_at(slot)->0;
        let upper = parent.slot();
        let index = before.index_at(slot)->0 as int;
        before.lemma_owned(NodeOrToken::Node(parent));
        assert(after.id(upper) == before.id(upper));
        let kids = after.children_at(upper);
        assert(kids == cursor_editor::splicing::spliced_kids(
            before,
            target.slot(),
            start,
            end,
            insertions,
            upper,
        ));
        if upper == target.slot() {
            let front = cursor_editor::checks::outside(children.take(start), insertions);
            let back = cursor_editor::checks::outside(children.skip(end), insertions);
            cursor_editor::checks::lemma_outside_members(children.take(start), insertions, element);
            cursor_editor::checks::lemma_outside_members(children.skip(end), insertions, element);
            if index < start {
                assert(children.take(start)[index] == element);
                assert(front.contains(element));
                let i = choose|i: int| 0 <= i < front.len() && front[i] == element;
                assert(kids[i] == element);
                assert(kids.contains(element));
            } else if index < end {
                assert(children.subrange(start, end)[index - start] == element);
            } else {
                assert(children.skip(end)[index - end] == element);
                assert(back.contains(element));
                let i = choose|i: int| 0 <= i < back.len() && back[i] == element;
                assert(kids[front.len() + insertions.len() + i] == element);
                assert(kids.contains(element));
            }
        } else {
            let others = before.children_at(upper);
            assert(others[index] == element);
            cursor_editor::checks::lemma_outside_members(others, insertions, element);
            assert(kids.contains(element));
        }
        let position = choose|position: int|
            0 <= position < kids.len() && kids[position] == element;
        after.lemma_child(upper, position);
        after.lemma_element(upper);
    } else if after.parent_at(slot) is Some {
        let parent = after.parent_at(slot)->0;
        let upper = parent.slot();
        let position = after.index_at(slot)->0 as int;
        after.lemma_owned(NodeOrToken::Node(parent));
        let kids = after.children_at(upper);
        assert(after.id(upper) == before.id(upper));
        assert(kids == cursor_editor::splicing::spliced_kids(
            before,
            target.slot(),
            start,
            end,
            insertions,
            upper,
        ));
        assert(kids.contains(element));
        let others = before.children_at(upper);
        cursor_editor::checks::lemma_outside_members(others, insertions, element);
        cursor_editor::checks::lemma_outside_members(children.take(start), insertions, element);
        cursor_editor::checks::lemma_outside_members(children.skip(end), insertions, element);
        if upper == target.slot() {
            let front = cursor_editor::checks::outside(children.take(start), insertions);
            let back = cursor_editor::checks::outside(children.skip(end), insertions);
            if position < front.len() {
                assert(front[position] == element);
                assert(children.take(start).contains(element));
                let i = choose|i: int|
                    0 <= i < children.take(start).len() && children.take(start)[i] == element;
                assert(children[i] == element);
                before.lemma_child(upper, i);
            } else if position < front.len() + insertions.len() {
                assert(insertions[position - front.len()] == element);
            } else {
                assert(back[position - front.len() - insertions.len()] == element);
                assert(children.skip(end).contains(element));
                let i = choose|i: int|
                    0 <= i < children.skip(end).len() && children.skip(end)[i] == element;
                assert(children[end + i] == element);
                before.lemma_child(upper, end + i);
            }
        } else {
            assert(others.contains(element));
            let i = choose|i: int| 0 <= i < others.len() && others[i] == element;
            before.lemma_child(upper, i);
        }
    }
}

/// The trees of an editor are determined by the kinds, the tokens and the child lists: editors that
/// agree on them hold the same tree at a slot.
pub proof fn lemma_same_trees(left: SyntaxEditor, right: SyntaxEditor, slot: int)
    requires
        left.valid(),
        right.valid(),
        left.slots() == right.slots(),
        0 <= slot < left.slots(),
        forall|s: int|
            0 <= s < left.slots() ==> {
                &&& #[trigger] left.id(s) == right.id(s)
                &&& left.children_at(s) == right.children_at(s)
                &&& left.tree(s).kind() == right.tree(s).kind()
                &&& left.tree(s) is Token ==> left.tree(s) == right.tree(s)
            },
    ensures
        left.tree(slot) == right.tree(slot),
    decreases left.tree(slot).height(),
{
    assert(left.id(slot) == right.id(slot));
    left.lemma_element(slot);
    right.lemma_element(slot);
    if left.tree(slot) is Node {
        let trees = left.tree(slot).children();
        assert forall|i: int| 0 <= i < trees.len() implies trees[i]
            == right.tree(slot).children()[i] by {
            left.lemma_child(slot, i);
            right.lemma_child(slot, i);
            let child = left.children_at(slot)[i];
            left.lemma_owned(child);
            model::lemma_height_of_member(trees, i);
            lemma_same_trees(left, right, cursor_editor::slot_of(child));
        }
        assert(trees =~= right.tree(slot).children());
    }
}

/// Detaching an element and inserting it again where it was restores every tree, every child list
/// and every parent, index and offset.
pub proof fn lemma_detach_undone(
    before: SyntaxEditor,
    between: SyntaxEditor,
    after: SyntaxEditor,
    parent: EditorNodeId,
    index: int,
    slot: int,
)
    requires
        before.valid(),
        between.valid(),
        after.valid(),
        before.owns(NodeOrToken::Node(parent)),
        0 <= index < before.children_at(parent.slot()).len(),
        cursor_editor::splicing::spliced(
            before,
            between,
            parent.slot(),
            index,
            index + 1,
            Seq::empty(),
        ),
        cursor_editor::splicing::spliced(
            between,
            after,
            parent.slot(),
            index,
            index,
            seq![before.children_at(parent.slot())[index]],
        ),
        0 <= slot < before.slots(),
    ensures
        after.id(slot) == before.id(slot),
        after.children_at(slot) == before.children_at(slot),
        after.tree(slot) == before.tree(slot),
        after.parent_at(slot) == before.parent_at(slot),
        after.index_at(slot) == before.index_at(slot),
        after.offset_at(slot) == before.offset_at(slot),
{
    let top = parent.slot();
    let element = before.children_at(top)[index];
    before.lemma_owned(NodeOrToken::Node(parent));
    assert forall|s: int| 0 <= s < before.slots() implies {
        &&& #[trigger] after.id(s) == before.id(s)
        &&& after.children_at(s) == before.children_at(s)
        &&& after.tree(s).kind() == before.tree(s).kind()
        &&& after.tree(s) is Token ==> after.tree(s) == before.tree(s)
    } by {
        assert(between.id(s) == before.id(s));
        before.lemma_element(s);
        between.lemma_element(s);
        after.lemma_element(s);
        lemma_reinserted_kids(before, between, parent, index, s);
    }
    assert(after.id(slot) == before.id(slot));
    lemma_same_trees(after, before, slot);
    let count = before.slots() as int;
    assert forall|s: int| 0 <= s < count implies #[trigger] after.tree(s) == before.tree(s) by {
        assert(after.id(s) == before.id(s));
        lemma_same_trees(after, before, s);
    }
    let bound = lemma_height_bound(before, count);
    lemma_same_links(before, after, slot, bound);
}

/// A bound on the heights of the trees in the first slots.
proof fn lemma_height_bound(editor: SyntaxEditor, count: int) -> (bound: nat)
    requires
        0 <= count,
    ensures
        forall|s: int| 0 <= s < count ==> (#[trigger] editor.tree(s)).height() <= bound,
    decreases count,
{
    if count == 0 {
        0
    } else {
        let lower = lemma_height_bound(editor, count - 1);
        let own = editor.tree(count - 1).height();
        if lower < own {
            own
        } else {
            lower
        }
    }
}

/// Editors with the same child lists and trees agree on parents, indices and offsets.
proof fn lemma_same_links(left: SyntaxEditor, right: SyntaxEditor, slot: int, bound: nat)
    requires
        left.valid(),
        right.valid(),
        left.owner() == right.owner(),
        left.slots() == right.slots(),
        0 <= slot < left.slots(),
        forall|s: int| 0 <= s < left.slots() ==> (#[trigger] left.tree(s)).height() <= bound,
        forall|s: int|
            0 <= s < left.slots() ==> {
                &&& #[trigger] right.id(s) == left.id(s)
                &&& right.children_at(s) == left.children_at(s)
            },
        forall|s: int| 0 <= s < left.slots() ==> (#[trigger] right.tree(s)) == left.tree(s),
    ensures
        right.parent_at(slot) == left.parent_at(slot),
        right.index_at(slot) == left.index_at(slot),
        right.offset_at(slot) == left.offset_at(slot),
    decreases bound - left.tree(slot).height(),
{
    left.lemma_element(slot);
    right.lemma_element(slot);
    assert(right.id(slot) == left.id(slot));
    if left.parent_at(slot) is Some {
        let parent = left.parent_at(slot)->0;
        let index = left.index_at(slot)->0;
        let upper = parent.slot();
        left.lemma_owned(NodeOrToken::Node(parent));
        assert(right.id(upper) == left.id(upper));
        right.lemma_child(upper, index as int);
        cursor_editor::checks::lemma_parent_higher(left, slot);
        assert(left.tree(upper).height() <= bound);
        lemma_same_links(left, right, upper, bound);
        assert(right.tree(upper) == left.tree(upper));
    } else if right.parent_at(slot) is Some {
        let parent = right.parent_at(slot)->0;
        let index = right.index_at(slot)->0;
        let upper = parent.slot();
        right.lemma_owned(NodeOrToken::Node(parent));
        assert(right.id(upper) == left.id(upper));
        left.lemma_child(upper, index as int);
    }
}

/// Ascending reaches higher trees.
pub proof fn lemma_ascend_higher(editor: SyntaxEditor, slot: int, levels: nat)
    requires
        editor.valid(),
        0 <= slot < editor.slots(),
    ensures
        cursor_editor::checks::ascend(editor, slot, levels) matches Some(upper) ==> {
            &&& 0 <= upper < editor.slots()
            &&& editor.tree(upper).height() >= editor.tree(slot).height() + levels
        },
    decreases levels,
{
    if levels > 0 {
        lemma_ascend_higher(editor, slot, (levels - 1) as nat);
        if let Some(below) = cursor_editor::checks::ascend(editor, slot, (levels - 1) as nat) {
            if editor.parent_at(below) is Some {
                cursor_editor::checks::lemma_parent_higher(editor, below);
            }
        }
    }
}

/// Above an element that does not lie below a detached one, nothing has changed.
proof fn lemma_ascend_kept(
    before: SyntaxEditor,
    between: SyntaxEditor,
    parent: EditorNodeId,
    index: int,
    slot: int,
    levels: nat,
)
    requires
        before.valid(),
        between.valid(),
        before.owns(NodeOrToken::Node(parent)),
        0 <= index < before.children_at(parent.slot()).len(),
        cursor_editor::splicing::spliced(
            before,
            between,
            parent.slot(),
            index,
            index + 1,
            Seq::empty(),
        ),
        0 <= slot < before.slots(),
    ensures
        cursor_editor::checks::ascend(between, slot, levels) matches Some(upper)
            ==> cursor_editor::checks::ascend(before, slot, levels) == Some(upper) && 0 <= upper
            < before.slots(),
    decreases levels,
{
    if levels > 0 {
        let nothing = Seq::<EditorElementId>::empty();
        let children = before.children_at(parent.slot());
        lemma_ascend_kept(before, between, parent, index, slot, (levels - 1) as nat);
        if let Some(below) = cursor_editor::checks::ascend(between, slot, (levels - 1) as nat) {
            before.lemma_element(below);
            let removed = children.subrange(index, index + 1);
            assert(removed =~= seq![children[index]]);
            if before.id(below) == children[index] {
                lemma_removed_detached(
                    before,
                    between,
                    parent,
                    index,
                    index + 1,
                    nothing,
                    index,
                );
            } else {
                lemma_others_keep_parent(
                    before,
                    between,
                    parent,
                    index,
                    index + 1,
                    nothing,
                    below,
                );
                if before.parent_at(below) is Some {
                    before.lemma_owned(NodeOrToken::Node(before.parent_at(below)->0));
                }
            }
        }
    }
}

/// Trees of the shape that inserting a detached element again plans are those before it was
/// detached.
proof fn lemma_planned_again(
    before: SyntaxEditor,
    between: SyntaxEditor,
    parent: EditorNodeId,
    index: int,
    trees: Seq<model::Tree>,
    slot: int,
)
    requires
        before.valid(),
        between.valid(),
        before.owns(NodeOrToken::Node(parent)),
        0 <= index < before.children_at(parent.slot()).len(),
        cursor_editor::splicing::spliced(
            before,
            between,
            parent.slot(),
            index,
            index + 1,
            Seq::empty(),
        ),
        cursor_editor::splicing::spliced_shape(
            between,
            parent.slot(),
            index,
            index,
            seq![before.children_at(parent.slot())[index]],
            trees,
        ),
        0 <= slot < before.slots(),
    ensures
        trees[slot] == before.tree(slot),
    decreases before.tree(slot).height(),
{
    let again = seq![before.children_at(parent.slot())[index]];
    let children = before.children_at(slot);
    assert(between.id(slot) == before.id(slot));
    before.lemma_element(slot);
    between.lemma_element(slot);
    lemma_reinserted_kids(before, between, parent, index, slot);
    assert(trees[slot] == trees[slot]);
    if before.tree(slot) is Node {
        let kids = before.tree(slot).children();
        let planned = cursor_editor::trees_of(trees, children);
        assert forall|i: int| 0 <= i < kids.len() implies planned[i] == kids[i] by {
            before.lemma_child(slot, i);
            before.lemma_owned(children[i]);
            model::lemma_height_of_member(kids, i);
            lemma_planned_again(
                before,
                between,
                parent,
                index,
                trees,
                cursor_editor::slot_of(children[i]),
            );
        }
        assert(planned =~= kids);
    }
}

/// An element that was detached can always be inserted again where it was: the splice succeeds and
/// detaches nothing.
pub proof fn lemma_detached_reinserted(
    before: SyntaxEditor,
    between: SyntaxEditor,
    after: SyntaxEditor,
    parent: EditorNodeId,
    index: usize,
    outcome: Result<SpliceOutcome, EditError>,
)
    requires
        before.valid(),
        between.valid(),
        before.owns(NodeOrToken::Node(parent)),
        index < before.children_at(parent.slot()).len(),
        cursor_editor::splicing::spliced(
            before,
            between,
            parent.slot(),
            index as int,
            index + 1,
            Seq::empty(),
        ),
        cursor_editor::splicing::splice_done(
            between,
            after,
            parent,
            index,
            index,
            seq![before.children_at(parent.slot())[index as int]],
            outcome,
        ),
    ensures
        outcome matches Ok(outcome) && outcome.ids().len() == 0,
        cursor_editor::splicing::spliced(
            between,
            after,
            parent.slot(),
            index as int,
            index as int,
            seq![before.children_at(parent.slot())[index as int]],
        ),
{
    let top = parent.slot();
    let children = before.children_at(top);
    let element = children[index as int];
    let again = seq![element];
    let low = cursor_editor::slot_of(element);
    before.lemma_owned(NodeOrToken::Node(parent));
    before.lemma_element(top);
    before.lemma_child(top, index as int);
    before.lemma_owned(element);
    lemma_ids_survive_splice(
        before,
        between,
        top,
        index as int,
        index + 1,
        Seq::empty(),
        NodeOrToken::Node(parent),
    );
    lemma_ids_survive_splice(before, between, top, index as int, index + 1, Seq::empty(), element);
    assert(between.id(top) == before.id(top));
    cursor_editor::checks::lemma_outside_nothing(children.take(index as int));
    cursor_editor::checks::lemma_outside_nothing(children.skip(index + 1));
    let kept = between.children_at(top);
    assert(kept =~= children.take(index as int) + children.skip(index + 1));
    assert(again.no_duplicates());
    if cursor_editor::checks::is_above(between, low, top) {
        let levels = choose|levels: nat| #[trigger]
            cursor_editor::checks::ascend(between, top, levels) == Some(low);
        lemma_ascend_kept(before, between, parent, index as int, top, levels);
        lemma_ascend_higher(before, top, levels);
        cursor_editor::checks::lemma_parent_higher(before, low);
    }
    assert(!cursor_editor::checks::closes_cycle(between, top, again));
    if let Err(error) = outcome {
        let accumulated = error->Green_0->accumulated;
        let next = error->Green_0->TextLengthOverflow_next;
        let (trees, s) = choose|trees: Seq<model::Tree>, s: int|
            {
                &&& cursor_editor::splicing::spliced_shape(
                    between,
                    top,
                    index as int,
                    index as int,
                    again,
                    trees,
                )
                &&& 0 <= s < trees.len()
                &&& node::first_overflow((#[trigger] trees[s]).children(), accumulated, next)
                &&& forall|i: int|
                    0 <= i < trees[s].children().len() ==> (#[trigger] trees[s].children()[i]).len()
                        <= u32::MAX
            };
        lemma_planned_again(before, between, parent, index as int, trees, s);
        before.lemma_element(s);
        node::lemma_first_overflow(trees[s].children(), accumulated, next);
    }
    assert(kept.subrange(index as int, index as int) =~= Seq::empty());
}

/// Inserting a detached element again where it was gives every child list back.
proof fn lemma_reinserted_kids(
    before: SyntaxEditor,
    between: SyntaxEditor,
    parent: EditorNodeId,
    index: int,
    slot: int,
)
    requires
        before.valid(),
        before.owns(NodeOrToken::Node(parent)),
        0 <= index < before.children_at(parent.slot()).len(),
        cursor_editor::splicing::spliced(
            before,
            between,
            parent.slot(),
            index,
            index + 1,
            Seq::empty(),
        ),
        0 <= slot < before.slots(),
    ensures
        cursor_editor::splicing::spliced_kids(
            between,
            parent.slot(),
            index,
            index,
            seq![before.children_at(parent.slot())[index]],
            slot,
        ) == before.children_at(slot),
{
    let top = parent.slot();
    let children = before.children_at(slot);
    let element = before.children_at(top)[index];
    let again = seq![element];
    before.lemma_owned(NodeOrToken::Node(parent));
    before.lemma_element(top);
    before.lemma_child(top, index);
    assert(between.id(slot) == before.id(slot));
    if slot == top {
        let front = children.take(index);
        let back = children.skip(index + 1);
        cursor_editor::checks::lemma_outside_nothing(front);
        cursor_editor::checks::lemma_outside_nothing(back);
        let kept = between.children_at(slot);
        assert(kept =~= front + back);
        assert(kept.take(index) =~= front);
        assert(kept.skip(index) =~= back);
        lemma_outside_absent(front, again);
        lemma_outside_absent(back, again);
        assert(children =~= front + again + back);
    } else {
        cursor_editor::checks::lemma_outside_nothing(children);
        assert(between.children_at(slot) == children);
        assert forall|i: int| 0 <= i < children.len() implies !again.contains(
            #[trigger] children[i],
        ) by {
            if again.contains(children[i]) {
                before.lemma_child(slot, i);
                before.lemma_element(slot);
            }
        }
        lemma_outside_absent(children, again);
    }
}

/// Leaving out what does not occur leaves everything.
proof fn lemma_outside_absent(elements: Seq<EditorElementId>, excluded: Seq<EditorElementId>)
    requires
        forall|i: int| 0 <= i < elements.len() ==> !excluded.contains(#[trigger] elements[i]),
    ensures
        cursor_editor::checks::outside(elements, excluded) == elements,
    decreases elements.len(),
{
    if elements.len() > 0 {
        let rest = elements.drop_last();
        assert forall|i: int| 0 <= i < rest.len()
            implies !excluded.contains(#[trigger] rest[i]) by {
            assert(rest[i] == elements[i]);
        }
        lemma_outside_absent(rest, excluded);
        assert(rest.push(elements.last()) =~= elements);
        assert(elements[elements.len() - 1] == elements.last());
    }
}

/// A source that was not edited is completed to its own green allocation.
pub proof fn lemma_unedited_completed(editor: SyntaxEditor, path: Seq<int>, green: GreenElement)
    requires
        cursor_editor::materialization::mirrors_source(editor, path),
        cursor_editor::completion::completed(editor, editor.source_slot(path), green),
    ensures
        green == editor.source().below(path).handle(),
{
}

/// After an edit of other components and subtrees an element without changes is still completed to
/// the green allocation that it was made of.
pub proof fn lemma_untouched_completed(
    before: SyntaxEditor,
    after: SyntaxEditor,
    target: EditorNodeId,
    start: int,
    end: int,
    insertions: Seq<EditorElementId>,
    slot: int,
    green: GreenElement,
)
    requires
        cursor_editor::splicing::spliced(before, after, target.slot(), start, end, insertions),
        0 <= slot < before.slots(),
        !before.dirty_at(slot),
        !cursor_editor::splicing::touched(before, after, slot),
        cursor_editor::completion::completed(after, slot, green),
    ensures
        green == before.green_at(slot),
{
    assert(after.id(slot) == before.id(slot));
}

/// The text of an element is the text of its children one after the other.
pub proof fn lemma_text_of_children(editor: SyntaxEditor, slot: int)
    requires
        editor.valid(),
        0 <= slot < editor.slots(),
        editor.tree(slot) is Node,
    ensures
        editor.tree(slot).text() == model::forest_text(
            editor.children_at(slot).map_values(
                |child: EditorElementId| editor.tree(cursor_editor::slot_of(child)),
            ),
        ),
{
    let listed = editor.children_at(slot).map_values(
        |child: EditorElementId| editor.tree(cursor_editor::slot_of(child)),
    );
    editor.lemma_element(slot);
    assert forall|i: int| 0 <= i < listed.len() implies listed[i]
        == editor.tree(slot).children()[i] by {
        editor.lemma_child(slot, i);
    }
    assert(listed =~= editor.tree(slot).children());
}

/// One call on an editor leads from one state to the next: a splice, an import, or a call that
/// changes nothing.
pub open spec fn edited(before: SyntaxEditor, after: SyntaxEditor) -> bool {
    ||| after == before
    ||| exists|target: int, start: int, end: int, insertions: Seq<EditorElementId>| #[trigger]
        cursor_editor::splicing::spliced(before, after, target, start, end, insertions)
    ||| exists|id: EditorElementId, green: GreenElement, tree: model::Tree| #[trigger]
        cursor_editor::materialization::component_added(before, after, id, green, tree)
}

/// The states of an editor over a history of calls.
pub open spec fn edits(states: Seq<SyntaxEditor>) -> bool {
    &&& states.len() > 0
    &&& forall|i: int| 0 <= i < states.len() ==> (#[trigger] states[i]).valid()
    &&& forall|i: int|
        0 < i < states.len() ==> edited(states[i - 1], #[trigger] states[i])
}

/// No call of a history changed the child list of the element at a slot or of an element below it.
pub open spec fn never_changed(states: Seq<SyntaxEditor>, slot: int) -> bool {
    forall|i: int, lower: int|
        #![trigger states[i].children_at(lower)]
        0 < i < states.len() && 0 <= lower < states[0].slots() && cursor_editor::checks::is_above(
            states[0],
            slot,
            lower,
        ) ==> states[i].children_at(lower) == states[i - 1].children_at(lower)
}

/// Ascending from an element goes on from its parent.
proof fn lemma_ascend_first(editor: SyntaxEditor, slot: int, levels: nat)
    requires
        editor.parent_at(slot) is Some,
    ensures
        cursor_editor::checks::ascend(editor, slot, levels + 1) == cursor_editor::checks::ascend(
            editor,
            editor.parent_at(slot)->0.slot(),
            levels,
        ),
    decreases levels,
{
    if levels > 0 {
        lemma_ascend_first(editor, slot, (levels - 1) as nat);
    } else {
        assert(cursor_editor::checks::ascend(editor, slot, 0) == Some(slot));
        assert(cursor_editor::checks::ascend(editor, slot, 1) == Some(
            editor.parent_at(slot)->0.slot(),
        ));
    }
}

/// There is nothing above an element without a parent.
proof fn lemma_ascend_top(editor: SyntaxEditor, slot: int, levels: nat)
    requires
        editor.parent_at(slot) is None,
        levels > 0,
    ensures
        cursor_editor::checks::ascend(editor, slot, levels) is None,
    decreases levels,
{
    if levels > 1 {
        lemma_ascend_top(editor, slot, (levels - 1) as nat);
    } else {
        assert(cursor_editor::checks::ascend(editor, slot, 0) == Some(slot));
    }
}

/// What lies below an element whose subtree keeps its child lists lay below it before.
proof fn lemma_below_before(
    first: SyntaxEditor,
    last: SyntaxEditor,
    slot: int,
    lower: int,
    levels: nat,
)
    requires
        first.valid(),
        last.valid(),
        0 <= slot < first.slots() <= last.slots(),
        0 <= lower < last.slots(),
        forall|s: int| 0 <= s < first.slots() ==> (#[trigger] last.id(s)) == first.id(s),
        forall|s: int|
            0 <= s < first.slots() && cursor_editor::checks::is_above(first, slot, s) ==> (
            #[trigger] last.children_at(s)) == first.children_at(s),
        cursor_editor::checks::ascend(last, lower, levels) == Some(slot),
    ensures
        lower < first.slots(),
        cursor_editor::checks::is_above(first, slot, lower),
    decreases levels,
{
    last.lemma_element(lower);
    if levels == 0 {
        assert(cursor_editor::checks::ascend(first, slot, 0) == Some(slot));
    } else {
        if last.parent_at(lower) is None {
            lemma_ascend_top(last, lower, levels);
        }
        let parent = last.parent_at(lower)->0;
        let upper = parent.slot();
        lemma_ascend_first(last, lower, (levels - 1) as nat);
        last.lemma_owned(NodeOrToken::Node(parent));
        lemma_below_before(first, last, slot, upper, (levels - 1) as nat);
        let index = last.index_at(lower)->0 as int;
        assert(last.children_at(upper) == first.children_at(upper));
        assert(first.children_at(upper)[index] == last.id(lower));
        first.lemma_child(upper, index);
        first.lemma_owned(last.id(lower));
        assert(lower < first.slots());
        first.lemma_element(upper);
        let above = first.parent_at(lower)->0;
        assert(above.slot() == upper);
        let more = choose|more: nat| #[trigger]
            cursor_editor::checks::ascend(first, upper, more) == Some(slot);
        lemma_ascend_first(first, lower, more);
        assert(cursor_editor::checks::ascend(first, lower, more + 1) == Some(slot));
    }
}

/// Over any history an element whose own and lower child lists never changed keeps them, stays
/// without changes and keeps its green handle.
pub proof fn lemma_never_changed_kept(states: Seq<SyntaxEditor>, slot: int)
    requires
        edits(states),
        0 <= slot < states[0].slots(),
        !states[0].dirty_at(slot),
        never_changed(states, slot),
    ensures
        states[0].slots() <= states.last().slots(),
        forall|s: int|
            0 <= s < states[0].slots() ==> (#[trigger] states.last().id(s)) == states[0].id(s),
        forall|s: int|
            0 <= s < states[0].slots() && cursor_editor::checks::is_above(states[0], slot, s) ==> (
            #[trigger] states.last().children_at(s)) == states[0].children_at(s),
        !states.last().dirty_at(slot),
        states.last().green_at(slot) == states[0].green_at(slot),
    decreases states.len(),
{
    if states.len() > 1 {
        let earlier = states.drop_last();
        assert forall|i: int| 0 < i < earlier.len() implies edited(
            earlier[i - 1],
            #[trigger] earlier[i],
        ) by {
            assert(edited(states[i - 1], states[i]));
        }
        assert forall|i: int, lower: int|
            #![trigger earlier[i].children_at(lower)]
            0 < i < earlier.len() && 0 <= lower < earlier[0].slots()
                && cursor_editor::checks::is_above(
                earlier[0],
                slot,
                lower,
            ) implies earlier[i].children_at(lower) == earlier[i - 1].children_at(lower) by {
            assert(states[i].children_at(lower) == states[i - 1].children_at(lower));
        }
        assert forall|i: int| 0 <= i < earlier.len() implies (#[trigger] earlier[i]).valid() by {
            assert(states[i].valid());
        }
        lemma_never_changed_kept(earlier, slot);
        let first = states[0];
        let before = earlier.last();
        let index = states.len() - 1;
        let after = states[index];
        assert(states.last() == after && states[index - 1] == before);
        assert(edited(states[index - 1], states[index]));
        assert(states[index].valid());
        assert forall|s: int|
            0 <= s < first.slots() && cursor_editor::checks::is_above(first, slot, s) implies (
        #[trigger] after.children_at(s)) == first.children_at(s) by {
            assert(states[index].children_at(s) == states[index - 1].children_at(s));
            assert(before.children_at(s) == first.children_at(s));
        }
        assert(before.id(slot) == first.id(slot));
        if after != before {
            if exists|target: int, start: int, end: int, insertions: Seq<EditorElementId>|
                #[trigger] cursor_editor::splicing::spliced(
                    before,
                    after,
                    target,
                    start,
                    end,
                    insertions,
                ) {
                lemma_splice_passes(first, before, after, slot);
            } else {
                let (id, green, tree) = choose|
                    id: EditorElementId,
                    green: GreenElement,
                    tree: model::Tree,
                | #[trigger]
                    cursor_editor::materialization::component_added(
                        before,
                        after,
                        id,
                        green,
                        tree,
                    );
                assert forall|s: int| 0 <= s < first.slots() implies (#[trigger] after.id(s))
                    == first.id(s) by {
                    assert(before.id(s) == first.id(s));
                }
                assert(after.id(slot) == before.id(slot));
            }
        }
    }
}

/// A splice that changes no child list below an element leaves it without changes.
proof fn lemma_splice_passes(
    first: SyntaxEditor,
    before: SyntaxEditor,
    after: SyntaxEditor,
    slot: int,
)
    requires
        first.valid(),
        after.valid(),
        0 <= slot < first.slots() <= before.slots(),
        forall|s: int| 0 <= s < first.slots() ==> (#[trigger] before.id(s)) == first.id(s),
        forall|s: int|
            0 <= s < first.slots() && cursor_editor::checks::is_above(first, slot, s) ==> (
            #[trigger] before.children_at(s)) == first.children_at(s),
        forall|s: int|
            0 <= s < first.slots() && cursor_editor::checks::is_above(first, slot, s) ==> (
            #[trigger] after.children_at(s)) == first.children_at(s),
        !before.dirty_at(slot),
        exists|target: int, start: int, end: int, insertions: Seq<EditorElementId>| #[trigger]
            cursor_editor::splicing::spliced(before, after, target, start, end, insertions),
    ensures
        after.slots() == before.slots(),
        forall|s: int| 0 <= s < first.slots() ==> (#[trigger] after.id(s)) == first.id(s),
        !after.dirty_at(slot),
        after.green_at(slot) == before.green_at(slot),
{
    let (target, start, end, insertions) = choose|
        target: int,
        start: int,
        end: int,
        insertions: Seq<EditorElementId>,
    | #[trigger]
        cursor_editor::splicing::spliced(before, after, target, start, end, insertions);
    assert forall|s: int| 0 <= s < first.slots() implies (#[trigger] after.id(s))
        == first.id(s) by {
        assert(before.id(s) == first.id(s));
    }
    assert(after.id(slot) == before.id(slot));
    if cursor_editor::splicing::touched(before, after, slot) {
        let changed = choose|changed: int|
            {
                &&& 0 <= changed < before.slots()
                &&& before.id(changed) is Node
                &&& (#[trigger] after.children_at(changed)) != before.children_at(changed)
                &&& cursor_editor::checks::is_above(after, slot, changed)
            };
        let levels = choose|levels: nat| #[trigger]
            cursor_editor::checks::ascend(after, changed, levels) == Some(slot);
        lemma_below_before(first, after, slot, changed, levels);
        assert(before.children_at(changed) == first.children_at(changed));
    }
}

/// The slot of the element that child indices lead to from the element at a slot.
pub open spec fn slot_at(editor: SyntaxEditor, top: int, path: Seq<int>) -> int
    decreases path.len(),
{
    if path.len() == 0 {
        top
    } else {
        cursor_editor::slot_of(
            editor.children_at(slot_at(editor, top, path.drop_last()))[path.last()],
        )
    }
}

/// Every element below a completed node is completed to the handle at its place.
pub proof fn lemma_completed_below(
    editor: SyntaxEditor,
    top: int,
    root: GreenNode,
    path: Seq<int>,
)
    requires
        editor.valid(),
        0 <= top < editor.slots(),
        cursor_editor::completion::completed(editor, top, NodeOrToken::Node(root)),
        model::path_exists(editor.tree(top), path),
    ensures
        0 <= slot_at(editor, top, path) < editor.slots(),
        editor.tree(slot_at(editor, top, path)) == model::tree_at(editor.tree(top), path),
        cursor_editor::completion::completed(
            editor,
            slot_at(editor, top, path),
            cursor_data::handle_at(root, path),
        ),
    decreases path.len(),
{
    if path.len() > 0 {
        lemma_completed_below(editor, top, root, path.drop_last());
        let upper = slot_at(editor, top, path.drop_last());
        let index = path.last();
        editor.lemma_element(upper);
        editor.lemma_child(upper, index);
        let child = editor.children_at(upper)[index];
        editor.lemma_owned(child);
        if editor.dirty_at(upper) {
            assert(editor.children_at(upper)[index] == child);
        }
    }
}

/// After any edits an element whose own and lower child lists never changed stands in the completed
/// tree, at its place, with the green allocation that it was made of.
pub proof fn lemma_never_changed_reused(
    states: Seq<SyntaxEditor>,
    slot: int,
    top: int,
    root: GreenNode,
    path: Seq<int>,
)
    requires
        edits(states),
        0 <= slot < states[0].slots(),
        !states[0].dirty_at(slot),
        never_changed(states, slot),
        0 <= top < states.last().slots(),
        cursor_editor::completion::completed(states.last(), top, NodeOrToken::Node(root)),
        model::path_exists(states.last().tree(top), path),
        slot_at(states.last(), top, path) == slot,
    ensures
        cursor_data::handle_at(root, path) == states[0].green_at(slot),
{
    assert(states[states.len() - 1].valid());
    lemma_never_changed_kept(states, slot);
    lemma_completed_below(states.last(), top, root, path);
}

/// After any edits an element of the source whose own and lower child lists never changed stands in
/// the completed tree, at its place, with its own green allocation.
pub proof fn lemma_source_reused(
    states: Seq<SyntaxEditor>,
    source: Seq<int>,
    top: int,
    root: GreenNode,
    path: Seq<int>,
)
    requires
        edits(states),
        cursor_editor::materialization::mirrors_source(states[0], source),
        never_changed(states, states[0].source_slot(source)),
        0 <= top < states.last().slots(),
        cursor_editor::completion::completed(states.last(), top, NodeOrToken::Node(root)),
        model::path_exists(states.last().tree(top), path),
        slot_at(states.last(), top, path) == states[0].source_slot(source),
    ensures
        cursor_data::handle_at(root, path) == states[0].source().below(source).handle(),
{
    lemma_never_changed_reused(states, states[0].source_slot(source), top, root, path);
}

/// A node whose child list some call of a history changed has to be rebuilt from then on.
proof fn lemma_changed_dirty(states: Seq<SyntaxEditor>, slot: int, index: int)
    requires
        edits(states),
        0 < index < states.len(),
        0 <= slot < states[index - 1].slots(),
        states[index].children_at(slot) != states[index - 1].children_at(slot),
        states[index - 1].id(slot) is Node,
    ensures
        slot < states.last().slots(),
        states.last().dirty_at(slot),
    decreases states.len(),
{
    let last = states.len() - 1;
    let before = states[last - 1];
    let after = states[last];
    assert(edited(states[last - 1], states[last]));
    if index < last {
        let earlier = states.drop_last();
        assert forall|i: int| 0 < i < earlier.len() implies edited(
            earlier[i - 1],
            #[trigger] earlier[i],
        ) by {
            assert(edited(states[i - 1], states[i]));
        }
        assert forall|i: int| 0 <= i < earlier.len() implies (#[trigger] earlier[i]).valid() by {
            assert(states[i].valid());
        }
        lemma_changed_dirty(earlier, slot, index);
        assert(earlier.last() == before);
        if after != before {
            assert(after.id(slot) == before.id(slot));
        }
    } else {
        assert(after.id(slot) == before.id(slot));
        assert(cursor_editor::checks::ascend(after, slot, 0) == Some(slot));
        assert(cursor_editor::checks::is_above(after, slot, slot));
        assert(cursor_editor::splicing::touched(before, after, slot));
    }
}

/// After any edits a node whose child list some call changed stands in the completed tree with
/// another green allocation than the one that it was made of.
pub proof fn lemma_changed_rebuilt(
    states: Seq<SyntaxEditor>,
    slot: int,
    index: int,
    top: int,
    root: GreenNode,
    path: Seq<int>,
)
    requires
        edits(states),
        0 < index < states.len(),
        0 <= slot < states[index - 1].slots(),
        states[index].children_at(slot) != states[index - 1].children_at(slot),
        states[index - 1].id(slot) is Node,
        0 <= top < states.last().slots(),
        cursor_editor::completion::completed(states.last(), top, NodeOrToken::Node(root)),
        model::path_exists(states.last().tree(top), path),
        slot_at(states.last(), top, path) == slot,
    ensures
        cursor_data::handle_at(root, path) != states.last().green_at(slot),
{
    assert(states[states.len() - 1].valid());
    lemma_changed_dirty(states, slot, index);
    lemma_completed_below(states.last(), top, root, path);
}

} // verus!
