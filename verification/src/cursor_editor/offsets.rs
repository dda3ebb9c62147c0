//! Top-down offsets of a staged edit.

use vstd::prelude::*;

use crate::cursor_editor;
use crate::cursor_editor::EditError;
use crate::cursor_editor::EditorElementId;
use crate::cursor_editor::EditorNodeId;
use crate::cursor_editor::EditorOwner;
use crate::cursor_editor::element_slot;
use crate::cursor_editor::lengths;
use crate::cursor_editor::plan;
use crate::cursor_editor::plan::PlannedContent;
use crate::cursor_editor::plan::PlannedRecord;
use crate::green::checked_text_add;
use crate::model;
use crate::model::Tree;
use crate::text;
use crate::text::TextSize;
use crate::utility_types::NodeOrToken;

verus! {

/// The trees of a plan have the planned shape.
pub(super) open spec fn plan_shape(planned: Seq<PlannedRecord>, trees: Seq<Tree>) -> bool {
    &&& trees.len() == planned.len()
    &&& forall|s: int| 0 <= s < planned.len() ==> #[trigger] shape_right(planned, trees, s)
}

/// The tree of a planned element has the planned shape.
pub(super) open spec fn shape_right(
    planned: Seq<PlannedRecord>, trees: Seq<Tree>, slot: int) -> bool {
    if planned[slot].is_node() {
        trees[slot] is Node && trees[slot].children()
            == cursor_editor::trees_of(trees, planned[slot].kids())
    } else {
        trees[slot] is Token
    }
}

/// The planned lengths are those of the trees.
pub(super) open spec fn plan_lens(planned: Seq<PlannedRecord>, trees: Seq<Tree>) -> bool {
    forall|s: int|
        0 <= s < planned.len() ==> (#[trigger] planned[s]).text_len@ == trees[s].len()
}

/// Only offsets differ.
pub(super) open spec fn same_but_offset(left: PlannedRecord, right: PlannedRecord) -> bool {
    &&& left.parent == right.parent
    &&& left.index == right.index
    &&& left.text_len == right.text_len
    &&& left.content == right.content
}

/// The planned offset of an element follows from that of its parent and fits.
pub(super) open spec fn offset_right(
    planned: Seq<PlannedRecord>, trees: Seq<Tree>, slot: int) -> bool {
    &&& planned[slot].offset@ + trees[slot].len() <= u32::MAX
    &&& match planned[slot].parent {
        None => planned[slot].offset@ == 0,
        Some(parent) => planned[slot].offset@ == planned[parent.slot as int].offset@
            + model::offset_in(
            trees[parent.slot as int].children(),
            planned[slot].index->0 as int,
        ),
    }
}

/// The list holds a slot.
spec fn on_list(list: Seq<usize>, slot: int) -> bool {
    exists|k: int| 0 <= k < list.len() && (#[trigger] list[k]) == slot
}

/// What holds of an element while offsets are assigned.
spec fn place_holds(
    planned: Seq<PlannedRecord>,
    trees: Seq<Tree>,
    placed: Seq<bool>,
    stack: Seq<usize>,
    current: int,
    slot: int,
) -> bool {
    placed[slot] ==> {
        &&& offset_right(planned, trees, slot)
        &&& planned[slot].parent matches Some(parent) ==> placed[parent.slot as int]
        &&& on_list(stack, slot) || slot == current || kids_placed(planned, placed, slot)
    }
}

/// Every child has its offset.
spec fn kids_placed(planned: Seq<PlannedRecord>, placed: Seq<bool>, slot: int) -> bool {
    forall|i: int|
        0 <= i < planned[slot].kids().len()
            ==> placed[cursor_editor::slot_of(#[trigger] planned[slot].kids()[i])]
}

/// The state of the offset computation while the node at `current` is processed.
spec fn offsets_invariant(
    owner: EditorOwner,
    plan: Seq<PlannedRecord>,
    planned: Seq<PlannedRecord>,
    trees: Seq<Tree>,
    placed: Seq<bool>,
    stack: Seq<usize>,
    current: int,
) -> bool {
    &&& plan.len() <= usize::MAX
    &&& planned.len() == plan.len()
    &&& placed.len() == plan.len()
    &&& plan::kids_planned(plan)
    &&& cursor_editor::plan_linked(owner, plan)
    &&& plan_shape(plan, trees)
    &&& plan_lens(plan, trees)
    &&& forall|s: int| 0 <= s < plan.len() ==> same_but_offset(plan[s], #[trigger] planned[s])
    &&& forall|s: int|
        0 <= s < plan.len() ==> #[trigger] place_holds(planned, trees, placed, stack, current, s)
    &&& forall|k: int|
        0 <= k < stack.len() ==> (#[trigger] stack[k]) < plan.len() && placed[stack[k] as int]
}

/// The number of elements below the queued ones.
spec fn weight(trees: Seq<Tree>, stack: Seq<usize>) -> nat
    decreases stack.len(),
{
    if stack.len() == 0 {
        0
    } else {
        weight(trees, stack.drop_last()) + model::tree_size(trees[stack.last() as int])
    }
}

/// Giving one child of the current node its offset keeps the invariant.
proof fn lemma_place_kid(
    owner: EditorOwner,
    plan: Seq<PlannedRecord>,
    before: Seq<PlannedRecord>,
    planned: Seq<PlannedRecord>,
    trees: Seq<Tree>,
    placed: Seq<bool>,
    stack: Seq<usize>,
    grown: Seq<usize>,
    current: int,
    index: int,
)
    requires
        offsets_invariant(owner, plan, before, trees, placed, stack, current),
        0 <= current < plan.len(),
        placed[current],
        0 <= index < plan[current].kids().len(),
        index <= usize::MAX,
        ({
            let kid = cursor_editor::slot_of(plan[current].kids()[index]);
            &&& planned.len() == before.len()
            &&& forall|s: int|
                0 <= s < plan.len() && s != kid ==> (#[trigger] planned[s]) == before[s]
            &&& same_but_offset(before[kid], planned[kid])
            &&& planned[kid].offset@ == before[current].offset@ + model::offset_in(
                trees[current].children(),
                index,
            )
            &&& grown == stack.push(kid as usize) || (grown == stack && !plan[kid].is_node())
        }),
    ensures
        offsets_invariant(
            owner,
            plan,
            planned,
            trees,
            placed.update(cursor_editor::slot_of(plan[current].kids()[index]), true),
            grown,
            current,
        ),
        planned[current] == before[current],
{
    let kid = cursor_editor::slot_of(plan[current].kids()[index]);
    let after = placed.update(kid, true);
    assert(same_but_offset(plan[current], before[current]));
    assert(same_but_offset(plan[kid], before[kid]));
    let kids = plan[current].kids();
    assert(0 <= kid < plan.len());
    assert(plan[kid].parent == Some(EditorNodeId { owner, slot: current as usize }));
    assert(plan[kid].index == Some(index as usize));
    assert(shape_right(plan, trees, current));
    assert(trees[current].children()[index] == trees[kid]);
    model::lemma_child_inside(trees[current].children(), index);
    assert(kid != current) by {
        model::lemma_height_of_member(trees[current].children(), index);
    }
    assert(place_holds(before, trees, placed, stack, current, current));
    assert(place_holds(before, trees, placed, stack, current, kid));
    // A child that had its offset already keeps it.
    assert(placed[kid] ==> planned[kid].offset@ == before[kid].offset@);
    assert forall|s: int| 0 <= s < plan.len() implies #[trigger] place_holds(
        planned,
        trees,
        after,
        grown,
        current,
        s,
    ) by {
        assert(place_holds(before, trees, placed, stack, current, s));
        assert(same_but_offset(plan[s], before[s]));
        if after[s] {
            if on_list(stack, s) {
                let k = choose|k: int| 0 <= k < stack.len() && (#[trigger] stack[k]) == s;
                assert(grown[k] == s);
            }
            if s == kid {
                if plan[kid].is_node() {
                    assert(grown[stack.len() as int] == kid);
                    assert(on_list(grown, kid));
                } else {
                    assert(planned[kid].kids() =~= Seq::empty());
                    assert(kids_placed(planned, after, kid));
                }
            } else {
                match plan[s].parent {
                    Some(parent) => {
                        assert(planned[s] == before[s]);
                        assert(placed[parent.slot as int]);
                        assert(parent.slot < plan.len());
                        if parent.slot == kid {
                            assert(planned[kid].offset@ == before[kid].offset@);
                        }
                    },
                    None => {},
                }
                if kids_placed(before, placed, s) {
                    assert(kids_placed(planned, after, s)) by {
                        assert forall|i: int|
                            0 <= i < planned[s].kids().len() implies after[cursor_editor::slot_of(
                            #[trigger] planned[s].kids()[i],
                        )] by {
                            assert(placed[cursor_editor::slot_of(before[s].kids()[i])]);
                            assert(plan[s].kids()[i] == before[s].kids()[i]);
                        }
                    }
                }
            }
        }
    }
    assert forall|k: int| 0 <= k < grown.len() implies (#[trigger] grown[k]) < plan.len()
        && after[grown[k] as int] by {
        if k < stack.len() {
            assert(grown[k] == stack[k]);
        }
    }
    assert forall|s: int| 0 <= s < plan.len() implies same_but_offset(
        plan[s],
        #[trigger] planned[s],
    ) by {
        assert(same_but_offset(plan[s], before[s]));
    }
}

/// A planned record with another offset.
pub(super) open spec fn with_offset(record: PlannedRecord, offset: TextSize) -> PlannedRecord {
    PlannedRecord { offset, ..record }
}

/// The plan once the first `count` children lie one behind the other from an offset on.
pub(super) open spec fn kids_offset(
    planned: Seq<PlannedRecord>,
    base: nat,
    kids: Seq<EditorElementId>,
    count: nat,
) -> Seq<PlannedRecord>
    decreases count,
{
    if count == 0 {
        planned
    } else {
        let last = (count - 1) as nat;
        let earlier = kids_offset(planned, base, kids, last);
        let kid = cursor_editor::slot_of(kids[last as int]);
        earlier.update(
            kid,
            with_offset(
                earlier[kid],
                text::size_of_count(base + lengths::lens_sum(planned, kids.take(last as int))),
            ),
        )
    }
}

/// The slots of the child nodes, the last child first.
pub(super) open spec fn queued_slots(kids: Seq<EditorElementId>) -> Seq<usize>
    decreases kids.len(),
{
    if kids.len() == 0 {
        Seq::empty()
    } else {
        queued_slots(kids.drop_first()) + if kids[0] is Node {
            seq![cursor_editor::slot_of(kids[0]) as usize]
        } else {
            Seq::empty()
        }
    }
}

/// The first `count` children lie in the coordinate space when they follow each other from an
/// offset on.
pub(super) open spec fn kids_fit(
    planned: Seq<PlannedRecord>,
    base: nat,
    kids: Seq<EditorElementId>,
    count: nat,
) -> bool {
    forall|i: int|
        0 <= i < count ==> base + #[trigger] lengths::lens_sum(planned, kids.take(i)) <= u32::MAX
            && lengths::lens_sum(planned, kids.take(i + 1)) <= u32::MAX
}

/// Giving the children their offsets leaves the coordinate space at the child at `index`: its
/// offset does not fit, or the text up to its end does not.
pub(super) open spec fn offset_overflows(
    planned: Seq<PlannedRecord>,
    base: nat,
    kids: Seq<EditorElementId>,
    index: int,
    planned_after: Seq<PlannedRecord>,
    accumulated: TextSize,
    next: TextSize,
) -> bool {
    let before = lengths::lens_sum(planned, kids.take(index));
    &&& 0 <= index < kids.len()
    &&& kids_fit(planned, base, kids, index as nat)
    &&& accumulated@ + next@ > u32::MAX
    &&& if base + before > u32::MAX {
        &&& accumulated@ == base
        &&& next@ == before
        &&& planned_after == kids_offset(planned, base, kids, index as nat)
    } else {
        &&& accumulated@ == before
        &&& next@ == planned[cursor_editor::slot_of(kids[index])].text_len@
        &&& planned_after == kids_offset(planned, base, kids, (index + 1) as nat)
    }
}

/// What one task of the offset computation does: the children of a node lie one behind the other
/// from its offset on, and its child nodes are queued, so that the first one is next.
pub(super) open spec fn offset_task_done(
    planned: Seq<PlannedRecord>,
    stack: Seq<usize>,
    slot: int,
    planned_after: Seq<PlannedRecord>,
    stack_after: Seq<usize>,
    checked: Result<(), EditError>,
) -> bool {
    let base = planned[slot].offset@;
    let kids = planned[slot].kids();
    match checked {
        Ok(_) => {
            &&& kids_fit(planned, base, kids, kids.len())
            &&& planned_after == kids_offset(planned, base, kids, kids.len())
            &&& stack_after == stack + queued_slots(kids)
        },
        Err(error) => {
            &&& stack_after == stack
            &&& exists|index: int, accumulated: TextSize, next: TextSize|
                {
                    &&& error == EditError::Green(lengths::overflow_error(accumulated, next))
                    &&& #[trigger] offset_overflows(
                        planned,
                        base,
                        kids,
                        index,
                        planned_after,
                        accumulated,
                        next,
                    )
                }
        },
    }
}

/// Giving children their offsets changes nothing else.
proof fn lemma_kids_offset(
    planned: Seq<PlannedRecord>,
    base: nat,
    kids: Seq<EditorElementId>,
    count: nat,
)
    requires
        count <= kids.len(),
        forall|i: int|
            0 <= i < kids.len() ==> 0 <= cursor_editor::slot_of(#[trigger] kids[i])
                < planned.len(),
    ensures
        kids_offset(planned, base, kids, count).len() == planned.len(),
        forall|s: int|
            0 <= s < planned.len() ==> same_but_offset(
                planned[s],
                #[trigger] kids_offset(planned, base, kids, count)[s],
            ),
    decreases count,
{
    if count > 0 {
        lemma_kids_offset(planned, base, kids, (count - 1) as nat);
        assert(0 <= cursor_editor::slot_of(kids[count - 1]) < planned.len());
    }
}

/// Assign direct child offsets and queue child nodes for top-down traversal.
fn process_offset_task(
    planned: &mut Vec<PlannedRecord>,
    slot: usize,
    stack: &mut Vec<usize>,
) -> (checked: Result<(), EditError>)
    requires
        slot < old(planned)@.len(),
        lengths::kids_in_range(old(planned)@, slot as int),
    ensures
        offset_task_done(
            old(planned)@,
            old(stack)@,
            slot as int,
            final(planned)@,
            final(stack)@,
            checked,
        ),
{
    let ghost before = planned@;
    let parent_offset = planned[slot].offset;
    let children = planned[slot].children();
    let ghost base = parent_offset@;
    let ghost kids = children@;
    let mut rel_offset = TextSize { raw: 0 };
    let mut index: usize = 0;
    let count: usize = children.len();
    proof {
        assert(kids.take(0) =~= Seq::empty());
        assert forall|i: int| 0 <= i < kids.len() implies 0 <= cursor_editor::slot_of(
            #[trigger] kids[i],
        ) < before.len() by {
            assert(before[slot as int].kids()[i] == kids[i]);
        }
    }
    while index < count
        invariant
            before == old(planned)@,
            stack@ == old(stack)@,
            slot < before.len(),
            base == before[slot as int].offset@,
            base == parent_offset@,
            kids == before[slot as int].kids(),
            children@ == kids,
            count == kids.len(),
            index <= count,
            forall|i: int|
                0 <= i < kids.len() ==> 0 <= cursor_editor::slot_of(#[trigger] kids[i])
                    < before.len(),
            planned@ == kids_offset(before, base, kids, index as nat),
            planned@.len() == before.len(),
            rel_offset@ == lengths::lens_sum(before, kids.take(index as int)),
            kids_fit(before, base, kids, index as nat),
        decreases count - index,
    {
        let child: usize = element_slot(&children[index]);
        proof {
            assert(kids[index as int] == children@[index as int]);
            assert(kids.take(index + 1).drop_last() =~= kids.take(index as int));
            lemma_kids_offset(before, base, kids, index as nat);
            assert(same_but_offset(before[child as int], planned@[child as int]));
        }
        let offset = match checked_text_add(parent_offset, rel_offset) {
            Ok(offset) => offset,
            Err(error) => {
                assert(offset_overflows(
                    before,
                    base,
                    kids,
                    index as int,
                    planned@,
                    parent_offset,
                    rel_offset,
                ));
                return Err(EditError::Green(error));
            },
        };
        assert(offset == text::size_of_count(base + rel_offset@));
        let ghost earlier = planned@;
        planned[child].offset = offset;
        let next = planned[child].text_len;
        proof {
            assert(planned@ =~= earlier.update(
                child as int,
                with_offset(earlier[child as int], offset),
            ));
            assert(planned@ == kids_offset(before, base, kids, (index + 1) as nat));
        }
        let accumulated = rel_offset;
        rel_offset = match checked_text_add(rel_offset, next) {
            Ok(sum) => sum,
            Err(error) => {
                assert(offset_overflows(
                    before,
                    base,
                    kids,
                    index as int,
                    planned@,
                    accumulated,
                    next,
                ));
                return Err(EditError::Green(error));
            },
        };
        index += 1;
    }
    let ghost bottom = stack@;
    let mut waiting: usize = count;
    proof {
        assert(kids.skip(waiting as int) =~= Seq::empty());
        assert(bottom + queued_slots(kids.skip(waiting as int)) =~= bottom);
    }
    while waiting > 0
        invariant
            waiting <= count,
            count == kids.len(),
            children@ == kids,
            stack@ == bottom + queued_slots(kids.skip(waiting as int)),
        decreases waiting,
    {
        let ghost earlier = queued_slots(kids.skip(waiting as int));
        waiting -= 1;
        proof {
            assert(kids.skip(waiting as int).drop_first() =~= kids.skip(waiting + 1));
            assert(kids.skip(waiting as int)[0] == kids[waiting as int]);
        }
        if let NodeOrToken::Node(node) = &children[waiting] {
            stack.push(node.slot);
            assert(stack@ =~= bottom + (earlier + seq![node.slot]));
        } else {
            assert(earlier + Seq::<usize>::empty() =~= earlier);
        }
    }
    assert(kids.skip(0) =~= kids);
    Ok(())
}

/// The lengths of the first children together are the offset of the next one.
proof fn lemma_lens_are_offset(
    planned: Seq<PlannedRecord>,
    trees: Seq<Tree>,
    slot: int,
    count: int,
)
    requires
        0 <= slot < planned.len(),
        plan::kids_planned(planned),
        plan_shape(planned, trees),
        plan_lens(planned, trees),
        0 <= count <= planned[slot].kids().len(),
    ensures
        lengths::lens_sum(planned, planned[slot].kids().take(count)) == model::offset_in(
            trees[slot].children(),
            count,
        ),
    decreases count,
{
    let kids = planned[slot].kids();
    let kid_trees = trees[slot].children();
    assert(shape_right(planned, trees, slot));
    assert(kids.len() > 0 ==> planned[slot].is_node());
    if count > 0 {
        lemma_lens_are_offset(planned, trees, slot, count - 1);
        let kid = cursor_editor::slot_of(kids[count - 1]);
        assert(planned[slot].kids()[count - 1] == kids[count - 1]);
        assert(0 <= kid < planned.len());
        assert(kids.take(count).drop_last() =~= kids.take(count - 1));
        assert(planned[kid].text_len@ == trees[kid].len());
        assert(kid_trees[count - 1] == trees[kid]);
        model::lemma_offset_step(kid_trees, count - 1);
    } else {
        assert(kids.take(0) =~= Seq::empty());
        assert(kid_trees.take(0) =~= Seq::empty());
    }
}

/// The slots of the child nodes before an index.
spec fn forward_slots(kids: Seq<EditorElementId>, count: nat) -> Seq<usize>
    decreases count,
{
    if count == 0 {
        Seq::empty()
    } else {
        let earlier = forward_slots(kids, (count - 1) as nat);
        if kids[count - 1] is Node {
            earlier.push(cursor_editor::slot_of(kids[count - 1]) as usize)
        } else {
            earlier
        }
    }
}

/// Both orders of the child nodes hold the same slots.
proof fn lemma_same_slots(kids: Seq<EditorElementId>, index: int, slot: int)
    requires
        0 <= index <= kids.len(),
    ensures
        on_list(queued_slots(kids.skip(index)), slot) <==> exists|i: int|
            index <= i < kids.len() && (#[trigger] kids[i]) is Node && cursor_editor::slot_of(
                kids[i],
            ) as usize == slot,
        on_list(forward_slots(kids, index as nat), slot) <==> exists|i: int|
            0 <= i < index && (#[trigger] kids[i]) is Node && cursor_editor::slot_of(kids[i])
                as usize == slot,
{
    lemma_queued_members(kids, index, slot);
    lemma_forward_members(kids, index as nat, slot);
}

proof fn lemma_queued_members(kids: Seq<EditorElementId>, index: int, slot: int)
    requires
        0 <= index <= kids.len(),
    ensures
        on_list(queued_slots(kids.skip(index)), slot) <==> exists|i: int|
            index <= i < kids.len() && (#[trigger] kids[i]) is Node && cursor_editor::slot_of(
                kids[i],
            ) as usize == slot,
    decreases kids.len() - index,
{
    let list = queued_slots(kids.skip(index));
    if index == kids.len() {
        assert(kids.skip(index) =~= Seq::empty());
    } else {
        let rest = queued_slots(kids.skip(index + 1));
        lemma_queued_members(kids, index + 1, slot);
        assert(kids.skip(index).drop_first() =~= kids.skip(index + 1));
        assert(kids.skip(index)[0] == kids[index]);
        if on_list(rest, slot) {
            let k = choose|k: int| 0 <= k < rest.len() && (#[trigger] rest[k]) == slot;
            assert(list[k] == slot);
        }
        if kids[index] is Node && cursor_editor::slot_of(kids[index]) as usize == slot {
            assert(list[rest.len() as int] == slot);
        }
        if on_list(list, slot) {
            let k = choose|k: int| 0 <= k < list.len() && (#[trigger] list[k]) == slot;
            if k < rest.len() {
                assert(rest[k] == slot);
            }
        }
    }
}

proof fn lemma_forward_members(kids: Seq<EditorElementId>, count: nat, slot: int)
    requires
        count <= kids.len(),
    ensures
        on_list(forward_slots(kids, count), slot) <==> exists|i: int|
            0 <= i < count && (#[trigger] kids[i]) is Node && cursor_editor::slot_of(kids[i])
                as usize == slot,
    decreases count,
{
    let list = forward_slots(kids, count);
    if count > 0 {
        let earlier = forward_slots(kids, (count - 1) as nat);
        lemma_forward_members(kids, (count - 1) as nat, slot);
        if on_list(earlier, slot) {
            let k = choose|k: int| 0 <= k < earlier.len() && (#[trigger] earlier[k]) == slot;
            assert(list[k] == slot);
        }
        if kids[count - 1] is Node && cursor_editor::slot_of(kids[count - 1]) as usize == slot {
            assert(list[earlier.len() as int] == slot);
        }
        if on_list(list, slot) {
            let k = choose|k: int| 0 <= k < list.len() && (#[trigger] list[k]) == slot;
            if k < earlier.len() {
                assert(earlier[k] == slot);
            }
        }
    }
}

/// A list in front of another one holds what either holds.
proof fn lemma_on_joined(left: Seq<usize>, right: Seq<usize>, slot: int)
    ensures
        on_list(left + right, slot) <==> on_list(left, slot) || on_list(right, slot),
{
    let all = left + right;
    if on_list(left, slot) {
        let k = choose|k: int| 0 <= k < left.len() && (#[trigger] left[k]) == slot;
        assert(all[k] == slot);
    }
    if on_list(right, slot) {
        let k = choose|k: int| 0 <= k < right.len() && (#[trigger] right[k]) == slot;
        assert(all[left.len() + k] == slot);
    }
    if on_list(all, slot) {
        let k = choose|k: int| 0 <= k < all.len() && (#[trigger] all[k]) == slot;
        if k < left.len() {
            assert(left[k] == slot);
        } else {
            assert(right[k - left.len()] == slot);
        }
    }
}

/// The queued child nodes stand for no more than the children's trees.
proof fn lemma_queued_weight(
    trees: Seq<Tree>,
    stack: Seq<usize>,
    kids: Seq<EditorElementId>,
    index: int,
)
    requires
        0 <= index <= kids.len(),
        forall|i: int|
            0 <= i < kids.len() ==> 0 <= cursor_editor::slot_of(#[trigger] kids[i])
                <= usize::MAX,
    ensures
        weight(trees, stack + queued_slots(kids.skip(index))) <= weight(trees, stack)
            + model::forest_size(cursor_editor::trees_of(trees, kids).skip(index)),
    decreases kids.len() - index,
{
    let kid_trees = cursor_editor::trees_of(trees, kids);
    let list = queued_slots(kids.skip(index));
    if index == kids.len() {
        assert(kids.skip(index) =~= Seq::empty());
        assert(stack + list =~= stack);
    } else {
        let rest = queued_slots(kids.skip(index + 1));
        lemma_queued_weight(trees, stack, kids, index + 1);
        assert(kids.skip(index).drop_first() =~= kids.skip(index + 1));
        assert(kids.skip(index)[0] == kids[index]);
        model::lemma_forest_size_skip(kid_trees, index);
        if kids[index] is Node {
            let kid = cursor_editor::slot_of(kids[index]) as usize;
            assert((stack + list).drop_last() =~= stack + rest);
            assert((stack + list).last() == kid);
            assert(kid_trees[index] == trees[kid as int]);
        } else {
            assert(stack + list =~= stack + rest);
        }
    }
}

/// Giving the first children of the current node their offsets keeps the invariant.
proof fn lemma_place_kids(
    owner: EditorOwner,
    plan: Seq<PlannedRecord>,
    planned: Seq<PlannedRecord>,
    trees: Seq<Tree>,
    placed: Seq<bool>,
    stack: Seq<usize>,
    slot: int,
    count: nat,
) -> (after: Seq<bool>)
    requires
        offsets_invariant(owner, plan, planned, trees, placed, stack, slot),
        0 <= slot < plan.len(),
        placed[slot],
        count <= plan[slot].kids().len(),
    ensures
        offsets_invariant(
            owner,
            plan,
            kids_offset(planned, planned[slot].offset@, plan[slot].kids(), count),
            trees,
            after,
            stack + forward_slots(plan[slot].kids(), count),
            slot,
        ),
        kids_offset(planned, planned[slot].offset@, plan[slot].kids(), count)[slot]
            == planned[slot],
        after[slot],
        forall|s: int| 0 <= s < plan.len() && placed[s] ==> #[trigger] after[s],
        forall|i: int|
            0 <= i < count ==> after[cursor_editor::slot_of(#[trigger] plan[slot].kids()[i])],
    decreases count,
{
    let base = planned[slot].offset@;
    let kids = plan[slot].kids();
    assert(same_but_offset(plan[slot], planned[slot]));
    if count == 0 {
        assert(stack + forward_slots(kids, 0) =~= stack);
        placed
    } else {
        let last = (count - 1) as nat;
        let earlier = lemma_place_kids(
            owner,
            plan,
            planned,
            trees,
            placed,
            stack,
            slot,
            last,
        );
        let before = kids_offset(planned, base, kids, last);
        let next = kids_offset(planned, base, kids, count);
        let kid = cursor_editor::slot_of(kids[last as int]);
        let list = stack + forward_slots(kids, last);
        let grown = stack + forward_slots(kids, count);
        assert(plan[slot].kids()[last as int] == kids[last as int]);
        assert(0 <= kid < plan.len());
        lemma_same_lens(plan, planned, kids.take(last as int));
        lemma_lens_are_offset(plan, trees, slot, last as int);
        assert(shape_right(plan, trees, slot));
        model::lemma_child_inside(trees[slot].children(), last as int);
        assert(place_holds(planned, trees, placed, stack, slot, slot));
        assert(offset_right(planned, trees, slot));
        assert(next[kid] == with_offset(
            before[kid],
            text::size_of_count(base + model::offset_in(trees[slot].children(), last as int)),
        ));
        if kids[last as int] is Node {
            assert(grown =~= list.push(kid as usize));
        }
        if let PlannedContent::Node(node) = plan[slot].content {
            assert(node.children.len() == node.children@.len());
        }
        lemma_place_kid(
            owner,
            plan,
            before,
            next,
            trees,
            earlier,
            list,
            grown,
            slot,
            last as int,
        );
        let after = earlier.update(kid, true);
        assert forall|i: int| 0 <= i < count implies after[cursor_editor::slot_of(
            #[trigger] plan[slot].kids()[i],
        )] by {
            if i < last {
                assert(earlier[cursor_editor::slot_of(plan[slot].kids()[i])]);
            }
        }
        after
    }
}

/// Plans that differ in offsets alone sum up the same lengths.
proof fn lemma_same_lens(
    plan: Seq<PlannedRecord>,
    planned: Seq<PlannedRecord>,
    kids: Seq<EditorElementId>,
)
    requires
        planned.len() == plan.len(),
        forall|s: int| 0 <= s < plan.len() ==> same_but_offset(plan[s], #[trigger] planned[s]),
        forall|i: int|
            0 <= i < kids.len() ==> 0 <= cursor_editor::slot_of(#[trigger] kids[i]) < plan.len(),
    ensures
        lengths::lens_sum(planned, kids) == lengths::lens_sum(plan, kids),
    decreases kids.len(),
{
    if kids.len() > 0 {
        let rest = kids.drop_last();
        assert forall|i: int| 0 <= i < rest.len() implies 0 <= cursor_editor::slot_of(
            #[trigger] rest[i],
        ) < plan.len() by {
            assert(rest[i] == kids[i]);
        }
        lemma_same_lens(plan, planned, rest);
        let kid = cursor_editor::slot_of(kids.last());
        assert(kids[kids.len() - 1] == kids.last());
        assert(same_but_offset(plan[kid], planned[kid]));
    }
}

/// The task on top of the stack can be processed.
proof fn lemma_offset_task_ready(
    owner: EditorOwner,
    plan: Seq<PlannedRecord>,
    planned: Seq<PlannedRecord>,
    trees: Seq<Tree>,
    placed: Seq<bool>,
    stack: Seq<usize>,
    slot: usize,
)
    requires
        offsets_invariant(owner, plan, planned, trees, placed, stack.push(slot), -1),
    ensures
        slot < planned.len(),
        lengths::kids_in_range(planned, slot as int),
{
    assert(stack.push(slot)[stack.len() as int] == slot);
    assert(same_but_offset(plan[slot as int], planned[slot as int]));
    assert forall|i: int| 0 <= i < planned[slot as int].kids().len() implies 0
        <= cursor_editor::slot_of(#[trigger] planned[slot as int].kids()[i]) < planned.len() by {
        assert(plan[slot as int].kids()[i] == planned[slot as int].kids()[i]);
    }
}

/// A processed task succeeds, keeps the state of the computation and brings it nearer to its end.
proof fn lemma_offset_task_keeps(
    owner: EditorOwner,
    plan: Seq<PlannedRecord>,
    planned: Seq<PlannedRecord>,
    trees: Seq<Tree>,
    placed: Seq<bool>,
    stack: Seq<usize>,
    slot: usize,
    planned_after: Seq<PlannedRecord>,
    stack_after: Seq<usize>,
    checked: Result<(), EditError>,
) -> (after: Seq<bool>)
    requires
        offsets_invariant(owner, plan, planned, trees, placed, stack.push(slot), -1),
        offset_task_done(planned, stack, slot as int, planned_after, stack_after, checked),
    ensures
        checked is Ok,
        offsets_invariant(owner, plan, planned_after, trees, after, stack_after, -1),
        forall|s: int| 0 <= s < plan.len() && placed[s] ==> #[trigger] after[s],
        weight(trees, stack_after) < weight(trees, stack.push(slot)),
{
    let waiting = stack.push(slot);
    let base = planned[slot as int].offset@;
    let kids = plan[slot as int].kids();
    let kid_trees = trees[slot as int].children();
    assert(waiting[stack.len() as int] == slot);
    assert(waiting.drop_last() =~= stack);
    assert forall|s: int| 0 <= s < plan.len() implies #[trigger] place_holds(
        planned,
        trees,
        placed,
        stack,
        slot as int,
        s,
    ) by {
        assert(place_holds(planned, trees, placed, waiting, -1, s));
        if on_list(waiting, s) {
            let k = choose|k: int| 0 <= k < waiting.len() && (#[trigger] waiting[k]) == s;
            if k < stack.len() {
                assert(stack[k] == s);
            }
        }
    }
    assert forall|k: int| 0 <= k < stack.len() implies (#[trigger] stack[k]) < plan.len()
        && placed[stack[k] as int] by {
        assert(waiting[k] == stack[k]);
    }
    assert(offsets_invariant(owner, plan, planned, trees, placed, stack, slot as int));
    assert(same_but_offset(plan[slot as int], planned[slot as int]));
    assert(place_holds(planned, trees, placed, stack, slot as int, slot as int));
    assert(shape_right(plan, trees, slot as int));
    assert forall|i: int| 0 <= i < kids.len() implies 0 <= cursor_editor::slot_of(
        #[trigger] kids[i],
    ) < plan.len() by {
        assert(plan[slot as int].kids()[i] == kids[i]);
    }
    if checked is Err {
        let (index, accumulated, next) = choose|index: int, accumulated: TextSize, next: TextSize|
            {
                &&& checked->Err_0 == EditError::Green(lengths::overflow_error(accumulated, next))
                &&& #[trigger] offset_overflows(
                    planned,
                    base,
                    kids,
                    index,
                    planned_after,
                    accumulated,
                    next,
                )
            };
        let kid = cursor_editor::slot_of(kids[index]);
        lemma_same_lens(plan, planned, kids.take(index));
        lemma_lens_are_offset(plan, trees, slot as int, index);
        model::lemma_child_inside(kid_trees, index);
        assert(same_but_offset(plan[kid], planned[kid]));
        assert(plan[kid].text_len@ == trees[kid].len());
        assert(kid_trees[index] == trees[kid]);
    }
    let after = lemma_place_kids(
        owner,
        plan,
        planned,
        trees,
        placed,
        stack,
        slot as int,
        kids.len(),
    );
    let list = stack + forward_slots(kids, kids.len());
    assert(kids.skip(0) =~= kids);
    assert(planned_after == kids_offset(planned, base, kids, kids.len()));
    assert(kids_placed(planned_after, after, slot as int)) by {
        assert forall|i: int|
            0 <= i < planned_after[slot as int].kids().len() implies after[cursor_editor::slot_of(
            #[trigger] planned_after[slot as int].kids()[i],
        )] by {
            assert(after[cursor_editor::slot_of(plan[slot as int].kids()[i])]);
        }
    }
    assert forall|s: int| 0 <= s < plan.len() implies #[trigger] place_holds(
        planned_after,
        trees,
        after,
        stack_after,
        -1,
        s,
    ) by {
        assert(place_holds(planned_after, trees, after, list, slot as int, s));
        lemma_on_joined(stack, forward_slots(kids, kids.len()), s);
        lemma_on_joined(stack, queued_slots(kids), s);
        lemma_same_slots(kids, 0, s);
        lemma_same_slots(kids, kids.len() as int, s);
    }
    assert forall|k: int| 0 <= k < stack_after.len() implies (#[trigger] stack_after[k])
        < plan.len() && after[stack_after[k] as int] by {
        let s = stack_after[k] as int;
        assert(on_list(stack_after, s));
        lemma_on_joined(stack, forward_slots(kids, kids.len()), s);
        lemma_on_joined(stack, queued_slots(kids), s);
        lemma_same_slots(kids, 0, s);
        lemma_same_slots(kids, kids.len() as int, s);
        assert(on_list(list, s));
        let l = choose|l: int| 0 <= l < list.len() && (#[trigger] list[l]) == s;
        assert(list[l] < plan.len() && after[list[l] as int]);
    }
    lemma_queued_weight(trees, stack, kids, 0);
    if plan[slot as int].is_node() {
        assert(kid_trees == cursor_editor::trees_of(trees, kids));
    } else {
        assert(cursor_editor::trees_of(trees, kids) =~= Seq::empty());
    }
    assert(cursor_editor::trees_of(trees, kids).skip(0) =~= cursor_editor::trees_of(trees, kids));
    after
}

/// Every element gets an offset: its component root has one.
proof fn lemma_all_placed(
    owner: EditorOwner,
    plan: Seq<PlannedRecord>,
    planned: Seq<PlannedRecord>,
    trees: Seq<Tree>,
    placed: Seq<bool>,
    slot: int,
)
    requires
        offsets_invariant(owner, plan, planned, trees, placed, Seq::empty(), -1),
        forall|s: int| 0 <= s < plan.len() && plan[s].parent is None ==> #[trigger] placed[s],
        0 <= slot < plan.len(),
    ensures
        placed[slot],
    decreases model::forest_height(trees) - trees[slot].height(),
{
    match plan[slot].parent {
        None => {},
        Some(parent) => {
            let upper = parent.slot as int;
            let index = plan[slot].index->0 as int;
            assert(plan[slot].parent is Some);
            assert(upper < plan.len());
            assert(cursor_editor::slot_of(plan[upper].kids()[index]) == slot);
            assert(shape_right(plan, trees, upper));
            assert(trees[upper].children()[index] == trees[slot]);
            model::lemma_height_of_member(trees[upper].children(), index);
            model::lemma_height_of_member(trees, upper);
            lemma_all_placed(owner, plan, planned, trees, placed, upper);
            assert(place_holds(planned, trees, placed, Seq::empty(), -1, upper));
            assert(same_but_offset(plan[upper], planned[upper]));
            assert(placed[cursor_editor::slot_of(planned[upper].kids()[index])]);
        },
    }
}

/// Recompute every component-relative offset top-down.
pub(super) fn recompute_offsets(
    planned: &mut Vec<PlannedRecord>,
    Ghost(owner): Ghost<EditorOwner>,
    Ghost(trees): Ghost<Seq<Tree>>,
) -> (checked: Result<(), EditError>)
    requires
        plan::kids_planned(old(planned)@),
        cursor_editor::plan_linked(owner, old(planned)@),
        plan_shape(old(planned)@, trees),
        plan_lens(old(planned)@, trees),
    ensures
        checked is Ok,
        final(planned)@.len() == old(planned)@.len(),
        forall|s: int|
            0 <= s < old(planned)@.len() ==> same_but_offset(
                old(planned)@[s],
                #[trigger] final(planned)@[s],
            ),
        forall|s: int|
            0 <= s < old(planned)@.len() ==> #[trigger] offset_right(final(planned)@, trees, s),
{
    let ghost plan = planned@;
    let count: usize = planned.len();
    let ghost mut placed: Seq<bool> = Seq::new(count as nat, |s: int| false);
    let mut root: usize = 0;
    assert(offsets_invariant(owner, plan, planned@, trees, placed, Seq::empty(), -1));
    while root < count
        invariant
            plan == old(planned)@,
            count == plan.len(),
            root <= count,
            offsets_invariant(owner, plan, planned@, trees, placed, Seq::empty(), -1),
            forall|s: int| 0 <= s < root && plan[s].parent is None ==> #[trigger] placed[s],
        decreases count - root,
    {
        assert(same_but_offset(plan[root as int], planned@[root as int]));
        if planned[root].parent.is_none() {
            let ghost before = planned@;
            let ghost earlier = placed;
            planned[root].offset = TextSize { raw: 0 };
            let mut stack: Vec<usize> = Vec::new();
            stack.push(root);
            proof {
                placed = placed.update(root as int, true);
                lemma_place_root(owner, plan, before, planned@, trees, earlier, stack@, root);
            }
            while stack.len() > 0
                invariant
                    plan == old(planned)@,
                    count == plan.len(),
                    root < count,
                    offsets_invariant(owner, plan, planned@, trees, placed, stack@, -1),
                    forall|s: int|
                        0 <= s <= root && plan[s].parent is None ==> #[trigger] placed[s],
                decreases weight(trees, stack@),
            {
                let ghost waiting = stack@;
                let ghost placed_before = placed;
                let slot: usize = match stack.pop() {
                    Some(slot) => slot,
                    None => {
                        return Ok(());
                    },
                };
                assert(waiting =~= stack@.push(slot));
                let ghost planned_before = planned@;
                let ghost stack_before = stack@;
                proof {
                    lemma_offset_task_ready(
                        owner,
                        plan,
                        planned@,
                        trees,
                        placed,
                        stack@,
                        slot,
                    );
                }
                let checked = process_offset_task(planned, slot, &mut stack);
                proof {
                    let after = lemma_offset_task_keeps(
                        owner,
                        plan,
                        planned_before,
                        trees,
                        placed,
                        stack_before,
                        slot,
                        planned@,
                        stack@,
                        checked,
                    );
                    placed = after;
                    assert forall|s: int|
                        0 <= s <= root && plan[s].parent is None implies #[trigger] placed[s] by {
                        assert(placed_before[s]);
                    }
                }
                match checked {
                    Ok(_) => {},
                    Err(error) => {
                        return Err(error);
                    },
                }
            }
            assert(stack@ =~= Seq::empty());
        }
        root += 1;
    }
    proof {
        assert forall|s: int| 0 <= s < plan.len() implies #[trigger] offset_right(
            planned@,
            trees,
            s,
        ) by {
            lemma_all_placed(owner, plan, planned@, trees, placed, s);
            assert(place_holds(planned@, trees, placed, Seq::empty(), -1, s));
        }
    }
    Ok(())
}

/// Giving a component root its offset starts its component.
proof fn lemma_place_root(
    owner: EditorOwner,
    plan: Seq<PlannedRecord>,
    before: Seq<PlannedRecord>,
    planned: Seq<PlannedRecord>,
    trees: Seq<Tree>,
    placed: Seq<bool>,
    stack: Seq<usize>,
    root: usize,
)
    requires
        offsets_invariant(owner, plan, before, trees, placed, Seq::empty(), -1),
        root < plan.len(),
        plan[root as int].parent is None,
        planned.len() == before.len(),
        forall|s: int|
            0 <= s < plan.len() && s != root ==> (#[trigger] planned[s]) == before[s],
        same_but_offset(before[root as int], planned[root as int]),
        planned[root as int].offset@ == 0,
        stack == seq![root],
    ensures
        offsets_invariant(owner, plan, planned, trees, placed.update(root as int, true), stack, -1),
{
    let after = placed.update(root as int, true);
    let empty: Seq<usize> = Seq::empty();
    assert(same_but_offset(plan[root as int], before[root as int]));
    assert(plan[root as int].text_len@ == trees[root as int].len());
    assert(place_holds(before, trees, placed, empty, -1, root as int));
    assert(stack[0] == root);
    assert(on_list(stack, root as int));
    assert forall|s: int| 0 <= s < plan.len() implies #[trigger] place_holds(
        planned,
        trees,
        after,
        stack,
        -1,
        s,
    ) by {
        assert(place_holds(before, trees, placed, empty, -1, s));
        assert(!on_list(empty, s));
        assert(same_but_offset(plan[s], before[s]));
        if s != root && placed[s] {
            match plan[s].parent {
                Some(parent) => {
                    assert(parent.slot < plan.len());
                    if parent.slot == root {
                        assert(placed[root as int]);
                    }
                },
                None => {},
            }
            assert(kids_placed(planned, after, s)) by {
                assert forall|i: int|
                    0 <= i < planned[s].kids().len() implies after[cursor_editor::slot_of(
                    #[trigger] planned[s].kids()[i],
                )] by {
                    assert(placed[cursor_editor::slot_of(before[s].kids()[i])]);
                    assert(plan[s].kids()[i] == before[s].kids()[i]);
                }
            }
        }
    }
    assert forall|s: int| 0 <= s < plan.len() implies same_but_offset(
        plan[s],
        #[trigger] planned[s],
    ) by {
        assert(same_but_offset(plan[s], before[s]));
    }
}

} // verus!
