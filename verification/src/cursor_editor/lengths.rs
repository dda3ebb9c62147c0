//! Checked bottom-up lengths of a staged edit.

use vstd::prelude::*;

use crate::cursor_editor;
use crate::cursor_editor::EditError;
use crate::cursor_editor::EditorElementId;
use crate::cursor_editor::element_slot;
use crate::cursor_editor::plan;
use crate::cursor_editor::plan::PlannedRecord;
use crate::green::GreenError;
use crate::green::checked_text_add;
use crate::text::TextSize;
use crate::utility_types::NodeOrToken;

verus! {

/// The byte length of a planned element, if at most `fuel` levels of nodes lie in it.
pub open spec fn measured(planned: Seq<PlannedRecord>, slot: int, fuel: nat) -> Option<nat>
    decreases fuel, 0nat, 0nat,
{
    if !(0 <= slot < planned.len()) {
        None
    } else if !planned[slot].is_node() {
        Some(planned[slot].text_len@)
    } else if fuel == 0 {
        None
    } else {
        measured_sum(planned, planned[slot].kids(), (fuel - 1) as nat)
    }
}

/// The byte length of consecutive planned elements, if at most `fuel` levels of nodes lie in them.
pub open spec fn measured_sum(
    planned: Seq<PlannedRecord>,
    kids: Seq<EditorElementId>,
    fuel: nat,
) -> Option<nat>
    decreases fuel, 1nat, kids.len(),
{
    if kids.len() == 0 {
        Some(0)
    } else {
        match (
            measured_sum(planned, kids.drop_last(), fuel),
            measured(planned, cursor_editor::slot_of(kids.last()), fuel),
        ) {
            (Some(before), Some(last)) => Some(before + last),
            _ => None,
        }
    }
}

/// A node whose planned subtree is finite.
pub open spec fn grounded(planned: Seq<PlannedRecord>, slot: int) -> bool {
    exists|fuel: nat| #[trigger] measured(planned, slot, fuel) is Some
}

/// Adding the lengths of a planned node's children leaves the coordinate space at a child of
/// length `next`, with `accumulated` bytes before it, while every child fits.
pub open spec fn overflows(
    planned: Seq<PlannedRecord>,
    slot: int,
    accumulated: TextSize,
    next: TextSize,
) -> bool {
    &&& 0 <= slot < planned.len()
    &&& exists|fuel: nat, index: int| #[trigger]
        overflows_at(planned, planned[slot].kids(), fuel, index, accumulated, next)
}

/// Adding the measured lengths leaves the coordinate space at the child at `index`.
pub open spec fn overflows_at(
    planned: Seq<PlannedRecord>,
    kids: Seq<EditorElementId>,
    fuel: nat,
    index: int,
    accumulated: TextSize,
    next: TextSize,
) -> bool {
    &&& 0 <= index < kids.len()
    &&& measured_sum(planned, kids.take(index), fuel) == Some(accumulated@)
    &&& measured(planned, cursor_editor::slot_of(kids[index]), fuel) == Some(next@)
    &&& accumulated@ + next@ > u32::MAX
    &&& forall|i: int|
        0 <= i < kids.len()
            ==> (measured(planned, cursor_editor::slot_of(#[trigger] kids[i]), fuel) matches Some(
            len,
        ) && len <= u32::MAX)
}

/// More fuel measures the same.
pub(super) proof fn lemma_more_fuel(planned: Seq<PlannedRecord>, slot: int, fuel: nat, more: nat)
    requires
        fuel <= more,
        measured(planned, slot, fuel) is Some,
    ensures
        measured(planned, slot, more) == measured(planned, slot, fuel),
    decreases fuel, 0nat, 0nat,
{
    if planned[slot].is_node() {
        lemma_more_fuel_sum(planned, planned[slot].kids(), (fuel - 1) as nat, (more - 1) as nat);
    }
}

/// More fuel measures the same.
pub(super) proof fn lemma_more_fuel_sum(
    planned: Seq<PlannedRecord>,
    kids: Seq<EditorElementId>,
    fuel: nat,
    more: nat,
)
    requires
        fuel <= more,
        measured_sum(planned, kids, fuel) is Some,
    ensures
        measured_sum(planned, kids, more) == measured_sum(planned, kids, fuel),
    decreases fuel, 1nat, kids.len(),
{
    if kids.len() > 0 {
        lemma_more_fuel_sum(planned, kids.drop_last(), fuel, more);
        lemma_more_fuel(planned, cursor_editor::slot_of(kids.last()), fuel, more);
    }
}

/// A measured sum measures every element.
proof fn lemma_sum_measures(
    planned: Seq<PlannedRecord>,
    kids: Seq<EditorElementId>,
    fuel: nat,
    index: int,
)
    requires
        measured_sum(planned, kids, fuel) is Some,
        0 <= index < kids.len(),
    ensures
        measured(planned, cursor_editor::slot_of(kids[index]), fuel) is Some,
    decreases kids.len(),
{
    if index < kids.len() - 1 {
        lemma_sum_measures(planned, kids.drop_last(), fuel, index);
        assert(kids.drop_last()[index] == kids[index]);
    }
}

/// The sum of the planned lengths.
pub(super) open spec fn lens_sum(planned: Seq<PlannedRecord>, kids: Seq<EditorElementId>) -> nat
    decreases kids.len(),
{
    if kids.len() == 0 {
        0
    } else {
        lens_sum(planned, kids.drop_last()) + planned[cursor_editor::slot_of(kids.last())].text_len@
    }
}

/// The planned length of an element is its measured length.
pub open spec fn settled(plan: Seq<PlannedRecord>, planned: Seq<PlannedRecord>, slot: int) -> bool {
    exists|fuel: nat| #[trigger] measured(plan, slot, fuel) == Some(planned[slot].text_len@)
}

/// Enough fuel for settled elements.
proof fn lemma_common_fuel(
    plan: Seq<PlannedRecord>,
    planned: Seq<PlannedRecord>,
    kids: Seq<EditorElementId>,
) -> (fuel: nat)
    requires
        forall|i: int| 0 <= i < kids.len()
            ==> settled(plan, planned, cursor_editor::slot_of(#[trigger] kids[i])),
    ensures
        measured_sum(plan, kids, fuel) == Some(lens_sum(planned, kids)),
        forall|i: int|
            0 <= i < kids.len()
                ==> measured(plan, cursor_editor::slot_of(#[trigger] kids[i]), fuel) == Some(
                planned[cursor_editor::slot_of(kids[i])].text_len@,
            ),
    decreases kids.len(),
{
    if kids.len() == 0 {
        0
    } else {
        let rest = kids.drop_last();
        assert forall|i: int| 0 <= i < rest.len() implies settled(
            plan,
            planned,
            cursor_editor::slot_of(#[trigger] rest[i]),
        ) by {
            assert(rest[i] == kids[i]);
        }
        let lower = lemma_common_fuel(plan, planned, rest);
        let last = cursor_editor::slot_of(kids.last());
        assert(settled(plan, planned, cursor_editor::slot_of(kids[kids.len() - 1])));
        let own = choose|fuel: nat| #[trigger]
            measured(plan, last, fuel) == Some(planned[last].text_len@);
        let fuel = if lower < own {
            own
        } else {
            lower
        };
        lemma_more_fuel_sum(plan, rest, lower, fuel);
        lemma_more_fuel(plan, last, own, fuel);
        assert forall|i: int| 0 <= i < kids.len() implies measured(
            plan,
            cursor_editor::slot_of(#[trigger] kids[i]),
            fuel,
        ) == Some(planned[cursor_editor::slot_of(kids[i])].text_len@) by {
            if i < rest.len() {
                assert(rest[i] == kids[i]);
                lemma_more_fuel(plan, cursor_editor::slot_of(rest[i]), lower, fuel);
            }
        }
        fuel
    }
}

/// The children of a planned element name planned records.
pub(super) open spec fn kids_in_range(planned: Seq<PlannedRecord>, slot: int) -> bool {
    forall|i: int|
        0 <= i < planned[slot].kids().len() ==> 0 <= cursor_editor::slot_of(
            #[trigger] planned[slot].kids()[i],
        ) < planned.len()
}

/// Sum one planned node's direct child lengths with checked text arithmetic.
fn planned_children_text_len(planned: &Vec<PlannedRecord>, slot: usize) -> (len: Result<
    TextSize,
    EditError,
>)
    requires
        slot < planned@.len(),
        kids_in_range(planned@, slot as int),
    ensures
        match len {
            Ok(len) => len@ == lens_sum(planned@, planned@[slot as int].kids()),
            Err(error) => exists|accumulated: TextSize, next: TextSize, index: int|
                {
                    &&& error == EditError::Green(overflow_error(accumulated, next))
                    &&& #[trigger] lens_overflow(
                        planned@,
                        planned@[slot as int].kids(),
                        index,
                        accumulated,
                        next,
                    )
                },
        },
{
    let children = planned[slot].children();
    let mut text_len = TextSize { raw: 0 };
    let mut index: usize = 0;
    assert(children@.take(0) =~= Seq::empty());
    while index < children.len()
        invariant
            slot < planned@.len(),
            kids_in_range(planned@, slot as int),
            children@ == planned@[slot as int].kids(),
            index <= children@.len(),
            text_len@ == lens_sum(planned@, children@.take(index as int)),
        decreases children@.len() - index,
    {
        let kid: usize = element_slot(&children[index]);
        assert(planned@[slot as int].kids()[index as int] == children@[index as int]);
        let next = planned[kid].text_len;
        let accumulated = text_len;
        proof {
            assert(children@.take(index + 1).drop_last() =~= children@.take(index as int));
        }
        text_len = match checked_text_add(text_len, next) {
            Ok(sum) => sum,
            Err(error) => {
                proof {
                    let kids = planned@[slot as int].kids();
                    assert(error == overflow_error(accumulated, next));
                    assert(lens_overflow(planned@, kids, index as int, accumulated, next));
                }
                return Err(EditError::Green(error));
            },
        };
        index += 1;
    }
    assert(children@.take(children@.len() as int) =~= children@);
    Ok(text_len)
}

/// Adding the planned lengths leaves the coordinate space at the child at `index`.
spec fn lens_overflow(
    planned: Seq<PlannedRecord>,
    kids: Seq<EditorElementId>,
    index: int,
    accumulated: TextSize,
    next: TextSize,
) -> bool {
    &&& 0 <= index < kids.len()
    &&& accumulated@ == lens_sum(planned, kids.take(index))
    &&& next@ == planned[cursor_editor::slot_of(kids[index])].text_len@
    &&& accumulated@ + next@ > u32::MAX
}

/// The overflow that adding `next` to `accumulated` reports.
pub open spec fn overflow_error(accumulated: TextSize, next: TextSize) -> GreenError {
    GreenError::TextLengthOverflow { accumulated, next }
}

/// Only lengths of nodes differ.
pub open spec fn same_but_node_len(left: PlannedRecord, right: PlannedRecord) -> bool {
    &&& left.parent == right.parent
    &&& left.index == right.index
    &&& left.offset == right.offset
    &&& left.content == right.content
    &&& !left.is_node() ==> left.text_len == right.text_len
}

/// A planned node is listed by the parent that it links to.
pub open spec fn listed_by_parent(planned: Seq<PlannedRecord>, slot: int) -> bool {
    planned[slot].is_node() && planned[slot].parent is Some ==> {
        let parent = planned[slot].parent->0.slot();
        &&& 0 <= parent < planned.len()
        &&& exists|i: int|
            {
                &&& 0 <= i < planned[parent].kids().len()
                &&& cursor_editor::slot_of(#[trigger] planned[parent].kids()[i]) == slot
                &&& planned[parent].kids()[i] is Node
            }
    }
}

/// The state of the length computation between two tasks.
///
/// A node is new (0), open (1) or measured (2); the stack holds open nodes, marked `true`, and
/// new nodes that wait, marked `false`.
spec fn lengths_invariant(
    plan: Seq<PlannedRecord>,
    planned: Seq<PlannedRecord>,
    states: Seq<u8>,
    stack: Seq<(usize, bool)>,
) -> bool {
    &&& planned.len() == plan.len()
    &&& states.len() == plan.len()
    &&& plan::kids_planned(plan)
    &&& cursor_editor::nodes_linked(plan)
    &&& forall|s: int| 0 <= s < plan.len() ==> same_but_node_len(plan[s], #[trigger] planned[s])
    &&& forall|s: int|
        0 <= s < plan.len() ==> #[trigger] state_holds(plan, planned, states, stack, s)
    &&& forall|k: int| 0 <= k < stack.len() ==> #[trigger] entry_holds(plan, states, stack, k)
    &&& forall|k: int, l: int|
        0 <= k < l < stack.len() ==> #[trigger] differ(stack, k, l)
}

/// Two entries of the stack are about different nodes.
pub(super) open spec fn differ(stack: Seq<(usize, bool)>, k: int, l: int) -> bool {
    stack[k].0 != stack[l].0
}

/// The stack holds a node.
pub(super) open spec fn on_stack(stack: Seq<(usize, bool)>, slot: int) -> bool {
    exists|k: int| 0 <= k < stack.len() && (#[trigger] stack[k]).0 == slot
}

/// The stack holds a node above a position.
pub(super) open spec fn on_stack_above(
    stack: Seq<(usize, bool)>, slot: int, position: int) -> bool {
    exists|k: int| position < k < stack.len() && (#[trigger] stack[k]).0 == slot
}

/// What holds of the node at a slot.
spec fn state_holds(
    plan: Seq<PlannedRecord>,
    planned: Seq<PlannedRecord>,
    states: Seq<u8>,
    stack: Seq<(usize, bool)>,
    slot: int,
) -> bool {
    &&& states[slot] <= 2
    &&& states[slot] == 1 ==> on_stack(stack, slot)
    &&& states[slot] == 2 ==> {
        &&& plan[slot].is_node()
        &&& settled(plan, planned, slot)
        &&& kids_measured(plan, states, slot)
    }
    &&& plan[slot].is_node() && plan[slot].parent is Some && started(states, stack, slot)
        ==> states[plan[slot].parent->0.slot as int] != 0
}

/// What holds of an entry of the stack.
spec fn entry_holds(
    plan: Seq<PlannedRecord>,
    states: Seq<u8>,
    stack: Seq<(usize, bool)>,
    position: int,
) -> bool {
    let slot = stack[position].0 as int;
    &&& slot < plan.len()
    &&& plan[slot].is_node()
    &&& states[slot] == (if stack[position].1 {
        1u8
    } else {
        0u8
    })
    &&& stack[position].1 ==> kids_follow(plan, states, stack, position)
}

/// Every child node of an open node is measured or lies above it on the stack.
spec fn kids_follow(
    plan: Seq<PlannedRecord>,
    states: Seq<u8>,
    stack: Seq<(usize, bool)>,
    position: int,
) -> bool {
    let kids = plan[stack[position].0 as int].kids();
    forall|i: int|
        0 <= i < kids.len() && (#[trigger] kids[i]) is Node
            ==> states[cursor_editor::slot_of(kids[i])] == 2
            || on_stack_above(stack, cursor_editor::slot_of(kids[i]), position)
}

/// Every child node is measured.
spec fn kids_measured(plan: Seq<PlannedRecord>, states: Seq<u8>, slot: int) -> bool {
    forall|i: int|
        0 <= i < plan[slot].kids().len() && (#[trigger] plan[slot].kids()[i]) is Node ==> states[
        cursor_editor::slot_of(plan[slot].kids()[i])] == 2
}

/// The node was met already.
spec fn started(states: Seq<u8>, stack: Seq<(usize, bool)>, slot: int) -> bool {
    states[slot] != 0 || on_stack(stack, slot)
}

/// The number of new nodes.
spec fn new_count(states: Seq<u8>) -> nat
    decreases states.len(),
{
    if states.len() == 0 {
        0
    } else {
        new_count(states.drop_last()) + if states.last() == 0 {
            1nat
        } else {
            0nat
        }
    }
}

proof fn lemma_new_count(states: Seq<u8>, slot: int, state: u8)
    requires
        0 <= slot < states.len(),
        state != 0,
    ensures
        states[slot] == 0 ==> new_count(states.update(slot, state)) == new_count(states) - 1,
        states[slot] != 0 ==> new_count(states.update(slot, state)) == new_count(states),
    decreases states.len(),
{
    let after = states.update(slot, state);
    if slot == states.len() - 1 {
        assert(after.drop_last() =~= states.drop_last());
    } else {
        assert(after.drop_last() =~= states.drop_last().update(slot, state));
        lemma_new_count(states.drop_last(), slot, state);
    }
}

/// The tasks that open a node's child nodes, the last child first.
pub(super) open spec fn queued(kids: Seq<EditorElementId>) -> Seq<(usize, bool)>
    decreases kids.len(),
{
    if kids.len() == 0 {
        Seq::empty()
    } else {
        queued(kids.drop_first()) + if kids[0] is Node {
            seq![(cursor_editor::slot_of(kids[0]) as usize, false)]
        } else {
            Seq::empty()
        }
    }
}

/// A planned record with another length.
pub(super) open spec fn with_len(record: PlannedRecord, text_len: TextSize) -> PlannedRecord {
    PlannedRecord { text_len, ..record }
}

/// What one task of the length computation does.
///
/// A node that is met again at the end (`visited`) gets the sum of its children's lengths and is
/// measured (2). A node that is met first is opened (1): it waits for its child nodes, which go
/// before it. One that is open already lies below itself; one that is measured is done.
spec fn task_done(
    planned: Seq<PlannedRecord>,
    states: Seq<u8>,
    stack: Seq<(usize, bool)>,
    slot: int,
    visited: bool,
    planned_after: Seq<PlannedRecord>,
    states_after: Seq<u8>,
    stack_after: Seq<(usize, bool)>,
    checked: Result<(), EditError>,
) -> bool {
    let kids = planned[slot].kids();
    if visited {
        &&& stack_after == stack
        &&& match checked {
            Ok(_) => {
                &&& states_after == states.update(slot, 2)
                &&& planned_after[slot].text_len@ == lens_sum(planned, kids)
                &&& planned_after == planned.update(
                    slot,
                    with_len(planned[slot], planned_after[slot].text_len),
                )
            },
            Err(error) => {
                &&& states_after == states
                &&& planned_after == planned
                &&& exists|accumulated: TextSize, next: TextSize, index: int|
                    {
                        &&& error == EditError::Green(overflow_error(accumulated, next))
                        &&& #[trigger] lens_overflow(planned, kids, index, accumulated, next)
                    }
            },
        }
    } else {
        &&& planned_after == planned
        &&& if states[slot] == 1 {
            checked == Err::<(), EditError>(EditError::Cycle) && states_after == states
                && stack_after == stack
        } else if states[slot] == 2 {
            checked is Ok && states_after == states && stack_after == stack
        } else {
            checked is Ok && states_after == states.update(slot, 1) && stack_after == stack.push(
                (slot as usize, true),
            ) + queued(kids)
        }
    }
}

/// Process one cycle-checked post-order node-length task.
fn process_length_task(
    planned: &mut Vec<PlannedRecord>,
    states: &mut Vec<u8>,
    slot: usize,
    visited: bool,
    stack: &mut Vec<(usize, bool)>,
) -> (checked: Result<(), EditError>)
    requires
        slot < old(planned)@.len() == old(states)@.len(),
        old(planned)@[slot as int].is_node(),
        kids_in_range(old(planned)@, slot as int),
    ensures
        task_done(
            old(planned)@,
            old(states)@,
            old(stack)@,
            slot as int,
            visited,
            final(planned)@,
            final(states)@,
            final(stack)@,
            checked,
        ),
{
    let ghost planned_before = planned@;
    let ghost kids = planned@[slot as int].kids();
    if visited {
        let text_len = match planned_children_text_len(planned, slot) {
            Ok(text_len) => text_len,
            Err(error) => {
                return Err(error);
            },
        };
        planned[slot].text_len = text_len;
        states[slot] = 2;
        assert(planned@ =~= planned_before.update(
            slot as int,
            with_len(planned_before[slot as int], text_len),
        ));
        return Ok(());
    }
    match states[slot] {
        1 => {
            return Err(EditError::Cycle);
        },
        2 => {
            return Ok(());
        },
        _ => {},
    }
    states[slot] = 1;
    stack.push((slot, true));
    let children = planned[slot].children();
    let ghost base = stack@;
    let mut index: usize = children.len();
    proof {
        assert(kids.skip(index as int) =~= Seq::empty());
        assert(base + queued(kids.skip(index as int)) =~= base);
    }
    while index > 0
        invariant
            index <= children@.len(),
            children@ == kids,
            stack@ == base + queued(kids.skip(index as int)),
        decreases index,
    {
        let ghost earlier = queued(kids.skip(index as int));
        index -= 1;
        proof {
            assert(kids.skip(index as int).drop_first() =~= kids.skip(index + 1));
            assert(kids.skip(index as int)[0] == kids[index as int]);
        }
        if let NodeOrToken::Node(node) = &children[index] {
            stack.push((node.slot, false));
            assert(stack@ =~= base + (earlier + seq![(node.slot, false)]));
        } else {
            assert(earlier + Seq::<(usize, bool)>::empty() =~= earlier);
        }
    }
    assert(kids.skip(0) =~= kids);
    Ok(())
}

/// The positions of a node's child nodes from an index on, the last one first, are those that are
/// queued.
proof fn lemma_queued_origin(kids: Seq<EditorElementId>, index: int) -> (origin: Seq<int>)
    requires
        0 <= index <= kids.len(),
    ensures
        queued(kids.skip(index)).len() == origin.len(),
        forall|j: int|
            0 <= j < origin.len() ==> {
                &&& index <= (#[trigger] origin[j]) < kids.len()
                &&& kids[origin[j]] is Node
                &&& queued(kids.skip(index))[j] == (
                    cursor_editor::slot_of(kids[origin[j]]) as usize,
                    false,
                )
            },
        forall|j: int, l: int|
            0 <= j < l < origin.len() ==> (#[trigger] origin[l]) < (#[trigger] origin[j]),
        forall|i: int|
            index <= i < kids.len() && (#[trigger] kids[i]) is Node ==> exists|j: int|
                0 <= j < origin.len() && (#[trigger] origin[j]) == i,
    decreases kids.len() - index,
{
    if index == kids.len() {
        assert(kids.skip(index) =~= Seq::empty());
        Seq::empty()
    } else {
        let earlier = lemma_queued_origin(kids, index + 1);
        assert(kids.skip(index).drop_first() =~= kids.skip(index + 1));
        assert(kids.skip(index)[0] == kids[index]);
        if kids[index] is Node {
            let origin = earlier.push(index);
            assert(origin[earlier.len() as int] == index);
            assert forall|i: int|
                index <= i < kids.len() && (#[trigger] kids[i]) is Node implies exists|j: int|
                0 <= j < origin.len() && (#[trigger] origin[j]) == i by {
                if i > index {
                    let j = choose|j: int| 0 <= j < earlier.len() && (#[trigger] earlier[j]) == i;
                    assert(origin[j] == i);
                }
            }
            assert forall|j: int| 0 <= j < origin.len() implies {
                &&& index <= (#[trigger] origin[j]) < kids.len()
                &&& kids[origin[j]] is Node
                &&& queued(kids.skip(index))[j] == (
                    cursor_editor::slot_of(kids[origin[j]]) as usize,
                    false,
                )
            } by {
                if j < earlier.len() {
                    assert(origin[j] == earlier[j]);
                }
            }
            origin
        } else {
            assert(queued(kids.skip(index)) =~= queued(kids.skip(index + 1)));
            earlier
        }
    }
}

/// The task on top of the stack can be processed.
proof fn lemma_task_ready(
    plan: Seq<PlannedRecord>,
    planned: Seq<PlannedRecord>,
    states: Seq<u8>,
    stack: Seq<(usize, bool)>,
    slot: usize,
    visited: bool,
)
    requires
        lengths_invariant(plan, planned, states, stack.push((slot, visited))),
    ensures
        slot < planned.len() == states.len(),
        planned[slot as int].is_node(),
        planned[slot as int].kids() == plan[slot as int].kids(),
        kids_in_range(planned, slot as int),
{
    let waiting = stack.push((slot, visited));
    let top = stack.len() as int;
    assert(waiting[top] == (slot, visited));
    assert(entry_holds(plan, states, waiting, top));
    assert(same_but_node_len(plan[slot as int], planned[slot as int]));
    assert forall|i: int| 0 <= i < planned[slot as int].kids().len() implies 0
        <= cursor_editor::slot_of(#[trigger] planned[slot as int].kids()[i]) < planned.len() by {
        assert(plan[slot as int].kids()[i] == planned[slot as int].kids()[i]);
    }
}

/// The children of the open node on top of the stack are settled.
proof fn lemma_kids_settled(
    plan: Seq<PlannedRecord>,
    planned: Seq<PlannedRecord>,
    states: Seq<u8>,
    stack: Seq<(usize, bool)>,
    slot: usize,
)
    requires
        lengths_invariant(plan, planned, states, stack.push((slot, true))),
    ensures
        forall|i: int|
            0 <= i < plan[slot as int].kids().len() ==> settled(
                plan,
                planned,
                cursor_editor::slot_of(#[trigger] plan[slot as int].kids()[i]),
            ),
        kids_measured(plan, states, slot as int),
{
    let waiting = stack.push((slot, true));
    let top = stack.len() as int;
    let kids = plan[slot as int].kids();
    assert(waiting[top] == (slot, true));
    assert(entry_holds(plan, states, waiting, top));
    assert forall|i: int| 0 <= i < kids.len() implies settled(
        plan,
        planned,
        cursor_editor::slot_of(#[trigger] plan[slot as int].kids()[i]),
    ) && (kids[i] is Node ==> states[cursor_editor::slot_of(kids[i])] == 2) by {
        let kid = cursor_editor::slot_of(kids[i]);
        if kids[i] is Node {
            assert(kids_follow(plan, states, waiting, top));
            assert(!on_stack_above(waiting, kid, top));
            assert(states[kid] == 2);
            assert(state_holds(plan, planned, states, waiting, kid));
        } else {
            assert(same_but_node_len(plan[kid], planned[kid]));
            assert(measured(plan, kid, 0) == Some(planned[kid].text_len@));
        }
    }
}

/// A processed task keeps the state of the computation, and brings it nearer to its end. What it
/// refuses, it refuses for an overflow.
proof fn lemma_task_keeps(
    plan: Seq<PlannedRecord>,
    planned: Seq<PlannedRecord>,
    states: Seq<u8>,
    stack: Seq<(usize, bool)>,
    slot: usize,
    visited: bool,
    planned_after: Seq<PlannedRecord>,
    states_after: Seq<u8>,
    stack_after: Seq<(usize, bool)>,
    checked: Result<(), EditError>,
)
    requires
        plan.len() <= usize::MAX,
        lengths_invariant(plan, planned, states, stack.push((slot, visited))),
        task_done(
            planned,
            states,
            stack,
            slot as int,
            visited,
            planned_after,
            states_after,
            stack_after,
            checked,
        ),
    ensures
        planned_after.len() == plan.len(),
        forall|s: int|
            0 <= s < plan.len() ==> same_but_node_len(plan[s], #[trigger] planned_after[s]),
        match checked {
            Ok(_) => {
                &&& lengths_invariant(plan, planned_after, states_after, stack_after)
                &&& new_count(states_after) < new_count(states) || (new_count(states_after)
                    == new_count(states) && stack_after.len() <= stack.len())
                &&& forall|s: int|
                    0 <= s < plan.len() && states[s] == 2 ==> #[trigger] states_after[s] == 2
                &&& forall|s: int|
                    0 <= s < plan.len() && started(states, stack.push((slot, visited)), s)
                        ==> #[trigger] started(states_after, stack_after, s)
                &&& forall|s: int|
                    0 <= s < plan.len() && plan[s].parent is None && #[trigger] started(
                        states_after,
                        stack_after,
                        s,
                    ) ==> started(states, stack.push((slot, visited)), s)
            },
            Err(error) => exists|accumulated: TextSize, next: TextSize|
                error == EditError::Green(#[trigger] overflow_error(accumulated, next))
                    && overflows(plan, slot as int, accumulated, next),
        },
{
    let kids = plan[slot as int].kids();
    let top = stack.len() as int;
    let waiting = stack.push((slot, visited));
    lemma_task_ready(plan, planned, states, stack, slot, visited);
    assert(waiting[top] == (slot, visited));
    assert(entry_holds(plan, states, waiting, top));
    assert(same_but_node_len(plan[slot as int], planned[slot as int]));
    if visited {
        lemma_kids_settled(plan, planned, states, stack, slot);
        let fuel = lemma_common_fuel(plan, planned, kids);
        match checked {
            Ok(_) => {
                lemma_new_count(states, slot as int, 2);
                assert(measured(plan, slot as int, (fuel + 1) as nat) == Some(
                    planned_after[slot as int].text_len@,
                ));
                assert(settled(plan, planned_after, slot as int));
                assert(kids_measured(plan, states_after, slot as int)) by {
                    assert forall|i: int|
                        0 <= i < kids.len() && (#[trigger] plan[slot as int].kids()[i])
                            is Node implies states_after[cursor_editor::slot_of(
                            plan[slot as int].kids()[i])] == 2 by {
                        assert(states[cursor_editor::slot_of(plan[slot as int].kids()[i])] == 2);
                    }
                }
                lemma_measured_step(
                    plan,
                    planned,
                    planned_after,
                    states,
                    states_after,
                    stack,
                    slot,
                );
            },
            Err(error) => {
                let (accumulated, next, index) = choose|
                    accumulated: TextSize,
                    next: TextSize,
                    index: int,
                |
                    {
                        &&& error == EditError::Green(overflow_error(accumulated, next))
                        &&& #[trigger] lens_overflow(planned, kids, index, accumulated, next)
                    };
                lemma_sum_prefix(plan, planned, kids, fuel, index);
                assert(measured_sum(plan, kids.take(index), fuel) == Some(accumulated@));
                assert(measured(plan, cursor_editor::slot_of(kids[index]), fuel) == Some(next@));
                assert(overflows_at(plan, kids, fuel, index, accumulated, next));
                assert(overflows(plan, slot as int, accumulated, next));
                assert(error == EditError::Green(overflow_error(accumulated, next)));
            },
        }
    } else {
        lemma_new_count(states, slot as int, 1);
        let origin = lemma_queued_origin(kids, 0);
        let base = stack.push((slot, true));
        assert(kids.skip(0) =~= kids);
        assert(stack_after == base + queued(kids));
        assert(stack_after.take(stack.len() as int + 1) =~= base);
        assert forall|j: int| 0 <= j < origin.len() implies {
            &&& 0 <= (#[trigger] origin[j]) < kids.len()
            &&& kids[origin[j]] is Node
            &&& stack_after[stack.len() + 1 + j] == (
                cursor_editor::slot_of(kids[origin[j]]) as usize,
                false,
            )
        } by {
            assert(stack_after[stack.len() + 1 + j] == queued(kids)[j]);
        }
        lemma_open_step(plan, planned, states, states_after, stack, stack_after, origin, slot);
    }
}

/// A prefix of settled children measures the sum of their planned lengths.
proof fn lemma_sum_prefix(
    plan: Seq<PlannedRecord>,
    planned: Seq<PlannedRecord>,
    kids: Seq<EditorElementId>,
    fuel: nat,
    index: int,
)
    requires
        0 <= index <= kids.len(),
        forall|i: int|
            0 <= i < kids.len()
                ==> measured(plan, cursor_editor::slot_of(#[trigger] kids[i]), fuel) == Some(
                planned[cursor_editor::slot_of(kids[i])].text_len@,
            ),
    ensures
        measured_sum(plan, kids.take(index), fuel) == Some(lens_sum(planned, kids.take(index))),
    decreases index,
{
    if index > 0 {
        lemma_sum_prefix(plan, planned, kids, fuel, index - 1);
        assert(kids.take(index).drop_last() =~= kids.take(index - 1));
        assert(kids.take(index).last() == kids[index - 1]);
    }
}

/// Measuring the topmost open node keeps the invariant.
proof fn lemma_measured_step(
    plan: Seq<PlannedRecord>,
    planned_before: Seq<PlannedRecord>,
    planned: Seq<PlannedRecord>,
    states_before: Seq<u8>,
    states: Seq<u8>,
    stack: Seq<(usize, bool)>,
    slot: usize,
)
    requires
        lengths_invariant(plan, planned_before, states_before, stack.push((slot, true))),
        slot < plan.len(),
        states == states_before.update(slot as int, 2),
        planned.len() == plan.len(),
        forall|s: int|
            0 <= s < plan.len() && s != slot ==> (#[trigger] planned[s]) == planned_before[s],
        same_but_node_len(planned_before[slot as int], planned[slot as int]),
        settled(plan, planned, slot as int),
        kids_measured(plan, states, slot as int),
    ensures
        lengths_invariant(plan, planned, states, stack),
        forall|s: int|
            0 <= s < plan.len() ==> (started(states_before, stack.push((slot, true)), s) <==> (
            #[trigger] started(states, stack, s))),
{
    let waiting = stack.push((slot, true));
    let top = stack.len() as int;
    assert(waiting[top] == (slot, true));
    assert(entry_holds(plan, states_before, waiting, top));
    assert forall|k: int| 0 <= k < top implies waiting[k] == (#[trigger] stack[k]) && stack[k].0
        != slot by {
        assert(differ(waiting, k, top));
    }
    assert forall|s: int| 0 <= s < plan.len() implies (#[trigger] on_stack(waiting, s)
        <==> on_stack(stack, s) || s == slot) by {
        if on_stack(waiting, s) {
            let k = choose|k: int| 0 <= k < waiting.len() && (#[trigger] waiting[k]).0 == s;
            if k < top {
                assert(stack[k].0 == s);
            }
        }
        if on_stack(stack, s) {
            let k = choose|k: int| 0 <= k < stack.len() && (#[trigger] stack[k]).0 == s;
            assert(waiting[k].0 == s);
        }
        if s == slot {
            assert(waiting[top].0 == s);
        }
    }
    assert forall|s: int| 0 <= s < plan.len() implies #[trigger] state_holds(
        plan,
        planned,
        states,
        stack,
        s,
    ) by {
        assert(state_holds(plan, planned_before, states_before, waiting, s));
        assert(listed_by_parent(plan, s));
        assert(on_stack(waiting, s) <==> on_stack(stack, s) || s == slot);
        if s != slot && states[s] == 2 {
            let fuel = choose|fuel: nat| #[trigger]
                measured(plan, s, fuel) == Some(planned_before[s].text_len@);
            assert(planned[s] == planned_before[s]);
            assert(measured(plan, s, fuel) == Some(planned[s].text_len@));
            assert(kids_measured(plan, states, s)) by {
                assert forall|i: int|
                    0 <= i < plan[s].kids().len() && (#[trigger] plan[s].kids()[i])
                        is Node implies states[cursor_editor::slot_of(plan[s].kids()[i])] == 2 by {
                    assert(states_before[cursor_editor::slot_of(plan[s].kids()[i])] == 2);
                }
            }
        }
    }
    assert forall|k: int| 0 <= k < stack.len() implies #[trigger] entry_holds(
        plan,
        states,
        stack,
        k,
    ) by {
        assert(entry_holds(plan, states_before, waiting, k));
        assert(waiting[k] == stack[k]);
        if stack[k].1 {
            let kids = plan[stack[k].0 as int].kids();
            assert(kids_follow(plan, states_before, waiting, k));
            assert forall|i: int| 0 <= i < kids.len() && (#[trigger] kids[i]) is Node
                implies states[
            cursor_editor::slot_of(kids[i])] == 2
                || on_stack_above(stack, cursor_editor::slot_of(kids[i]), k) by {
                let kid = cursor_editor::slot_of(kids[i]);
                if states_before[kid] != 2 {
                    let l = choose|l: int| k < l < waiting.len() && (#[trigger] waiting[l]).0
                        == kid;
                    if l < top {
                        assert(stack[l].0 == kid);
                    }
                }
            }
        }
    }
    assert forall|k: int, l: int| 0 <= k < l < stack.len()
        implies #[trigger] differ(stack, k, l) by {
        assert(differ(waiting, k, l));
        assert(waiting[k] == stack[k] && waiting[l] == stack[l]);
    }
    assert forall|s: int| 0 <= s < plan.len() implies (started(states_before, waiting, s) <==> (
    #[trigger] started(states, stack, s))) by {
        assert(on_stack(waiting, s) <==> on_stack(stack, s) || s == slot);
    }
}

/// Opening a new node and queueing its child nodes keeps the invariant.
proof fn lemma_open_step(
    plan: Seq<PlannedRecord>,
    planned: Seq<PlannedRecord>,
    states_before: Seq<u8>,
    states: Seq<u8>,
    stack_before: Seq<(usize, bool)>,
    stack: Seq<(usize, bool)>,
    origin: Seq<int>,
    slot: usize,
)
    requires
        lengths_invariant(plan, planned, states_before, stack_before.push((slot, false))),
        slot < plan.len() <= usize::MAX,
        states == states_before.update(slot as int, 1),
        stack.len() == stack_before.len() + 1 + origin.len(),
        stack.take(stack_before.len() as int + 1) == stack_before.push((slot, true)),
        ({
            let kids = plan[slot as int].kids();
            &&& forall|j: int|
                0 <= j < origin.len() ==> {
                    &&& 0 <= (#[trigger] origin[j]) < kids.len()
                    &&& kids[origin[j]] is Node
                    &&& stack[stack_before.len() + 1 + j] == (
                        cursor_editor::slot_of(kids[origin[j]]) as usize,
                        false,
                    )
                }
            &&& forall|j: int, l: int|
                0 <= j < l < origin.len() ==> (#[trigger] origin[l]) < (#[trigger] origin[j])
            &&& forall|i: int|
                0 <= i < kids.len() && (#[trigger] kids[i]) is Node ==> exists|j: int|
                    0 <= j < origin.len() && (#[trigger] origin[j]) == i
        }),
    ensures
        lengths_invariant(plan, planned, states, stack),
        forall|s: int|
            0 <= s < plan.len() && started(states_before, stack_before.push((slot, false)), s)
                ==> #[trigger] started(states, stack, s),
        forall|s: int|
            0 <= s < plan.len() && plan[s].parent is None && #[trigger] started(states, stack, s)
                ==> started(states_before, stack_before.push((slot, false)), s),
{
    let waiting = stack_before.push((slot, false));
    let top = stack_before.len() as int;
    let kids = plan[slot as int].kids();
    let base = stack_before.push((slot, true));
    assert(waiting[top] == (slot, false));
    assert(entry_holds(plan, states_before, waiting, top));
    assert(states_before[slot as int] == 0);
    assert forall|k: int| 0 <= k < top implies (#[trigger] stack[k]) == waiting[k] && stack[k].0
        != slot by {
        assert(stack.take(top + 1)[k] == base[k]);
        assert(differ(waiting, k, top));
    }
    assert(stack[top] == (slot, true)) by {
        assert(stack.take(top + 1)[top] == base[top]);
    }
    // The child nodes are new and wait nowhere: their only parent was new until now.
    assert forall|i: int| 0 <= i < kids.len() && (#[trigger] kids[i]) is Node implies new_kid(
        plan,
        states_before,
        waiting,
        slot,
        cursor_editor::slot_of(kids[i]),
    ) by {
        let kid = cursor_editor::slot_of(kids[i]);
        assert(plan[slot as int].kids()[i] is Node);
        assert(plan[kid].parent matches Some(parent) && parent.slot == slot);
        assert(state_holds(plan, planned, states_before, waiting, kid));
        if kid == slot {
            assert(waiting[top].0 == kid);
        }
    }
    // The entries above the opened node are its child nodes.
    assert forall|j: int| 0 <= j < origin.len() implies queued_kid(
        plan,
        states_before,
        waiting,
        stack,
        slot,
        top + 1 + j,
        #[trigger] origin[j],
    ) by {
        assert(kids[origin[j]] is Node);
    }
    assert forall|s: int| 0 <= s < plan.len() && #[trigger] on_stack(stack, s) implies on_stack(
        waiting,
        s,
    ) || (plan[s].parent matches Some(parent) && parent.slot == slot) by {
        {
            let k = choose|k: int| 0 <= k < stack.len() && (#[trigger] stack[k]).0 == s;
            if k <= top {
                assert(waiting[k].0 == s);
            } else {
                let j = k - top - 1;
                assert(queued_kid(plan, states_before, waiting, stack, slot, top + 1
                    + j, origin[j]));
                assert(plan[slot as int].kids()[origin[j]] is Node);
            }
        }
    }
    assert forall|s: int| 0 <= s < plan.len() && on_stack(waiting, s) implies #[trigger] on_stack(
        stack,
        s,
    ) by {
        let k = choose|k: int| 0 <= k < waiting.len() && (#[trigger] waiting[k]).0 == s;
        assert(stack[k].0 == s);
    }
    assert forall|s: int| 0 <= s < plan.len() implies #[trigger] state_holds(
        plan,
        planned,
        states,
        stack,
        s,
    ) by {
        assert(state_holds(plan, planned, states_before, waiting, s));
        assert(listed_by_parent(plan, s));
        assert(on_stack(stack, s) ==> on_stack(waiting, s) || (plan[s].parent matches Some(parent)
            && parent.slot == slot));
        if s == slot {
            assert(waiting[top].0 == s);
            assert(on_stack(waiting, s));
        }
        if states[s] == 2 {
            assert(kids_measured(plan, states, s)) by {
                assert forall|i: int|
                    0 <= i < plan[s].kids().len() && (#[trigger] plan[s].kids()[i])
                        is Node implies states[cursor_editor::slot_of(plan[s].kids()[i])] == 2 by {
                    assert(states_before[cursor_editor::slot_of(plan[s].kids()[i])] == 2);
                }
            }
        }
    }
    assert forall|k: int| 0 <= k < stack.len() implies #[trigger] entry_holds(
        plan,
        states,
        stack,
        k,
    ) by {
        if k < top {
            assert(entry_holds(plan, states_before, waiting, k));
            assert(stack[k] == waiting[k]);
            if stack[k].1 {
                let others = plan[stack[k].0 as int].kids();
                assert(kids_follow(plan, states_before, waiting, k));
                assert forall|i: int|
                    0 <= i < others.len() && (#[trigger] others[i]) is Node
                        implies states[cursor_editor::slot_of(
                    others[i],
                )] == 2 || on_stack_above(stack, cursor_editor::slot_of(others[i]), k) by {
                    let kid = cursor_editor::slot_of(others[i]);
                    if states_before[kid] != 2 {
                        let l = choose|l: int|
                            k < l < waiting.len() && (#[trigger] waiting[l]).0 == kid;
                        assert(stack[l].0 == kid);
                    }
                }
            }
        } else if k == top {
            assert forall|i: int|
                0 <= i < kids.len() && (#[trigger] kids[i]) is Node
                    implies states[cursor_editor::slot_of(
                kids[i],
            )] == 2 || on_stack_above(stack, cursor_editor::slot_of(kids[i]), top) by {
                let j = choose|j: int| 0 <= j < origin.len() && (#[trigger] origin[j]) == i;
                assert(queued_kid(plan, states_before, waiting, stack, slot, top + 1
                    + j, origin[j]));
                assert(stack[top + 1 + j].0 == cursor_editor::slot_of(kids[i]));
            }
            assert(kids_follow(plan, states, stack, top));
        } else {
            let j = k - top - 1;
            assert(queued_kid(plan, states_before, waiting, stack, slot, top + 1 + j, origin[j]));
        }
    }
    assert forall|k: int, l: int| 0 <= k < l < stack.len()
        implies #[trigger] differ(stack, k, l) by {
        if l > top {
            let j = l - top - 1;
            assert(queued_kid(plan, states_before, waiting, stack, slot, top + 1 + j, origin[j]));
            if k <= top {
                assert(waiting[k].0 == stack[k].0);
            } else {
                let i = k - top - 1;
                assert(queued_kid(plan, states_before, waiting, stack, slot, top + 1
                    + i, origin[i]));
                assert(origin[j] < origin[i]);
                assert(plan[slot as int].kids()[origin[j]] is Node);
                assert(plan[slot as int].kids()[origin[i]] is Node);
            }
        } else {
            assert(differ(waiting, k, l));
            assert(waiting[k].0 == stack[k].0);
            assert(waiting[l].0 == stack[l].0);
        }
    }
    assert forall|s: int|
        0 <= s < plan.len() && started(states_before, waiting, s) implies #[trigger] started(
        states,
        stack,
        s,
    ) by {
        if on_stack(waiting, s) {
            assert(on_stack(stack, s));
        }
    }
    assert forall|s: int|
        0 <= s < plan.len() && plan[s].parent is None && #[trigger] started(
            states,
            stack,
            s,
        ) implies started(states_before, waiting, s) by {
        if s == slot {
            assert(waiting[top].0 == s);
            assert(on_stack(waiting, s));
        }
    }
}

/// A child node that was not met yet.
spec fn new_kid(
    plan: Seq<PlannedRecord>,
    states: Seq<u8>,
    stack: Seq<(usize, bool)>,
    slot: usize,
    kid: int,
) -> bool {
    &&& 0 <= kid < plan.len()
    &&& plan[kid].is_node()
    &&& kid != slot
    &&& states[kid] == 0
    &&& !on_stack(stack, kid)
}

/// An entry of the stack is a child node that was not met yet.
spec fn queued_kid(
    plan: Seq<PlannedRecord>,
    states: Seq<u8>,
    waiting: Seq<(usize, bool)>,
    stack: Seq<(usize, bool)>,
    slot: usize,
    position: int,
    index: int,
) -> bool {
    let kids = plan[slot as int].kids();
    &&& 0 <= index < kids.len()
    &&& kids[index] is Node
    &&& stack[position].0 == cursor_editor::slot_of(kids[index])
    &&& !stack[position].1
    &&& new_kid(plan, states, waiting, slot, cursor_editor::slot_of(kids[index]))
}

/// Recompute all node lengths bottom-up and reject cycles or overflow.
pub fn recompute_lengths(planned: &mut Vec<PlannedRecord>) -> (checked: Result<(), EditError>)
    requires
        plan::kids_planned(old(planned)@),
        cursor_editor::nodes_linked(old(planned)@),
    ensures
        final(planned)@.len() == old(planned)@.len(),
        forall|s: int|
            0 <= s < old(planned)@.len() ==> same_but_node_len(
                old(planned)@[s],
                #[trigger] final(planned)@[s],
            ),
        match checked {
            Ok(_) => forall|s: int|
                0 <= s < old(planned)@.len() ==> #[trigger] settled(
                    old(planned)@,
                    final(planned)@,
                    s,
                ),
            Err(EditError::Cycle) => exists|s: int|
                0 <= s < old(planned)@.len() && !(#[trigger] grounded(old(planned)@, s)),
            Err(error) => exists|s: int, accumulated: TextSize, next: TextSize|
                error == EditError::Green(overflow_error(accumulated, next))
                    && #[trigger] overflows(old(planned)@, s, accumulated, next),
        },
{
    let ghost plan = planned@;
    let count: usize = planned.len();
    let mut states: Vec<u8> = Vec::with_capacity(count);
    let mut filled: usize = 0;
    while filled < count
        invariant
            filled <= count,
            states@.len() == filled,
            forall|s: int| 0 <= s < filled ==> (#[trigger] states@[s]) == 0,
        decreases count - filled,
    {
        states.push(0);
        filled += 1;
    }
    proof {
        let empty: Seq<(usize, bool)> = Seq::empty();
        assert forall|s: int| 0 <= s < plan.len() implies #[trigger] state_holds(
            plan,
            planned@,
            states@,
            empty,
            s,
        ) by {
            assert(states@[s] == 0);
        }
        assert(lengths_invariant(plan, planned@, states@, empty));
    }
    let mut root: usize = 0;
    while root < count
        invariant
            plan == old(planned)@,
            count == plan.len(),
            root <= count,
            lengths_invariant(plan, planned@, states@, Seq::empty()),
            forall|s: int|
                root <= s < count && plan[s].parent is None ==> (#[trigger] states@[s]) == 0,
            forall|s: int|
                0 <= s < root && plan[s].parent is None && plan[s].is_node() ==> (
                #[trigger] states@[s]) == 2,
        decreases count - root,
    {
        let ghost untouched = states@;
        assert(same_but_node_len(plan[root as int], planned@[root as int]));
        if planned[root].parent.is_none() && planned[root].plans_node() {
            let mut stack: Vec<(usize, bool)> = Vec::new();
            stack.push((root, false));
            proof {
                lemma_root_queued(plan, planned@, states@, stack@, root);
            }
            while stack.len() > 0
                invariant
                    plan == old(planned)@,
                    count == plan.len(),
                    root < count,
                    plan[root as int].parent is None,
                    plan[root as int].is_node(),
                    lengths_invariant(plan, planned@, states@, stack@),
                    started(states@, stack@, root as int),
                    forall|s: int|
                        root < s < count && plan[s].parent is None ==> !(
                        #[trigger] started(states@, stack@, s)),
                    forall|s: int|
                        0 <= s < root && plan[s].parent is None && plan[s].is_node() ==> (
                        #[trigger] states@[s]) == 2,
                decreases new_count(states@), stack@.len(),
            {
                let ghost before = stack@;
                let ghost states_before = states@;
                let (slot, visited) = match stack.pop() {
                    Some(task) => task,
                    None => {
                        return Ok(());
                    },
                };
                assert(before =~= stack@.push((slot, visited)));
                let ghost planned_before = planned@;
                let ghost stack_before = stack@;
                proof {
                    lemma_task_ready(plan, planned@, states@, stack@, slot, visited);
                }
                let checked = process_length_task(
                    planned,
                    &mut states,
                    slot,
                    visited,
                    &mut stack,
                );
                proof {
                    lemma_task_keeps(
                        plan,
                        planned_before,
                        states_before,
                        stack_before,
                        slot,
                        visited,
                        planned@,
                        states@,
                        stack@,
                        checked,
                    );
                }
                match checked {
                    Ok(_) => {},
                    Err(error) => {
                        return Err(error);
                    },
                }
                assert forall|s: int|
                    0 <= s < root && plan[s].parent is None && plan[s].is_node() implies (
                #[trigger] states@[s]) == 2 by {
                    assert(states_before[s] == 2);
                }
            }
            proof {
                assert(stack@ =~= Seq::empty());
                assert(state_holds(plan, planned@, states@, stack@, root as int));
                assert(!on_stack(stack@, root as int));
                assert forall|s: int|
                    root < s < count && plan[s].parent is None implies (#[trigger] states@[s])
                    == 0 by {
                    assert(!started(states@, stack@, s));
                }
            }
        }
        root += 1;
    }
    let mut slot: usize = 0;
    while slot < count
        invariant
            plan == old(planned)@,
            count == plan.len(),
            slot <= count,
            lengths_invariant(plan, planned@, states@, Seq::empty()),
            forall|s: int|
                0 <= s < count && plan[s].parent is None && plan[s].is_node() ==> (
                #[trigger] states@[s]) == 2,
            forall|s: int| 0 <= s < slot && plan[s].is_node() ==> (#[trigger] states@[s]) == 2,
        decreases count - slot,
    {
        assert(same_but_node_len(plan[slot as int], planned@[slot as int]));
        if planned[slot].plans_node() && states[slot] != 2 {
            proof {
                lemma_some_ungrounded(plan, planned@, states@, slot as int);
            }
            return Err(EditError::Cycle);
        }
        slot += 1;
    }
    proof {
        assert forall|s: int| 0 <= s < plan.len() implies #[trigger] settled(
            plan,
            planned@,
            s,
        ) by {
            assert(same_but_node_len(plan[s], planned@[s]));
            if plan[s].is_node() {
                assert(states@[s] == 2);
                assert(state_holds(plan, planned@, states@, Seq::empty(), s));
            } else {
                assert(measured(plan, s, 0) == Some(planned@[s].text_len@));
            }
        }
    }
    Ok(())
}

/// Queueing a new root node starts its component.
proof fn lemma_root_queued(
    plan: Seq<PlannedRecord>,
    planned: Seq<PlannedRecord>,
    states: Seq<u8>,
    stack: Seq<(usize, bool)>,
    root: usize,
)
    requires
        lengths_invariant(plan, planned, states, Seq::empty()),
        root < plan.len(),
        plan[root as int].is_node(),
        plan[root as int].parent is None,
        states[root as int] == 0,
        stack == seq![(root, false)],
        forall|s: int|
            root <= s < plan.len() && plan[s].parent is None ==> (#[trigger] states[s]) == 0,
    ensures
        lengths_invariant(plan, planned, states, stack),
        started(states, stack, root as int),
        forall|s: int|
            root < s < plan.len() && plan[s].parent is None ==> !(#[trigger] started(
                states,
                stack,
                s,
            )),
{
    let empty: Seq<(usize, bool)> = Seq::empty();
    assert(stack[0].0 == root);
    assert(on_stack(stack, root as int));
    assert forall|s: int| 0 <= s < plan.len() && #[trigger] on_stack(stack, s) implies s
        == root by {}
    assert forall|s: int| 0 <= s < plan.len() implies #[trigger] state_holds(
        plan,
        planned,
        states,
        stack,
        s,
    ) by {
        assert(state_holds(plan, planned, states, empty, s));
        assert(!on_stack(empty, s));
        assert(on_stack(stack, s) ==> s == root);
    }
    assert forall|k: int| 0 <= k < stack.len() implies #[trigger] entry_holds(
        plan,
        states,
        stack,
        k,
    ) by {}
}

/// A node that no walk from a root has measured.
spec fn missed(plan: Seq<PlannedRecord>, states: Seq<u8>, slot: int) -> bool {
    0 <= slot < plan.len() && plan[slot].is_node() && states[slot] != 2
}

/// The least fuel up to a bound that measures an element.
spec fn least_fuel(plan: Seq<PlannedRecord>, slot: int, bound: nat) -> nat
    decreases bound,
{
    if bound > 0 && measured(plan, slot, (bound - 1) as nat) is Some {
        least_fuel(plan, slot, (bound - 1) as nat)
    } else {
        bound
    }
}

proof fn lemma_least_fuel(plan: Seq<PlannedRecord>, slot: int, bound: nat, fuel: nat)
    requires
        measured(plan, slot, bound) is Some,
        fuel <= bound,
    ensures
        least_fuel(plan, slot, bound) <= bound,
        measured(plan, slot, least_fuel(plan, slot, bound)) is Some,
        measured(plan, slot, fuel) is Some ==> least_fuel(plan, slot, bound) <= fuel,
    decreases bound,
{
    if bound > 0 && measured(plan, slot, (bound - 1) as nat) is Some {
        if fuel < bound {
            lemma_least_fuel(plan, slot, (bound - 1) as nat, fuel);
        } else {
            lemma_least_fuel(plan, slot, (bound - 1) as nat, (bound - 1) as nat);
        }
    } else if fuel < bound && measured(plan, slot, fuel) is Some {
        lemma_more_fuel(plan, slot, fuel, (bound - 1) as nat);
    }
}

/// Enough fuel for all grounded elements.
proof fn lemma_fuel_for_all(plan: Seq<PlannedRecord>, count: int) -> (bound: nat)
    requires
        0 <= count <= plan.len(),
        forall|s: int| 0 <= s < count ==> #[trigger] grounded(plan, s),
    ensures
        forall|s: int| 0 <= s < count ==> (#[trigger] measured(plan, s, bound)) is Some,
    decreases count,
{
    if count == 0 {
        0
    } else {
        let lower = lemma_fuel_for_all(plan, count - 1);
        assert(grounded(plan, count - 1));
        let own = choose|fuel: nat| #[trigger] measured(plan, count - 1, fuel) is Some;
        let bound = if lower < own {
            own
        } else {
            lower
        };
        assert forall|s: int| 0 <= s < count
            implies (#[trigger] measured(plan, s, bound)) is Some by {
            if s < count - 1 {
                lemma_more_fuel(plan, s, lower, bound);
            } else {
                lemma_more_fuel(plan, s, own, bound);
            }
        }
        bound
    }
}

/// The parent of a missed node is missed.
proof fn lemma_missed_parent(
    plan: Seq<PlannedRecord>,
    planned: Seq<PlannedRecord>,
    states: Seq<u8>,
    slot: int,
) -> (index: int)
    requires
        lengths_invariant(plan, planned, states, Seq::empty()),
        forall|s: int|
            0 <= s < plan.len() && plan[s].parent is None && plan[s].is_node() ==> (
            #[trigger] states[s]) == 2,
        missed(plan, states, slot),
    ensures
        plan[slot].parent is Some,
        missed(plan, states, plan[slot].parent->0.slot as int),
        ({
            let kids = plan[plan[slot].parent->0.slot as int].kids();
            0 <= index < kids.len() && cursor_editor::slot_of(kids[index]) == slot
        }),
{
    assert(states[slot] != 2);
    assert(listed_by_parent(plan, slot));
    let parent = plan[slot].parent->0.slot as int;
    let index = choose|i: int|
        {
            &&& 0 <= i < plan[parent].kids().len()
            &&& cursor_editor::slot_of(#[trigger] plan[parent].kids()[i]) == slot
            &&& plan[parent].kids()[i] is Node
        };
    assert(state_holds(plan, planned, states, Seq::empty(), parent));
    if states[parent] == 2 {
        assert(states[cursor_editor::slot_of(plan[parent].kids()[index])] == 2);
    }
    index
}

/// Some element above a missed node cannot be measured with any given fuel.
proof fn lemma_climb(
    plan: Seq<PlannedRecord>,
    planned: Seq<PlannedRecord>,
    states: Seq<u8>,
    slot: int,
    bound: nat,
)
    requires
        lengths_invariant(plan, planned, states, Seq::empty()),
        forall|s: int|
            0 <= s < plan.len() && plan[s].parent is None && plan[s].is_node() ==> (
            #[trigger] states[s]) == 2,
        missed(plan, states, slot),
        measured(plan, slot, bound) is Some,
    ensures
        exists|s: int| 0 <= s < plan.len() && (#[trigger] measured(plan, s, bound)) is None,
    decreases bound - least_fuel(plan, slot, bound),
{
    let index = lemma_missed_parent(plan, planned, states, slot);
    let parent = plan[slot].parent->0.slot as int;
    let kids = plan[parent].kids();
    if measured(plan, parent, bound) is Some {
        lemma_least_fuel(plan, parent, bound, bound);
        let fuel = least_fuel(plan, parent, bound);
        assert(fuel > 0);
        lemma_sum_measures(plan, kids, (fuel - 1) as nat, index);
        lemma_least_fuel(plan, slot, bound, (fuel - 1) as nat);
        lemma_climb(plan, planned, states, parent, bound);
    }
}

/// Where a node was not reached, some node is not grounded.
proof fn lemma_some_ungrounded(
    plan: Seq<PlannedRecord>,
    planned: Seq<PlannedRecord>,
    states: Seq<u8>,
    slot: int,
)
    requires
        lengths_invariant(plan, planned, states, Seq::empty()),
        forall|s: int|
            0 <= s < plan.len() && plan[s].parent is None && plan[s].is_node() ==> (
            #[trigger] states[s]) == 2,
        missed(plan, states, slot),
    ensures
        exists|s: int| 0 <= s < plan.len() && !(#[trigger] grounded(plan, s)),
{
    if forall|s: int| 0 <= s < plan.len() ==> #[trigger] grounded(plan, s) {
        let bound = lemma_fuel_for_all(plan, plan.len() as int);
        assert(measured(plan, slot, bound) is Some);
        lemma_climb(plan, planned, states, slot, bound);
    }
}

} // verus!
