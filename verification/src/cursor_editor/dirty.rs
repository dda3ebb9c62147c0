//! Marking of the ancestors that an edit changes.

use vstd::prelude::*;

use crate::cursor_editor;
use crate::cursor_editor::EditorOwner;
use crate::cursor_editor::EditorRecord;
use crate::cursor_editor::offsets;
use crate::cursor_editor::plan::PlannedContent;
use crate::cursor_editor::plan::PlannedRecord;
use crate::cursor_editor::same_ids;
use crate::model;
use crate::model::Tree;

verus! {

/// The planned slot that lies `levels` levels above a slot.
pub(super) open spec fn plan_ascend(
    planned: Seq<PlannedRecord>, slot: int, levels: nat) -> Option<int>
    decreases levels,
{
    if levels == 0 {
        Some(slot)
    } else {
        match plan_ascend(planned, slot, (levels - 1) as nat) {
            Some(below) => match planned[below].parent {
                Some(parent) => Some(parent.slot as int),
                None => None,
            },
            None => None,
        }
    }
}

/// The planned element at `upper` is the one at `lower` or one of its ancestors.
pub(super) open spec fn plan_above(planned: Seq<PlannedRecord>, upper: int, lower: int) -> bool {
    exists|levels: nat| #[trigger] plan_ascend(planned, lower, levels) == Some(upper)
}

/// The plan gives a node other children.
pub(super) open spec fn kids_changed(
    records: Seq<EditorRecord>, planned: Seq<PlannedRecord>, slot: int) -> bool {
    records[slot] is Node && records[slot].children() != planned[slot].kids()
}

/// A changed node lies in the subtree at a slot.
pub(super) open spec fn change_below(
    records: Seq<EditorRecord>,
    planned: Seq<PlannedRecord>,
    slot: int,
    bound: int,
) -> bool {
    exists|changed: int|
        0 <= changed < bound && #[trigger] kids_changed(records, planned, changed) && plan_above(
            planned,
            slot,
            changed,
        )
}

/// Only dirty states differ.
pub(super) open spec fn same_but_dirty(left: PlannedRecord, right: PlannedRecord) -> bool {
    &&& left.parent == right.parent
    &&& left.index == right.index
    &&& left.offset == right.offset
    &&& left.text_len == right.text_len
    &&& left.is_node() == right.is_node()
    &&& left.kids() == right.kids()
}

/// Mark exactly changed parents and their current ancestors dirty.
pub(super) fn mark_dirty_ancestors(
    original: &Vec<EditorRecord>,
    planned: &mut Vec<PlannedRecord>,
    Ghost(owner): Ghost<EditorOwner>,
    Ghost(trees): Ghost<Seq<Tree>>,
)
    requires
        original@.len() == old(planned)@.len(),
        cursor_editor::plan_linked(owner, old(planned)@),
        offsets::plan_shape(old(planned)@, trees),
        forall|s: int|
            0 <= s < original@.len() ==> ((#[trigger] original@[s]) is Node
                <==> old(planned)@[s].is_node()),
    ensures
        final(planned)@.len() == old(planned)@.len(),
        forall|s: int|
            0 <= s < old(planned)@.len() ==> same_but_dirty(
                old(planned)@[s],
                #[trigger] final(planned)@[s],
            ),
        forall|s: int|
            0 <= s < old(planned)@.len() ==> ((#[trigger] final(planned)@[s]).dirty() <==> old(
                planned,
            )@[s].dirty() || change_below(
                original@,
                old(planned)@,
                s,
                old(planned)@.len() as int,
            )),
{
    let ghost plan = planned@;
    let count: usize = planned.len();
    let mut slot: usize = 0;
    while slot < count
        invariant
            plan == old(planned)@,
            count == plan.len() == planned@.len() == original@.len(),
            slot <= count,
            cursor_editor::plan_linked(owner, plan),
            offsets::plan_shape(plan, trees),
            forall|s: int|
                0 <= s < count ==> ((#[trigger] original@[s]) is Node <==> plan[s].is_node()),
            forall|s: int| 0 <= s < count ==> same_but_dirty(plan[s], #[trigger] planned@[s]),
            forall|s: int|
                0 <= s < count ==> ((#[trigger] planned@[s]).dirty() <==> plan[s].dirty()
                    || change_below(original@, plan, s, slot as int)),
        decreases count - slot,
    {
        let ghost earlier = planned@;
        assert(same_but_dirty(plan[slot as int], planned@[slot as int]));
        let changed = match (&original[slot], &planned[slot].content) {
            (EditorRecord::Node(node), PlannedContent::Node(update)) => !same_ids(
                &node.children,
                &update.children,
            ),
            _ => false,
        };
        assert(changed == kids_changed(original@, plan, slot as int));
        if changed {
            mark_chain(planned, slot, Ghost(owner), Ghost(plan), Ghost(trees));
            proof {
                assert forall|s: int| 0 <= s < count implies ((#[trigger] planned@[s]).dirty()
                    <==> plan[s].dirty() || change_below(original@, plan, s, slot + 1)) by {
                    assert(earlier[s].dirty() <==> plan[s].dirty() || change_below(
                        original@,
                        plan,
                        s,
                        slot as int,
                    ));
                    lemma_change_below_step(original@, plan, s, slot as int);
                }
            }
        } else {
            assert forall|s: int| 0 <= s < count implies ((#[trigger] planned@[s]).dirty()
                <==> plan[s].dirty() || change_below(original@, plan, s, slot + 1)) by {
                lemma_change_below_step(original@, plan, s, slot as int);
            }
        }
        slot += 1;
    }
}

proof fn lemma_change_below_step(
    records: Seq<EditorRecord>,
    plan: Seq<PlannedRecord>,
    slot: int,
    bound: int,
)
    requires
        bound >= 0,
    ensures
        change_below(records, plan, slot, bound + 1) <==> change_below(records, plan, slot, bound)
            || (kids_changed(records, plan, bound) && plan_above(plan, slot, bound)),
{
    if change_below(records, plan, slot, bound) {
        let changed = choose|changed: int|
            0 <= changed < bound && #[trigger] kids_changed(records, plan, changed) && plan_above(
                plan,
                slot,
                changed,
            );
        assert(kids_changed(records, plan, changed));
    }
    if kids_changed(records, plan, bound) && plan_above(plan, slot, bound) {
        assert(change_below(records, plan, slot, bound + 1));
    }
}

/// Mark a node and its planned ancestors dirty.
fn mark_chain(
    planned: &mut Vec<PlannedRecord>,
    slot: usize,
    Ghost(owner): Ghost<EditorOwner>,
    Ghost(plan): Ghost<Seq<PlannedRecord>>,
    Ghost(trees): Ghost<Seq<Tree>>,
)
    requires
        plan.len() == old(planned)@.len(),
        slot < plan.len(),
        plan[slot as int].is_node(),
        cursor_editor::plan_linked(owner, plan),
        offsets::plan_shape(plan, trees),
        forall|s: int|
            0 <= s < plan.len() ==> same_but_dirty(plan[s], #[trigger] old(planned)@[s]),
    ensures
        final(planned)@.len() == plan.len(),
        forall|s: int|
            0 <= s < plan.len() ==> same_but_dirty(plan[s], #[trigger] final(planned)@[s]),
        forall|s: int|
            0 <= s < plan.len() ==> ((#[trigger] final(planned)@[s]).dirty() <==> old(
                planned,
            )@[s].dirty() || plan_above(plan, s, slot as int)),
{
    let ghost before = planned@;
    let mut current: usize = slot;
    let ghost mut levels: nat = 0;
    loop
        invariant_except_break
            forall|s: int|
                0 <= s < plan.len() ==> ((#[trigger] planned@[s]).dirty() <==> before[s].dirty()
                    || met(plan, slot as int, s, levels)),
        invariant
            plan.len() == planned@.len() == before.len(),
            before == old(planned)@,
            slot < plan.len(),
            current < plan.len(),
            plan[current as int].is_node(),
            cursor_editor::plan_linked(owner, plan),
            offsets::plan_shape(plan, trees),
            plan_ascend(plan, slot as int, levels) == Some(current as int),
            forall|s: int| 0 <= s < plan.len() ==> same_but_dirty(plan[s], #[trigger] planned@[s]),
        ensures
            planned@.len() == plan.len(),
            forall|s: int| 0 <= s < plan.len() ==> same_but_dirty(plan[s], #[trigger] planned@[s]),
            forall|s: int|
                0 <= s < plan.len() ==> ((#[trigger] planned@[s]).dirty() <==> before[s].dirty()
                    || plan_above(plan, s, slot as int)),
        decreases model::forest_height(trees) - trees[current as int].height(),
    {
        let ghost earlier = planned@;
        assert(same_but_dirty(plan[current as int], planned@[current as int]));
        if let PlannedContent::Node(node) = &mut planned[current].content {
            node.dirty = true;
        }
        proof {
            assert forall|s: int| 0 <= s < plan.len() && s != current implies (
            #[trigger] planned@[s]) == earlier[s] by {}
            assert(planned@[current as int].dirty());
            assert forall|s: int| 0 <= s < plan.len() implies ((#[trigger] planned@[s]).dirty()
                <==> before[s].dirty() || met(plan, slot as int, s, levels + 1)) by {
                assert(earlier[s].dirty() <==> before[s].dirty() || met(
                    plan,
                    slot as int,
                    s,
                    levels,
                ));
                assert(met(plan, slot as int, s, levels + 1) <==> met(plan, slot as int, s, levels)
                    || s == current) by {
                    if met(plan, slot as int, s, levels + 1) {
                        let k = choose|k: nat|
                            k < levels + 1 && #[trigger] plan_ascend(plan, slot as int, k) == Some(
                                s,
                            );
                        if k < levels {
                            assert(met(plan, slot as int, s, levels));
                        }
                    }
                    if met(plan, slot as int, s, levels) {
                        let k = choose|k: nat|
                            k < levels && #[trigger] plan_ascend(plan, slot as int, k) == Some(s);
                        assert(plan_ascend(plan, slot as int, k) == Some(s));
                    }
                }
            }
        }
        let parent: Option<usize> = match &planned[current].parent {
            Some(parent) => Some(parent.slot),
            None => None,
        };
        match parent {
            Some(upper) => {
                proof {
                    assert(plan[current as int].parent is Some);
                    let index = plan[current as int].index->0 as int;
                    assert(cursor_editor::slot_of(plan[upper as int].kids()[index]) == current);
                    assert(offsets::shape_right(plan, trees, upper as int));
                    assert(trees[upper as int].children()[index] == trees[current as int]);
                    model::lemma_height_of_member(trees[upper as int].children(), index);
                    model::lemma_height_of_member(trees, upper as int);
                    model::lemma_height_of_member(trees, current as int);
                    levels = levels + 1;
                }
                current = upper;
            },
            None => {
                proof {
                    assert forall|s: int|
                        0 <= s < plan.len() implies ((#[trigger] planned@[s]).dirty()
                        <==> before[s].dirty() || plan_above(plan, s, slot as int)) by {
                        if plan_above(plan, s, slot as int) {
                            let k = choose|k: nat| #[trigger]
                                plan_ascend(plan, slot as int, k) == Some(s);
                            if k > levels {
                                lemma_plan_ascend_ends(plan, slot as int, levels, k);
                            }
                            assert(met(plan, slot as int, s, levels + 1));
                        }
                        if met(plan, slot as int, s, levels + 1) {
                            let k = choose|k: nat|
                                k < levels + 1 && #[trigger] plan_ascend(plan, slot as int, k)
                                    == Some(s);
                            assert(plan_above(plan, s, slot as int));
                        }
                    }
                }
                break ;
            },
        }
    }
}

/// A slot is met on the first levels above another.
pub(super) open spec fn met(
    planned: Seq<PlannedRecord>, slot: int, upper: int, levels: nat) -> bool {
    exists|k: nat| k < levels && #[trigger] plan_ascend(planned, slot, k) == Some(upper)
}

proof fn lemma_plan_ascend_ends(
    planned: Seq<PlannedRecord>,
    slot: int,
    levels: nat,
    more: nat,
)
    requires
        plan_ascend(planned, slot, levels) matches Some(top) && planned[top].parent is None,
        levels < more,
    ensures
        plan_ascend(planned, slot, more) is None,
    decreases more,
{
    if more > levels + 1 {
        lemma_plan_ascend_ends(planned, slot, levels, (more - 1) as nat);
    }
}

} // verus!
