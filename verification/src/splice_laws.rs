//! What a splice does to an editor, and when it is rejected, in terms of parents and child lists.

use vstd::prelude::*;

use crate::cursor_editor;
use crate::cursor_editor::EditError;
use crate::cursor_editor::EditorElementId;
use crate::cursor_editor::EditorNodeId;
use crate::cursor_editor::SpliceOutcome;
use crate::cursor_editor::SyntaxEditor;
use crate::green::GreenError;
use crate::utility_types::NodeOrToken;

verus! {

/// Slots of which each one is the parent of the one before.
pub open spec fn climbs(editor: SyntaxEditor, chain: Seq<int>) -> bool {
    &&& chain.len() > 0
    &&& forall|k: int|
        0 <= k < chain.len() - 1 ==> #[trigger] is_parent(editor, chain[k], chain[k + 1])
}

/// The element at `upper` is the parent of the one at `lower`.
pub open spec fn is_parent(editor: SyntaxEditor, lower: int, upper: int) -> bool {
    editor.parent_at(lower) matches Some(parent) && parent.slot() == upper
}

/// The slots on the way up from a slot.
pub proof fn lemma_chain_of(editor: SyntaxEditor, slot: int, levels: nat) -> (chain: Seq<int>)
    requires
        cursor_editor::checks::ascend(editor, slot, levels) is Some,
    ensures
        climbs(editor, chain),
        chain.len() == levels + 1,
        chain[0] == slot,
        Some(chain.last()) == cursor_editor::checks::ascend(editor, slot, levels),
    decreases levels,
{
    if levels == 0 {
        seq![slot]
    } else {
        let lower = lemma_chain_of(editor, slot, (levels - 1) as nat);
        let upper = cursor_editor::checks::ascend(editor, slot, levels)->0;
        let chain = lower.push(upper);
        assert forall|k: int| 0 <= k < chain.len() - 1 implies #[trigger] is_parent(
            editor,
            chain[k],
            chain[k + 1],
        ) by {
            if k < lower.len() - 1 {
                assert(is_parent(editor, lower[k], lower[k + 1]));
            }
        }
        chain
    }
}

/// The way up along a chain.
pub proof fn lemma_chain_ascends(editor: SyntaxEditor, chain: Seq<int>, levels: nat)
    requires
        climbs(editor, chain),
        levels < chain.len(),
    ensures
        cursor_editor::checks::ascend(editor, chain[0], levels) == Some(chain[levels as int]),
    decreases levels,
{
    if levels > 0 {
        lemma_chain_ascends(editor, chain, (levels - 1) as nat);
        assert(is_parent(editor, chain[levels - 1], chain[levels - 1 + 1]));
    }
}

/// A splice is rejected as a cycle only if parents lead from the target to an insertion: an
/// insertion is the target or lies above it.
pub proof fn lemma_cycle_only_above(
    before: SyntaxEditor,
    after: SyntaxEditor,
    target: EditorNodeId,
    start: usize,
    end: usize,
    insertions: Seq<EditorElementId>,
    outcome: Result<SpliceOutcome, EditError>,
)
    requires
        cursor_editor::splicing::splice_done(
            before,
            after,
            target,
            start,
            end,
            insertions,
            outcome,
        ),
        outcome == Err::<SpliceOutcome, EditError>(EditError::Cycle),
    ensures
        after == before,
        exists|chain: Seq<int>, i: int|
            #![trigger climbs(before, chain), insertions[i]]
            climbs(before, chain) && chain[0] == target.slot() && 0 <= i < insertions.len()
                && chain.last() == cursor_editor::slot_of(insertions[i]),
{
    let i = choose|i: int|
        0 <= i < insertions.len() && cursor_editor::checks::is_above(
            before,
            cursor_editor::slot_of(#[trigger] insertions[i]),
            target.slot(),
        );
    let slot = cursor_editor::slot_of(insertions[i]);
    let levels = choose|levels: nat| #[trigger]
        cursor_editor::checks::ascend(before, target.slot(), levels) == Some(slot);
    let chain = lemma_chain_of(before, target.slot(), levels);
    assert(climbs(before, chain) && chain.last() == cursor_editor::slot_of(insertions[i]));
}

/// Elements that lie below the target, at whatever depth, can be moved into it: the splice is never
/// rejected as a cycle.
pub proof fn lemma_lower_elements_move_up(
    before: SyntaxEditor,
    after: SyntaxEditor,
    target: EditorNodeId,
    start: usize,
    end: usize,
    insertions: Seq<EditorElementId>,
    outcome: Result<SpliceOutcome, EditError>,
)
    requires
        before.valid(),
        cursor_editor::splicing::splice_done(
            before,
            after,
            target,
            start,
            end,
            insertions,
            outcome,
        ),
        forall|i: int|
            #![trigger insertions[i]]
            0 <= i < insertions.len() ==> before.owns(insertions[i]) && exists|chain: Seq<int>|
                #[trigger] climbs(before, chain) && chain.len() > 1 && chain[0]
                    == cursor_editor::slot_of(insertions[i]) && chain.last() == target.slot(),
    ensures
        outcome != Err::<SpliceOutcome, EditError>(EditError::Cycle),
{
    if outcome == Err::<SpliceOutcome, EditError>(EditError::Cycle) {
        lemma_cycle_only_above(before, after, target, start, end, insertions, outcome);
        let (up, i) = choose|up: Seq<int>, i: int|
            #![trigger climbs(before, up), insertions[i]]
            climbs(before, up) && up[0] == target.slot() && 0 <= i < insertions.len()
                && up.last() == cursor_editor::slot_of(insertions[i]);
        let low = cursor_editor::slot_of(insertions[i]);
        assert(before.owns(insertions[i]));
        before.lemma_owned(insertions[i]);
        let down = choose|chain: Seq<int>|
            #[trigger] climbs(before, chain) && chain.len() > 1 && chain[0]
                == cursor_editor::slot_of(insertions[i]) && chain.last() == target.slot();
        lemma_chain_ascends(before, down, (down.len() - 1) as nat);
        lemma_chain_ascends(before, up, (up.len() - 1) as nat);
        crate::editor_laws::lemma_ascend_higher(before, low, (down.len() - 1) as nat);
        crate::editor_laws::lemma_ascend_higher(before, target.slot(), (up.len() - 1) as nat);
    }
}

/// When a splice is rejected, and with which error: the target is foreign; the range does not fit
/// the child list; an insertion is foreign; one is given twice; parents lead from the target to one;
/// or a text would leave the coordinate space. The first reason in this order is reported, and the
/// editor stays as it was.
pub proof fn lemma_splice_reasons(
    before: SyntaxEditor,
    after: SyntaxEditor,
    target: EditorNodeId,
    start: usize,
    end: usize,
    insertions: Seq<EditorElementId>,
    outcome: Result<SpliceOutcome, EditError>,
)
    requires
        cursor_editor::splicing::splice_done(
            before,
            after,
            target,
            start,
            end,
            insertions,
            outcome,
        ),
    ensures
        outcome is Err ==> after == before,
        ({
            let count = before.children_at(target.slot()).len();
            let owned = forall|i: int|
                0 <= i < insertions.len() ==> before.owns(#[trigger] insertions[i]);
            let twice = exists|i: int, j: int|
                0 <= i < j < insertions.len() && #[trigger] insertions[i] == #[trigger] insertions[j];
            let above = exists|chain: Seq<int>, i: int|
                #![trigger climbs(before, chain), insertions[i]]
                climbs(before, chain) && chain[0] == target.slot() && 0 <= i < insertions.len()
                    && chain.last() == cursor_editor::slot_of(insertions[i]);
            if !before.owns(NodeOrToken::Node(target)) {
                outcome == Err::<SpliceOutcome, EditError>(EditError::ForeignId)
            } else if start > end || end > count {
                outcome == Err::<SpliceOutcome, EditError>(
                    EditError::InvalidChildRange { start, end, child_count: count as usize },
                )
            } else if !owned {
                outcome == Err::<SpliceOutcome, EditError>(EditError::ForeignId)
            } else if twice {
                outcome matches Err(EditError::DuplicateInsertion {
                    first_position,
                    duplicate_position,
                }) && first_position < duplicate_position < insertions.len()
                    && insertions[first_position as int] == insertions[duplicate_position as int]
                    && forall|i: int, j: int|
                    0 <= i < j < duplicate_position ==> #[trigger] insertions[i]
                        != #[trigger] insertions[j]
            } else if above {
                outcome == Err::<SpliceOutcome, EditError>(EditError::Cycle)
            } else {
                outcome matches Err(error) ==> (error matches EditError::Green(
                    GreenError::TextLengthOverflow { accumulated, next },
                ) && accumulated@ + next@ > u32::MAX)
            }
        }),
{
    let above = exists|chain: Seq<int>, i: int|
        #![trigger climbs(before, chain), insertions[i]]
        climbs(before, chain) && chain[0] == target.slot() && 0 <= i < insertions.len()
            && chain.last() == cursor_editor::slot_of(insertions[i]);
    if above {
        let (chain, i) = choose|chain: Seq<int>, i: int|
            #![trigger climbs(before, chain), insertions[i]]
            climbs(before, chain) && chain[0] == target.slot() && 0 <= i < insertions.len()
                && chain.last() == cursor_editor::slot_of(insertions[i]);
        lemma_chain_ascends(before, chain, (chain.len() - 1) as nat);
        assert(cursor_editor::checks::is_above(
            before,
            cursor_editor::slot_of(insertions[i]),
            target.slot(),
        ));
        assert(cursor_editor::checks::closes_cycle(before, target.slot(), insertions));
    }
    if outcome == Err::<SpliceOutcome, EditError>(EditError::Cycle) {
        lemma_cycle_only_above(before, after, target, start, end, insertions, outcome);
    }
    if let Err(EditError::DuplicateInsertion { first_position, duplicate_position }) = outcome {
        let front = insertions.take(duplicate_position as int);
        assert forall|i: int, j: int| 0 <= i < j < duplicate_position implies #[trigger] insertions[i]
            != #[trigger] insertions[j] by {
            assert(front[i] == insertions[i] && front[j] == insertions[j]);
        }
    }
}

/// What is left of elements that are all different keeps its order, and is exactly what is not left
/// out.
proof fn lemma_outside_exact(elements: Seq<EditorElementId>, excluded: Seq<EditorElementId>)
    ensures
        kept_of(cursor_editor::checks::outside(elements, excluded), elements, excluded),
    decreases elements.len(),
{
    let left = cursor_editor::checks::outside(elements, excluded);
    if elements.len() > 0 {
        let front = elements.drop_last();
        let last = elements.last();
        let rest = cursor_editor::checks::outside(front, excluded);
        lemma_outside_exact(front, excluded);
        assert forall|i: int, j: int| 0 <= i < j < left.len() implies in_order(
            elements,
            #[trigger] left[i],
            #[trigger] left[j],
        ) by {
            assert(rest[i] == left[i]);
            if j < rest.len() {
                assert(rest[j] == left[j]);
                assert(in_order(front, rest[i], rest[j]));
                let (a, b) = choose|a: int, b: int|
                    0 <= a < b < front.len() && #[trigger] front[a] == rest[i] && #[trigger] front[b]
                        == rest[j];
                assert(elements[a] == left[i] && elements[b] == left[j]);
            } else {
                assert(rest.contains(rest[i]));
                assert(front.contains(rest[i]));
                let a = choose|a: int| 0 <= a < front.len() && front[a] == rest[i];
                assert(elements[a] == left[i] && elements[elements.len() - 1] == left[j]);
            }
        }
        assert forall|element: EditorElementId| #[trigger] left.contains(element)
            <==> elements.contains(element) && !excluded.contains(element) by {
            assert(elements[elements.len() - 1] == last);
            if left.contains(element) {
                let k = choose|k: int| 0 <= k < left.len() && left[k] == element;
                if k < rest.len() {
                    assert(rest[k] == element);
                    assert(rest.contains(element));
                    let a = choose|a: int| 0 <= a < front.len() && front[a] == element;
                    assert(elements[a] == element);
                }
            }
            if elements.contains(element) && !excluded.contains(element) {
                let a = choose|a: int| 0 <= a < elements.len() && elements[a] == element;
                if a < front.len() {
                    assert(front[a] == element);
                    assert(front.contains(element));
                    assert(rest.contains(element));
                    let k = choose|k: int| 0 <= k < rest.len() && rest[k] == element;
                    assert(left[k] == element);
                } else {
                    assert(left[left.len() - 1] == element);
                }
            }
        }
    }
}

/// Two elements stand in a sequence, one before the other.
pub open spec fn in_order(
    elements: Seq<EditorElementId>,
    left: EditorElementId,
    right: EditorElementId,
) -> bool {
    exists|a: int, b: int|
        0 <= a < b < elements.len() && #[trigger] elements[a] == left && #[trigger] elements[b]
            == right
}

/// A sequence holds exactly the elements of another one that are not excluded, in their order.
pub open spec fn kept_of(
    kept: Seq<EditorElementId>,
    elements: Seq<EditorElementId>,
    excluded: Seq<EditorElementId>,
) -> bool {
    &&& forall|element: EditorElementId| #[trigger]
        kept.contains(element) <==> elements.contains(element) && !excluded.contains(element)
    &&& forall|i: int, j: int|
        0 <= i < j < kept.len() ==> in_order(elements, #[trigger] kept[i], #[trigger] kept[j])
}

/// A splice that succeeds leaves of the target's children those before the range, then the
/// insertions in the order given, then those behind the range; insertions stand nowhere else. Every
/// other node loses the insertions and keeps all other children. What is reported as detached is
/// what stood in the range and is not inserted again.
pub proof fn lemma_splice_lists(
    before: SyntaxEditor,
    after: SyntaxEditor,
    target: EditorNodeId,
    start: usize,
    end: usize,
    insertions: Seq<EditorElementId>,
    outcome: SpliceOutcome,
    slot: int,
)
    requires
        before.valid(),
        after.valid(),
        cursor_editor::splicing::splice_done(
            before,
            after,
            target,
            start,
            end,
            insertions,
            Ok(outcome),
        ),
        0 <= slot < before.slots(),
    ensures
        after.slots() == before.slots(),
        after.id(slot) == before.id(slot),
        after.green_at(slot) == before.green_at(slot),
        after.tree(slot).kind() == before.tree(slot).kind(),
        before.tree(slot) is Token ==> after.tree(slot) == before.tree(slot),
        after.children_at(slot).no_duplicates(),
        ({
            let old = before.children_at(slot);
            let new = after.children_at(slot);
            &&& slot != target.slot() ==> kept_of(new, old, insertions)
            &&& slot == target.slot() ==> exists|position: int|
                {
                    &&& 0 <= position <= new.len() - insertions.len()
                    &&& new.subrange(position, position + insertions.len()) == insertions
                    &&& kept_of(#[trigger] new.take(position), old.take(start as int), insertions)
                    &&& kept_of(
                        new.skip(position + insertions.len()),
                        old.skip(end as int),
                        insertions,
                    )
                }
            &&& slot == target.slot() ==> kept_of(
                outcome.ids(),
                old.subrange(start as int, end as int),
                insertions,
            )
        }),
{
    let old = before.children_at(slot);
    let new = after.children_at(slot);
    assert(after.id(slot) == before.id(slot));
    after.lemma_element(slot);
    before.lemma_element(slot);
    if slot == target.slot() {
        let front = cursor_editor::checks::outside(old.take(start as int), insertions);
        let back = cursor_editor::checks::outside(old.skip(end as int), insertions);
        lemma_outside_exact(old.take(start as int), insertions);
        lemma_outside_exact(old.skip(end as int), insertions);
        lemma_outside_exact(old.subrange(start as int, end as int), insertions);
        let position = front.len() as int;
        assert(new == front + insertions + back);
        assert(new.take(position) =~= front);
        assert(new.subrange(position, position + insertions.len()) =~= insertions);
        assert(new.skip(position + insertions.len()) =~= back);
        assert(kept_of(new.take(position), old.take(start as int), insertions));
    } else {
        lemma_outside_exact(old, insertions);
    }
}

/// Detaching an element takes it out of its parent's list and leaves every other list, every token and
/// every kind as it was.
pub proof fn lemma_detach_lists(
    before: SyntaxEditor,
    after: SyntaxEditor,
    parent: EditorNodeId,
    index: int,
    slot: int,
)
    requires
        before.valid(),
        after.valid(),
        cursor_editor::splicing::spliced(
            before,
            after,
            parent.slot(),
            index,
            index + 1,
            Seq::empty(),
        ),
        0 <= index < before.children_at(parent.slot()).len(),
        0 <= slot < before.slots(),
    ensures
        after.slots() == before.slots(),
        after.id(slot) == before.id(slot),
        after.green_at(slot) == before.green_at(slot),
        after.tree(slot).kind() == before.tree(slot).kind(),
        before.tree(slot) is Token ==> after.tree(slot) == before.tree(slot),
        after.children_at(slot) == if slot == parent.slot() {
            before.children_at(slot).remove(index)
        } else {
            before.children_at(slot)
        },
{
    let old = before.children_at(slot);
    assert(after.id(slot) == before.id(slot));
    cursor_editor::checks::lemma_outside_nothing(old);
    if slot == parent.slot() {
        cursor_editor::checks::lemma_outside_nothing(old.take(index));
        cursor_editor::checks::lemma_outside_nothing(old.skip(index + 1));
        assert(after.children_at(slot) =~= old.remove(index));
    }
}

/// After a splice a node counts as edited exactly when it did before, or when parents lead to it from
/// a node whose child list has changed.
pub proof fn lemma_edited_upward(
    before: SyntaxEditor,
    after: SyntaxEditor,
    target: int,
    start: int,
    end: int,
    insertions: Seq<EditorElementId>,
    slot: int,
)
    requires
        cursor_editor::splicing::spliced(before, after, target, start, end, insertions),
        0 <= slot < before.slots(),
    ensures
        after.dirty_at(slot) <==> before.dirty_at(slot) || exists|chain: Seq<int>|
            {
                &&& #[trigger] climbs(after, chain)
                &&& 0 <= chain[0] < before.slots()
                &&& before.id(chain[0]) is Node
                &&& after.children_at(chain[0]) != before.children_at(chain[0])
                &&& chain.last() == slot
            },
{
    assert(after.id(slot) == before.id(slot));
    if cursor_editor::splicing::touched(before, after, slot) {
        let changed = choose|changed: int|
            {
                &&& 0 <= changed < before.slots()
                &&& before.id(changed) is Node
                &&& (#[trigger] after.children_at(changed)) != before.children_at(changed)
                &&& cursor_editor::checks::is_above(after, slot, changed)
            };
        let levels = choose|levels: nat| #[trigger]
            cursor_editor::checks::ascend(after, changed, levels) == Some(slot);
        let chain = lemma_chain_of(after, changed, levels);
        assert(climbs(after, chain));
    }
    assert forall|chain: Seq<int>|
        {
            &&& #[trigger] climbs(after, chain)
            &&& 0 <= chain[0] < before.slots()
            &&& before.id(chain[0]) is Node
            &&& after.children_at(chain[0]) != before.children_at(chain[0])
            &&& chain.last() == slot
        } implies cursor_editor::splicing::touched(before, after, slot) by {
        lemma_chain_ascends(after, chain, (chain.len() - 1) as nat);
        assert(cursor_editor::checks::is_above(after, slot, chain[0]));
    }
}

} // verus!
