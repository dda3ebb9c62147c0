//! Checks on the insertions of an edit.

use vstd::prelude::*;

use crate::cursor_editor;
use crate::cursor_editor::EditError;
use crate::cursor_editor::EditorElementId;
use crate::cursor_editor::EditorNodeId;
use crate::cursor_editor::EditorRecord;
use crate::cursor_editor::SyntaxEditor;
use crate::cursor_editor::contains_id;
use crate::cursor_editor::copy_id;
use crate::cursor_editor::plan;
use crate::cursor_editor::plan::PlannedRecord;
use crate::cursor_editor::same_id;
use crate::model;
use crate::utility_types::NodeOrToken;

verus! {

/// The elements that do not occur in `excluded`, in their order.
pub open spec fn outside(
    elements: Seq<EditorElementId>,
    excluded: Seq<EditorElementId>,
) -> Seq<EditorElementId>
    decreases elements.len(),
{
    if elements.len() == 0 {
        Seq::empty()
    } else {
        let rest = outside(elements.drop_last(), excluded);
        if excluded.contains(elements.last()) {
            rest
        } else {
            rest.push(elements.last())
        }
    }
}

pub proof fn lemma_outside_members(
    elements: Seq<EditorElementId>,
    excluded: Seq<EditorElementId>,
    element: EditorElementId,
)
    ensures
        outside(elements, excluded).contains(element) <==> elements.contains(element)
            && !excluded.contains(element),
    decreases elements.len(),
{
    if elements.len() > 0 {
        let rest = outside(elements.drop_last(), excluded);
        let last = elements.last();
        lemma_outside_members(elements.drop_last(), excluded, element);
        if elements.contains(element) {
            let i = choose|i: int| 0 <= i < elements.len() && elements[i] == element;
            if i < elements.len() - 1 {
                assert(elements.drop_last()[i] == element);
                assert(elements.drop_last().contains(element));
            }
        }
        if elements.drop_last().contains(element) {
            let i = choose|i: int|
                0 <= i < elements.drop_last().len() && elements.drop_last()[i] == element;
            assert(elements[i] == element);
        }
        if !excluded.contains(last) {
            if rest.contains(element) {
                let i = choose|i: int| 0 <= i < rest.len() && rest[i] == element;
                assert(rest.push(last)[i] == element);
            }
            if element == last {
                assert(rest.push(last)[rest.len() as int] == element);
                assert(elements[elements.len() - 1] == element);
            }
            if rest.push(last).contains(element) && element != last {
                let i = choose|i: int| 0 <= i < rest.push(last).len() && rest.push(last)[i]
                    == element;
                assert(rest[i] == element);
            }
        }
    }
}

pub(super) proof fn lemma_outside_distinct(
    elements: Seq<EditorElementId>, excluded: Seq<EditorElementId>)
    requires
        elements.no_duplicates(),
    ensures
        outside(elements, excluded).no_duplicates(),
    decreases elements.len(),
{
    if elements.len() > 0 {
        let rest = outside(elements.drop_last(), excluded);
        assert(elements.drop_last().no_duplicates());
        lemma_outside_distinct(elements.drop_last(), excluded);
        lemma_outside_members(elements.drop_last(), excluded, elements.last());
        if rest.contains(elements.last()) {
            let i = choose|i: int|
                0 <= i < elements.drop_last().len() && elements.drop_last()[i] == elements.last();
            assert(elements[i] == elements[elements.len() - 1]);
        }
        assert forall|i: int, j: int|
            0 <= i < j < rest.push(elements.last()).len() implies rest.push(elements.last())[i]
            != rest.push(elements.last())[j] by {
            if j == rest.len() {
                assert(rest.contains(rest[i]));
            }
        }
    }
}

/// Excluding one more element.
pub(super) proof fn lemma_outside_more(
    elements: Seq<EditorElementId>,
    excluded: Seq<EditorElementId>,
    element: EditorElementId,
)
    ensures
        outside(elements, excluded.push(element)) == outside(
            outside(elements, excluded),
            seq![element],
        ),
        !elements.contains(element) ==> outside(elements, excluded.push(element)) == outside(
            elements,
            excluded,
        ),
    decreases elements.len(),
{
    if elements.len() > 0 {
        let last = elements.last();
        let rest = outside(elements.drop_last(), excluded);
        lemma_outside_more(elements.drop_last(), excluded, element);
        assert(excluded.push(element).contains(last) <==> excluded.contains(last) || last
            == element) by {
            if excluded.contains(last) {
                let i = choose|i: int| 0 <= i < excluded.len() && excluded[i] == last;
                assert(excluded.push(element)[i] == last);
            }
            if last == element {
                assert(excluded.push(element)[excluded.len() as int] == last);
            }
        }
        assert(seq![element].contains(last) <==> last == element) by {
            assert(seq![element][0] == element);
        }
        if !elements.contains(element) {
            if elements.drop_last().contains(element) {
                let i = choose|i: int|
                    0 <= i < elements.drop_last().len() && elements.drop_last()[i] == element;
                assert(elements[i] == element);
            }
            assert(elements[elements.len() - 1] == last);
        }
        if !excluded.contains(last) {
            assert(rest.push(last).drop_last() =~= rest);
        }
    }
}

/// Nothing is excluded where nothing is to be excluded.
pub proof fn lemma_outside_nothing(elements: Seq<EditorElementId>)
    ensures
        outside(elements, Seq::empty()) == elements,
    decreases elements.len(),
{
    if elements.len() > 0 {
        lemma_outside_nothing(elements.drop_last());
        assert(elements.drop_last().push(elements.last()) =~= elements);
    }
}

/// Copy the IDs of a range that do not occur in `excluded`.
pub(super) fn select_outside(
    elements: &Vec<EditorElementId>,
    start: usize,
    end: usize,
    excluded: &Vec<EditorElementId>,
) -> (selected: Vec<EditorElementId>)
    requires
        start <= end <= elements@.len(),
    ensures
        selected@ == outside(elements@.subrange(start as int, end as int), excluded@),
{
    let mut selected: Vec<EditorElementId> = Vec::new();
    let mut index: usize = start;
    assert(elements@.subrange(start as int, start as int) =~= Seq::empty());
    while index < end
        invariant
            start <= index <= end <= elements@.len(),
            selected@ == outside(elements@.subrange(start as int, index as int), excluded@),
        decreases end - index,
    {
        proof {
            assert(elements@.subrange(start as int, index + 1).drop_last() =~= elements@.subrange(
                start as int,
                index as int,
            ));
            assert(elements@.subrange(start as int, index + 1).last() == elements@[index as int]);
        }
        if !contains_id(excluded, &elements[index]) {
            selected.push(copy_id(&elements[index]));
        }
        index += 1;
    }
    selected
}

/// The positions of the first repeated insertion.
pub open spec fn first_duplicate(
    insertions: Seq<EditorElementId>, first: int, duplicate: int) -> bool {
    &&& 0 <= first < duplicate < insertions.len()
    &&& insertions[first] == insertions[duplicate]
    &&& forall|i: int| 0 <= i < first ==> insertions[i] != insertions[duplicate]
    &&& insertions.take(duplicate).no_duplicates()
}

/// Validate that insertion IDs are pairwise distinct.
pub fn validate_duplicates(insertions: &Vec<EditorElementId>) -> (checked: Result<(), EditError>)
    ensures
        match checked {
            Ok(_) => insertions@.no_duplicates(),
            Err(error) => error matches EditError::DuplicateInsertion {
                first_position,
                duplicate_position,
            } && first_duplicate(insertions@, first_position as int, duplicate_position as int),
        },
{
    let mut duplicate_position: usize = 0;
    while duplicate_position < insertions.len()
        invariant
            duplicate_position <= insertions@.len(),
            insertions@.take(duplicate_position as int).no_duplicates(),
        decreases insertions@.len() - duplicate_position,
    {
        let mut first_position: usize = 0;
        while first_position < duplicate_position
            invariant
                first_position <= duplicate_position < insertions@.len(),
                insertions@.take(duplicate_position as int).no_duplicates(),
                forall|i: int|
                    0 <= i < first_position ==> insertions@[i]
                        != insertions@[duplicate_position as int],
            decreases duplicate_position - first_position,
        {
            if same_id(&insertions[first_position], &insertions[duplicate_position]) {
                return Err(EditError::DuplicateInsertion { first_position, duplicate_position });
            }
            first_position += 1;
        }
        proof {
            let longer = insertions@.take(duplicate_position + 1);
            assert forall|i: int, j: int| 0 <= i < j < longer.len() implies longer[i]
                != longer[j] by {
                if j < duplicate_position {
                    assert(insertions@.take(duplicate_position as int)[i] == longer[i]);
                    assert(insertions@.take(duplicate_position as int)[j] == longer[j]);
                }
            }
        }
        duplicate_position += 1;
    }
    assert(insertions@.take(insertions@.len() as int) =~= insertions@);
    Ok(())
}

/// The slot that lies `levels` levels above a slot.
pub open spec fn ascend(editor: SyntaxEditor, slot: int, levels: nat) -> Option<int>
    decreases levels,
{
    if levels == 0 {
        Some(slot)
    } else {
        match ascend(editor, slot, (levels - 1) as nat) {
            Some(below) => match editor.parent_at(below) {
                Some(parent) => Some(parent.slot()),
                None => None,
            },
            None => None,
        }
    }
}

/// The element at `upper` is the one at `lower` or one of its ancestors.
pub open spec fn is_above(editor: SyntaxEditor, upper: int, lower: int) -> bool {
    exists|levels: nat| #[trigger] ascend(editor, lower, levels) == Some(upper)
}

/// An insertion is the target or one of its ancestors.
pub open spec fn closes_cycle(
    editor: SyntaxEditor,
    target: int,
    insertions: Seq<EditorElementId>,
) -> bool {
    exists|i: int|
        0 <= i < insertions.len()
            && is_above(editor, cursor_editor::slot_of(#[trigger] insertions[i]), target)
}

/// A parent's tree is higher than those of its children.
pub proof fn lemma_parent_higher(editor: SyntaxEditor, slot: int)
    requires
        editor.valid(),
        0 <= slot < editor.slots(),
        editor.parent_at(slot) is Some,
    ensures
        0 <= editor.parent_at(slot)->0.slot() < editor.slots(),
        editor.tree(slot).height() < editor.tree(editor.parent_at(slot)->0.slot()).height(),
        editor.owns(NodeOrToken::Node(editor.parent_at(slot)->0)),
{
    let parent = editor.parent_at(slot)->0.slot();
    let records = editor.records@;
    assert(cursor_editor::record_agrees(editor.owner, records, editor.trees@, slot));
    assert(cursor_editor::record_agrees(editor.owner, records, editor.trees@, parent));
    let index = records[slot].index()->0 as int;
    let kids = editor.trees@[parent].children();
    assert(kids[index] == editor.trees@[slot]) by {
        assert(cursor_editor::slot_of(records[parent].children()[index]) == slot);
    }
    model::lemma_height_of_member(kids, index);
}

impl SyntaxEditor {
    /// Reject insertion of the target or one of its ancestors.
    pub(super) fn validate_cycles(
        &self, target: &EditorNodeId, insertions: &Vec<EditorElementId>) -> (checked:
        Result<(), EditError>)
        requires
            self.valid(),
            self.owns(NodeOrToken::Node(*target)),
            forall|i: int|
                0 <= i < insertions@.len() ==> self.owns(#[trigger] insertions@[i]),
        ensures
            match checked {
                Ok(_) => !closes_cycle(*self, target.slot(), insertions@),
                Err(error) => error == EditError::Cycle && closes_cycle(
                    *self,
                    target.slot(),
                    insertions@,
                ),
            },
    {
        let mut node = target.clone();
        let ghost mut levels: nat = 0;
        loop
            invariant
                self.valid(),
                self.owns(NodeOrToken::Node(node)),
                forall|i: int|
                    0 <= i < insertions@.len() ==> self.owns(#[trigger] insertions@[i]),
                ascend(*self, target.slot(), levels) == Some(node.slot()),
                forall|lower: nat, i: int|
                    lower < levels && 0 <= i < insertions@.len() ==> #[trigger] ascend(
                        *self,
                        target.slot(),
                        lower,
                    ) != Some(cursor_editor::slot_of(#[trigger] insertions@[i])),
            ensures
                !closes_cycle(*self, target.slot(), insertions@),
            decreases
                    model::forest_height(self.trees@) - self.tree(node.slot()).height(),
        {
            let element: EditorElementId = NodeOrToken::Node(node.clone());
            if contains_id(insertions, &element) {
                proof {
                    let i = choose|i: int| 0 <= i < insertions@.len() && insertions@[i] == element;
                    assert(cursor_editor::slot_of(insertions@[i]) == node.slot());
                    assert(is_above(*self, cursor_editor::slot_of(insertions@[i]), target.slot()));
                }
                return Err(EditError::Cycle);
            }
            assert forall|i: int| 0 <= i < insertions@.len() implies cursor_editor::slot_of(
                #[trigger] insertions@[i],
            ) != node.slot() by {
                assert(self.owns(insertions@[i]));
                assert(insertions@[i] != element);
            }
            match self.parent(&element) {
                Ok(Some(parent)) => {
                    proof {
                        lemma_parent_higher(*self, node.slot());
                        levels = levels + 1;
                        model::lemma_height_of_member(self.trees@, parent.slot());
                        model::lemma_height_of_member(self.trees@, node.slot());
                        assert forall|lower: nat, i: int|
                            lower < levels && 0 <= i
                                < insertions@.len() implies #[trigger] ascend(
                            *self,
                            target.slot(),
                            lower,
                        ) != Some(cursor_editor::slot_of(#[trigger] insertions@[i])) by {
                            if lower == levels - 1 {
                                assert(cursor_editor::slot_of(insertions@[i]) != node.slot());
                            }
                        }
                    }
                    node = parent;
                },
                _ => {
                    proof {
                        assert forall|i: int|
                            0 <= i < insertions@.len() implies !is_above(
                            *self,
                            cursor_editor::slot_of(#[trigger] insertions@[i]),
                            target.slot(),
                        ) by {
                            let slot = cursor_editor::slot_of(insertions@[i]);
                            if is_above(*self, slot, target.slot()) {
                                let k = choose|k: nat| #[trigger]
                                    ascend(*self, target.slot(), k) == Some(slot);
                                if k > levels {
                                    lemma_ascend_ends(*self, target.slot(), levels, k);
                                }
                            }
                        }
                    }
                    break ;
                },
            }
        }
        Ok(())
    }

    /// Clone only mutable arena metadata into a pre-commit validation plan.
    pub(super) fn planned_records(&self) -> (planned: Vec<PlannedRecord>)
        ensures
            planned@.len() == self.records@.len(),
            forall|s: int|
                0 <= s < planned@.len() ==> plan::plans(self.records@[s], #[trigger] planned@[s]),
            plan::plan_of(*self, planned@),
    {
        let mut planned: Vec<PlannedRecord> = Vec::with_capacity(self.records.len());
        let mut slot: usize = 0;
        while slot < self.records.len()
            invariant
                slot <= self.records@.len(),
                planned@.len() == slot,
                forall|s: int|
                    0 <= s < planned@.len()
                        ==> plan::plans(self.records@[s], #[trigger] planned@[s]),
            decreases self.records@.len() - slot,
        {
            let record = match &self.records[slot] {
                EditorRecord::Node(node) => PlannedRecord::for_node(node),
                EditorRecord::Token(token) => PlannedRecord::for_token(token),
            };
            planned.push(record);
            slot += 1;
        }
        planned
    }
}

/// Nothing lies above a component root.
proof fn lemma_ascend_ends(editor: SyntaxEditor, slot: int, levels: nat, more: nat)
    requires
        ascend(editor, slot, levels) matches Some(top) && editor.parent_at(top) is None,
        levels < more,
    ensures
        ascend(editor, slot, more) is None,
    decreases more,
{
    if more > levels + 1 {
        lemma_ascend_ends(editor, slot, levels, (more - 1) as nat);
    }
}

} // verus!
