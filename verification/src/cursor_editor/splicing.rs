//! Transactional splicing of children.

use std::ops::Range;

use vstd::prelude::*;

use crate::cursor_editor;
use crate::cursor_editor::EditError;
use crate::cursor_editor::EditorElementId;
use crate::cursor_editor::EditorNodeId;
use crate::cursor_editor::EditorOwner;
use crate::cursor_editor::EditorRecord;
use crate::cursor_editor::SpliceOutcome;
use crate::cursor_editor::SyntaxEditor;
use crate::cursor_editor::checks;
use crate::cursor_editor::checks::select_outside;
use crate::cursor_editor::checks::validate_duplicates;
use crate::cursor_editor::copy_id;
use crate::cursor_editor::copy_ids;
use crate::cursor_editor::dirty;
use crate::cursor_editor::dirty::mark_dirty_ancestors;
use crate::cursor_editor::element_slot;
use crate::cursor_editor::lengths;
use crate::cursor_editor::lengths::recompute_lengths;
use crate::cursor_editor::materialization::copy_parent;
use crate::cursor_editor::offsets;
use crate::cursor_editor::offsets::recompute_offsets;
use crate::cursor_editor::plan;
use crate::cursor_editor::plan::PlannedContent;
use crate::cursor_editor::plan::PlannedRecord;
use crate::cursor_editor::plan::normalize_parent_links;
use crate::green::GreenError;
use crate::green::node;
use crate::model;
use crate::model::Tree;
use crate::text::TextSize;
use crate::utility_types::NodeOrToken;

verus! {

/// A record took over its plan.
pub(super) open spec fn committed(
    before: EditorRecord, planned: PlannedRecord, after: EditorRecord) -> bool {
    &&& before is Node <==> after is Node
    &&& after.green() == before.green()
    &&& after.parent() == planned.parent
    &&& after.index() == planned.index
    &&& after.offset() == planned.offset
    &&& after.children() == planned.kids()
    &&& after.dirty() == planned.dirty()
    &&& after matches EditorRecord::Node(node) ==> node.text_len == planned.text_len
}

/// The plan for a slot is for a node where the record is one.
pub(super) open spec fn variant_fits(
    records: Seq<EditorRecord>, planned: Seq<PlannedRecord>, slot: int) -> bool {
    planned[slot].is_node() <==> records[slot] is Node
}

/// The records before a slot took over their plans; the others are as before.
pub(super) open spec fn committed_before(
    before: Seq<EditorRecord>,
    planned: Seq<PlannedRecord>,
    after: Seq<EditorRecord>,
    slot: int,
) -> bool {
    &&& after.len() == before.len()
    &&& forall|s: int| 0 <= s < slot ==> #[trigger] variant_fits(before, planned, s)
    &&& forall|s: int|
        0 <= s < slot ==> committed(before[s], planned[s], #[trigger] after[s])
    &&& forall|s: int| slot <= s < before.len() ==> (#[trigger] after[s]) == before[s]
}

/// The elements before a slot took over their plans; the others, and all kinds, texts and green
/// handles, are as before.
pub open spec fn plan_taken(
    before: SyntaxEditor,
    planned: Seq<PlannedRecord>,
    after: SyntaxEditor,
    count: int,
) -> bool {
    &&& after.owner() == before.owner()
    &&& after.slots() == before.slots()
    &&& after.root() == before.root()
    &&& after.source() == before.source()
    &&& forall|path: Seq<int>| #[trigger] after.source_slot(path) == before.source_slot(path)
    &&& forall|s: int|
        0 <= s < before.slots() ==> {
            &&& #[trigger] after.id(s) == before.id(s)
            &&& after.green_at(s) == before.green_at(s)
            &&& after.tree(s) == before.tree(s)
        }
    &&& forall|s: int|
        0 <= s < count ==> {
            &&& (#[trigger] planned[s]).is_node() <==> before.id(s) is Node
            &&& after.parent_at(s) == planned[s].parent
            &&& after.index_at(s) == planned[s].index
            &&& after.offset_at(s) == planned[s].offset@
            &&& after.children_at(s) == planned[s].kids()
            &&& after.dirty_at(s) == planned[s].dirty()
            &&& after.node_len_at(s) == if planned[s].is_node() {
                Some(planned[s].text_len@)
            } else {
                None
            }
        }
    &&& forall|s: int|
        count <= s < before.slots() ==> {
            &&& #[trigger] after.parent_at(s) == before.parent_at(s)
            &&& after.index_at(s) == before.index_at(s)
            &&& after.offset_at(s) == before.offset_at(s)
            &&& after.children_at(s) == before.children_at(s)
            &&& after.dirty_at(s) == before.dirty_at(s)
            &&& after.node_len_at(s) == before.node_len_at(s)
        }
}

/// Records that took over their plans are elements that did.
proof fn lemma_plan_taken(
    before: SyntaxEditor,
    planned: Seq<PlannedRecord>,
    after: SyntaxEditor,
    count: int,
)
    requires
        0 <= count <= before.records@.len(),
        committed_before(before.records@, planned, after.records@, count),
        after.owner == before.owner,
        after.root == before.root,
        after.source_root == before.source_root,
        after.source_path == before.source_path,
        after.source_children == before.source_children,
        after.trees == before.trees,
    ensures
        plan_taken(before, planned, after, count),
{
    assert forall|s: int| 0 <= s < before.slots() implies {
        &&& #[trigger] after.id(s) == before.id(s)
        &&& after.green_at(s) == before.green_at(s)
        &&& after.tree(s) == before.tree(s)
    } by {
        if s < count {
            assert(committed(before.records@[s], planned[s], after.records@[s]));
        } else {
            assert(after.records@[s] == before.records@[s]);
        }
    }
    assert forall|s: int| 0 <= s < count implies {
        &&& (#[trigger] planned[s]).is_node() <==> before.id(s) is Node
        &&& after.parent_at(s) == planned[s].parent
        &&& after.index_at(s) == planned[s].index
        &&& after.offset_at(s) == planned[s].offset@
        &&& after.children_at(s) == planned[s].kids()
        &&& after.dirty_at(s) == planned[s].dirty()
        &&& after.node_len_at(s) == if planned[s].is_node() {
            Some(planned[s].text_len@)
        } else {
            None
        }
    } by {
        assert(variant_fits(before.records@, planned, s));
        assert(committed(before.records@[s], planned[s], after.records@[s]));
    }
    assert forall|s: int| count <= s < before.slots() implies {
        &&& #[trigger] after.parent_at(s) == before.parent_at(s)
        &&& after.index_at(s) == before.index_at(s)
        &&& after.offset_at(s) == before.offset_at(s)
        &&& after.children_at(s) == before.children_at(s)
        &&& after.dirty_at(s) == before.dirty_at(s)
        &&& after.node_len_at(s) == before.node_len_at(s)
    } by {
        assert(after.records@[s] == before.records@[s]);
    }
}

/// Committing the plan that an editor gives of itself changes nothing.
pub proof fn lemma_own_plan_taken(
    before: SyntaxEditor,
    planned: Seq<PlannedRecord>,
    after: SyntaxEditor,
    slot: int,
)
    requires
        plan::plan_of(before, planned),
        plan_taken(before, planned, after, planned.len() as int),
        0 <= slot < before.slots(),
    ensures
        after.id(slot) == before.id(slot),
        after.green_at(slot) == before.green_at(slot),
        after.tree(slot) == before.tree(slot),
        after.parent_at(slot) == before.parent_at(slot),
        after.index_at(slot) == before.index_at(slot),
        after.offset_at(slot) == before.offset_at(slot),
        after.children_at(slot) == before.children_at(slot),
        after.dirty_at(slot) == before.dirty_at(slot),
        after.node_len_at(slot) == before.node_len_at(slot),
{
    assert(plan::plan_at(before, planned[slot], slot));
    assert(after.id(slot) == before.id(slot));
}

impl SyntaxEditor {
    /// Commit a fully validated metadata plan.
    ///
    /// A plan of another length is rejected before anything changes. A plan of the wrong variant
    /// is rejected when it is met: the records before it have taken over their plans.
    fn commit_planned(&mut self, planned: Vec<PlannedRecord>) -> (checked: Result<(), EditError>)
        ensures
            match checked {
                Ok(_) => {
                    &&& planned@.len() == old(self).records@.len()
                    &&& committed_before(
                        old(self).records@,
                        planned@,
                        final(self).records@,
                        planned@.len() as int,
                    )
                    &&& plan_taken(*old(self), planned@, *final(self), planned@.len() as int)
                },
                Err(error) => {
                    &&& error == EditError::ForeignId
                    &&& if planned@.len() != old(self).records@.len() {
                        *final(self) == *old(self)
                    } else {
                        exists|slot: int|
                            {
                                &&& 0 <= slot < planned@.len()
                                &&& !variant_fits(old(self).records@, planned@, slot)
                                &&& #[trigger] committed_before(
                                    old(self).records@,
                                    planned@,
                                    final(self).records@,
                                    slot,
                                )
                                &&& plan_taken(*old(self), planned@, *final(self), slot)
                            }
                    }
                },
            },
            final(self).owner == old(self).owner,
            final(self).root == old(self).root,
            final(self).source_root == old(self).source_root,
            final(self).source_path == old(self).source_path,
            final(self).source_children == old(self).source_children,
            final(self).trees == old(self).trees,
    {
        let ghost before = self.records@;
        let count: usize = planned.len();
        if count != self.records.len() {
            return Err(EditError::ForeignId);
        }
        let mut slot: usize = 0;
        while slot < count
            invariant
                count == planned@.len() == before.len(),
                slot <= count,
                before == old(self).records@,
                self.owner == old(self).owner,
                self.root == old(self).root,
                self.source_root == old(self).source_root,
                self.source_path == old(self).source_path,
                self.source_children == old(self).source_children,
                self.trees == old(self).trees,
                committed_before(before, planned@, self.records@, slot as int),
            decreases count - slot,
        {
            let update = &planned[slot];
            let ghost earlier = self.records@;
            let fits = match &self.records[slot] {
                EditorRecord::Node(_) => update.plans_node(),
                EditorRecord::Token(_) => !update.plans_node(),
            };
            assert(fits == variant_fits(before, planned@, slot as int));
            if !fits {
                proof {
                    lemma_plan_taken(*old(self), planned@, *self, slot as int);
                }
                return Err(EditError::ForeignId);
            }
            match &mut self.records[slot] {
                EditorRecord::Node(node) => {
                    if let PlannedContent::Node(planned_node) = &update.content {
                        node.parent = copy_parent(&update.parent);
                        node.index = update.index;
                        node.offset = update.offset;
                        node.text_len = update.text_len;
                        node.children = copy_ids(&planned_node.children);
                        node.dirty = planned_node.dirty;
                    }
                },
                EditorRecord::Token(token) => {
                    token.parent = copy_parent(&update.parent);
                    token.index = update.index;
                    token.offset = update.offset;
                },
            }
            assert(committed(
                before[slot as int], planned@[slot as int], self.records@[slot as int]));
            slot += 1;
        }
        proof {
            lemma_plan_taken(*old(self), planned@, *self, slot as int);
        }
        Ok(())
    }
}

/// The children of the element at a slot after a splice.
pub open spec fn spliced_kids(
    editor: SyntaxEditor,
    target: int,
    start: int,
    end: int,
    insertions: Seq<EditorElementId>,
    slot: int,
) -> Seq<EditorElementId> {
    let children = editor.children_at(slot);
    if slot == target {
        checks::outside(children.take(start), insertions) + insertions + checks::outside(
            children.skip(end),
            insertions,
        )
    } else {
        checks::outside(children, insertions)
    }
}

/// The trees of all slots after a splice.
pub open spec fn spliced_shape(
    editor: SyntaxEditor,
    target: int,
    start: int,
    end: int,
    insertions: Seq<EditorElementId>,
    trees: Seq<Tree>,
) -> bool {
    &&& trees.len() == editor.slots()
    &&& forall|s: int|
        0 <= s < trees.len() ==> (#[trigger] trees[s]) == match editor.tree(s) {
            Tree::Node { kind, .. } => Tree::Node {
                kind,
                children: cursor_editor::trees_of(
                    trees,
                    spliced_kids(editor, target, start, end, insertions, s),
                ),
            },
            Tree::Token { .. } => editor.tree(s),
        }
}

/// After the splice a node would be the first whose text leaves the coordinate space.
pub open spec fn splice_overflows(
    editor: SyntaxEditor,
    target: int,
    start: int,
    end: int,
    insertions: Seq<EditorElementId>,
    accumulated: TextSize,
    next: TextSize,
) -> bool {
    exists|trees: Seq<Tree>, s: int|
        {
            &&& spliced_shape(editor, target, start, end, insertions, trees)
            &&& 0 <= s < trees.len()
            &&& node::first_overflow((#[trigger] trees[s]).children(), accumulated, next)
            &&& forall|i: int|
                0 <= i < trees[s].children().len() ==> (#[trigger] trees[s].children()[i]).len()
                    <= u32::MAX
        }
}

/// Why a splice is rejected; the checks are made in this order.
pub open spec fn splice_rejected(
    editor: SyntaxEditor,
    target: EditorNodeId,
    start: usize,
    end: usize,
    insertions: Seq<EditorElementId>,
    error: EditError,
) -> bool {
    let count = editor.children_at(target.slot()).len();
    if !editor.owns(NodeOrToken::Node(target)) {
        error == EditError::ForeignId
    } else if start > end || end > count {
        error == (EditError::InvalidChildRange { start, end, child_count: count as usize })
    } else if exists|i: int|
        0 <= i < insertions.len() && !editor.owns(#[trigger] insertions[i]) {
        error == EditError::ForeignId
    } else if !insertions.no_duplicates() {
        error matches EditError::DuplicateInsertion { first_position, duplicate_position }
            && checks::first_duplicate(insertions, first_position as int, duplicate_position as int)
    } else if checks::closes_cycle(editor, target.slot(), insertions) {
        error == EditError::Cycle
    } else {
        error matches EditError::Green(GreenError::TextLengthOverflow { accumulated, next })
            && splice_overflows(
            editor,
            target.slot(),
            start as int,
            end as int,
            insertions,
            accumulated,
            next,
        )
    }
}

/// A splice passes every check but that on lengths.
pub open spec fn splice_allowed(
    editor: SyntaxEditor,
    target: EditorNodeId,
    start: usize,
    end: usize,
    insertions: Seq<EditorElementId>,
) -> bool {
    &&& editor.owns(NodeOrToken::Node(target))
    &&& start <= end <= editor.children_at(target.slot()).len()
    &&& forall|i: int| 0 <= i < insertions.len() ==> editor.owns(#[trigger] insertions[i])
    &&& insertions.no_duplicates()
    &&& !checks::closes_cycle(editor, target.slot(), insertions)
}

/// What a splice changes.
pub open spec fn spliced(
    before: SyntaxEditor,
    after: SyntaxEditor,
    target: int,
    start: int,
    end: int,
    insertions: Seq<EditorElementId>,
) -> bool {
    &&& after.owner() == before.owner()
    &&& after.slots() == before.slots()
    &&& after.root() == before.root()
    &&& after.source() == before.source()
    &&& forall|path: Seq<int>| #[trigger] after.source_slot(path) == before.source_slot(path)
    &&& forall|s: int|
        0 <= s < before.slots() ==> {
            &&& #[trigger] after.id(s) == before.id(s)
            &&& after.green_at(s) == before.green_at(s)
            &&& after.children_at(s) == spliced_kids(before, target, start, end, insertions, s)
            &&& after.tree(s).kind() == before.tree(s).kind()
            &&& before.tree(s) is Token ==> after.tree(s) == before.tree(s)
            &&& after.dirty_at(s) <==> before.dirty_at(s) || touched(before, after, s)
        }
}

/// An element whose children an edit changed lies in the subtree at a slot.
pub open spec fn touched(before: SyntaxEditor, after: SyntaxEditor, slot: int) -> bool {
    exists|changed: int|
        {
            &&& 0 <= changed < before.slots()
            &&& before.id(changed) is Node
            &&& (#[trigger] after.children_at(changed)) != before.children_at(changed)
            &&& checks::is_above(after, slot, changed)
        }
}

/// The outcome of a splice.
pub open spec fn splice_done(
    before: SyntaxEditor,
    after: SyntaxEditor,
    target: EditorNodeId,
    start: usize,
    end: usize,
    insertions: Seq<EditorElementId>,
    outcome: Result<SpliceOutcome, EditError>,
) -> bool {
    match outcome {
        Ok(outcome) => {
            &&& splice_allowed(before, target, start, end, insertions)
            &&& outcome.ids() == checks::outside(
                before.children_at(target.slot()).subrange(start as int, end as int),
                insertions,
            )
            &&& spliced(before, after, target.slot(), start as int, end as int, insertions)
        },
        Err(error) => {
            &&& after == before
            &&& splice_rejected(before, target, start, end, insertions, error)
        },
    }
}

/// The lists of an arena name each element once.
pub(super) proof fn lemma_children_distinct(editor: SyntaxEditor, slot: int)
    requires
        editor.valid(),
        0 <= slot < editor.slots(),
    ensures
        editor.children_at(slot).no_duplicates(),
        forall|i: int|
            0 <= i < editor.children_at(slot).len() ==> {
                let child = #[trigger] editor.children_at(slot)[i];
                &&& editor.owns(child)
                &&& editor.parent_at(cursor_editor::slot_of(child)) == Some(
                    EditorNodeId { owner: editor.owner, slot: slot as usize },
                )
                &&& editor.index_at(cursor_editor::slot_of(child)) == Some(i as usize)
            },
        editor.children_at(slot).len() <= usize::MAX,
{
    let records = editor.records@;
    assert(cursor_editor::record_agrees(editor.owner, records, editor.trees@, slot));
    let children = editor.children_at(slot);
    match records[slot] {
        EditorRecord::Node(node) => {
            assert(node.children.len() == node.children@.len());
            assert forall|i: int| 0 <= i < children.len() implies {
                let child = #[trigger] editor.children_at(slot)[i];
                &&& editor.owns(child)
                &&& editor.parent_at(cursor_editor::slot_of(child)) == Some(
                    EditorNodeId { owner: editor.owner, slot: slot as usize },
                )
                &&& editor.index_at(cursor_editor::slot_of(child)) == Some(i as usize)
            } by {
                assert(cursor_editor::names_record(editor.owner, records, node.children@[i]));
                assert(records[slot].children()[i] == node.children@[i]);
            }
            assert forall|i: int, j: int| 0 <= i < j < children.len() implies children[i]
                != children[j] by {
                assert(editor.index_at(cursor_editor::slot_of(editor.children_at(slot)[i]))
                    == Some(i as usize));
                assert(editor.index_at(cursor_editor::slot_of(editor.children_at(slot)[j]))
                    == Some(j as usize));
            }
        },
        EditorRecord::Token(token) => {},
    }
}

/// What holds of a child that a splice lists.
pub(super) proof fn lemma_spliced_member(
    editor: SyntaxEditor,
    target: int,
    start: int,
    end: int,
    insertions: Seq<EditorElementId>,
    slot: int,
    element: EditorElementId,
)
    requires
        editor.valid(),
        0 <= target < editor.slots(),
        0 <= slot < editor.slots(),
        0 <= start <= end <= editor.children_at(target).len(),
        forall|i: int| 0 <= i < insertions.len() ==> editor.owns(#[trigger] insertions[i]),
        spliced_kids(editor, target, start, end, insertions, slot).contains(element),
    ensures
        editor.owns(element),
        insertions.contains(element) ==> slot == target,
        !insertions.contains(element) ==> editor.children_at(slot).contains(element),
        !insertions.contains(element) ==> editor.parent_at(cursor_editor::slot_of(element)) == Some(
            EditorNodeId { owner: editor.owner, slot: slot as usize },
        ),
{
    let children = editor.children_at(slot);
    let kids = spliced_kids(editor, target, start, end, insertions, slot);
    lemma_children_distinct(editor, slot);
    let low = children.take(start);
    let high = children.skip(end);
    checks::lemma_outside_members(low, insertions, element);
    checks::lemma_outside_members(high, insertions, element);
    checks::lemma_outside_members(children, insertions, element);
    if slot == target {
        let first = checks::outside(low, insertions);
        let last = checks::outside(high, insertions);
        let i = choose|i: int| 0 <= i < kids.len() && kids[i] == element;
        if i < first.len() {
            assert(first[i] == element);
            assert(first.contains(element));
            let j = choose|j: int| 0 <= j < low.len() && low[j] == element;
            assert(children[j] == element);
        } else if i < first.len() + insertions.len() {
            assert(insertions[i - first.len()] == element);
            assert(insertions.contains(element));
        } else {
            assert(last[i - first.len() - insertions.len()] == element);
            assert(last.contains(element));
            let j = choose|j: int| 0 <= j < high.len() && high[j] == element;
            assert(children[end + j] == element);
        }
    }
    if insertions.contains(element) {
        let i = choose|i: int| 0 <= i < insertions.len() && insertions[i] == element;
        assert(editor.owns(insertions[i]));
    } else {
        let i = choose|i: int| 0 <= i < children.len() && children[i] == element;
        assert(editor.owns(editor.children_at(slot)[i]));
    }
}

/// A splice lists no element twice below one parent.
proof fn lemma_spliced_distinct(
    editor: SyntaxEditor,
    target: int,
    start: int,
    end: int,
    insertions: Seq<EditorElementId>,
    slot: int,
)
    requires
        editor.valid(),
        0 <= target < editor.slots(),
        0 <= slot < editor.slots(),
        0 <= start <= end <= editor.children_at(target).len(),
        insertions.no_duplicates(),
    ensures
        spliced_kids(editor, target, start, end, insertions, slot).no_duplicates(),
{
    let children = editor.children_at(slot);
    let kids = spliced_kids(editor, target, start, end, insertions, slot);
    lemma_children_distinct(editor, slot);
    checks::lemma_outside_distinct(children, insertions);
    if slot == target {
        let low = children.take(start);
        let high = children.skip(end);
        let first = checks::outside(low, insertions);
        let last = checks::outside(high, insertions);
        checks::lemma_outside_distinct(low, insertions);
        checks::lemma_outside_distinct(high, insertions);
        assert forall|i: int, j: int| 0 <= i < j < kids.len() implies kids[i] != kids[j] by {
            checks::lemma_outside_members(low, insertions, kids[i]);
            checks::lemma_outside_members(high, insertions, kids[i]);
            checks::lemma_outside_members(low, insertions, kids[j]);
            checks::lemma_outside_members(high, insertions, kids[j]);
            let a = first.len() as int;
            let b = a + insertions.len();
            if i < a {
                assert(first.contains(first[i]));
            } else if i < b {
                assert(insertions.contains(insertions[i - a]));
            } else {
                assert(last.contains(last[i - b]));
            }
            if j < a {
                assert(first[i] != first[j]);
            } else if j < b {
                assert(insertions.contains(insertions[j - a]));
                if a <= i {
                    assert(insertions[i - a] != insertions[j - a]);
                }
            } else {
                assert(last.contains(last[j - b]));
                if b <= i {
                    assert(last[i - b] != last[j - b]);
                } else if i < a && kids[i] == kids[j] {
                    let k = choose|k: int| 0 <= k < low.len() && low[k] == kids[i];
                    let l = choose|l: int| 0 <= l < high.len() && high[l] == kids[j];
                    assert(children[k] != children[end + l]);
                }
            }
        }
    }
}

/// The tree at a slot with other children, as long as the rank sinks.
spec fn grown_tree(
    trees: Seq<Tree>,
    kids: Seq<Seq<EditorElementId>>,
    rank: Seq<nat>,
    slot: int,
) -> Tree
    decreases rank[slot],
{
    match trees[slot] {
        Tree::Node { kind, .. } => Tree::Node {
            kind,
            children: kids[slot].map_values(
                |kid: EditorElementId|
                    if 0 <= cursor_editor::slot_of(kid) < rank.len()
                        && rank[cursor_editor::slot_of(kid)] < rank[slot] {
                        grown_tree(trees, kids, rank, cursor_editor::slot_of(kid))
                    } else {
                        trees[slot]
                    },
            ),
        },
        Tree::Token { .. } => trees[slot],
    }
}

/// The order in which the trees after a splice can be built.
spec fn splice_rank(editor: SyntaxEditor, target: int) -> Seq<nat> {
    Seq::new(
        editor.slots(),
        |s: int|
            if checks::is_above(editor, s, target) {
                model::forest_height(editor.trees@) + 1 + editor.tree(s).height()
            } else {
                editor.tree(s).height()
            },
    )
}

/// A child after a splice has a lower rank than its parent.
proof fn lemma_rank_sinks(
    editor: SyntaxEditor,
    target: int,
    start: int,
    end: int,
    insertions: Seq<EditorElementId>,
    slot: int,
    kid: EditorElementId,
)
    requires
        editor.valid(),
        0 <= target < editor.slots(),
        0 <= slot < editor.slots(),
        0 <= start <= end <= editor.children_at(target).len(),
        forall|i: int| 0 <= i < insertions.len() ==> editor.owns(#[trigger] insertions[i]),
        !checks::closes_cycle(editor, target, insertions),
        spliced_kids(editor, target, start, end, insertions, slot).contains(kid),
    ensures
        0 <= cursor_editor::slot_of(kid) < editor.slots(),
        splice_rank(editor, target)[cursor_editor::slot_of(kid)]
            < splice_rank(editor, target)[slot],
{
    lemma_spliced_member(editor, target, start, end, insertions, slot, kid);
    let child = cursor_editor::slot_of(kid);
    model::lemma_height_of_member(editor.trees@, child);
    model::lemma_height_of_member(editor.trees@, slot);
    if insertions.contains(kid) {
        let i = choose|i: int| 0 <= i < insertions.len() && insertions[i] == kid;
        assert(!checks::is_above(editor, cursor_editor::slot_of(insertions[i]), target));
        assert(checks::ascend(editor, target, 0) == Some(target));
        assert(checks::is_above(editor, target, target));
    } else {
        checks::lemma_parent_higher(editor, child);
        if checks::is_above(editor, child, target) {
            let levels = choose|levels: nat| #[trigger]
                checks::ascend(editor, target, levels) == Some(child);
            assert(checks::ascend(editor, target, levels + 1) == Some(slot));
            assert(checks::is_above(editor, slot, target));
        }
        if slot == target {
            assert(checks::ascend(editor, target, 0) == Some(target));
            assert(checks::is_above(editor, target, target));
        }
    }
}

/// The trees after an allowed splice exist.
proof fn lemma_spliced_shape(
    editor: SyntaxEditor,
    target: int,
    start: int,
    end: int,
    insertions: Seq<EditorElementId>,
) -> (trees: Seq<Tree>)
    requires
        editor.valid(),
        0 <= target < editor.slots(),
        0 <= start <= end <= editor.children_at(target).len(),
        forall|i: int| 0 <= i < insertions.len() ==> editor.owns(#[trigger] insertions[i]),
        !checks::closes_cycle(editor, target, insertions),
    ensures
        spliced_shape(editor, target, start, end, insertions, trees),
{
    let rank = splice_rank(editor, target);
    let kids = Seq::new(
        editor.slots(),
        |s: int| spliced_kids(editor, target, start, end, insertions, s),
    );
    let trees = Seq::new(editor.slots(), |s: int| grown_tree(editor.trees@, kids, rank, s));
    assert forall|s: int| 0 <= s < trees.len() implies (#[trigger] trees[s]) == match editor.tree(
        s,
    ) {
        Tree::Node { kind, .. } => Tree::Node {
            kind,
            children: cursor_editor::trees_of(
                trees, spliced_kids(editor, target, start, end, insertions, s)),
        },
        Tree::Token { .. } => editor.tree(s),
    } by {
        let own = spliced_kids(editor, target, start, end, insertions, s);
        if editor.tree(s) is Node {
            assert(trees[s].children() =~= cursor_editor::trees_of(trees, own)) by {
                assert forall|i: int| 0 <= i < own.len() implies trees[s].children()[i]
                    == trees[cursor_editor::slot_of(own[i])] by {
                    assert(own.contains(own[i]));
                    lemma_rank_sinks(editor, target, start, end, insertions, s, own[i]);
                }
            }
        }
    }
    trees
}

/// Measuring a plan with the shape of trees measures the trees.
proof fn lemma_measured_tree(
    planned: Seq<PlannedRecord>,
    trees: Seq<Tree>,
    slot: int,
    fuel: nat,
)
    requires
        plan::kids_planned(planned),
        offsets::plan_shape(planned, trees),
        forall|s: int|
            0 <= s < planned.len() && !(#[trigger] planned[s]).is_node() ==> planned[s].text_len@
                == trees[s].len(),
        0 <= slot < planned.len(),
        fuel >= trees[slot].height(),
    ensures
        lengths::measured(planned, slot, fuel) == Some(trees[slot].len()),
    decreases fuel, 0nat, 0nat,
{
    assert(offsets::shape_right(planned, trees, slot));
    if planned[slot].is_node() {
        assert forall|i: int| 0 <= i < planned[slot].kids().len() implies 0
            <= cursor_editor::slot_of(
            #[trigger] planned[slot].kids()[i],
        ) < planned.len() by {}
        lemma_measured_trees(planned, trees, planned[slot].kids(), (fuel - 1) as nat);
    }
}

/// Measuring a plan with the shape of trees measures the trees.
proof fn lemma_measured_trees(
    planned: Seq<PlannedRecord>,
    trees: Seq<Tree>,
    kids: Seq<EditorElementId>,
    fuel: nat,
)
    requires
        plan::kids_planned(planned),
        offsets::plan_shape(planned, trees),
        forall|s: int|
            0 <= s < planned.len() && !(#[trigger] planned[s]).is_node() ==> planned[s].text_len@
                == trees[s].len(),
        forall|i: int| 0 <= i < kids.len() ==> 0 <= cursor_editor::slot_of(#[trigger] kids[i])
            < planned.len(),
        fuel >= model::forest_height(cursor_editor::trees_of(trees, kids)),
    ensures
        lengths::measured_sum(planned, kids, fuel)
            == Some(model::forest_len(cursor_editor::trees_of(trees, kids))),
    decreases fuel, 1nat, kids.len(),
{
    if kids.len() > 0 {
        assert(cursor_editor::trees_of(trees, kids).drop_last()
            =~= cursor_editor::trees_of(trees, kids.drop_last()));
        assert(cursor_editor::trees_of(trees, kids).last()
            == trees[cursor_editor::slot_of(kids.last())]);
        assert(kids[kids.len() - 1] == kids.last());
        assert forall|i: int| 0 <= i < kids.drop_last().len() implies 0 <= cursor_editor::slot_of(
            #[trigger] kids.drop_last()[i],
        ) < planned.len() by {
            assert(kids.drop_last()[i] == kids[i]);
        }
        lemma_measured_trees(planned, trees, kids.drop_last(), fuel);
        lemma_measured_tree(planned, trees, cursor_editor::slot_of(kids.last()), fuel);
    }
}

/// An element is measured the same with any fuel that suffices.
proof fn lemma_measured_once(planned: Seq<PlannedRecord>, slot: int, left: nat, right: nat)
    requires
        lengths::measured(planned, slot, left) is Some,
        lengths::measured(planned, slot, right) is Some,
    ensures
        lengths::measured(planned, slot, left) == lengths::measured(planned, slot, right),
{
    if left <= right {
        lengths::lemma_more_fuel(planned, slot, left, right);
    } else {
        lengths::lemma_more_fuel(planned, slot, right, left);
    }
}

/// A planned overflow is an overflow of the trees.
proof fn lemma_overflow_in_trees(
    planned: Seq<PlannedRecord>,
    trees: Seq<Tree>,
    slot: int,
    accumulated: TextSize,
    next: TextSize,
)
    requires
        plan::kids_planned(planned),
        offsets::plan_shape(planned, trees),
        forall|s: int|
            0 <= s < planned.len() && !(#[trigger] planned[s]).is_node() ==> planned[s].text_len@
                == trees[s].len(),
        lengths::overflows(planned, slot, accumulated, next),
    ensures
        node::first_overflow(trees[slot].children(), accumulated, next),
        forall|i: int|
            0 <= i < trees[slot].children().len() ==> (#[trigger] trees[slot].children()[i]).len()
                <= u32::MAX,
{
    let kids = planned[slot].kids();
    let (fuel, index) = choose|fuel: nat, index: int| #[trigger]
        lengths::overflows_at(planned, kids, fuel, index, accumulated, next);
    assert(offsets::shape_right(planned, trees, slot));
    assert(planned[slot].is_node());
    let all = trees[slot].children();
    assert(all == cursor_editor::trees_of(trees, kids));
    assert forall|i: int| 0 <= i < kids.len() implies {
        &&& 0 <= cursor_editor::slot_of(#[trigger] kids[i]) < planned.len()
        &&& lengths::measured(planned, cursor_editor::slot_of(kids[i]), fuel) == Some(all[i].len())
    } by {
        assert(planned[slot].kids()[i] == kids[i]);
        let kid = cursor_editor::slot_of(kids[i]);
        lemma_measured_tree(planned, trees, kid, trees[kid].height());
        lemma_measured_once(planned, kid, fuel, trees[kid].height());
    }
    let prefix = kids.take(index);
    let more = if fuel >= model::forest_height(cursor_editor::trees_of(trees, prefix)) {
        fuel
    } else {
        model::forest_height(cursor_editor::trees_of(trees, prefix))
    };
    lengths::lemma_more_fuel_sum(planned, prefix, fuel, more);
    assert forall|i: int| 0 <= i < prefix.len() implies 0
        <= cursor_editor::slot_of(#[trigger] prefix[i])
        < planned.len() by {
        assert(prefix[i] == kids[i]);
    }
    lemma_measured_trees(planned, trees, prefix, more);
    assert(cursor_editor::trees_of(trees, prefix) =~= all.take(index));
    assert(accumulated@ == model::offset_in(all, index));
    assert(next@ == all[index].len());
    assert forall|i: int| 0 <= i < all.len() implies (#[trigger] all[i]).len() <= u32::MAX by {
        assert(lengths::measured(planned, cursor_editor::slot_of(kids[i]), fuel) matches Some(len)
            && len <= u32::MAX);
    }
}

/// Full links determine the links of nodes.
proof fn lemma_linked_nodes(owner: EditorOwner, planned: Seq<PlannedRecord>)
    requires
        planned.len() <= usize::MAX,
        plan::kids_planned(planned),
        cursor_editor::plan_linked(owner, planned),
        forall|s: int|
            0 <= s < planned.len() ==> (#[trigger] planned[s]).kids().len() <= usize::MAX,
    ensures
        cursor_editor::nodes_linked(planned),
{
    assert forall|t: int| 0 <= t < planned.len()
        implies #[trigger] lengths::listed_by_parent(planned, t) by {
        if planned[t].is_node() && planned[t].parent is Some {
            let parent = planned[t].parent->0.slot as int;
            let i = planned[t].index->0 as int;
            let kid = planned[parent].kids()[i];
            assert(cursor_editor::slot_of(kid) == t);
            assert(kid is Node);
        }
    }
    assert forall|s: int, i: int, j: int|
        0 <= s < planned.len() && 0 <= i < j < planned[s].kids().len() && (
        #[trigger] planned[s].kids()[i]) is Node && (#[trigger] planned[s].kids()[j])
            is Node implies cursor_editor::slot_of(planned[s].kids()[i])
                != cursor_editor::slot_of(planned[s].kids()[j]) by {
        assert(planned[s].kids().len() <= usize::MAX);
    }
}

/// The plan lists the children after a splice and repeats the records otherwise.
spec fn plans_splice(
    editor: SyntaxEditor,
    target: int,
    start: int,
    end: int,
    insertions: Seq<EditorElementId>,
    planned: Seq<PlannedRecord>,
) -> bool {
    &&& planned.len() == editor.records@.len()
    &&& forall|s: int|
        0 <= s < planned.len() ==> {
            &&& (#[trigger] planned[s]).kids() == spliced_kids(
                editor,
                target,
                start,
                end,
                insertions,
                s,
            )
            &&& planned[s].is_node() <==> editor.records@[s] is Node
            &&& planned[s].dirty() == editor.records@[s].dirty()
            &&& !planned[s].is_node() ==> planned[s].text_len@ == editor.tree(s).len()
        }
}

/// A planned splice is well formed: it lists existing elements, each once.
proof fn lemma_plan_well_formed(
    editor: SyntaxEditor,
    target: int,
    start: int,
    end: int,
    insertions: Seq<EditorElementId>,
    planned: Seq<PlannedRecord>,
)
    requires
        editor.valid(),
        0 <= target < editor.slots(),
        0 <= start <= end <= editor.children_at(target).len(),
        forall|i: int| 0 <= i < insertions.len() ==> editor.owns(#[trigger] insertions[i]),
        insertions.no_duplicates(),
        plans_splice(editor, target, start, end, insertions, planned),
    ensures
        plan::kids_planned(planned),
        !plan::listed_twice(planned),
{
    assert forall|s: int, i: int|
        0 <= s < planned.len() && 0 <= i < planned[s].kids().len() implies {
        let kid = #[trigger] planned[s].kids()[i];
        &&& 0 <= cursor_editor::slot_of(kid) < planned.len()
        &&& kid is Node <==> planned[cursor_editor::slot_of(kid)].is_node()
    } by {
        let kid = planned[s].kids()[i];
        assert(spliced_kids(editor, target, start, end, insertions, s).contains(kid));
        lemma_spliced_member(editor, target, start, end, insertions, s, kid);
    }
    if plan::listed_twice(planned) {
        let (s, i, t, j) = choose|s: int, i: int, t: int, j: int|
            #![trigger planned[s].kids()[i], planned[t].kids()[j]]
            {
                &&& 0 <= s < planned.len()
                &&& 0 <= i < planned[s].kids().len()
                &&& 0 <= t < planned.len()
                &&& 0 <= j < planned[t].kids().len()
                &&& (s != t || i != j)
                &&& cursor_editor::slot_of(planned[s].kids()[i])
                    == cursor_editor::slot_of(planned[t].kids()[j])
            };
        let left = planned[s].kids()[i];
        let right = planned[t].kids()[j];
        assert(spliced_kids(editor, target, start, end, insertions, s).contains(left));
        assert(spliced_kids(editor, target, start, end, insertions, t).contains(right));
        lemma_spliced_member(editor, target, start, end, insertions, s, left);
        lemma_spliced_member(editor, target, start, end, insertions, t, right);
        assert(left == right);
        assert(s == t);
        lemma_spliced_distinct(editor, target, start, end, insertions, s);
    }
}

/// Replace the planned children of a node.
fn set_planned_children(
    planned: &mut Vec<PlannedRecord>, slot: usize, children: Vec<EditorElementId>)
    requires
        slot < old(planned)@.len(),
        old(planned)@[slot as int].is_node(),
    ensures
        final(planned)@.len() == old(planned)@.len(),
        forall|s: int|
            0 <= s < old(planned)@.len() && s != slot ==> (#[trigger] final(planned)@[s]) == old(
                planned,
            )@[s],
        same_but_kids(old(planned)@[slot as int], final(planned)@[slot as int]),
        final(planned)@[slot as int].kids() == children@,
{
    let record = &mut planned[slot];
    if let PlannedContent::Node(node) = &mut record.content {
        node.children = children;
    }
}

/// Only children differ.
spec fn same_but_kids(left: PlannedRecord, right: PlannedRecord) -> bool {
    &&& left.parent == right.parent
    &&& left.index == right.index
    &&& left.offset == right.offset
    &&& left.text_len == right.text_len
    &&& left.is_node() == right.is_node()
    &&& left.dirty() == right.dirty()
}

/// Where nothing changed below a node, its tree is as before.
proof fn lemma_untouched_tree(
    editor: SyntaxEditor,
    target: int,
    start: int,
    end: int,
    insertions: Seq<EditorElementId>,
    planned: Seq<PlannedRecord>,
    trees: Seq<Tree>,
    slot: int,
)
    requires
        editor.valid(),
        spliced_shape(editor, target, start, end, insertions, trees),
        planned.len() == editor.slots(),
        cursor_editor::plan_linked(editor.owner, planned),
        forall|s: int|
            0 <= s < planned.len() ==> {
                &&& (#[trigger] planned[s]).kids() == spliced_kids(
                    editor,
                    target,
                    start,
                    end,
                    insertions,
                    s,
                )
                &&& planned[s].is_node() <==> editor.records@[s] is Node
            },
        0 <= slot < planned.len(),
        editor.records@[slot] is Node,
        !editor.dirty_at(slot),
        !dirty::change_below(editor.records@, planned, slot, planned.len() as int),
    ensures
        trees[slot] == editor.tree(slot),
        planned[slot].kids() == editor.children_at(slot),
        forall|i: int|
            0 <= i < planned[slot].kids().len() ==> {
                let kid = cursor_editor::slot_of(#[trigger] planned[slot].kids()[i]);
                &&& !editor.dirty_at(kid)
                &&& !dirty::change_below(editor.records@, planned, kid, planned.len() as int)
            },
    decreases editor.tree(slot).height(),
{
    let records = editor.records@;
    assert(dirty::plan_ascend(planned, slot, 0) == Some(slot));
    assert(dirty::plan_above(planned, slot, slot));
    assert(!dirty::kids_changed(records, planned, slot));
    let kids = planned[slot].kids();
    assert(cursor_editor::record_agrees(editor.owner, records, editor.trees@, slot));
    lemma_children_distinct(editor, slot);
    assert forall|i: int| 0 <= i < kids.len() implies {
        let kid = cursor_editor::slot_of(#[trigger] planned[slot].kids()[i]);
        &&& 0 <= kid < planned.len()
        &&& !editor.dirty_at(kid)
        &&& !dirty::change_below(records, planned, kid, planned.len() as int)
        &&& trees[kid] == editor.tree(kid)
    } by {
        let kid = cursor_editor::slot_of(planned[slot].kids()[i]);
        assert(editor.owns(editor.children_at(slot)[i]));
        assert(planned[kid].parent == Some(
            EditorNodeId { owner: editor.owner, slot: slot as usize },
        ));
        match records[slot] {
            EditorRecord::Node(node) => {
                assert(node.children@[i] == kids[i]);
                assert(!records[cursor_editor::slot_of(node.children@[i])].dirty());
            },
            EditorRecord::Token(token) => {},
        }
        if dirty::change_below(records, planned, kid, planned.len() as int) {
            let changed = choose|changed: int|
                0 <= changed < planned.len()
                    && #[trigger] dirty::kids_changed(records, planned, changed)
                    && dirty::plan_above(planned, kid, changed);
            let levels = choose|levels: nat| #[trigger]
                dirty::plan_ascend(planned, changed, levels) == Some(kid);
            assert(dirty::plan_ascend(planned, changed, levels + 1) == Some(slot));
            assert(dirty::plan_above(planned, slot, changed));
            assert(dirty::change_below(records, planned, slot, planned.len() as int));
        }
        assert(cursor_editor::record_agrees(editor.owner, records, editor.trees@, kid));
        checks::lemma_parent_higher(editor, kid);
        if records[kid] is Node {
            lemma_untouched_tree(
                editor,
                target,
                start,
                end,
                insertions,
                planned,
                trees,
                kid,
            );
        }
    }
    assert(cursor_editor::trees_of(trees, kids)
        =~= cursor_editor::trees_of(editor.trees@, kids)) by {
        assert forall|i: int| 0 <= i < kids.len() implies trees[cursor_editor::slot_of(kids[i])]
            == editor.trees@[cursor_editor::slot_of(kids[i])] by {
            assert(kids[i] == planned[slot].kids()[i]);
        }
    }
}

/// Committing a checked plan gives an arena that agrees.
proof fn lemma_commit_agrees(
    before: SyntaxEditor,
    after: SyntaxEditor,
    target: int,
    start: int,
    end: int,
    insertions: Seq<EditorElementId>,
    unmarked: Seq<PlannedRecord>,
    planned: Seq<PlannedRecord>,
    trees: Seq<Tree>,
)
    requires
        before.valid(),
        0 <= target < before.slots(),
        0 <= start <= end <= before.children_at(target).len(),
        forall|i: int| 0 <= i < insertions.len() ==> before.owns(#[trigger] insertions[i]),
        plans_splice(before, target, start, end, insertions, unmarked),
        spliced_shape(before, target, start, end, insertions, trees),
        cursor_editor::plan_linked(before.owner, unmarked),
        offsets::plan_lens(unmarked, trees),
        plan::kids_planned(unmarked),
        forall|s: int| 0 <= s < unmarked.len()
            ==> #[trigger] offsets::offset_right(unmarked, trees, s),
        planned.len() == unmarked.len(),
        forall|s: int|
            0 <= s < unmarked.len() ==> dirty::same_but_dirty(unmarked[s], #[trigger] planned[s]),
        forall|s: int|
            0 <= s < unmarked.len() ==> ((#[trigger] planned[s]).dirty() <==> unmarked[s].dirty()
                || dirty::change_below(before.records@, unmarked, s, unmarked.len() as int)),
        after.owner == before.owner,
        after.records@.len() == before.records@.len(),
        forall|s: int|
            0 <= s < planned.len() ==> committed(
                before.records@[s],
                planned[s],
                #[trigger] after.records@[s],
            ),
    ensures
        cursor_editor::arena_agrees(after.owner, after.records@, trees),
{
    let owner = after.owner;
    let records = after.records@;
    assert forall|s: int| 0 <= s < records.len()
        implies #[trigger] cursor_editor::id_at(owner, records, s) == cursor_editor::id_at(
        before.owner,
        before.records@,
        s,
    ) by {
        assert(committed(before.records@[s], planned[s], records[s]));
    }
    assert forall|slot: int| 0 <= slot < records.len()
        implies #[trigger] cursor_editor::record_agrees(
        owner,
        records,
        trees,
        slot,
    ) by {
        let old_record = before.records@[slot];
        assert(cursor_editor::record_agrees(before.owner, before.records@, before.trees@, slot));
        assert(committed(old_record, planned[slot], records[slot]));
        assert(dirty::same_but_dirty(unmarked[slot], planned[slot]));
        assert(unmarked[slot].text_len@ == trees[slot].len());
        assert(offsets::offset_right(unmarked, trees, slot));
        let kids = unmarked[slot].kids();
        assert(records[slot].children() == kids);
        assert forall|i: int| 0 <= i < kids.len() implies {
            &&& cursor_editor::names_record(owner, records, #[trigger] kids[i])
            &&& records[cursor_editor::slot_of(kids[i])].parent() == Some(
                EditorNodeId { owner, slot: slot as usize },
            )
            &&& records[cursor_editor::slot_of(kids[i])].index() == Some(i as usize)
        } by {
            let kid = cursor_editor::slot_of(kids[i]);
            assert(kids[i] == unmarked[slot].kids()[i]);
            assert(spliced_kids(before, target, start, end, insertions, slot).contains(kids[i]));
            lemma_spliced_member(before, target, start, end, insertions, slot, kids[i]);
            assert(cursor_editor::id_at(owner, records, kid)
                == cursor_editor::id_at(before.owner, before.records@, kid));
            assert(committed(before.records@[kid], planned[kid], records[kid]));
            assert(dirty::same_but_dirty(unmarked[kid], planned[kid]));
        }
        assert(cursor_editor::children_linked(owner, records, slot)) by {
            assert forall|i: int| 0 <= i < records[slot].children().len() implies {
                let child = records[cursor_editor::slot_of(#[trigger] records[slot].children()[i])];
                &&& child.parent() == Some(EditorNodeId { owner, slot: slot as usize })
                &&& child.index() == Some(i as usize)
            } by {
                assert(cursor_editor::names_record(owner, records, kids[i]));
            }
        }
        assert(cursor_editor::link_agrees(owner, records, trees, slot)) by {
            match unmarked[slot].parent {
                Some(parent) => {
                    let upper = parent.slot as int;
                    assert(upper < unmarked.len());
                    assert(committed(before.records@[upper], planned[upper], records[upper]));
                    assert(dirty::same_but_dirty(unmarked[upper], planned[upper]));
                    let index = unmarked[slot].index->0 as int;
                    let kid = unmarked[upper].kids()[index];
                    assert(cursor_editor::slot_of(kid) == slot);
                    assert(spliced_kids(before, target, start, end, insertions, upper).contains(
                        kid,
                    ));
                    lemma_spliced_member(before, target, start, end, insertions, upper, kid);
                    assert(cursor_editor::id_at(owner, records, slot) == cursor_editor::id_at(
                        before.owner,
                        before.records@,
                        slot,
                    ));
                },
                None => {},
            }
        }
        match records[slot] {
            EditorRecord::Node(node) => {
                assert(old_record is Node);
                assert(trees[slot] == (Tree::Node {
                    kind: node.green@.kind(),
                    children: cursor_editor::trees_of(trees, kids),
                }));
                assert forall|i: int| 0 <= i < node.children@.len()
                    implies cursor_editor::names_record(
                    owner,
                    records,
                    #[trigger] node.children@[i],
                ) by {
                    assert(cursor_editor::names_record(owner, records, kids[i]));
                }
                if !node.dirty {
                    assert(!planned[slot].dirty());
                    assert(!before.dirty_at(slot));
                    lemma_untouched_tree(
                        before,
                        target,
                        start,
                        end,
                        insertions,
                        unmarked,
                        trees,
                        slot,
                    );
                    assert forall|i: int| 0 <= i < node.children@.len() implies {
                        let child = records[cursor_editor::slot_of(#[trigger] node.children@[i])];
                        &&& node.green.elements()[i] == child.green()
                        &&& !child.dirty()
                    } by {
                        let kid = cursor_editor::slot_of(kids[i]);
                        assert(cursor_editor::names_record(owner, records, kids[i]));
                        assert(kids[i] == unmarked[slot].kids()[i]);
                        assert(committed(before.records@[kid], planned[kid], records[kid]));
                        assert(planned[kid].dirty() <==> unmarked[kid].dirty()
                            || dirty::change_below(
                            before.records@,
                            unmarked,
                            kid,
                            unmarked.len() as int,
                        ));
                        assert(before.records@[slot].children()[i] == kids[i]);
                        assert(old_record->Node_0.children@[i] == kids[i]);
                    }
                }
                assert(cursor_editor::content_agrees(owner, records, trees, slot));
            },
            EditorRecord::Token(token) => {
                assert(trees[slot] == before.tree(slot));
                assert(cursor_editor::content_agrees(owner, records, trees, slot));
            },
        }
    }
}

/// Ancestors are the same in the editor and in the plan that it took over.
proof fn lemma_ascend_plan(
    after: SyntaxEditor,
    planned: Seq<PlannedRecord>,
    slot: int,
    levels: nat,
)
    requires
        planned.len() == after.records@.len(),
        0 <= slot < planned.len(),
        cursor_editor::plan_linked(after.owner, planned),
        forall|s: int|
            0 <= s < planned.len() ==> (#[trigger] after.records@[s]).parent()
                == planned[s].parent,
    ensures
        checks::ascend(after, slot, levels) == dirty::plan_ascend(planned, slot, levels),
        dirty::plan_ascend(planned, slot, levels) matches Some(upper) ==> 0 <= upper
            < planned.len(),
    decreases levels,
{
    if levels > 0 {
        lemma_ascend_plan(after, planned, slot, (levels - 1) as nat);
        match dirty::plan_ascend(planned, slot, (levels - 1) as nat) {
            Some(below) => {
                assert(after.records@[below].parent() == planned[below].parent);
            },
            None => {},
        }
    }
}

impl SyntaxEditor {
    /// Transactionally splice a node's original child sequence.
    ///
    /// The committed sequence is the original prefix excluding insertion IDs, followed by insertion
    /// IDs in caller order, followed by the original suffix excluding insertion IDs.
    pub fn splice_children(
        &mut self,
        target: &EditorNodeId,
        range: Range<usize>,
        insertions: Vec<EditorElementId>,
    ) -> (outcome: Result<SpliceOutcome, EditError>)
        requires
            old(self).valid(),
        ensures
            final(self).valid(),
            splice_done(
                *old(self),
                *final(self),
                *target,
                range.start,
                range.end,
                insertions@,
                outcome,
            ),
    {
        let ghost before = *self;
        let original = match self.children(target) {
            Ok(children) => children,
            Err(error) => {
                return Err(error);
            },
        };
        let child_count: usize = original.len();
        if range.start > range.end || range.end > child_count {
            return Err(
                EditError::InvalidChildRange { start: range.start, end: range.end, child_count },
            );
        }
        let mut position: usize = 0;
        while position < insertions.len()
            invariant
                *self == before,
                position <= insertions@.len(),
                before.owns(NodeOrToken::Node(*target)),
                range.start <= range.end <= before.children_at(target.slot()).len(),
                before == *old(self),
                before.valid(),
                forall|i: int| 0 <= i < position ==> before.owns(#[trigger] insertions@[i]),
            decreases insertions@.len() - position,
        {
            match self.validate_element(&insertions[position]) {
                Ok(_) => {},
                Err(error) => {
                    assert(!before.owns(insertions@[position as int]));
                    return Err(error);
                },
            }
            position += 1;
        }
        match validate_duplicates(&insertions) {
            Ok(_) => {},
            Err(error) => {
                proof {
                    if let EditError::DuplicateInsertion { first_position, duplicate_position } =
                        error {
                        assert(insertions@[first_position as int]
                            == insertions@[duplicate_position as int]);
                    }
                }
                return Err(error);
            },
        }
        match self.validate_cycles(target, &insertions) {
            Ok(_) => {},
            Err(error) => {
                return Err(error);
            },
        }
        let detached = select_outside(&original, range.start, range.end, &insertions);
        let mut planned = self.plan_splice(target, &original, range.start, range.end, &insertions);
        let ghost goal = target.slot();
        let ghost low = range.start as int;
        let ghost high = range.end as int;
        let ghost trees = lemma_spliced_shape(before, goal, low, high, insertions@);
        proof {
            lemma_plan_well_formed(before, goal, low, high, insertions@, planned@);
        }
        match normalize_parent_links(&self.owner, &mut planned) {
            Ok(_) => {},
            Err(error) => {
                return Err(error);
            },
        }
        let ghost linked = planned@;
        let count: usize = planned.len();
        proof {
            assert(plans_splice(before, goal, low, high, insertions@, linked));
            lemma_plan_well_formed(before, goal, low, high, insertions@, linked);
            lemma_plan_shape(before, goal, low, high, insertions@, linked, trees);
            lemma_linked_nodes(before.owner, linked);
        }
        match recompute_lengths(&mut planned) {
            Ok(_) => {},
            Err(error) => {
                proof {
                    lemma_length_error(before, goal, low, high, insertions@, linked, trees, error);
                }
                return Err(error);
            },
        }
        let ghost measured_plan = planned@;
        proof {
            lemma_lengths_done(before, goal, low, high, insertions@, linked, measured_plan, trees);
        }
        match recompute_offsets(&mut planned, Ghost(before.owner), Ghost(trees)) {
            Ok(_) => {},
            Err(error) => {
                return Err(error);
            },
        }
        let ghost unmarked = planned@;
        proof {
            lemma_offsets_done(
                before,
                goal,
                low,
                high,
                insertions@,
                measured_plan,
                unmarked,
                trees,
            );
        }
        mark_dirty_ancestors(&self.records, &mut planned, Ghost(before.owner), Ghost(trees));
        let ghost marked = planned@;
        assert forall|s: int| 0 <= s < marked.len() implies #[trigger] variant_fits(
            self.records@,
            marked,
            s,
        ) by {
            assert(marked[s].is_node() <==> self.records@[s] is Node);
        }
        match self.commit_planned(planned) {
            Ok(_) => {},
            Err(error) => {
                return Err(error);
            },
        }
        self.trees = Ghost(trees);
        proof {
            lemma_commit_agrees(
                before,
                *self,
                goal,
                low,
                high,
                insertions@,
                unmarked,
                marked,
                trees,
            );
            lemma_splice_valid(
                before,
                *self,
                goal,
                low,
                high,
                insertions@,
                unmarked,
                marked,
            );
        }
        Ok(SpliceOutcome { detached })
    }

    /// Plan the child sequences of a splice.
    fn plan_splice(
        &self,
        target: &EditorNodeId,
        original: &Vec<EditorElementId>,
        start: usize,
        end: usize,
        insertions: &Vec<EditorElementId>,
    ) -> (planned: Vec<PlannedRecord>)
        requires
            self.valid(),
            self.owns(NodeOrToken::Node(*target)),
            original@ == self.children_at(target.slot()),
            start <= end <= original@.len(),
            forall|i: int|
                0 <= i < insertions@.len() ==> self.owns(#[trigger] insertions@[i]),
        ensures
            plans_splice(
                *self,
                target.slot(),
                start as int,
                end as int,
                insertions@,
                planned@,
            ),
    {
        let mut planned = self.planned_records();
        let count: usize = planned.len();
        let ghost first = planned@;
        let ghost goal = target.slot();
        let mut position: usize = 0;
        proof {
            assert forall|s: int| 0 <= s < first.len() implies (#[trigger] first[s]).kids()
                == checks::outside(self.children_at(s), insertions@.take(0)) by {
                assert(insertions@.take(0) =~= Seq::empty());
                checks::lemma_outside_nothing(self.children_at(s));
            }
        }
        while position < insertions.len()
            invariant
                self.valid(),
                self.owns(NodeOrToken::Node(*target)),
                goal == target.slot(),
                first.len() == self.records@.len() == planned@.len(),
                forall|s: int|
                    0 <= s < first.len() ==> plan::plans(self.records@[s], #[trigger] first[s]),
                forall|i: int|
                    0 <= i < insertions@.len() ==> self.owns(#[trigger] insertions@[i]),
                position <= insertions@.len(),
                forall|s: int|
                    0 <= s < first.len() ==> same_but_kids(first[s], #[trigger] planned@[s]),
                forall|s: int|
                    0 <= s < first.len() && s != goal ==> (#[trigger] planned@[s]).kids()
                        == checks::outside(self.children_at(s), insertions@.take(position as int)),
            decreases insertions@.len() - position,
        {
            let insertion = &insertions[position];
            let slot: usize = element_slot(insertion);
            let ghost earlier = planned@;
            assert(self.owns(insertions@[position as int]));
            assert(same_but_kids(first[slot as int], planned@[slot as int]));
            assert(plan::plans(self.records@[slot as int], first[slot as int]));
            let ghost done = insertions@.take(position as int);
            assert(insertions@.take(position + 1) =~= done.push(*insertion));
            let parent: Option<usize> = match &planned[slot].parent {
                Some(parent) => Some(parent.slot),
                None => None,
            };
            let ghost mut listing: int = -1;
            if let Some(upper) = parent {
                proof {
                    listing = upper as int;
                    checks::lemma_parent_higher(*self, slot as int);
                    assert(plan::plans(self.records@[upper as int], first[upper as int]));
                    assert(same_but_kids(first[upper as int], planned@[upper as int]));
                }
                if upper != target.slot {
                    let kids = planned[upper].children();
                    let mut removed: Vec<EditorElementId> = Vec::new();
                    removed.push(copy_id(insertion));
                    let kept = select_outside(&kids, 0, kids.len(), &removed);
                    proof {
                        assert(kids@.subrange(0, kids@.len() as int) =~= kids@);
                        assert(removed@ =~= seq![*insertion]);
                        checks::lemma_outside_more(
                            self.children_at(upper as int), done, *insertion);
                    }
                    set_planned_children(&mut planned, upper, kept);
                }
            }
            proof {
                assert forall|s: int|
                    0 <= s < first.len() && s != goal implies (#[trigger] planned@[s]).kids()
                    == checks::outside(self.children_at(s), insertions@.take(position + 1)) by {
                    if s != listing {
                        assert(planned@[s] == earlier[s]);
                        lemma_children_distinct(*self, s);
                        if self.children_at(s).contains(*insertion) {
                            let i = choose|i: int|
                                0 <= i < self.children_at(s).len() && self.children_at(s)[i]
                                    == *insertion;
                            assert(self.parent_at(cursor_editor::slot_of(self.children_at(s)[i]))
                                == Some(
                                EditorNodeId { owner: self.owner, slot: s as usize },
                            ));
                        }
                        checks::lemma_outside_more(self.children_at(s), done, *insertion);
                    }
                }
            }
            position += 1;
        }
        assert(insertions@.take(insertions@.len() as int) =~= insertions@);
        let mut final_children = select_outside(original, 0, start, insertions);
        let mut inserted = copy_ids(insertions);
        final_children.append(&mut inserted);
        let mut rest = select_outside(original, end, original.len(), insertions);
        final_children.append(&mut rest);
        proof {
            assert(original@.subrange(0, start as int) =~= original@.take(start as int));
            assert(original@.subrange(end as int, original@.len() as int) =~= original@.skip(
                end as int,
            ));
            assert(plan::plans(self.records@[goal], first[goal]));
            assert(same_but_kids(first[goal], planned@[goal]));
        }
        set_planned_children(&mut planned, target.slot, final_children);
        proof {
            assert forall|s: int| 0 <= s < planned@.len() implies {
                &&& (#[trigger] planned@[s]).kids() == spliced_kids(
                    *self,
                    goal,
                    start as int,
                    end as int,
                    insertions@,
                    s,
                )
                &&& planned@[s].is_node() <==> self.records@[s] is Node
                &&& planned@[s].dirty() == self.records@[s].dirty()
                &&& !planned@[s].is_node() ==> planned@[s].text_len@ == self.tree(s).len()
            } by {
                assert(plan::plans(self.records@[s], first[s]));
                assert(cursor_editor::record_agrees(self.owner, self.records@, self.trees@, s));
            }
        }
        planned
    }
}

/// The trees after a splice have the shape of its plan.
proof fn lemma_plan_shape(
    editor: SyntaxEditor,
    target: int,
    start: int,
    end: int,
    insertions: Seq<EditorElementId>,
    planned: Seq<PlannedRecord>,
    trees: Seq<Tree>,
)
    requires
        editor.valid(),
        plans_splice(editor, target, start, end, insertions, planned),
        spliced_shape(editor, target, start, end, insertions, trees),
    ensures
        offsets::plan_shape(planned, trees),
        forall|s: int|
            0 <= s < planned.len() && !(#[trigger] planned[s]).is_node() ==> planned[s].text_len@
                == trees[s].len(),
        forall|s: int|
            0 <= s < planned.len() ==> (#[trigger] planned[s]).kids().len() <= usize::MAX,
{
    assert forall|s: int| 0 <= s < planned.len() implies #[trigger] offsets::shape_right(
        planned,
        trees,
        s,
    ) by {
        assert(cursor_editor::record_agrees(editor.owner, editor.records@, editor.trees@, s));
        assert(planned[s].is_node() <==> editor.records@[s] is Node);
        assert(trees[s].kind() == editor.tree(s).kind());
    }
    assert forall|s: int|
        0 <= s < planned.len() && !(#[trigger] planned[s]).is_node() implies planned[s].text_len@
        == trees[s].len() by {
        assert(offsets::shape_right(planned, trees, s));
    }
    assert forall|s: int| 0 <= s < planned.len() implies (#[trigger] planned[s]).kids().len()
        <= usize::MAX by {
        match planned[s].content {
            PlannedContent::Node(node) => {
                assert(node.children.len() == node.children@.len());
            },
            PlannedContent::Token => {},
        }
    }
}

/// A rejected length computation is an overflow after the splice.
proof fn lemma_length_error(
    editor: SyntaxEditor,
    target: int,
    start: int,
    end: int,
    insertions: Seq<EditorElementId>,
    planned: Seq<PlannedRecord>,
    trees: Seq<Tree>,
    error: EditError,
)
    requires
        editor.valid(),
        plans_splice(editor, target, start, end, insertions, planned),
        spliced_shape(editor, target, start, end, insertions, trees),
        plan::kids_planned(planned),
        offsets::plan_shape(planned, trees),
        forall|s: int|
            0 <= s < planned.len() && !(#[trigger] planned[s]).is_node() ==> planned[s].text_len@
                == trees[s].len(),
        match error {
            EditError::Cycle => exists|s: int|
                0 <= s < planned.len() && !(#[trigger] lengths::grounded(planned, s)),
            _ => exists|s: int, accumulated: TextSize, next: TextSize|
                error == EditError::Green(lengths::overflow_error(accumulated, next))
                    && #[trigger] lengths::overflows(planned, s, accumulated, next),
        },
    ensures
        error matches EditError::Green(GreenError::TextLengthOverflow { accumulated, next })
            && splice_overflows(editor, target, start, end, insertions, accumulated, next),
{
    if error == EditError::Cycle {
        let s = choose|s: int| 0 <= s < planned.len()
            && !(#[trigger] lengths::grounded(planned, s));
        lemma_measured_tree(planned, trees, s, trees[s].height());
        assert(lengths::measured(planned, s, trees[s].height()) is Some);
        assert(lengths::grounded(planned, s));
    } else {
        let (s, accumulated, next) = choose|s: int, accumulated: TextSize, next: TextSize|
            error == EditError::Green(lengths::overflow_error(accumulated, next))
                && #[trigger] lengths::overflows(
                planned,
                s,
                accumulated,
                next,
            );
        lemma_overflow_in_trees(planned, trees, s, accumulated, next);
        assert(node::first_overflow(trees[s].children(), accumulated, next));
        assert(splice_overflows(editor, target, start, end, insertions, accumulated, next));
    }
}

/// Recomputed lengths are those of the trees.
proof fn lemma_lengths_done(
    editor: SyntaxEditor,
    target: int,
    start: int,
    end: int,
    insertions: Seq<EditorElementId>,
    before: Seq<PlannedRecord>,
    planned: Seq<PlannedRecord>,
    trees: Seq<Tree>,
)
    requires
        editor.valid(),
        plans_splice(editor, target, start, end, insertions, before),
        spliced_shape(editor, target, start, end, insertions, trees),
        plan::kids_planned(before),
        cursor_editor::plan_linked(editor.owner, before),
        offsets::plan_shape(before, trees),
        forall|s: int|
            0 <= s < before.len() && !(#[trigger] before[s]).is_node() ==> before[s].text_len@
                == trees[s].len(),
        planned.len() == before.len(),
        forall|s: int|
            0 <= s < before.len() ==> lengths::same_but_node_len(before[s], #[trigger] planned[s]),
        forall|s: int| 0 <= s < before.len() ==> #[trigger] lengths::settled(before, planned, s),
    ensures
        plans_splice(editor, target, start, end, insertions, planned),
        plan::kids_planned(planned),
        cursor_editor::plan_linked(editor.owner, planned),
        offsets::plan_shape(planned, trees),
        offsets::plan_lens(planned, trees),
{
    assert forall|s: int| 0 <= s < planned.len() implies (#[trigger] planned[s]).kids()
        == before[s].kids() && planned[s].is_node() == before[s].is_node() && planned[s].dirty()
        == before[s].dirty() by {
        assert(lengths::same_but_node_len(before[s], planned[s]));
    }
    assert forall|s: int| 0 <= s < planned.len() implies (#[trigger] planned[s]).text_len@
        == trees[s].len() by {
        assert(lengths::settled(before, planned, s));
        let fuel = choose|fuel: nat| #[trigger]
            lengths::measured(before, s, fuel) == Some(planned[s].text_len@);
        lemma_measured_tree(before, trees, s, trees[s].height());
        lemma_measured_once(before, s, fuel, trees[s].height());
    }
    lemma_same_links(editor.owner, before, planned);
    assert forall|s: int| 0 <= s < planned.len() implies #[trigger] offsets::shape_right(
        planned,
        trees,
        s,
    ) by {
        assert(offsets::shape_right(before, trees, s));
        assert(planned[s].kids() == before[s].kids());
    }
    assert forall|s: int| 0 <= s < planned.len() implies {
        &&& (#[trigger] planned[s]).kids() == spliced_kids(
            editor,
            target,
            start,
            end,
            insertions,
            s,
        )
        &&& planned[s].is_node() <==> editor.records@[s] is Node
        &&& planned[s].dirty() == editor.records@[s].dirty()
        &&& !planned[s].is_node() ==> planned[s].text_len@ == editor.tree(s).len()
    } by {
        assert(before[s].kids() == planned[s].kids());
        assert(lengths::same_but_node_len(before[s], planned[s]));
    }
}

/// Plans with the same links and children are linked alike.
proof fn lemma_same_links(
    owner: EditorOwner,
    before: Seq<PlannedRecord>,
    planned: Seq<PlannedRecord>,
)
    requires
        plan::kids_planned(before),
        cursor_editor::plan_linked(owner, before),
        planned.len() == before.len(),
        forall|s: int|
            0 <= s < before.len() ==> {
                &&& (#[trigger] planned[s]).kids() == before[s].kids()
                &&& planned[s].is_node() == before[s].is_node()
                &&& planned[s].parent == before[s].parent
                &&& planned[s].index == before[s].index
            },
    ensures
        plan::kids_planned(planned),
        cursor_editor::plan_linked(owner, planned),
{
    assert forall|s: int, i: int|
        0 <= s < planned.len() && 0 <= i < planned[s].kids().len() implies {
        let kid = #[trigger] planned[s].kids()[i];
        &&& 0 <= cursor_editor::slot_of(kid) < planned.len()
        &&& kid is Node <==> planned[cursor_editor::slot_of(kid)].is_node()
        &&& planned[cursor_editor::slot_of(kid)].parent
            == Some(EditorNodeId { owner, slot: s as usize })
        &&& planned[cursor_editor::slot_of(kid)].index == Some(i as usize)
    } by {
        assert(planned[s].kids() == before[s].kids());
        let kid = before[s].kids()[i];
        assert(planned[cursor_editor::slot_of(kid)].parent
            == before[cursor_editor::slot_of(kid)].parent);
    }
    assert forall|t: int|
        #![trigger planned[t]]
        0 <= t < planned.len() implies match planned[t].parent {
        Some(parent) => {
            &&& parent.owner == owner
            &&& parent.slot < planned.len()
            &&& planned[t].index matches Some(index) && index
                < planned[parent.slot as int].kids().len() && cursor_editor::slot_of(
                planned[parent.slot as int].kids()[index as int],
            ) == t
        },
        None => planned[t].index is None,
    } by {
        assert(before[t].parent == planned[t].parent);
        match before[t].parent {
            Some(parent) => {
                assert(planned[parent.slot as int].kids() == before[parent.slot as int].kids());
            },
            None => {},
        }
    }
}

/// Assigning offsets keeps the rest of the plan.
proof fn lemma_offsets_done(
    editor: SyntaxEditor,
    target: int,
    start: int,
    end: int,
    insertions: Seq<EditorElementId>,
    before: Seq<PlannedRecord>,
    planned: Seq<PlannedRecord>,
    trees: Seq<Tree>,
)
    requires
        plans_splice(editor, target, start, end, insertions, before),
        plan::kids_planned(before),
        cursor_editor::plan_linked(editor.owner, before),
        offsets::plan_shape(before, trees),
        offsets::plan_lens(before, trees),
        planned.len() == before.len(),
        forall|s: int|
            0 <= s < before.len() ==> offsets::same_but_offset(before[s], #[trigger] planned[s]),
    ensures
        plans_splice(editor, target, start, end, insertions, planned),
        plan::kids_planned(planned),
        cursor_editor::plan_linked(editor.owner, planned),
        offsets::plan_shape(planned, trees),
        offsets::plan_lens(planned, trees),
        forall|s: int|
            0 <= s < planned.len() ==> ((#[trigger] editor.records@[s]) is Node
                <==> planned[s].is_node()),
{
    assert forall|s: int| 0 <= s < planned.len() implies {
        &&& (#[trigger] planned[s]).kids() == before[s].kids()
        &&& planned[s].is_node() == before[s].is_node()
        &&& planned[s].parent == before[s].parent
        &&& planned[s].index == before[s].index
        &&& planned[s].dirty() == before[s].dirty()
        &&& planned[s].text_len == before[s].text_len
    } by {
        assert(offsets::same_but_offset(before[s], planned[s]));
    }
    lemma_same_links(editor.owner, before, planned);
    assert forall|s: int| 0 <= s < planned.len() implies #[trigger] offsets::shape_right(
        planned,
        trees,
        s,
    ) by {
        assert(offsets::shape_right(before, trees, s));
        assert(planned[s].kids() == before[s].kids());
    }
    assert forall|s: int| 0 <= s < planned.len() implies (#[trigger] planned[s]).text_len@
        == trees[s].len() by {
        assert(before[s].text_len@ == trees[s].len());
    }
    assert forall|s: int| 0 <= s < planned.len() implies {
        &&& (#[trigger] planned[s]).kids() == spliced_kids(
            editor,
            target,
            start,
            end,
            insertions,
            s,
        )
        &&& planned[s].is_node() <==> editor.records@[s] is Node
        &&& planned[s].dirty() == editor.records@[s].dirty()
        &&& !planned[s].is_node() ==> planned[s].text_len@ == editor.tree(s).len()
    } by {
        assert(before[s].kids() == planned[s].kids());
    }
    assert forall|s: int| 0 <= s < planned.len() implies ((#[trigger] editor.records@[s]) is Node
        <==> planned[s].is_node()) by {
        assert(planned[s].kids() == before[s].kids());
    }
}

/// A committed splice is a valid editor that differs as a splice does.
proof fn lemma_splice_valid(
    before: SyntaxEditor,
    after: SyntaxEditor,
    target: int,
    start: int,
    end: int,
    insertions: Seq<EditorElementId>,
    unmarked: Seq<PlannedRecord>,
    planned: Seq<PlannedRecord>,
)
    requires
        before.valid(),
        plans_splice(before, target, start, end, insertions, unmarked),
        spliced_shape(before, target, start, end, insertions, after.trees@),
        cursor_editor::plan_linked(before.owner, unmarked),
        planned.len() == unmarked.len(),
        forall|s: int|
            0 <= s < unmarked.len() ==> dirty::same_but_dirty(unmarked[s], #[trigger] planned[s]),
        forall|s: int|
            0 <= s < unmarked.len() ==> ((#[trigger] planned[s]).dirty() <==> unmarked[s].dirty()
                || dirty::change_below(before.records@, unmarked, s, unmarked.len() as int)),
        cursor_editor::arena_agrees(after.owner, after.records@, after.trees@),
        after.owner == before.owner,
        after.root == before.root,
        after.source_root == before.source_root,
        after.source_path == before.source_path,
        after.source_children == before.source_children,
        after.records@.len() == before.records@.len(),
        forall|s: int|
            0 <= s < planned.len() ==> committed(
                before.records@[s],
                planned[s],
                #[trigger] after.records@[s],
            ),
    ensures
        after.valid(),
        spliced(before, after, target, start, end, insertions),
{
    assert forall|s: int| 0 <= s < after.records@.len() implies #[trigger] cursor_editor::id_at(
        after.owner,
        after.records@,
        s,
    ) == cursor_editor::id_at(before.owner, before.records@, s) && after.records@[s].parent()
        == unmarked[s].parent && after.records@[s].children() == unmarked[s].kids() by {
        assert(committed(before.records@[s], planned[s], after.records@[s]));
        assert(dirty::same_but_dirty(unmarked[s], planned[s]));
    }
    assert(cursor_editor::names_record(
        after.owner, after.records@, NodeOrToken::Node(after.root))) by {
        assert(cursor_editor::id_at(after.owner, after.records@, after.root.slot as int)
            == cursor_editor::id_at(
            before.owner,
            before.records@,
            after.root.slot as int,
        ));
    }
    assert(after.source_valid()) by {
        let children = after.source_children@;
        assert forall|slot: int, index: int|
            0 <= slot < children.len() && 0 <= index < children[slot]@.len() implies {
            let child = #[trigger] children[slot]@[index];
            &&& 0 <= cursor_editor::slot_of(child) < children.len()
            &&& cursor_editor::names_record(after.owner, after.records@, child)
        } by {
            let child = before.source_children@[slot]@[index];
            assert(cursor_editor::names_record(before.owner, before.records@, child));
            assert(cursor_editor::id_at(
                after.owner, after.records@, cursor_editor::slot_of(child)) == cursor_editor::id_at(
                before.owner,
                before.records@,
                cursor_editor::slot_of(child),
            ));
        }
        assert forall|path: Seq<int>|
            #[trigger] model::path_exists(after.source().tree(), path) implies {
            let slot = cursor_editor::follow(children, 0, path);
            let tree = model::tree_at(after.source().tree(), path);
            &&& 0 <= slot < children.len()
            &&& children[slot]@.len() == tree.children().len()
            &&& after.records@[slot] is Node <==> tree is Node
        } by {
            assert(model::path_exists(before.source().tree(), path));
            let slot = cursor_editor::follow(children, 0, path);
            assert(committed(before.records@[slot], planned[slot], after.records@[slot]));
        }
    }
    assert forall|s: int| 0 <= s < unmarked.len() implies (#[trigger] after.records@[s]).parent()
        == unmarked[s].parent by {
        assert(cursor_editor::id_at(after.owner, after.records@, s)
            == cursor_editor::id_at(before.owner, before.records@, s));
    }
    assert forall|s: int| 0 <= s < before.slots() implies {
        &&& #[trigger] after.id(s) == before.id(s)
        &&& after.green_at(s) == before.green_at(s)
        &&& after.children_at(s) == spliced_kids(before, target, start, end, insertions, s)
        &&& after.tree(s).kind() == before.tree(s).kind()
        &&& before.tree(s) is Token ==> after.tree(s) == before.tree(s)
        &&& after.dirty_at(s) <==> before.dirty_at(s) || touched(before, after, s)
    } by {
        assert(committed(before.records@[s], planned[s], after.records@[s]));
        assert(cursor_editor::id_at(after.owner, after.records@, s)
            == cursor_editor::id_at(before.owner, before.records@, s));
        assert(after.trees@[s].kind() == before.tree(s).kind());
        assert(unmarked[s].kids() == spliced_kids(before, target, start, end, insertions, s));
        assert(planned[s].dirty() <==> unmarked[s].dirty() || dirty::change_below(
            before.records@,
            unmarked,
            s,
            unmarked.len() as int,
        ));
        if dirty::change_below(before.records@, unmarked, s, unmarked.len() as int) {
            let changed = choose|changed: int|
                0 <= changed < unmarked.len() && #[trigger] dirty::kids_changed(
                    before.records@,
                    unmarked,
                    changed,
                ) && dirty::plan_above(unmarked, s, changed);
            let levels = choose|levels: nat| #[trigger]
                dirty::plan_ascend(unmarked, changed, levels) == Some(s);
            lemma_ascend_plan(after, unmarked, changed, levels);
            assert(checks::is_above(after, s, changed));
            assert(cursor_editor::id_at(after.owner, after.records@, changed)
                == cursor_editor::id_at(
                before.owner,
                before.records@,
                changed,
            ));
            assert(after.children_at(changed) != before.children_at(changed));
            assert(touched(before, after, s));
        }
        if touched(before, after, s) {
            let changed = choose|changed: int|
                {
                    &&& 0 <= changed < before.slots()
                    &&& before.id(changed) is Node
                    &&& (#[trigger] after.children_at(changed)) != before.children_at(changed)
                    &&& checks::is_above(after, s, changed)
                };
            let levels = choose|levels: nat| #[trigger] checks::ascend(after, changed, levels)
                == Some(s);
            lemma_ascend_plan(after, unmarked, changed, levels);
            assert(dirty::plan_above(unmarked, s, changed));
            assert(cursor_editor::id_at(after.owner, after.records@, changed)
                == cursor_editor::id_at(
                before.owner,
                before.records@,
                changed,
            ));
            assert(dirty::kids_changed(before.records@, unmarked, changed));
        }
    }
}

} // verus!
