//! How long the texts of an editor can get by a splice.

use vstd::prelude::*;

use crate::cursor_editor;
use crate::cursor_editor::checks;
use crate::cursor_editor::splicing;
use crate::cursor_editor::EditError;
use crate::cursor_editor::EditorElementId;
use crate::cursor_editor::EditorNodeId;
use crate::cursor_editor::SpliceOutcome;
use crate::cursor_editor::SyntaxEditor;
use crate::green::node;
use crate::green::GreenError;
use crate::model;
use crate::model::Tree;
use crate::splice_laws;
use crate::utility_types::NodeOrToken;

verus! {

/// What the insertions say before they are moved.
pub open spec fn inserted_trees(
    editor: SyntaxEditor,
    insertions: Seq<EditorElementId>,
) -> Seq<Tree> {
    insertions.map_values(|element: EditorElementId| editor.tree(cursor_editor::slot_of(element)))
}

/// A splice is rejected for a length only where the target, or a node above it, would be too long
/// with all insertions added and nothing taken away.
pub proof fn lemma_overflow_is_real(
    before: SyntaxEditor,
    after: SyntaxEditor,
    target: EditorNodeId,
    start: usize,
    end: usize,
    insertions: Seq<EditorElementId>,
    outcome: Result<SpliceOutcome, EditError>,
)
    requires
        before.valid(),
        splicing::splice_done(before, after, target, start, end, insertions, outcome),
        outcome matches Err(EditError::Green(_)),
    ensures
        exists|chain: Seq<int>|
            {
                &&& #[trigger] splice_laws::climbs(before, chain)
                &&& chain[0] == target.slot()
                &&& before.tree(chain.last()).len() + model::forest_len(
                    inserted_trees(before, insertions),
                ) > u32::MAX
            },
{
    match outcome {
        Err(EditError::Green(GreenError::TextLengthOverflow { accumulated, next })) => {
            let low = start as int;
            let high = end as int;
            let (trees, s) = choose|trees: Seq<Tree>, s: int|
                {
                    &&& splicing::spliced_shape(before, target.slot(), low, high, insertions, trees)
                    &&& 0 <= s < trees.len()
                    &&& node::first_overflow((#[trigger] trees[s]).children(), accumulated, next)
                    &&& forall|i: int|
                        0 <= i < trees[s].children().len() ==> (
                        #[trigger] trees[s].children()[i]).len() <= u32::MAX
                };
            node::lemma_first_overflow(trees[s].children(), accumulated, next);
            before.lemma_owned(NodeOrToken::Node(target));
            before.lemma_element(s);
            if checks::is_above(before, s, target.slot()) {
                lemma_upper_grows(before, target.slot(), low, high, insertions, trees, s);
                let levels = choose|levels: nat| #[trigger]
                    checks::ascend(before, target.slot(), levels) == Some(s);
                let chain = splice_laws::lemma_chain_of(before, target.slot(), levels);
                assert(splice_laws::climbs(before, chain));
            } else {
                lemma_beside_shrinks(before, target.slot(), low, high, insertions, trees, s);
            }
        },
        _ => {},
    }
}

/// A splice that takes elements away and inserts none is never rejected for a length.
pub proof fn lemma_removal_fits(
    before: SyntaxEditor,
    after: SyntaxEditor,
    target: EditorNodeId,
    start: usize,
    end: usize,
    outcome: Result<SpliceOutcome, EditError>,
)
    requires
        before.valid(),
        splicing::splice_done(before, after, target, start, end, Seq::empty(), outcome),
        before.owns(NodeOrToken::Node(target)),
        start <= end <= before.children_at(target.slot()).len(),
    ensures
        outcome is Ok,
{
    if outcome is Err {
        lemma_overflow_is_real(before, after, target, start, end, Seq::empty(), outcome);
        let chain = choose|chain: Seq<int>|
            {
                &&& #[trigger] splice_laws::climbs(before, chain)
                &&& chain[0] == target.slot()
                &&& before.tree(chain.last()).len() + model::forest_len(
                    inserted_trees(before, Seq::empty()),
                ) > u32::MAX
            };
        before.lemma_owned(NodeOrToken::Node(target));
        splice_laws::lemma_chain_ascends(before, chain, (chain.len() - 1) as nat);
        crate::editor_laws::lemma_ascend_higher(
            before,
            target.slot(),
            (chain.len() - 1) as nat,
        );
        before.lemma_element(chain.last());
        assert(inserted_trees(before, Seq::empty()) =~= Seq::empty());
    }
}

/// What is left of a list is no longer than the list, where each element has grown by nothing, but
/// for one that may have grown by `bonus`.
proof fn lemma_left_len(
    trees: Seq<Tree>,
    elements: Seq<EditorElementId>,
    excluded: Seq<EditorElementId>,
    old_trees: Seq<Tree>,
    grown: int,
    bonus: nat,
)
    requires
        elements.len() == old_trees.len(),
        forall|i: int|
            0 <= i < elements.len() ==> trees[cursor_editor::slot_of(#[trigger] elements[i])].len()
                <= old_trees[i].len() + if i == grown {
                bonus
            } else {
                0
            },
    ensures
        model::forest_len(
            cursor_editor::trees_of(trees, checks::outside(elements, excluded)),
        ) <= model::forest_len(old_trees) + if 0 <= grown < elements.len() {
            bonus
        } else {
            0
        },
    decreases elements.len(),
{
    let left = checks::outside(elements, excluded);
    if elements.len() > 0 {
        let front = elements.drop_last();
        let last = elements.last();
        let rest = checks::outside(front, excluded);
        assert forall|i: int| 0 <= i < front.len() implies trees[cursor_editor::slot_of(
            #[trigger] front[i],
        )].len() <= old_trees.drop_last()[i].len() + if i == grown {
            bonus
        } else {
            0
        } by {
            assert(elements[i] == front[i]);
        }
        lemma_left_len(trees, front, excluded, old_trees.drop_last(), grown, bonus);
        assert(elements[elements.len() - 1] == last);
        if !excluded.contains(last) {
            let all = cursor_editor::trees_of(trees, left);
            assert(all.drop_last() =~= cursor_editor::trees_of(trees, rest));
            assert(all.last() == trees[cursor_editor::slot_of(last)]);
        }
    } else {
        assert(cursor_editor::trees_of(trees, left) =~= Seq::empty());
    }
}

/// A child of an element that does not lie above the target does not lie above it either.
proof fn lemma_child_not_above(editor: SyntaxEditor, slot: int, index: int, target: int)
    requires
        editor.valid(),
        0 <= slot < editor.slots(),
        0 <= index < editor.children_at(slot).len(),
        !checks::is_above(editor, slot, target),
    ensures
        !checks::is_above(
            editor,
            cursor_editor::slot_of(editor.children_at(slot)[index]),
            target,
        ),
{
    let child = cursor_editor::slot_of(editor.children_at(slot)[index]);
    editor.lemma_child(slot, index);
    editor.lemma_element(slot);
    if checks::is_above(editor, child, target) {
        let levels = choose|levels: nat| #[trigger]
            checks::ascend(editor, target, levels) == Some(child);
        assert(checks::ascend(editor, target, levels + 1) == Some(slot));
    }
}

/// The listed children of an element are shown in its tree, and are lower.
proof fn lemma_children_lower(editor: SyntaxEditor, slot: int, index: int)
    requires
        editor.valid(),
        0 <= slot < editor.slots(),
        0 <= index < editor.children_at(slot).len(),
    ensures
        ({
            let child = cursor_editor::slot_of(editor.children_at(slot)[index]);
            &&& 0 <= child < editor.slots()
            &&& editor.tree(child) == editor.tree(slot).children()[index]
            &&& editor.tree(child).height() < editor.tree(slot).height()
            &&& editor.parent_at(child) is Some
            &&& editor.parent_at(child)->0.slot() == slot
        }),
{
    let child = editor.children_at(slot)[index];
    editor.lemma_child(slot, index);
    editor.lemma_owned(child);
    editor.lemma_element(slot);
    checks::lemma_parent_higher(editor, cursor_editor::slot_of(child));
}

/// An element that does not lie above the target gets no longer.
proof fn lemma_beside_shrinks(
    editor: SyntaxEditor,
    target: int,
    start: int,
    end: int,
    insertions: Seq<EditorElementId>,
    trees: Seq<Tree>,
    slot: int,
)
    requires
        editor.valid(),
        splicing::spliced_shape(editor, target, start, end, insertions, trees),
        0 <= slot < editor.slots(),
        !checks::is_above(editor, slot, target),
    ensures
        trees[slot].len() <= editor.tree(slot).len(),
    decreases editor.tree(slot).height(),
{
    if slot == target {
        assert(checks::ascend(editor, target, 0) == Some(slot));
    }
    assert(trees[slot] == trees[slot]);
    editor.lemma_element(slot);
    if editor.tree(slot) is Node {
        let children = editor.children_at(slot);
        let shown = editor.tree(slot).children();
        assert forall|i: int| 0 <= i < children.len() implies trees[cursor_editor::slot_of(
            #[trigger] children[i],
        )].len() <= shown[i].len() + if i == -1 {
            0nat
        } else {
            0
        } by {
            lemma_child_not_above(editor, slot, i, target);
            lemma_children_lower(editor, slot, i);
            lemma_beside_shrinks(
                editor,
                target,
                start,
                end,
                insertions,
                trees,
                cursor_editor::slot_of(children[i]),
            );
        }
        lemma_left_len(trees, children, insertions, shown, -1, 0);
    }
}

/// Heights rise on the way up.
proof fn lemma_ascend_rises(editor: SyntaxEditor, slot: int, low: nat, high: nat)
    requires
        editor.valid(),
        0 <= slot < editor.slots(),
        low <= high,
        checks::ascend(editor, slot, high) is Some,
    ensures
        checks::ascend(editor, slot, low) is Some,
        editor.tree(checks::ascend(editor, slot, high)->0).height() >= editor.tree(
            checks::ascend(editor, slot, low)->0,
        ).height() + (high - low),
    decreases high - low,
{
    if low < high {
        let below = checks::ascend(editor, slot, (high - 1) as nat);
        assert(below is Some);
        crate::editor_laws::lemma_ascend_higher(editor, slot, (high - 1) as nat);
        checks::lemma_parent_higher(editor, below->0);
        lemma_ascend_rises(editor, slot, low, (high - 1) as nat);
    }
}

/// Only one child of an element lies above the target.
proof fn lemma_one_child_above(
    editor: SyntaxEditor,
    slot: int,
    left: int,
    right: int,
    target: int,
)
    requires
        editor.valid(),
        0 <= slot < editor.slots(),
        0 <= target < editor.slots(),
        0 <= left < editor.children_at(slot).len(),
        0 <= right < editor.children_at(slot).len(),
        checks::is_above(editor, cursor_editor::slot_of(editor.children_at(slot)[left]), target),
        checks::is_above(editor, cursor_editor::slot_of(editor.children_at(slot)[right]), target),
    ensures
        left == right,
{
    let first = cursor_editor::slot_of(editor.children_at(slot)[left]);
    let second = cursor_editor::slot_of(editor.children_at(slot)[right]);
    lemma_children_lower(editor, slot, left);
    lemma_children_lower(editor, slot, right);
    editor.lemma_child(slot, left);
    editor.lemma_child(slot, right);
    let low = choose|levels: nat| #[trigger]
        checks::ascend(editor, target, levels) == Some(first);
    let high = choose|levels: nat| #[trigger]
        checks::ascend(editor, target, levels) == Some(second);
    assert(checks::ascend(editor, target, low + 1) == Some(slot));
    assert(checks::ascend(editor, target, high + 1) == Some(slot));
    if low < high {
        lemma_ascend_rises(editor, target, low + 1, high + 1);
    } else if high < low {
        lemma_ascend_rises(editor, target, high + 1, low + 1);
    }
}

/// A child of the target does not lie above it.
proof fn lemma_own_child_not_above(editor: SyntaxEditor, target: int, index: int)
    requires
        editor.valid(),
        0 <= target < editor.slots(),
        0 <= index < editor.children_at(target).len(),
    ensures
        !checks::is_above(
            editor,
            cursor_editor::slot_of(editor.children_at(target)[index]),
            target,
        ),
{
    let child = cursor_editor::slot_of(editor.children_at(target)[index]);
    lemma_children_lower(editor, target, index);
    if checks::is_above(editor, child, target) {
        let levels = choose|levels: nat| #[trigger]
            checks::ascend(editor, target, levels) == Some(child);
        crate::editor_laws::lemma_ascend_higher(editor, target, levels);
    }
}

/// The target and what lies above it get longer by no more than the insertions.
proof fn lemma_upper_grows(
    editor: SyntaxEditor,
    target: int,
    start: int,
    end: int,
    insertions: Seq<EditorElementId>,
    trees: Seq<Tree>,
    slot: int,
)
    requires
        editor.valid(),
        splicing::spliced_shape(editor, target, start, end, insertions, trees),
        0 <= target < editor.slots(),
        0 <= start <= end <= editor.children_at(target).len(),
        forall|i: int| 0 <= i < insertions.len() ==> editor.owns(#[trigger] insertions[i]),
        !checks::closes_cycle(editor, target, insertions),
        0 <= slot < editor.slots(),
        checks::is_above(editor, slot, target),
    ensures
        trees[slot].len() <= editor.tree(slot).len() + model::forest_len(
            inserted_trees(editor, insertions),
        ),
    decreases editor.tree(slot).height(),
{
    let children = editor.children_at(slot);
    let shown = editor.tree(slot).children();
    let bonus = model::forest_len(inserted_trees(editor, insertions));
    assert(trees[slot] == trees[slot]);
    editor.lemma_element(slot);
    if editor.tree(slot) is Node && slot == target {
        assert forall|i: int| 0 <= i < children.len() implies trees[cursor_editor::slot_of(
            #[trigger] children[i],
        )].len() <= shown[i].len() by {
            lemma_own_child_not_above(editor, target, i);
            lemma_children_lower(editor, target, i);
            lemma_beside_shrinks(
                editor,
                target,
                start,
                end,
                insertions,
                trees,
                cursor_editor::slot_of(children[i]),
            );
        }
        let front = checks::outside(children.take(start), insertions);
        let back = checks::outside(children.skip(end), insertions);
        lemma_left_len(trees, children.take(start), insertions, shown.take(start), -1, 0);
        lemma_left_len(trees, children.skip(end), insertions, shown.skip(end), -1, 0);
        assert forall|i: int| 0 <= i < insertions.len() implies trees[cursor_editor::slot_of(
            #[trigger] insertions[i],
        )].len() <= inserted_trees(editor, insertions)[i].len() by {
            assert(!checks::is_above(editor, cursor_editor::slot_of(insertions[i]), target));
            editor.lemma_owned(insertions[i]);
            lemma_beside_shrinks(
                editor,
                target,
                start,
                end,
                insertions,
                trees,
                cursor_editor::slot_of(insertions[i]),
            );
        }
        checks::lemma_outside_nothing(insertions);
        lemma_left_len(
            trees,
            insertions,
            Seq::empty(),
            inserted_trees(editor, insertions),
            -1,
            0,
        );
        let front_trees = cursor_editor::trees_of(trees, front);
        let middle_trees = cursor_editor::trees_of(trees, insertions);
        let back_trees = cursor_editor::trees_of(trees, back);
        assert(trees[slot].children() =~= front_trees + middle_trees + back_trees);
        model::lemma_forest_len_concat(front_trees + middle_trees, back_trees);
        model::lemma_forest_len_concat(front_trees, middle_trees);
        assert(shown =~= shown.take(start) + shown.subrange(start, end) + shown.skip(end));
        model::lemma_forest_len_concat(
            shown.take(start) + shown.subrange(start, end),
            shown.skip(end),
        );
        model::lemma_forest_len_concat(shown.take(start), shown.subrange(start, end));
    } else if editor.tree(slot) is Node {
        let grown = if exists|i: int|
            0 <= i < children.len() && checks::is_above(
                editor,
                cursor_editor::slot_of(#[trigger] children[i]),
                target,
            ) {
            choose|i: int|
                0 <= i < children.len() && checks::is_above(
                    editor,
                    cursor_editor::slot_of(#[trigger] children[i]),
                    target,
                )
        } else {
            -1
        };
        assert forall|i: int| 0 <= i < children.len() implies trees[cursor_editor::slot_of(
            #[trigger] children[i],
        )].len() <= shown[i].len() + if i == grown {
            bonus
        } else {
            0
        } by {
            let child = cursor_editor::slot_of(children[i]);
            lemma_children_lower(editor, slot, i);
            if checks::is_above(editor, child, target) {
                lemma_one_child_above(editor, slot, i, grown, target);
                lemma_upper_grows(editor, target, start, end, insertions, trees, child);
            } else {
                lemma_beside_shrinks(editor, target, start, end, insertions, trees, child);
            }
        }
        lemma_left_len(trees, children, insertions, shown, grown, bonus);
    }
}

} // verus!
