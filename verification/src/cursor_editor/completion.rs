//! Completion of components and detachment.

use vstd::prelude::*;

use crate::cursor::SyntaxNode;
use crate::cursor_editor;
use crate::cursor_editor::EditError;
use crate::cursor_editor::EditorElementId;
use crate::cursor_editor::EditorNodeId;
use crate::cursor_editor::EditorRecord;
use crate::cursor_editor::SyntaxEditor;
use crate::cursor_editor::checks;
use crate::cursor_editor::copy_ids;
use crate::cursor_editor::element_slot;
use crate::cursor_editor::lengths;
use crate::cursor_editor::splicing;
use crate::green::GreenError;
use crate::green::element;
use crate::green::element::GreenElement;
use crate::green::node;
use crate::green::node::GreenNode;
use crate::green::token::GreenToken;
use crate::model;
use crate::model::Tree;
use crate::text::TextSize;
use crate::utility_types::NodeOrToken;

verus! {

/// A green element was completed from the element at a slot: elements without changes are taken
/// over as they are, changed nodes are rebuilt from their completed children in another allocation.
pub open spec fn completed(editor: SyntaxEditor, slot: int, green: GreenElement) -> bool
    decreases editor.tree(slot).height(),
{
    if !editor.dirty_at(slot) {
        green == editor.green_at(slot)
    } else {
        let children = editor.children_at(slot);
        &&& green is Node
        &&& green != editor.green_at(slot)
        &&& green->Node_0.elements().len() == children.len()
        &&& forall|i: int|
            #![trigger children[i]]
            0 <= i < children.len() ==> {
                let child = cursor_editor::slot_of(children[i]);
                &&& editor.tree(child).height() < editor.tree(slot).height()
                &&& completed(editor, child, green->Node_0.elements()[i])
            }
    }
}

/// A completed element with the tree of its slot.
spec fn is_built(editor: SyntaxEditor, slot: int, green: GreenElement) -> bool {
    completed(editor, slot, green) && element::element_tree(green) == editor.tree(slot)
}

/// What holds of a queued completion task.
spec fn task_holds(
    editor: SyntaxEditor,
    built: Seq<Option<GreenElement>>,
    stack: Seq<(usize, bool)>,
    position: int,
) -> bool {
    let slot = stack[position].0 as int;
    &&& slot < editor.slots()
    &&& stack[position].1 ==> editor.dirty_at(slot) && kids_build(editor, built, stack, position)
}

/// Every child of an opened node is built or lies above it on the stack.
spec fn kids_build(
    editor: SyntaxEditor,
    built: Seq<Option<GreenElement>>,
    stack: Seq<(usize, bool)>,
    position: int,
) -> bool {
    let children = editor.children_at(stack[position].0 as int);
    forall|i: int|
        0 <= i < children.len() ==> built[cursor_editor::slot_of(#[trigger] children[i])] is Some
            || lengths::on_stack_above(stack, cursor_editor::slot_of(children[i]), position)
}

/// The state of a completion between two tasks.
spec fn completion_invariant(
    editor: SyntaxEditor,
    built: Seq<Option<GreenElement>>,
    stack: Seq<(usize, bool)>,
) -> bool {
    &&& editor.valid()
    &&& built.len() == editor.slots()
    &&& forall|s: int|
        0 <= s < built.len() ==> ((#[trigger] built[s]) matches Some(green) ==> is_built(
            editor,
            s,
            green,
        ))
    &&& forall|k: int| 0 <= k < stack.len() ==> #[trigger] task_holds(editor, built, stack, k)
}

/// The work that queued tasks stand for.
pub(super) open spec fn work(editor: SyntaxEditor, stack: Seq<(usize, bool)>) -> nat
    decreases stack.len(),
{
    if stack.len() == 0 {
        0
    } else {
        work(editor, stack.drop_last()) + if stack.last().1 {
            1nat
        } else {
            2 * model::tree_size(editor.tree(stack.last().0 as int))
        }
    }
}

/// Finishing the topmost task keeps the invariant.
proof fn lemma_task_finished(
    editor: SyntaxEditor,
    before: Seq<Option<GreenElement>>,
    built: Seq<Option<GreenElement>>,
    stack: Seq<(usize, bool)>,
    slot: usize,
    visited: bool,
    green: GreenElement,
)
    requires
        completion_invariant(editor, before, stack.push((slot, visited))),
        slot < before.len(),
        built == before.update(slot as int, Some(green)),
        is_built(editor, slot as int, green),
    ensures
        completion_invariant(editor, built, stack),
{
    let waiting = stack.push((slot, visited));
    assert forall|k: int| 0 <= k < stack.len() implies #[trigger] task_holds(
        editor,
        built,
        stack,
        k,
    ) by {
        assert(task_holds(editor, before, waiting, k));
        assert(waiting[k] == stack[k]);
        if stack[k].1 {
            let children = editor.children_at(stack[k].0 as int);
            splicing::lemma_children_distinct(editor, stack[k].0 as int);
            assert(kids_build(editor, before, waiting, k));
            assert forall|i: int| 0 <= i < children.len() implies built[cursor_editor::slot_of(
                #[trigger] children[i],
            )] is Some
                || lengths::on_stack_above(stack, cursor_editor::slot_of(children[i]), k) by {
                let kid = cursor_editor::slot_of(children[i]);
                assert(editor.owns(editor.children_at(stack[k].0 as int)[i]));
                if before[kid] is None && kid != slot {
                    let l = choose|l: int| k < l < waiting.len() && (#[trigger] waiting[l]).0
                        == kid;
                    assert(stack[l].0 == kid);
                }
            }
        }
    }
    assert forall|s: int| 0 <= s < built.len() implies ((#[trigger] built[s]) matches Some(green)
        ==> is_built(editor, s, green)) by {
        if s != slot {
            assert(built[s] == before[s]);
        }
    }
}

/// Store one completed immutable element in its stable arena slot.
fn store_built(built: &mut Vec<Option<GreenElement>>, slot: usize, green: GreenElement)
    requires
        slot < old(built)@.len(),
    ensures
        final(built)@ == old(built)@.update(slot as int, Some(green)),
{
    built.set(slot, Some(green));
}

/// Every child of the element at a slot is completed.
spec fn kids_complete(
    editor: SyntaxEditor,
    built: Seq<Option<GreenElement>>,
    slot: int,
) -> bool {
    forall|i: int|
        0 <= i < editor.children_at(slot).len() ==> built[cursor_editor::slot_of(
            #[trigger] editor.children_at(slot)[i],
        )] is Some
}

/// The completed children of the element at a slot, in source order.
spec fn built_kids(
    editor: SyntaxEditor,
    built: Seq<Option<GreenElement>>,
    slot: int,
) -> Seq<GreenElement> {
    editor.children_at(slot).map_values(
        |child: EditorElementId| built[cursor_editor::slot_of(child)]->0,
    )
}

/// The tasks that complete children, the last one first.
pub(super) open spec fn queued_kids(children: Seq<EditorElementId>) -> Seq<(usize, bool)>
    decreases children.len(),
{
    if children.len() == 0 {
        Seq::empty()
    } else {
        queued_kids(children.drop_first()).push(
            (cursor_editor::slot_of(children[0]) as usize, false),
        )
    }
}

/// What one task of a completion does.
///
/// An element without changes is completed to its own green handle. A changed node waits for its
/// children, which go before it; when it is met again (`visited`) it is made of them.
spec fn completion_task_done(
    editor: SyntaxEditor,
    built: Seq<Option<GreenElement>>,
    stack: Seq<(usize, bool)>,
    slot: int,
    visited: bool,
    built_after: Seq<Option<GreenElement>>,
    stack_after: Seq<(usize, bool)>,
    checked: Result<(), EditError>,
) -> bool {
    if !editor.dirty_at(slot) {
        &&& checked is Ok
        &&& built_after == built.update(slot, Some(editor.green_at(slot)))
        &&& stack_after == stack
    } else if !visited {
        &&& checked is Ok
        &&& built_after == built
        &&& stack_after == stack.push((slot as usize, true)) + queued_kids(
            editor.children_at(slot),
        )
    } else {
        &&& stack_after == stack
        &&& if !kids_complete(editor, built, slot) {
            checked == Err::<(), EditError>(EditError::ForeignId) && built_after == built
        } else {
            exists|made: Result<GreenNode, GreenError>|
                {
                    &&& #[trigger] node::node_made(
                        editor.tree(slot).kind(),
                        built_kids(editor, built, slot),
                        made,
                    )
                    &&& match made {
                        Ok(green) => checked is Ok && built_after == built.update(
                            slot,
                            Some(NodeOrToken::Node(green)),
                        ) && editor.green_at(slot) != NodeOrToken::<GreenNode, GreenToken>::Node(
                            green,
                        ),
                        Err(error) => checked == Err::<(), EditError>(EditError::Green(error))
                            && built_after == built,
                    }
                }
        }
    }
}

/// The positions of the queued children.
proof fn lemma_queued_kids(children: Seq<EditorElementId>, index: int)
    requires
        0 <= index <= children.len(),
    ensures
        queued_kids(children.skip(index)).len() == children.len() - index,
        forall|j: int|
            0 <= j < children.len() - index ==> (#[trigger] queued_kids(children.skip(index))[j])
                == (cursor_editor::slot_of(children[children.len() - 1 - j]) as usize, false),
    decreases children.len() - index,
{
    if index == children.len() {
        assert(children.skip(index) =~= Seq::empty());
    } else {
        lemma_queued_kids(children, index + 1);
        assert(children.skip(index).drop_first() =~= children.skip(index + 1));
        assert(children.skip(index)[0] == children[index]);
    }
}

/// The work that queued children stand for.
proof fn lemma_queued_work(
    editor: SyntaxEditor,
    stack: Seq<(usize, bool)>,
    children: Seq<EditorElementId>,
    trees: Seq<Tree>,
    index: int,
)
    requires
        0 <= index <= children.len(),
        trees.len() == children.len(),
        forall|i: int|
            0 <= i < children.len() ==> 0 <= cursor_editor::slot_of(#[trigger] children[i])
                <= usize::MAX && trees[i] == editor.tree(cursor_editor::slot_of(children[i])),
    ensures
        work(editor, stack + queued_kids(children.skip(index))) == work(editor, stack) + 2
            * model::forest_size(trees.skip(index)),
    decreases children.len() - index,
{
    if index == children.len() {
        assert(children.skip(index) =~= Seq::empty());
        assert(trees.skip(index) =~= Seq::empty());
        assert(stack + queued_kids(children.skip(index)) =~= stack);
    } else {
        lemma_queued_work(editor, stack, children, trees, index + 1);
        assert(children.skip(index).drop_first() =~= children.skip(index + 1));
        assert(children.skip(index)[0] == children[index]);
        model::lemma_forest_size_skip(trees, index);
        let all = stack + queued_kids(children.skip(index));
        assert(all.drop_last() =~= stack + queued_kids(children.skip(index + 1)));
        assert(all.last() == (cursor_editor::slot_of(children[index]) as usize, false));
    }
}

impl SyntaxEditor {
    /// Collect the completed children of a changed node in source order.
    fn take_built_children(&self, slot: usize, built: &Vec<Option<GreenElement>>) -> (children:
        Result<Vec<GreenElement>, EditError>)
        requires
            self.valid(),
            slot < self.slots(),
            built@.len() == self.slots(),
        ensures
            match children {
                Ok(children) => kids_complete(*self, built@, slot as int) && children@
                    == built_kids(*self, built@, slot as int),
                Err(error) => !kids_complete(*self, built@, slot as int) && error
                    == EditError::ForeignId,
            },
    {
        let mut children: Vec<GreenElement> = Vec::new();
        let ids = match &self.records[slot] {
            EditorRecord::Node(node) => &node.children,
            EditorRecord::Token(_) => {
                assert(children@ =~= built_kids(*self, built@, slot as int));
                return Ok(children);
            },
        };
        let mut index: usize = 0;
        let ghost all = built_kids(*self, built@, slot as int);
        proof {
            splicing::lemma_children_distinct(*self, slot as int);
        }
        while index < ids.len()
            invariant
                self.valid(),
                slot < self.slots(),
                built@.len() == self.slots(),
                ids@ == self.children_at(slot as int),
                index <= ids@.len(),
                all == built_kids(*self, built@, slot as int),
                children@ == all.take(index as int),
                forall|i: int|
                    0 <= i < self.children_at(slot as int).len() ==> self.owns(
                        #[trigger] self.children_at(slot as int)[i],
                    ),
                forall|i: int|
                    0 <= i < index ==> built@[cursor_editor::slot_of(
                        #[trigger] self.children_at(slot as int)[i],
                    )] is Some,
            decreases ids@.len() - index,
        {
            let child: usize = element_slot(&ids[index]);
            assert(self.owns(self.children_at(slot as int)[index as int]));
            match &built[child] {
                Some(green) => {
                    children.push(green.handle());
                    assert(children@ =~= all.take(index + 1));
                },
                None => {
                    assert(built@[cursor_editor::slot_of(
                        self.children_at(slot as int)[index as int])] is None);
                    return Err(EditError::ForeignId);
                },
            }
            index += 1;
        }
        assert(all.take(index as int) =~= all);
        Ok(children)
    }

    /// Process one post-order immutable completion task.
    fn process_completion_task(
        &self,
        slot: usize,
        visited: bool,
        built: &mut Vec<Option<GreenElement>>,
        stack: &mut Vec<(usize, bool)>,
    ) -> (checked: Result<(), EditError>)
        requires
            self.valid(),
            slot < self.slots(),
            old(built)@.len() == self.slots(),
        ensures
            completion_task_done(
                *self,
                old(built)@,
                old(stack)@,
                slot as int,
                visited,
                final(built)@,
                final(stack)@,
                checked,
            ),
    {
        proof {
            assert(cursor_editor::record_agrees(
                self.owner, self.records@, self.trees@, slot as int));
        }
        let (source, child_ids) = match &self.records[slot] {
            EditorRecord::Token(token) => {
                store_built(built, slot, NodeOrToken::Token(token.green.clone()));
                return Ok(());
            },
            EditorRecord::Node(node) => {
                if !node.dirty {
                    store_built(built, slot, NodeOrToken::Node(node.green.clone()));
                    return Ok(());
                }
                (&node.green, copy_ids(&node.children))
            },
        };
        if visited {
            let children = match self.take_built_children(slot, built) {
                Ok(children) => children,
                Err(error) => {
                    return Err(error);
                },
            };
            let made = GreenNode::new_beside(source.kind(), children, Some(source));
            assert(node::node_made(
                self.tree(slot as int).kind(),
                built_kids(*self, built@, slot as int),
                made,
            ));
            return match made {
                Ok(green) => {
                    store_built(built, slot, NodeOrToken::Node(green));
                    Ok(())
                },
                Err(error) => Err(EditError::Green(error)),
            };
        }
        stack.push((slot, true));
        let ghost base = stack@;
        let ghost ids = child_ids@;
        let mut index: usize = child_ids.len();
        proof {
            assert(ids.skip(index as int) =~= Seq::empty());
            assert(base + queued_kids(ids.skip(index as int)) =~= base);
        }
        while index > 0
            invariant
                index <= ids.len(),
                child_ids@ == ids,
                stack@ == base + queued_kids(ids.skip(index as int)),
            decreases index,
        {
            let ghost earlier = queued_kids(ids.skip(index as int));
            index -= 1;
            let child: usize = element_slot(&child_ids[index]);
            stack.push((child, false));
            proof {
                assert(ids.skip(index as int).drop_first() =~= ids.skip(index + 1));
                assert(ids.skip(index as int)[0] == ids[index as int]);
                assert(stack@ =~= base + earlier.push((child, false)));
            }
        }
        assert(ids.skip(0) =~= ids);
        Ok(())
    }
}

/// A processed task keeps the state of the completion and brings it nearer to its end. It fails only
/// where a changed node cannot be allocated.
proof fn lemma_completion_task_keeps(
    editor: SyntaxEditor,
    built: Seq<Option<GreenElement>>,
    stack: Seq<(usize, bool)>,
    slot: usize,
    visited: bool,
    built_after: Seq<Option<GreenElement>>,
    stack_after: Seq<(usize, bool)>,
    checked: Result<(), EditError>,
)
    requires
        completion_invariant(editor, built, stack.push((slot, visited))),
        completion_task_done(
            editor,
            built,
            stack,
            slot as int,
            visited,
            built_after,
            stack_after,
            checked,
        ),
    ensures
        match checked {
            Ok(_) => {
                &&& completion_invariant(editor, built_after, stack_after)
                &&& work(editor, stack_after) < work(editor, stack.push((slot, visited)))
                &&& forall|s: int|
                    0 <= s < editor.slots() && built[s] is Some ==> (
                    #[trigger] built_after[s]) is Some
                &&& built_after[slot as int] is Some || lengths::on_stack(
                    stack_after,
                    slot as int,
                )
                &&& forall|k: int|
                    0 <= k < stack.len() ==> (#[trigger] stack_after[k]) == stack[k]
                &&& stack_after.len() >= stack.len()
                &&& !editor.dirty_at(slot as int) ==> stack_after == stack
            },
            Err(error) => error == EditError::Green(GreenError::AllocationFailed)
                && editor.dirty_at(slot as int),
        },
{
    let waiting = stack.push((slot, visited));
    let top = stack.len() as int;
    assert(waiting[top] == (slot, visited));
    assert(waiting.drop_last() =~= stack);
    assert(task_holds(editor, built, waiting, top));
    assert(cursor_editor::record_agrees(
        editor.owner, editor.records@, editor.trees@, slot as int));
    splicing::lemma_children_distinct(editor, slot as int);
    if !editor.dirty_at(slot as int) {
        let green = editor.green_at(slot as int);
        assert(is_built(editor, slot as int, green));
        lemma_task_finished(editor, built, built_after, stack, slot, visited, green);
    } else if visited {
        lemma_visited_keeps(editor, built, stack, slot, built_after, stack_after, checked);
    } else {
        lemma_opened_keeps(editor, built, stack, slot, stack_after);
    }
}

/// Making a changed node of its completed children keeps the state of the completion.
proof fn lemma_visited_keeps(
    editor: SyntaxEditor,
    built: Seq<Option<GreenElement>>,
    stack: Seq<(usize, bool)>,
    slot: usize,
    built_after: Seq<Option<GreenElement>>,
    stack_after: Seq<(usize, bool)>,
    checked: Result<(), EditError>,
)
    requires
        slot < editor.slots(),
        editor.dirty_at(slot as int),
        completion_invariant(editor, built, stack.push((slot, true))),
        completion_task_done(
            editor,
            built,
            stack,
            slot as int,
            true,
            built_after,
            stack_after,
            checked,
        ),
    ensures
        match checked {
            Ok(_) => {
                &&& completion_invariant(editor, built_after, stack_after)
                &&& stack_after == stack
                &&& built_after == built.update(slot as int, built_after[slot as int])
                &&& built_after[slot as int] is Some
            },
            Err(error) => error == EditError::Green(GreenError::AllocationFailed),
        },
{
    let waiting = stack.push((slot, true));
    let top = stack.len() as int;
    let ids = editor.children_at(slot as int);
    let parts = built_kids(editor, built, slot as int);
    assert(waiting[top] == (slot, true));
    assert(task_holds(editor, built, waiting, top));
    assert(cursor_editor::record_agrees(
        editor.owner, editor.records@, editor.trees@, slot as int));
    splicing::lemma_children_distinct(editor, slot as int);
    assert(kids_complete(editor, built, slot as int)) by {
        assert(kids_build(editor, built, waiting, top));
        assert forall|i: int| 0 <= i < ids.len() implies built[cursor_editor::slot_of(
            #[trigger] editor.children_at(slot as int)[i],
        )] is Some by {
            assert(ids[i] == editor.children_at(slot as int)[i]);
            assert(!lengths::on_stack_above(waiting, cursor_editor::slot_of(ids[i]), top));
        }
    }
    assert forall|i: int| 0 <= i < parts.len() implies is_built(
        editor,
        cursor_editor::slot_of(editor.children_at(slot as int)[i]),
        #[trigger] parts[i],
    ) by {
        assert(editor.owns(editor.children_at(slot as int)[i]));
        assert(built[cursor_editor::slot_of(editor.children_at(slot as int)[i])] is Some);
    }
    assert(element::element_trees(parts) =~= editor.tree(slot as int).children()) by {
        assert forall|i: int| 0 <= i < parts.len() implies element::element_tree(parts[i])
            == editor.tree(slot as int).children()[i] by {
            assert(is_built(
                editor, cursor_editor::slot_of(editor.children_at(slot as int)[i]), parts[i]));
        }
    }
    let made = choose|made: Result<GreenNode, GreenError>|
        {
            &&& #[trigger] node::node_made(editor.tree(slot as int).kind(), parts, made)
            &&& match made {
                Ok(green) => checked is Ok && built_after == built.update(
                    slot as int,
                    Some(NodeOrToken::Node(green)),
                ) && editor.green_at(slot as int) != NodeOrToken::<GreenNode, GreenToken>::Node(
                    green,
                ),
                Err(error) => checked == Err::<(), EditError>(EditError::Green(error))
                    && built_after == built,
            }
        };
    match made {
        Ok(green) => {
            lemma_rebuilt(editor, slot as int, green, parts);
            lemma_task_finished(
                editor,
                built,
                built_after,
                stack,
                slot,
                true,
                NodeOrToken::Node(green),
            );
        },
        Err(error) => {
            if let GreenError::TextLengthOverflow { accumulated, next } = error {
                node::lemma_first_overflow(element::element_trees(parts), accumulated, next);
            }
        },
    }
}

/// Opening a changed node and queueing its children keeps the state of the completion.
proof fn lemma_opened_keeps(
    editor: SyntaxEditor,
    built: Seq<Option<GreenElement>>,
    stack: Seq<(usize, bool)>,
    slot: usize,
    stack_after: Seq<(usize, bool)>,
)
    requires
        slot < editor.slots(),
        editor.dirty_at(slot as int),
        completion_invariant(editor, built, stack.push((slot, false))),
        stack_after == stack.push((slot, true)) + queued_kids(editor.children_at(slot as int)),
    ensures
        completion_invariant(editor, built, stack_after),
        work(editor, stack_after) < work(editor, stack.push((slot, false))),
        lengths::on_stack(stack_after, slot as int),
        forall|k: int| 0 <= k < stack.len() ==> (#[trigger] stack_after[k]) == stack[k],
        stack_after.len() >= stack.len(),
{
    let waiting = stack.push((slot, false));
    let base = stack.push((slot, true));
    let top = stack.len() as int;
    let ids = editor.children_at(slot as int);
    let kid_trees = editor.tree(slot as int).children();
    assert(waiting[top] == (slot, false));
    assert(waiting.drop_last() =~= stack);
    assert(base.drop_last() =~= stack);
    assert(cursor_editor::record_agrees(
        editor.owner, editor.records@, editor.trees@, slot as int));
    splicing::lemma_children_distinct(editor, slot as int);
    assert(kid_trees =~= cursor_editor::trees_of(editor.trees@, ids));
    assert(ids.skip(0) =~= ids);
    assert(kid_trees.skip(0) =~= kid_trees);
    assert forall|i: int| 0 <= i < ids.len() implies 0 <= cursor_editor::slot_of(
        #[trigger] ids[i],
    ) <= usize::MAX && kid_trees[i] == editor.tree(cursor_editor::slot_of(ids[i])) by {
        assert(editor.owns(editor.children_at(slot as int)[i]));
    }
    lemma_queued_kids(ids, 0);
    lemma_queued_work(editor, base, ids, kid_trees, 0);
    assert(stack_after[top].0 == slot);
    assert(lengths::on_stack(stack_after, slot as int));
    assert forall|k: int| 0 <= k < stack_after.len() implies #[trigger] task_holds(
        editor,
        built,
        stack_after,
        k,
    ) by {
        if k < top {
            assert(task_holds(editor, built, waiting, k));
            assert(waiting[k] == stack_after[k]);
            if stack_after[k].1 {
                let children = editor.children_at(stack_after[k].0 as int);
                assert(kids_build(editor, built, waiting, k));
                assert forall|i: int|
                    0 <= i < children.len() implies built[cursor_editor::slot_of(
                    #[trigger] children[i],
                )] is Some || lengths::on_stack_above(
                    stack_after, cursor_editor::slot_of(children[i]), k) by {
                    let kid = cursor_editor::slot_of(children[i]);
                    if built[kid] is None {
                        let l = choose|l: int|
                            k < l < waiting.len() && (#[trigger] waiting[l]).0 == kid;
                        assert(stack_after[l].0 == kid);
                    }
                }
            }
        } else if k == top {
            assert forall|i: int| 0 <= i < ids.len() implies built[cursor_editor::slot_of(
                #[trigger] ids[i],
            )] is Some
                || lengths::on_stack_above(stack_after, cursor_editor::slot_of(ids[i]), top) by {
                let j = ids.len() - 1 - i;
                let l = base.len() + j;
                assert(queued_kids(ids)[j] == (cursor_editor::slot_of(ids[i]) as usize, false));
                assert(stack_after[l] == queued_kids(ids)[j]);
                assert(stack_after[l].0 == cursor_editor::slot_of(ids[i]));
            }
            assert(kids_build(editor, built, stack_after, top));
        } else {
            let j = k - base.len();
            assert(stack_after[k] == queued_kids(ids)[j]);
            let i = ids.len() - 1 - j;
            assert(editor.owns(editor.children_at(slot as int)[i]));
        }
    }
}

impl SyntaxEditor {
    /// Consume the editor and materialize one detached node component.
    ///
    /// Whether the changed nodes can be allocated rests on the allocator.
    pub fn into_syntax(self, root: &EditorNodeId) -> (syntax: Result<SyntaxNode, EditError>)
        requires
            self.valid(),
        ensures
            match syntax {
                Ok(node) => {
                    &&& self.owns(NodeOrToken::Node(*root))
                    &&& self.parent_at(root.slot()) is None
                    &&& node.place().is_root()
                    &&& node.place().tree() == self.tree(root.slot())
                    &&& completed(
                        self,
                        root.slot(),
                        NodeOrToken::Node(node.place().root),
                    )
                },
                Err(EditError::ForeignId) => !self.owns(NodeOrToken::Node(*root)),
                Err(EditError::RootStillAttached) => self.owns(NodeOrToken::Node(*root))
                    && self.parent_at(root.slot()) is Some,
                Err(error) => {
                    &&& error == EditError::Green(GreenError::AllocationFailed)
                    &&& self.owns(NodeOrToken::Node(*root))
                    &&& self.parent_at(root.slot()) is None
                    &&& self.dirty_at(root.slot())
                },
            },
    {
        match self.node_record(root) {
            Ok(record) => {
                if record.parent.is_some() {
                    return Err(EditError::RootStillAttached);
                }
            },
            Err(error) => {
                return Err(error);
            },
        }
        let count: usize = self.records.len();
        let mut built: Vec<Option<GreenElement>> = Vec::with_capacity(count);
        let mut filled: usize = 0;
        while filled < count
            invariant
                filled <= count,
                built@.len() == filled,
                forall|s: int| 0 <= s < filled ==> (#[trigger] built@[s]) is None,
            decreases count - filled,
        {
            built.push(None);
            filled += 1;
        }
        let mut stack: Vec<(usize, bool)> = Vec::new();
        stack.push((root.slot, false));
        proof {
            assert(stack@[0].0 == root.slot);
            assert(lengths::on_stack(stack@, root.slot()));
            assert forall|k: int| 0 <= k < stack@.len() implies #[trigger] task_holds(
                self,
                built@,
                stack@,
                k,
            ) by {}
        }
        while stack.len() > 0
            invariant
                self.owns(NodeOrToken::Node(*root)),
                self.parent_at(root.slot()) is None,
                completion_invariant(self, built@, stack@),
                built@[root.slot()] is Some || lengths::on_stack(stack@, root.slot()),
                !self.dirty_at(root.slot()) ==> forall|k: int|
                    0 <= k < stack@.len() ==> (#[trigger] stack@[k]).0 == root.slot(),
            decreases work(self, stack@),
        {
            let ghost waiting = stack@;
            let ghost before = built@;
            let (slot, visited) = match stack.pop() {
                Some(task) => task,
                None => {
                    return Err(EditError::ForeignId);
                },
            };
            let ghost rest = stack@;
            assert(waiting =~= rest.push((slot, visited)));
            proof {
                assert(task_holds(self, built@, waiting, waiting.len() - 1));
                assert(waiting[waiting.len() - 1] == (slot, visited));
            }
            let checked = self.process_completion_task(slot, visited, &mut built, &mut stack);
            proof {
                lemma_completion_task_keeps(
                    self,
                    before,
                    rest,
                    slot,
                    visited,
                    built@,
                    stack@,
                    checked,
                );
            }
            match checked {
                Ok(_) => {},
                Err(error) => {
                    return Err(error);
                },
            }
            proof {
                if before[root.slot()] is None {
                    let k = choose|k: int|
                        0 <= k < waiting.len() && (#[trigger] waiting[k]).0 == root.slot();
                    if k < rest.len() {
                        assert(stack@[k] == rest[k]);
                        assert(stack@[k].0 == root.slot());
                    }
                }
            }
        }
        assert(!lengths::on_stack(stack@, root.slot()));
        assert(cursor_editor::record_agrees(self.owner, self.records@, self.trees@, root.slot()));
        match &built[root.slot] {
            Some(NodeOrToken::Node(green)) => {
                assert(is_built(self, root.slot(), NodeOrToken::Node(*green)));
                Ok(SyntaxNode::new_root(green.clone()))
            },
            Some(NodeOrToken::Token(token)) => {
                proof {
                    use_type_invariant(token);
                }
                Err(EditError::ForeignId)
            },
            None => Err(EditError::ForeignId),
        }
    }

    /// Detach an attached element from its parent.
    pub fn detach(&mut self, element: &EditorElementId) -> (detached: Result<bool, EditError>)
        requires
            old(self).valid(),
        ensures
            final(self).valid(),
            match detached {
                Ok(true) => {
                    &&& old(self).owns(*element)
                    &&& old(self).parent_at(cursor_editor::slot_of(*element)) matches Some(parent)
                        && old(self).index_at(cursor_editor::slot_of(*element)) matches Some(index)
                        && splicing::spliced(
                        *old(self),
                        *final(self),
                        parent.slot(),
                        index as int,
                        index + 1,
                        Seq::empty(),
                    )
                    &&& final(self).parent_at(cursor_editor::slot_of(*element)) is None
                },
                Ok(false) => {
                    &&& old(self).owns(*element)
                    &&& old(self).parent_at(cursor_editor::slot_of(*element)) is None
                    &&& *final(self) == *old(self)
                },
                Err(error) => {
                    &&& !old(self).owns(*element)
                    &&& error == EditError::ForeignId
                    &&& *final(self) == *old(self)
                },
            },
    {
        let ghost before = *self;
        let slot: usize = element_slot(element);
        let parent = match self.parent(element) {
            Ok(Some(parent)) => parent,
            Ok(None) => {
                return Ok(false);
            },
            Err(error) => {
                return Err(error);
            },
        };
        proof {
            checks::lemma_parent_higher(before, slot as int);
            assert(cursor_editor::record_agrees(
                before.owner, before.records@, before.trees@, slot as int));
            splicing::lemma_children_distinct(before, parent.slot());
        }
        let index: usize = match self.index(element) {
            Ok(Some(index)) => index,
            _ => {
                return Err(EditError::ForeignId);
            },
        };
        let count: usize = match self.node_record(&parent) {
            Ok(record) => record.children.len(),
            Err(error) => {
                return Err(error);
            },
        };
        let nothing: Vec<EditorElementId> = Vec::new();
        let outcome = self.splice_children(&parent, index..index + 1, nothing);
        proof {
            let empty: Seq<EditorElementId> = Seq::empty();
            assert(nothing@ =~= empty);
            assert(!checks::closes_cycle(before, parent.slot(), empty));
            lemma_removal_fits(before, parent.slot(), index as int, index + 1);
            if outcome is Ok {
                lemma_detached(before, *self, slot as int, parent.slot(), index as int);
            }
        }
        match outcome {
            Ok(_) => Ok(true),
            Err(error) => Err(error),
        }
    }
}

/// Building a changed node from its completed children completes it.
proof fn lemma_rebuilt(
    editor: SyntaxEditor,
    slot: int,
    green: GreenNode,
    parts: Seq<GreenElement>,
)
    requires
        editor.valid(),
        0 <= slot < editor.slots(),
        editor.dirty_at(slot),
        editor.id(slot) is Node,
        green@ == (Tree::Node {
            kind: editor.tree(slot).kind(),
            children: element::element_trees(parts),
        }),
        green.elements() == parts,
        editor.green_at(slot) != NodeOrToken::<GreenNode, GreenToken>::Node(green),
        element::element_trees(parts) == editor.tree(slot).children(),
        parts.len() == editor.children_at(slot).len(),
        forall|i: int|
            0 <= i < parts.len() ==> is_built(
                editor,
                cursor_editor::slot_of(editor.children_at(slot)[i]),
                #[trigger] parts[i],
            ),
    ensures
        is_built(editor, slot, NodeOrToken::Node(green)),
{
    let children = editor.children_at(slot);
    splicing::lemma_children_distinct(editor, slot);
    assert(cursor_editor::record_agrees(editor.owner, editor.records@, editor.trees@, slot));
    assert forall|i: int|
        #![trigger children[i]]
        0 <= i < children.len() implies {
        let child = cursor_editor::slot_of(children[i]);
        &&& editor.tree(child).height() < editor.tree(slot).height()
        &&& completed(editor, child, green.elements()[i])
    } by {
        assert(editor.owns(editor.children_at(slot)[i]));
        checks::lemma_parent_higher(editor, cursor_editor::slot_of(children[i]));
        assert(is_built(editor, cursor_editor::slot_of(children[i]), parts[i]));
    }
}

/// Without insertions a splice only removes children.
proof fn lemma_removal_kids(
    editor: SyntaxEditor,
    target: int,
    start: int,
    end: int,
    slot: int,
)
    ensures
        splicing::spliced_kids(editor, target, start, end, Seq::empty(), slot) == if slot
            == target {
            editor.children_at(slot).take(start) + editor.children_at(slot).skip(end)
        } else {
            editor.children_at(slot)
        },
{
    let children = editor.children_at(slot);
    checks::lemma_outside_nothing(children);
    checks::lemma_outside_nothing(children.take(start));
    checks::lemma_outside_nothing(children.skip(end));
    if slot == target {
        assert(splicing::spliced_kids(editor, target, start, end, Seq::empty(), slot)
            =~= children.take(start)
            + children.skip(end));
    }
}

/// Removing children makes no tree longer.
proof fn lemma_removal_shrinks(
    editor: SyntaxEditor,
    target: int,
    start: int,
    end: int,
    trees: Seq<Tree>,
    slot: int,
)
    requires
        editor.valid(),
        0 <= target < editor.slots(),
        0 <= start <= end <= editor.children_at(target).len(),
        splicing::spliced_shape(editor, target, start, end, Seq::empty(), trees),
        0 <= slot < editor.slots(),
    ensures
        trees[slot].len() <= editor.tree(slot).len(),
    decreases editor.tree(slot).height(),
{
    let children = editor.children_at(slot);
    let kids = splicing::spliced_kids(editor, target, start, end, Seq::empty(), slot);
    assert(cursor_editor::record_agrees(editor.owner, editor.records@, editor.trees@, slot));
    lemma_removal_kids(editor, target, start, end, slot);
    splicing::lemma_children_distinct(editor, slot);
    if editor.tree(slot) is Node {
        assert(trees[slot].children() == cursor_editor::trees_of(trees, kids));
        let before = cursor_editor::trees_of(editor.trees@, kids);
        assert forall|i: int| 0 <= i < kids.len()
            implies cursor_editor::trees_of(trees, kids)[i].len()
            <= (#[trigger] before[i]).len() by {
            let j = if slot == target && i >= start {
                end + (i - start)
            } else {
                i
            };
            assert(kids[i] == children[j]);
            assert(editor.owns(editor.children_at(slot)[j]));
            checks::lemma_parent_higher(editor, cursor_editor::slot_of(kids[i]));
            lemma_removal_shrinks(
                editor, target, start, end, trees, cursor_editor::slot_of(kids[i]));
        }
        model::lemma_forest_len_below(cursor_editor::trees_of(trees, kids), before);
        let all = editor.tree(slot).children();
        assert(all == cursor_editor::trees_of(editor.trees@, children));
        if slot == target {
            assert(before =~= all.take(start) + all.skip(end));
            model::lemma_forest_len_concat(all.take(start), all.skip(end));
            model::lemma_forest_len_concat(all.take(start), all.subrange(start, end));
            model::lemma_forest_len_concat(all.take(end), all.skip(end));
            assert(all.take(start) + all.subrange(start, end) =~= all.take(end));
            assert(all.take(end) + all.skip(end) =~= all);
        }
    }
}

/// Removing children leaves no text too long.
proof fn lemma_removal_fits(editor: SyntaxEditor, target: int, start: int, end: int)
    requires
        editor.valid(),
        0 <= target < editor.slots(),
        0 <= start <= end <= editor.children_at(target).len(),
    ensures
        forall|accumulated: TextSize, next: TextSize|
            !(#[trigger] splicing::splice_overflows(
                editor,
                target,
                start,
                end,
                Seq::empty(),
                accumulated,
                next,
            )),
{
    assert forall|accumulated: TextSize, next: TextSize|
        !(#[trigger] splicing::splice_overflows(
            editor,
            target,
            start,
            end,
            Seq::empty(),
            accumulated,
            next,
        )) by {
        if splicing::splice_overflows(editor, target, start, end, Seq::empty(), accumulated, next) {
            let (trees, s) = choose|trees: Seq<Tree>, s: int|
                {
                    &&& splicing::spliced_shape(editor, target, start, end, Seq::empty(), trees)
                    &&& 0 <= s < trees.len()
                    &&& node::first_overflow((#[trigger] trees[s]).children(), accumulated, next)
                    &&& forall|i: int|
                        0 <= i < trees[s].children().len() ==> (
                        #[trigger] trees[s].children()[i]).len() <= u32::MAX
                };
            lemma_removal_shrinks(editor, target, start, end, trees, s);
            node::lemma_first_overflow(trees[s].children(), accumulated, next);
            assert(cursor_editor::record_agrees(editor.owner, editor.records@, editor.trees@, s));
            assert(trees[s] is Node);
        }
    }
}

/// A removed child has no parent any more.
proof fn lemma_detached(
    before: SyntaxEditor,
    after: SyntaxEditor,
    slot: int,
    parent: int,
    index: int,
)
    requires
        before.valid(),
        after.valid(),
        0 <= slot < before.slots(),
        0 <= parent < before.slots(),
        before.parent_at(slot) matches Some(id) && id.slot() == parent,
        before.index_at(slot) matches Some(own) && own == index,
        splicing::spliced(before, after, parent, index, index + 1, Seq::empty()),
    ensures
        after.parent_at(slot) is None,
{
    let empty: Seq<EditorElementId> = Seq::empty();
    assert(cursor_editor::record_agrees(before.owner, before.records@, before.trees@, slot));
    assert(cursor_editor::record_agrees(after.owner, after.records@, after.trees@, slot));
    splicing::lemma_children_distinct(before, parent);
    match after.parent_at(slot) {
        Some(id) => {
            let upper = id.slot();
            let position = after.index_at(slot)->0 as int;
            let kid = after.children_at(upper)[position];
            assert(after.id(upper) == before.id(upper));
            assert(after.id(slot) == before.id(slot));
            assert(kid == before.id(slot));
            assert(splicing::spliced_kids(before, parent, index, index
                + 1, empty, upper).contains(kid));
            splicing::lemma_spliced_member(before, parent, index, index + 1, empty, upper, kid);
            assert(upper == parent);
            lemma_removal_kids(before, parent, index, index + 1, parent);
            let children = before.children_at(parent);
            assert(children[index] == kid);
            if position < index {
                assert(children[position] == kid);
            } else {
                assert(children[position + 1] == kid);
            }
        },
        None => {},
    }
}

} // verus!
