//! Staged records of an edit and their parent links.

use vstd::prelude::*;

use crate::cursor_editor;
use crate::cursor_editor::EditError;
use crate::cursor_editor::EditorElementId;
use crate::cursor_editor::EditorNodeId;
use crate::cursor_editor::EditorNodeRecord;
use crate::cursor_editor::EditorOwner;
use crate::cursor_editor::EditorRecord;
use crate::cursor_editor::EditorTokenRecord;
use crate::cursor_editor::SyntaxEditor;
use crate::cursor_editor::copy_ids;
use crate::cursor_editor::element_slot;
use crate::cursor_editor::materialization::copy_parent;
use crate::cursor_editor::materialization::token_text_len;
use crate::text::TextSize;

verus! {

/// Mutable metadata snapshot used to validate an edit before committing it.
pub struct PlannedRecord {
    /// Planned parent.
    pub parent: Option<EditorNodeId>,
    /// Planned child index.
    pub index: Option<usize>,
    /// Planned component-relative offset.
    pub offset: TextSize,
    /// Planned subtree or token length.
    pub text_len: TextSize,
    /// Variant-specific metadata.
    pub content: PlannedContent,
}

/// Variant-specific portion of a planned arena record.
pub enum PlannedContent {
    /// Metadata needed to validate and rebuild a node.
    Node(PlannedNode),
    /// Token marker; immutable token storage stays in the committed arena.
    Token,
}

/// Mutable node-only metadata in a transaction plan.
pub struct PlannedNode {
    /// Planned child order.
    pub children: Vec<EditorElementId>,
    /// Existing or newly propagated dirty state.
    pub dirty: bool,
}

impl PlannedRecord {
    /// The planned children; a token has none.
    pub open spec fn kids(self) -> Seq<EditorElementId> {
        match self.content {
            PlannedContent::Node(node) => node.children@,
            PlannedContent::Token => Seq::empty(),
        }
    }

    /// Whether the plan is for a node.
    pub open spec fn is_node(self) -> bool {
        self.content is Node
    }

    /// The planned dirty state; a token is never dirty.
    pub open spec fn dirty(self) -> bool {
        match self.content {
            PlannedContent::Node(node) => node.dirty,
            PlannedContent::Token => false,
        }
    }

    /// Construct a node plan from current arena metadata.
    pub(super) fn for_node(node: &EditorNodeRecord) -> (planned: Self)
        ensures
            plans(EditorRecord::Node(*node), planned),
    {
        PlannedRecord {
            parent: copy_parent(&node.parent),
            index: node.index,
            offset: node.offset,
            text_len: node.text_len,
            content: PlannedContent::Node(
                PlannedNode { children: copy_ids(&node.children), dirty: node.dirty },
            ),
        }
    }

    /// Construct a token plan from current arena metadata.
    pub(super) fn for_token(token: &EditorTokenRecord) -> (planned: Self)
        ensures
            plans(EditorRecord::Token(*token), planned),
    {
        PlannedRecord {
            parent: copy_parent(&token.parent),
            index: token.index,
            offset: token.offset,
            text_len: token_text_len(token),
            content: PlannedContent::Token,
        }
    }

    /// Copy a planned node's children; a token has none.
    pub fn children(&self) -> (children: Vec<EditorElementId>)
        ensures
            children@ == self.kids(),
    {
        match &self.content {
            PlannedContent::Node(node) => copy_ids(&node.children),
            PlannedContent::Token => Vec::new(),
        }
    }

    /// Test whether the plan is for a node.
    pub fn plans_node(&self) -> (node: bool)
        ensures
            node == self.is_node(),
    {
        match &self.content {
            PlannedContent::Node(_) => true,
            PlannedContent::Token => false,
        }
    }
}

/// The plan repeats the metadata of a record.
pub(super) open spec fn plans(record: EditorRecord, planned: PlannedRecord) -> bool {
    &&& planned.is_node() <==> record is Node
    &&& planned.parent == record.parent()
    &&& planned.index == record.index()
    &&& planned.offset == record.offset()
    &&& planned.kids() == record.children()
    &&& planned.dirty() == record.dirty()
    &&& match record {
        EditorRecord::Node(node) => planned.text_len == node.text_len,
        EditorRecord::Token(token) => planned.text_len@ == token.green@.len(),
    }
}

/// A plan repeats the metadata of an editor.
pub open spec fn plan_of(editor: SyntaxEditor, planned: Seq<PlannedRecord>) -> bool {
    &&& planned.len() == editor.slots()
    &&& forall|s: int| 0 <= s < planned.len() ==> plan_at(editor, #[trigger] planned[s], s)
}

/// A plan repeats the metadata of the element at a slot.
pub open spec fn plan_at(editor: SyntaxEditor, planned: PlannedRecord, slot: int) -> bool {
    &&& planned.is_node() <==> editor.id(slot) is Node
    &&& planned.parent == editor.parent_at(slot)
    &&& planned.index == editor.index_at(slot)
    &&& planned.offset@ == editor.offset_at(slot)
    &&& planned.kids() == editor.children_at(slot)
    &&& planned.dirty() == editor.dirty_at(slot)
    &&& editor.node_len_at(slot) matches Some(len) ==> planned.text_len@ == len
}

/// Every planned child names a planned record of its variant.
pub open spec fn kids_planned(planned: Seq<PlannedRecord>) -> bool {
    forall|s: int, i: int|
        0 <= s < planned.len() && 0 <= i < planned[s].kids().len() ==> {
            let kid = #[trigger] planned[s].kids()[i];
            &&& 0 <= cursor_editor::slot_of(kid) < planned.len()
            &&& kid is Node <==> planned[cursor_editor::slot_of(kid)].is_node()
        }
}

/// Every planned child names a planned record.
pub open spec fn kids_exist(planned: Seq<PlannedRecord>) -> bool {
    forall|s: int, i: int|
        0 <= s < planned.len() && 0 <= i < planned[s].kids().len() ==> 0
            <= cursor_editor::slot_of(#[trigger] planned[s].kids()[i]) < planned.len()
}

/// Only links differ.
pub open spec fn same_but_links(left: PlannedRecord, right: PlannedRecord) -> bool {
    &&& left.offset == right.offset
    &&& left.text_len == right.text_len
    &&& left.content == right.content
}

/// Two positions list the same element.
pub open spec fn listed_twice(planned: Seq<PlannedRecord>) -> bool {
    exists|s: int, i: int, t: int, j: int|
        #![trigger planned[s].kids()[i], planned[t].kids()[j]]
        {
            &&& 0 <= s < planned.len()
            &&& 0 <= i < planned[s].kids().len()
            &&& 0 <= t < planned.len()
            &&& 0 <= j < planned[t].kids().len()
            &&& (s != t || i != j)
            &&& cursor_editor::slot_of(planned[s].kids()[i])
                == cursor_editor::slot_of(planned[t].kids()[j])
        }
}

/// The position comes before the bound in slot order.
pub(super) open spec fn visited(s: int, i: int, slot: int, index: int) -> bool {
    s < slot || (s == slot && i < index)
}

/// The links set so far are those of the visited positions.
spec fn links_so_far(
    owner: EditorOwner,
    planned: Seq<PlannedRecord>,
    slot: int,
    index: int,
) -> bool {
    &&& forall|s: int, i: int|
        0 <= s < planned.len() && 0 <= i < planned[s].kids().len() && visited(s, i, slot, index)
            ==> {
            let kid = planned[cursor_editor::slot_of(#[trigger] planned[s].kids()[i])];
            &&& kid.parent == Some(EditorNodeId { owner, slot: s as usize })
            &&& kid.index == Some(i as usize)
        }
    &&& forall|t: int|
        #![trigger planned[t]]
        0 <= t < planned.len() ==> match planned[t].parent {
            Some(parent) => {
                &&& parent.owner == owner
                &&& parent.slot < planned.len()
                &&& planned[t].index matches Some(i) && i
                    < planned[parent.slot as int].kids().len() && cursor_editor::slot_of(
                    planned[parent.slot as int].kids()[i as int],
                ) == t && visited(parent.slot as int, i as int, slot, index)
            },
            None => planned[t].index is None,
        }
}

/// Rebuild every parent and index from the planned forest's child sequences.
pub(super) fn normalize_parent_links(
    owner: &EditorOwner, planned: &mut Vec<PlannedRecord>) -> (checked: Result<
    (),
    EditError,
>)
    requires
        kids_exist(old(planned)@),
    ensures
        final(planned)@.len() == old(planned)@.len(),
        forall|s: int|
            0 <= s < old(planned)@.len() ==> same_but_links(
                old(planned)@[s],
                #[trigger] final(planned)@[s],
            ),
        match checked {
            Ok(_) => cursor_editor::plan_linked(*owner, final(planned)@),
            Err(error) => error == EditError::Cycle && listed_twice(old(planned)@),
        },
{
    let ghost before = planned@;
    let count: usize = planned.len();
    let mut slot: usize = 0;
    while slot < count
        invariant
            count == planned@.len() == before.len(),
            slot <= count,
            forall|s: int|
                0 <= s < count ==> same_but_links(before[s], #[trigger] planned@[s]),
            forall|s: int|
                0 <= s < slot ==> (#[trigger] planned@[s]).parent is None
                    && planned@[s].index is None,
        decreases count - slot,
    {
        planned[slot].parent = None;
        planned[slot].index = None;
        slot += 1;
    }
    slot = 0;
    assert(links_so_far(*owner, planned@, 0, 0));
    while slot < count
        invariant
            count == planned@.len() == before.len(),
            slot <= count,
            kids_exist(before),
            before == old(planned)@,
            forall|s: int|
                0 <= s < count ==> same_but_links(before[s], #[trigger] planned@[s]),
            links_so_far(*owner, planned@, slot as int, 0),
        decreases count - slot,
    {
        let children = planned[slot].children();
        let mut index: usize = 0;
        while index < children.len()
            invariant
                count == planned@.len() == before.len(),
                slot < count,
                kids_exist(before),
                before == old(planned)@,
                children@ == before[slot as int].kids(),
                index <= children@.len(),
                forall|s: int|
                    0 <= s < count ==> same_but_links(before[s], #[trigger] planned@[s]),
                links_so_far(*owner, planned@, slot as int, index as int),
            decreases children@.len() - index,
        {
            let ghost earlier = planned@;
            let kid: usize = element_slot(&children[index]);
            assert(before[slot as int].kids()[index as int] == children@[index as int]);
            assert(kid < count);
            if planned[kid].parent.is_some() {
                proof {
                    let parent = planned@[kid as int].parent->0;
                    let i = planned@[kid as int].index->0;
                    assert(planned@[parent.slot as int].kids()
                        == before[parent.slot as int].kids());
                    assert(cursor_editor::slot_of(before[parent.slot as int].kids()[i as int])
                        == cursor_editor::slot_of(
                        before[slot as int].kids()[index as int],
                    ));
                    assert(listed_twice(before));
                }
                return Err(EditError::Cycle);
            }
            planned[kid].parent = Some(EditorNodeId { owner: owner.clone(), slot });
            planned[kid].index = Some(index);
            proof {
                assert forall|s: int| 0 <= s < count implies (#[trigger] planned@[s]).kids()
                    == earlier[s].kids() by {}
                assert forall|s: int, i: int|
                    0 <= s < planned@.len() && 0 <= i < planned@[s].kids().len() && visited(
                        s,
                        i,
                        slot as int,
                        index + 1,
                    ) implies {
                    let child = planned@[cursor_editor::slot_of(#[trigger] planned@[s].kids()[i])];
                    &&& child.parent == Some(EditorNodeId { owner: *owner, slot: s as usize })
                    &&& child.index == Some(i as usize)
                } by {
                    assert(planned@[s].kids() == earlier[s].kids());
                    let t = cursor_editor::slot_of(earlier[s].kids()[i]);
                    assert(before[s].kids()[i] == earlier[s].kids()[i]);
                    assert(0 <= t < count);
                    if visited(s, i, slot as int, index as int) {
                        assert(earlier[t].parent is Some);
                        assert(t != kid);
                    } else {
                        assert(s == slot && i == index);
                        assert(t == kid);
                    }
                }
                assert(links_so_far(*owner, planned@, slot as int, index + 1));
            }
            index += 1;
        }
        assert(links_so_far(*owner, planned@, slot + 1, 0)) by {
            assert forall|s: int, i: int|
                0 <= s < planned@.len() && 0 <= i < planned@[s].kids().len() && visited(
                    s,
                    i,
                    slot + 1,
                    0,
                ) implies {
                let child = planned@[cursor_editor::slot_of(#[trigger] planned@[s].kids()[i])];
                &&& child.parent == Some(EditorNodeId { owner: *owner, slot: s as usize })
                &&& child.index == Some(i as usize)
            } by {
                assert(visited(s, i, slot as int, index as int));
            }
        }
        slot += 1;
    }
    Ok(())
}

} // verus!
