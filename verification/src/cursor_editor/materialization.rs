//! Materialization of green subtrees into arena records.

use vstd::prelude::*;

use crate::cursor_data;
use crate::cursor_editor;
use crate::cursor_editor::EditorElementId;
use crate::cursor_editor::EditorNodeId;
use crate::cursor_editor::EditorNodeRecord;
use crate::cursor_editor::EditorOwner;
use crate::cursor_editor::EditorRecord;
use crate::cursor_editor::EditorTokenId;
use crate::cursor_editor::EditorTokenRecord;
use crate::cursor_editor::SyntaxEditor;
use crate::cursor_editor::copy_ids;
use crate::green::element;
use crate::green::element::GreenElement;
use crate::green::node::GreenNode;
use crate::green::token::GreenToken;
use crate::model;
use crate::model::Tree;
use crate::text::TextSize;
use crate::utility_types::NodeOrToken;

verus! {

/// Give another copy of a parent link.
pub(super) fn copy_parent(parent: &Option<EditorNodeId>) -> (copy: Option<EditorNodeId>)
    ensures
        copy == *parent,
{
    match parent {
        Some(parent) => Some(parent.clone()),
        None => None,
    }
}

/// Return a token record's byte length.
pub(super) fn token_text_len(record: &EditorTokenRecord) -> (len: TextSize)
    ensures
        len@ == record.green@.len(),
{
    record.green.text_len()
}

/// Appending records keeps what holds of the earlier ones.
proof fn lemma_append_keeps(
    owner: EditorOwner,
    records: Seq<EditorRecord>,
    trees: Seq<Tree>,
    more_records: Seq<EditorRecord>,
    more_trees: Seq<Tree>,
    slot: int,
)
    requires
        records.len() == trees.len(),
        0 <= slot < records.len(),
    ensures
        cursor_editor::record_agrees(owner, records, trees, slot) ==> cursor_editor::record_agrees(
            owner,
            records + more_records,
            trees + more_trees,
            slot,
        ),
        cursor_editor::record_awaits(owner, records, trees, slot) ==> cursor_editor::record_awaits(
            owner,
            records + more_records,
            trees + more_trees,
            slot,
        ),
{
    let all = records + more_records;
    let all_trees = trees + more_trees;
    assert(all[slot] == records[slot]);
    assert(all_trees[slot] == trees[slot]);
    if cursor_editor::link_agrees(owner, records, trees, slot) {
        assert(cursor_editor::link_agrees(owner, all, all_trees, slot));
    }
    if cursor_editor::content_agrees(owner, records, trees, slot) {
        match records[slot] {
            EditorRecord::Node(node) => {
                assert forall|i: int| 0 <= i < node.children@.len()
                    implies cursor_editor::names_record(
                    owner,
                    all,
                    #[trigger] node.children@[i],
                ) by {
                    assert(cursor_editor::names_record(owner, records, node.children@[i]));
                }
                assert(cursor_editor::trees_of(all_trees, node.children@)
                    =~= cursor_editor::trees_of(trees, node.children@)) by {
                    assert forall|i: int| 0 <= i < node.children@.len()
                        implies all_trees[cursor_editor::slot_of(
                        node.children@[i],
                    )] == trees[cursor_editor::slot_of(node.children@[i])] by {
                        assert(cursor_editor::names_record(owner, records, node.children@[i]));
                    }
                }
                if !node.dirty {
                    assert forall|i: int| 0 <= i < node.children@.len() implies {
                        let child = all[cursor_editor::slot_of(#[trigger] node.children@[i])];
                        &&& node.green.elements()[i] == child.green()
                        &&& !child.dirty()
                    } by {
                        assert(cursor_editor::names_record(owner, records, node.children@[i]));
                    }
                }
            },
            EditorRecord::Token(token) => {},
        }
        if cursor_editor::children_linked(owner, records, slot) {
            assert forall|i: int| 0 <= i < all[slot].children().len() implies {
                let child = all[cursor_editor::slot_of(#[trigger] all[slot].children()[i])];
                &&& child.parent() == Some(EditorNodeId { owner, slot: slot as usize })
                &&& child.index() == Some(i as usize)
            } by {
                let child = records[slot].children()[i];
                assert(cursor_editor::names_record(owner, records, child));
            }
        }
    }
}

/// The record that a child of `green` starts with.
spec fn is_child_task(
    green: GreenNode,
    parent: EditorNodeId,
    parent_offset: nat,
    index: int,
    record: EditorRecord,
) -> bool {
    &&& record.parent() == Some(parent)
    &&& record.index() == Some(index as usize)
    &&& record.offset()@ == parent_offset + model::offset_in(green@.children(), index)
    &&& record.green() == green.elements()[index]
    &&& cursor_editor::bare_record(record, green@.children()[index])
    &&& record.children() =~= Seq::empty()
    &&& !record.dirty()
}

/// Make the records of one node's children, in source order.
fn materialize_child_tasks(
    green: &GreenNode,
    parent: &EditorNodeId,
    parent_offset: TextSize,
) -> (tasks: Vec<EditorRecord>)
    requires
        parent_offset@ + green@.len() <= u32::MAX,
    ensures
        tasks@.len() == green@.children().len(),
        forall|i: int|
            0 <= i < tasks@.len() ==> is_child_task(
                *green,
                *parent,
                parent_offset@,
                i,
                #[trigger] tasks@[i],
            ),
{
    let records = green.child_records();
    proof {
        green.lemma_valid();
    }
    let ghost trees = green@.children();
    let mut tasks: Vec<EditorRecord> = Vec::with_capacity(records.len());
    let mut index: usize = 0;
    while index < records.len()
        invariant
            green.valid(),
            records@ == green.records(),
            trees == green@.children(),
            records@.len() == trees.len() == green.elements().len(),
            trees == element::element_trees(green.elements()),
            green@ is Node,
            forall|i: int|
                0 <= i < records@.len() ==> {
                    &&& (#[trigger] records@[i]).element() == green.elements()[i]
                    &&& records@[i].offset()@ == model::offset_in(trees, i)
                },
            parent_offset@ + green@.len() <= u32::MAX,
            index <= records@.len(),
            tasks@.len() == index,
            forall|i: int|
                0 <= i < tasks@.len() ==> is_child_task(
                    *green,
                    *parent,
                    parent_offset@,
                    i,
                    #[trigger] tasks@[i],
                ),
        decreases records@.len() - index,
    {
        let child = &records[index];
        proof {
            model::lemma_child_inside(trees, index as int);
        }
        let offset = TextSize { raw: parent_offset.raw + child.rel_offset().raw };
        let task = match child.as_ref() {
            NodeOrToken::Node(node) => {
                proof {
                    use_type_invariant(node);
                }
                EditorRecord::Node(
                    EditorNodeRecord {
                        parent: Some(parent.clone()),
                        index: Some(index),
                        offset,
                        text_len: node.text_len(),
                        green: node.clone(),
                        children: Vec::new(),
                        dirty: false,
                    },
                )
            },
            NodeOrToken::Token(token) => {
                proof {
                    use_type_invariant(token);
                }
                EditorRecord::Token(
                    EditorTokenRecord {
                        parent: Some(parent.clone()),
                        index: Some(index),
                        offset,
                        green: token.clone(),
                    },
                )
            },
        };
        assert(is_child_task(*green, *parent, parent_offset@, index as int, task));
        tasks.push(task);
        index += 1;
    }
    tasks
}

/// The IDs of the records from `first` on.
fn ids_from(owner: &EditorOwner, records: &Vec<EditorRecord>, first: usize) -> (ids: Vec<
    EditorElementId,
>)
    requires
        first <= records@.len(),
    ensures
        ids@ == Seq::new(
            (records@.len() - first) as nat,
            |i: int| cursor_editor::id_at(*owner, records@, first + i),
        ),
{
    let mut ids: Vec<EditorElementId> = Vec::new();
    let mut slot: usize = first;
    while slot < records.len()
        invariant
            first <= slot <= records@.len(),
            ids@ == Seq::new(
                (slot - first) as nat, |i: int| cursor_editor::id_at(*owner, records@, first + i)),
        decreases records@.len() - slot,
    {
        let id = match &records[slot] {
            EditorRecord::Node(_) => NodeOrToken::Node(
                EditorNodeId { owner: owner.clone(), slot },
            ),
            EditorRecord::Token(_) => NodeOrToken::Token(
                EditorTokenId { owner: owner.clone(), slot },
            ),
        };
        ids.push(id);
        slot += 1;
        assert(ids@ =~= Seq::new(
            (slot - first) as nat,
            |i: int| cursor_editor::id_at(*owner, records@, first + i),
        ));
    }
    ids
}

/// The records before `slot` are finished and the others wait for their children.
spec fn arena_grows(
    owner: EditorOwner,
    records: Seq<EditorRecord>,
    trees: Seq<Tree>,
    slot: int,
) -> bool {
    &&& trees.len() == records.len()
    &&& forall|s: int| 0 <= s < slot
        ==> #[trigger] cursor_editor::record_agrees(owner, records, trees, s)
    &&& forall|s: int|
        slot <= s < records.len()
            ==> #[trigger] cursor_editor::record_awaits(owner, records, trees, s)
}

/// Everything but the listed children of a record.
spec fn same_but_children(left: EditorRecord, right: EditorRecord) -> bool {
    &&& left is Node <==> right is Node
    &&& left.parent() == right.parent()
    &&& left.index() == right.index()
    &&& left.offset() == right.offset()
    &&& left.green() == right.green()
    &&& left.dirty() == right.dirty()
    &&& left matches EditorRecord::Node(node) ==> right->Node_0.text_len == node.text_len
}

/// Listing the children of a waiting node finishes it and makes the children wait.
proof fn lemma_children_listed(
    owner: EditorOwner,
    records: Seq<EditorRecord>,
    trees: Seq<Tree>,
    slot: int,
    tasks: Seq<EditorRecord>,
    listed: EditorRecord,
)
    requires
        0 <= slot < records.len(),
        records.len() + tasks.len() <= usize::MAX,
        arena_grows(owner, records, trees, slot),
        records[slot] is Node,
        tasks.len() == trees[slot].children().len(),
        forall|i: int|
            0 <= i < tasks.len() ==> is_child_task(
                records[slot]->Node_0.green,
                EditorNodeId { owner, slot: slot as usize },
                records[slot].offset()@,
                i,
                #[trigger] tasks[i],
            ),
        same_but_children(records[slot], listed),
        listed.children() == Seq::new(
            tasks.len(),
            |i: int| cursor_editor::id_at(owner, records + tasks, records.len() + i),
        ),
    ensures
        arena_grows(
            owner,
            (records + tasks).update(slot, listed),
            trees + trees[slot].children(),
            slot + 1,
        ),
{
    let kids = trees[slot].children();
    let joined = records + tasks;
    let all_trees = trees + kids;
    let all = joined.update(slot, listed);
    let first = records.len() as int;
    let node = records[slot]->Node_0;
    assert(cursor_editor::record_awaits(owner, records, trees, slot));
    node.green.lemma_valid();
    assert(trees[slot] == node.green@);
    assert forall|s: int| 0 <= s < all.len() implies cursor_editor::id_at(owner, all, s)
        == cursor_editor::id_at(
        owner,
        joined,
        s,
    ) by {
        if s == slot {
            assert(joined[s] == records[s]);
        }
    }
    assert forall|s: int| 0 <= s < slot
        implies #[trigger] cursor_editor::record_agrees(owner, all, all_trees, s) by {
        assert(cursor_editor::record_agrees(owner, records, trees, s));
        lemma_append_keeps(owner, records, trees, tasks, kids, s);
        lemma_relist_keeps(owner, joined, all_trees, slot, listed, s);
    }
    assert forall|s: int| slot + 1 <= s < all.len() implies #[trigger] cursor_editor::record_awaits(
        owner,
        all,
        all_trees,
        s,
    ) by {
        if s < first {
            assert(cursor_editor::record_awaits(owner, records, trees, s));
            lemma_append_keeps(owner, records, trees, tasks, kids, s);
            lemma_relist_keeps(owner, joined, all_trees, slot, listed, s);
        } else {
            let i = s - first;
            assert(all[s] == tasks[i]);
            assert(is_child_task(
                node.green,
                EditorNodeId { owner, slot: slot as usize },
                records[slot].offset()@,
                i,
                tasks[i],
            ));
            model::lemma_child_inside(kids, i);
            assert(all_trees[s] == kids[i]);
            assert(all[slot].children()[i] == cursor_editor::id_at(owner, joined, s));
            assert(all_trees[slot] == trees[slot]);
        }
    }
    assert(cursor_editor::record_agrees(owner, all, all_trees, slot)) by {
        assert(all[slot] == listed);
        assert(all_trees[slot] == trees[slot]);
        let listed_node = listed->Node_0;
        assert(cursor_editor::trees_of(all_trees, listed.children()) =~= kids) by {
            assert forall|i: int| 0 <= i < kids.len() implies cursor_editor::trees_of(
                all_trees,
                listed.children(),
            )[i] == kids[i] by {
                assert(listed.children()[i] == cursor_editor::id_at(owner, joined, first + i));
                assert(cursor_editor::slot_of(listed.children()[i]) == first + i);
            }
        }
        assert forall|i: int| 0 <= i < listed_node.children@.len()
            implies cursor_editor::names_record(
            owner,
            all,
            #[trigger] listed_node.children@[i],
        ) by {
            assert(listed.children()[i] == cursor_editor::id_at(owner, joined, first + i));
        }
        assert forall|i: int| 0 <= i < listed_node.children@.len() implies {
            let child = all[cursor_editor::slot_of(#[trigger] listed_node.children@[i])];
            &&& listed_node.green.elements()[i] == child.green()
            &&& !child.dirty()
            &&& child.parent() == Some(EditorNodeId { owner, slot: slot as usize })
            &&& child.index() == Some(i as usize)
        } by {
            assert(listed.children()[i] == cursor_editor::id_at(owner, joined, first + i));
            assert(all[first + i] == tasks[i]);
        }
        match records[slot].parent() {
            Some(parent) => {
                assert(parent.slot != slot) by {
                    assert(records[slot].children().len() == 0);
                }
                assert(all[parent.slot as int] == records[parent.slot as int]);
            },
            None => {},
        }
        assert(cursor_editor::link_agrees(owner, all, all_trees, slot));
        assert(cursor_editor::children_linked(owner, all, slot));
        assert(cursor_editor::content_agrees(owner, all, all_trees, slot));
    }
}

/// Listing the children of one record keeps what holds of another.
proof fn lemma_relist_keeps(
    owner: EditorOwner,
    records: Seq<EditorRecord>,
    trees: Seq<Tree>,
    slot: int,
    listed: EditorRecord,
    other: int,
)
    requires
        records.len() == trees.len(),
        0 <= slot < records.len(),
        0 <= other < records.len(),
        other != slot,
        records[slot].children().len() == 0,
        same_but_children(records[slot], listed),
    ensures
        cursor_editor::record_agrees(owner, records, trees, other) ==> cursor_editor::record_agrees(
            owner,
            records.update(slot, listed),
            trees,
            other,
        ),
        cursor_editor::record_awaits(owner, records, trees, other) ==> cursor_editor::record_awaits(
            owner,
            records.update(slot, listed),
            trees,
            other,
        ),
{
    let all = records.update(slot, listed);
    assert(all[other] == records[other]);
    assert forall|s: int| 0 <= s < all.len() implies cursor_editor::id_at(owner, all, s)
        == cursor_editor::id_at(
        owner,
        records,
        s,
    ) by {}
    if cursor_editor::link_agrees(owner, records, trees, other) {
        match records[other].parent() {
            Some(parent) => {
                assert(parent.slot != slot);
            },
            None => {},
        }
        assert(cursor_editor::link_agrees(owner, all, trees, other));
    }
    if cursor_editor::content_agrees(owner, records, trees, other)
        && cursor_editor::children_linked(owner, records, other) {
        match records[other] {
            EditorRecord::Node(node) => {
                assert forall|i: int| 0 <= i < node.children@.len()
                    implies cursor_editor::names_record(
                    owner,
                    all,
                    #[trigger] node.children@[i],
                ) by {
                    assert(cursor_editor::names_record(owner, records, node.children@[i]));
                }
                assert forall|i: int| 0 <= i < node.children@.len() implies {
                    let child = all[cursor_editor::slot_of(#[trigger] node.children@[i])];
                    let before = records[cursor_editor::slot_of(node.children@[i])];
                    &&& before.green() == child.green()
                    &&& before.dirty() == child.dirty()
                    &&& before.parent() == child.parent()
                    &&& before.index() == child.index()
                } by {
                    assert(cursor_editor::names_record(owner, records, node.children@[i]));
                }
                assert(cursor_editor::content_agrees(owner, all, trees, other));
                assert(cursor_editor::children_linked(owner, all, other)) by {
                    assert forall|i: int| 0 <= i < all[other].children().len() implies {
                        let child = all[cursor_editor::slot_of(
                            #[trigger] all[other].children()[i])];
                        &&& child.parent() == Some(EditorNodeId { owner, slot: other as usize })
                        &&& child.index() == Some(i as usize)
                    } by {
                        let before = records[cursor_editor::slot_of(records[other].children()[i])];
                        assert(node.children@[i] == records[other].children()[i]);
                    }
                }
            },
            EditorRecord::Token(token) => {},
        }
    }
}

/// The children of a node were appended, in source order, and listed; a token lists nothing.
spec fn kids_listed(
    owner: EditorOwner,
    before: Seq<EditorRecord>,
    after: Seq<EditorRecord>,
    slot: int,
) -> bool {
    match before[slot] {
        EditorRecord::Node(node) => {
            let count = node.green@.children().len();
            &&& after.len() == before.len() + count
            &&& after[slot].children() == Seq::new(
                count,
                |i: int| cursor_editor::id_at(owner, after, before.len() + i),
            )
            &&& forall|i: int|
                0 <= i < count ==> is_child_task(
                    node.green,
                    EditorNodeId { owner, slot: slot as usize },
                    node.offset@,
                    i,
                    #[trigger] after[before.len() + i],
                )
        },
        EditorRecord::Token(_) => after == before,
    }
}

/// List the children of one waiting record.
fn materialize_one(
    owner: &EditorOwner,
    records: &mut Vec<EditorRecord>,
    slot: usize,
    Ghost(trees): Ghost<Seq<Tree>>,
)
    requires
        slot < old(records)@.len(),
        arena_grows(*owner, old(records)@, trees, slot as int),
    ensures
        arena_grows(
            *owner,
            final(records)@,
            trees + trees[slot as int].children(),
            slot + 1,
        ),
        forall|s: int|
            0 <= s < old(records)@.len() ==> same_but_children(
                old(records)@[s],
                #[trigger] final(records)@[s],
            ),
        forall|s: int|
            0 <= s < old(records)@.len() && s != slot ==> old(records)@[s]
                == #[trigger] final(records)@[s],
        kids_listed(*owner, old(records)@, final(records)@, slot as int),
{
    assert(cursor_editor::record_awaits(*owner, records@, trees, slot as int));
    let ghost before = records@;
    let (green, offset) = match &records[slot] {
        EditorRecord::Node(node) => (node.green.clone(), node.offset),
        EditorRecord::Token(token) => {
            proof {
                assert(trees[slot as int].children() =~= Seq::empty());
                assert(trees + trees[slot as int].children() =~= trees);
                assert(cursor_editor::record_agrees(*owner, records@, trees, slot as int));
            }
            return ;
        },
    };
    let id = EditorNodeId { owner: owner.clone(), slot };
    let mut tasks = materialize_child_tasks(&green, &id, offset);
    let first: usize = records.len();
    let ghost made = tasks@;
    records.append(&mut tasks);
    let count: usize = records.len();
    let children = ids_from(owner, records, first);
    assert(records@ =~= before + made);
    let ghost joined = records@;
    if let EditorRecord::Node(node) = &mut records[slot] {
        node.children = children;
    }
    proof {
        let listed = records@[slot as int];
        assert(records@ =~= (before + made).update(slot as int, listed));
        lemma_children_listed(*owner, before, trees, slot as int, made, listed);
        let total = before.len() as int;
        assert forall|i: int| 0 <= i < made.len() implies is_child_task(
            green,
            id,
            offset@,
            i,
            #[trigger] records@[total + i],
        ) by {
            assert(records@[total + i] == made[i]);
        }
        assert(listed.children() =~= Seq::new(
            made.len(),
            |i: int| cursor_editor::id_at(*owner, records@, total + i),
        ));
    }
}

/// Append a complete green component to an arena.
pub(super) fn materialize(
    owner: &EditorOwner,
    records: &mut Vec<EditorRecord>,
    Ghost(trees): Ghost<Seq<Tree>>,
    root: GreenElement,
) -> (grown: (EditorElementId, Ghost<Seq<Tree>>))
    requires
        cursor_editor::arena_agrees(*owner, old(records)@, trees),
    ensures
        cursor_editor::arena_agrees(*owner, final(records)@, grown.1@),
        old(records)@ == final(records)@.take(old(records)@.len() as int),
        trees == grown.1@.take(trees.len() as int),
        final(records)@.len() > old(records)@.len(),
        grown.0 == cursor_editor::id_at(*owner, final(records)@, old(records)@.len() as int),
        final(records)@[old(records)@.len() as int].parent() is None,
        final(records)@[old(records)@.len() as int].green() == root,
        grown.1@[old(records)@.len() as int] == element::element_tree(root),
        forall|s: int|
            old(records)@.len() <= s < final(records)@.len() ==> !(
            #[trigger] final(records)@[s]).dirty(),
{
    let ghost before = records@;
    let base: usize = records.len();
    let ghost mut grown = trees.push(element::element_tree(root));
    let (record, id) = match &root {
        NodeOrToken::Node(node) => {
            proof {
                use_type_invariant(node);
                node.lemma_valid();
            }
            (
                EditorRecord::Node(
                    EditorNodeRecord {
                        parent: None,
                        index: None,
                        offset: TextSize { raw: 0 },
                        text_len: node.text_len(),
                        green: node.clone(),
                        children: Vec::new(),
                        dirty: false,
                    },
                ),
                NodeOrToken::Node(EditorNodeId { owner: owner.clone(), slot: base }),
            )
        },
        NodeOrToken::Token(token) => {
            proof {
                use_type_invariant(token);
            }
            (
                EditorRecord::Token(
                    EditorTokenRecord {
                        parent: None,
                        index: None,
                        offset: TextSize { raw: 0 },
                        green: token.clone(),
                    },
                ),
                NodeOrToken::Token(EditorTokenId { owner: owner.clone(), slot: base }),
            )
        },
    };
    records.push(record);
    proof {
        let added = seq![record];
        let added_trees = seq![element::element_tree(root)];
        assert(records@ =~= before + added);
        assert(grown =~= trees + added_trees);
        assert forall|s: int| 0 <= s < base implies #[trigger] cursor_editor::record_agrees(
            *owner,
            records@,
            grown,
            s,
        ) by {
            assert(cursor_editor::record_agrees(*owner, before, trees, s));
            lemma_append_keeps(*owner, before, trees, added, added_trees, s);
        }
        assert(cursor_editor::record_awaits(*owner, records@, grown, base as int));
    }
    let mut slot: usize = base;
    while slot < records.len()
        invariant
            before.len() == base == trees.len(),
            base <= slot <= records@.len(),
            base < records@.len(),
            arena_grows(*owner, records@, grown, slot as int),
            forall|s: int| 0 <= s < base ==> before[s] == #[trigger] records@[s],
            trees == grown.take(trees.len() as int),
            records@[base as int].parent() is None,
            records@[base as int].green() == root,
            records@[base as int] is Node <==> root is Node,
            grown[base as int] == element::element_tree(root),
            forall|s: int| base <= s < slot ==> !(#[trigger] records@[s]).dirty(),
        decreases model::forest_size(grown.skip(slot as int)),
    {
        let ghost earlier = records@;
        let ghost earlier_trees = grown;
        assert(cursor_editor::record_awaits(*owner, records@, grown, slot as int));
        materialize_one(owner, records, slot, Ghost(grown));
        proof {
            let kids = grown[slot as int].children();
            grown = grown + kids;
            assert(grown.take(trees.len() as int) =~= earlier_trees.take(trees.len() as int));
            model::lemma_forest_size_skip(earlier_trees, slot as int);
            assert(grown.skip(slot + 1) =~= earlier_trees.skip(slot + 1) + kids);
            model::lemma_forest_size_concat(earlier_trees.skip(slot + 1), kids);
            assert(same_but_children(earlier[slot as int], records@[slot as int]));
            assert(same_but_children(earlier[base as int], records@[base as int]));
        }
        slot += 1;
    }
    assert(records@.take(base as int) =~= before);
    (id, Ghost(grown))
}

/// An element of a new editor is a copy of its source element.
pub open spec fn mirrors_source(editor: SyntaxEditor, path: Seq<int>) -> bool {
    let slot = editor.source_slot(path);
    &&& 0 <= slot < editor.slots()
    &&& editor.tree(slot) == model::tree_at(editor.source().tree(), path)
    &&& editor.green_at(slot) == editor.source().below(path).handle()
    &&& !editor.dirty_at(slot)
    &&& path.len() > 0 ==> editor.children_at(editor.source_slot(path.drop_last()))[path.last()]
        == editor.id(slot)
}

/// A detached copy of a green element was appended and nothing else changed.
pub open spec fn component_added(
    before: SyntaxEditor,
    after: SyntaxEditor,
    id: EditorElementId,
    green: GreenElement,
    tree: Tree,
) -> bool {
    let slot = before.slots() as int;
    &&& unchanged_below(before, after, before.slots() as int)
    &&& after.slots() > before.slots()
    &&& after.owns(id)
    &&& cursor_editor::slot_of(id) == slot
    &&& after.tree(slot) == tree
    &&& after.green_at(slot) == green
    &&& after.parent_at(slot) is None
    &&& forall|s: int| slot <= s < after.slots() ==> !(#[trigger] after.dirty_at(s))
}

/// The elements in the slots below a bound are the same in both editors.
pub open spec fn unchanged_below(before: SyntaxEditor, after: SyntaxEditor, bound: int) -> bool {
    &&& after.owner() == before.owner()
    &&& after.root() == before.root()
    &&& after.source() == before.source()
    &&& forall|path: Seq<int>| #[trigger]
        after.source_slot(path) == before.source_slot(path)
    &&& forall|s: int|
        0 <= s < bound ==> {
            &&& #[trigger] after.id(s) == before.id(s)
            &&& after.tree(s) == before.tree(s)
            &&& after.parent_at(s) == before.parent_at(s)
            &&& after.index_at(s) == before.index_at(s)
            &&& after.children_at(s) == before.children_at(s)
            &&& after.offset_at(s) == before.offset_at(s)
            &&& after.green_at(s) == before.green_at(s)
            &&& after.dirty_at(s) == before.dirty_at(s)
        }
}

/// Copy the child lists of all records.
pub(super) fn list_children(records: &Vec<EditorRecord>) -> (lists: Vec<Vec<EditorElementId>>)
    ensures
        lists@.len() == records@.len(),
        forall|s: int|
            0 <= s < records@.len() ==> (#[trigger] lists@[s])@ == records@[s].children(),
{
    let mut lists: Vec<Vec<EditorElementId>> = Vec::with_capacity(records.len());
    let mut slot: usize = 0;
    while slot < records.len()
        invariant
            slot <= records@.len(),
            lists@.len() == slot,
            forall|s: int| 0 <= s < slot ==> (#[trigger] lists@[s])@ == records@[s].children(),
        decreases records@.len() - slot,
    {
        let list = match &records[slot] {
            EditorRecord::Node(node) => copy_ids(&node.children),
            EditorRecord::Token(_) => Vec::new(),
        };
        assert(list@ =~= records@[slot as int].children());
        lists.push(list);
        slot += 1;
    }
    lists
}

/// Following the recorded children of an untouched component mirrors its green node.
pub(super) proof fn lemma_follow(
    owner: EditorOwner,
    records: Seq<EditorRecord>,
    trees: Seq<Tree>,
    children: Seq<Vec<EditorElementId>>,
    green: GreenNode,
    path: Seq<int>,
)
    requires
        cursor_editor::arena_agrees(owner, records, trees),
        records.len() > 0,
        records[0].green() == NodeOrToken::<GreenNode, GreenToken>::Node(green),
        children.len() == records.len(),
        forall|s: int|
            0 <= s < records.len() ==> (#[trigger] children[s])@ == records[s].children(),
        forall|s: int| 0 <= s < records.len() ==> !(#[trigger] records[s]).dirty(),
        model::path_exists(trees[0], path),
    ensures
        0 <= cursor_editor::follow(children, 0, path) < records.len(),
        trees[cursor_editor::follow(children, 0, path)] == model::tree_at(trees[0], path),
        records[cursor_editor::follow(children, 0, path)].green()
            == cursor_data::handle_at(green, path),
    decreases path.len(),
{
    if path.len() > 0 {
        let upper = path.drop_last();
        lemma_follow(owner, records, trees, children, green, upper);
        let parent = cursor_editor::follow(children, 0, upper);
        assert(cursor_editor::record_agrees(owner, records, trees, parent));
        let child = records[parent].children()[path.last()];
        assert(children[parent]@[path.last()] == child);
        match records[parent] {
            EditorRecord::Node(node) => {
                assert(cursor_editor::names_record(owner, records, node.children@[path.last()]));
                assert(!records[parent].dirty());
            },
            EditorRecord::Token(token) => {},
        }
    }
}

} // verus!
