//! How an editor mirrors what it is made of and what is imported into it.

use vstd::prelude::*;

use crate::cursor_editor;
use crate::cursor_editor::materialization;
use crate::cursor_editor::EditorElementId;
use crate::cursor_editor::SyntaxEditor;
use crate::green::element::GreenElement;
use crate::model;
use crate::model::Tree;
use crate::utility_types::NodeOrToken;

verus! {

/// An editor mirrors its source whole, with the edited root on top.
pub open spec fn mirrors_all(editor: SyntaxEditor) -> bool {
    &&& editor.parent_at(editor.source_slot(Seq::empty())) is None
    &&& forall|path: Seq<int>| #[trigger]
        model::path_exists(editor.source().tree(), path) ==> materialization::mirrors_source(
            editor,
            path,
        )
}

/// In an editor that was just made, every element of the source shows the same tree and the same
/// handle at the same distance from the root, below the same parent at the same index.
pub proof fn lemma_source_mirrored(editor: SyntaxEditor, path: Seq<int>)
    requires
        editor.valid(),
        mirrors_all(editor),
        model::path_exists(editor.source().tree(), path),
    ensures
        ({
            let slot = editor.source_slot(path);
            &&& 0 <= slot < editor.slots()
            &&& editor.tree(slot) == model::tree_at(editor.source().tree(), path)
            &&& editor.green_at(slot) == editor.source().below(path).handle()
            &&& editor.offset_at(slot) == model::offset_at(editor.source().tree(), path)
            &&& if path.len() == 0 {
                editor.parent_at(slot) is None
            } else {
                &&& editor.parent_at(slot) is Some
                &&& editor.parent_at(slot)->0.slot() == editor.source_slot(path.drop_last())
                &&& editor.index_at(slot) == Some(path.last() as usize)
                &&& 0 <= path.last() <= usize::MAX
            }
        }),
    decreases path.len(),
{
    let slot = editor.source_slot(path);
    assert(materialization::mirrors_source(editor, path));
    editor.lemma_element(slot);
    if path.len() == 0 {
        assert(path =~= Seq::empty());
    } else {
        let upper = path.drop_last();
        lemma_source_mirrored(editor, upper);
        let above = editor.source_slot(upper);
        editor.lemma_element(above);
        editor.lemma_child(above, path.last());
    }
}

/// In an editor that was just made, different elements of the source have different IDs.
pub proof fn lemma_source_ids_differ(editor: SyntaxEditor, left: Seq<int>, right: Seq<int>)
    requires
        editor.valid(),
        mirrors_all(editor),
        model::path_exists(editor.source().tree(), left),
        model::path_exists(editor.source().tree(), right),
        editor.source_slot(left) == editor.source_slot(right),
    ensures
        left == right,
    decreases left.len(),
{
    lemma_source_mirrored(editor, left);
    lemma_source_mirrored(editor, right);
    if left.len() > 0 && right.len() > 0 {
        lemma_source_ids_differ(editor, left.drop_last(), right.drop_last());
        assert(left =~= left.drop_last().push(left.last()));
        assert(right =~= right.drop_last().push(right.last()));
    } else {
        assert(left =~= right);
    }
}

/// An import gives an ID that was not there before, of an element without parent that shows what was
/// imported. All elements that were there stay as and where they were.
pub proof fn lemma_import_adds(
    before: SyntaxEditor,
    after: SyntaxEditor,
    id: EditorElementId,
    green: GreenElement,
    tree: Tree,
    other: EditorElementId,
)
    requires
        before.valid(),
        after.valid(),
        materialization::component_added(before, after, id, green, tree),
        before.owns(other),
    ensures
        !before.owns(id),
        after.owns(id),
        after.tree(cursor_editor::slot_of(id)) == tree,
        after.green_at(cursor_editor::slot_of(id)) == green,
        after.parent_at(cursor_editor::slot_of(id)) is None,
        after.offset_at(cursor_editor::slot_of(id)) == 0,
        after.owns(other),
        ({
            let slot = cursor_editor::slot_of(other);
            &&& after.tree(slot) == before.tree(slot)
            &&& after.green_at(slot) == before.green_at(slot)
            &&& after.parent_at(slot) == before.parent_at(slot)
            &&& after.index_at(slot) == before.index_at(slot)
            &&& after.children_at(slot) == before.children_at(slot)
            &&& after.offset_at(slot) == before.offset_at(slot)
        }),
        after.root() == before.root(),
{
    let slot = cursor_editor::slot_of(other);
    before.lemma_owned(other);
    assert(after.id(slot) == before.id(slot));
    after.lemma_element(slot);
    after.lemma_element(cursor_editor::slot_of(id));
    if before.owns(id) {
        before.lemma_owned(id);
    }
}

/// The parent of an element that came with an import came with it too.
pub proof fn lemma_import_apart(
    before: SyntaxEditor,
    after: SyntaxEditor,
    id: EditorElementId,
    green: GreenElement,
    tree: Tree,
    slot: int,
)
    requires
        before.valid(),
        after.valid(),
        materialization::component_added(before, after, id, green, tree),
        before.slots() <= slot < after.slots(),
        after.parent_at(slot) is Some,
    ensures
        after.parent_at(slot)->0.slot() >= before.slots(),
{
    after.lemma_element(slot);
    let parent = after.parent_at(slot)->0;
    let upper = parent.slot();
    after.lemma_owned(NodeOrToken::Node(parent));
    if upper < before.slots() {
        let index = after.index_at(slot)->0 as int;
        assert(after.id(upper) == before.id(upper));
        assert(after.children_at(upper) == before.children_at(upper));
        before.lemma_child(upper, index);
        before.lemma_owned(before.children_at(upper)[index]);
    }
}

} // verus!
