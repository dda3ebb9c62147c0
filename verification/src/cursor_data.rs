//! Places in a tree and the payloads of red cursors.

use vstd::prelude::*;

use crate::cursor::release_parent_chain;
use crate::cursor::SyntaxNode;
use crate::green::element::GreenElement;
use crate::green::node::GreenNode;
use crate::green::token::GreenToken;
use crate::model;
use crate::model::Tree;
use crate::text::TextSize;
use crate::utility_types::NodeOrToken;

verus! {

/// An element of a tree: a root and the child indices that lead to the element.
#[verifier::ext_equal]
pub struct Place {
    /// Root of the tree.
    pub root: GreenNode,
    /// Child indices from the root down.
    pub path: Seq<int>,
}

/// The handle that a path of child indices leads to.
pub open spec fn handle_at(root: GreenNode, path: Seq<int>) -> GreenElement
    decreases path.len(),
{
    if path.len() == 0 {
        NodeOrToken::Node(root)
    } else {
        handle_at(root, path.drop_last())->Node_0.elements()[path.last()]
    }
}

impl Place {
    /// The place of the child at `index`.
    pub open spec fn child(self, index: int) -> Place {
        Place { root: self.root, path: self.path.push(index) }
    }

    /// The place of the parent.
    pub open spec fn parent(self) -> Place {
        Place { root: self.root, path: self.path.drop_last() }
    }

    /// The place of the sibling at `index`.
    pub open spec fn sibling(self, index: int) -> Place {
        self.parent().child(index)
    }

    /// The place `lower` levels below.
    pub open spec fn below(self, lower: Seq<int>) -> Place {
        Place { root: self.root, path: self.path + lower }
    }

    /// The index in the parent.
    pub open spec fn index(self) -> int {
        self.path.last()
    }

    /// Whether the place is the root of its tree.
    pub open spec fn is_root(self) -> bool {
        self.path.len() == 0
    }

    /// The tree at the place.
    pub open spec fn tree(self) -> Tree {
        model::tree_at(self.root@, self.path)
    }

    /// The green handle at the place.
    pub open spec fn handle(self) -> GreenElement {
        handle_at(self.root, self.path)
    }

    /// The children of the parent.
    pub open spec fn siblings(self) -> Seq<Tree> {
        self.parent().tree().children()
    }

    /// The absolute offset of the first byte.
    pub open spec fn start(self) -> nat {
        model::offset_at(self.root@, self.path)
    }

    /// The absolute offset behind the last byte.
    pub open spec fn end(self) -> nat {
        self.start() + self.tree().len()
    }

    /// Whether `place` is this place or lies below it.
    pub open spec fn holds(self, place: Place) -> bool {
        &&& place.root == self.root
        &&& place.path.len() >= self.path.len()
        &&& place.path.take(self.path.len() as int) == self.path
    }

    /// The child indices that lead from this place down to `place`.
    pub open spec fn way_to(self, place: Place) -> Seq<int> {
        place.path.skip(self.path.len() as int)
    }

    /// Whether the place exists.
    pub open spec fn valid(self) -> bool {
        &&& model::path_exists(self.root@, self.path)
        &&& self.root.valid()
    }

    /// What holds of every existing place.
    pub proof fn lemma_valid(self)
        requires
            self.valid(),
        ensures
            self.end() <= self.root@.len() <= u32::MAX,
            !self.is_root() ==> {
                &&& self.parent().valid()
                &&& self.parent().tree() is Node
                &&& 0 <= self.index() < self.siblings().len()
                &&& self.tree() == self.siblings()[self.index()]
                &&& self.start() == self.parent().start() + model::offset_in(
                    self.siblings(),
                    self.index(),
                )
                &&& self.sibling(self.index()) == self
            },
    {
        self.root.lemma_valid();
        model::lemma_path_inside(self.root@, self.path);
        if !self.is_root() {
            assert(self.path.drop_last().push(self.path.last()) =~= self.path);
        }
    }

    /// A child of an existing place.
    pub proof fn lemma_child(self, index: int)
        requires
            self.valid(),
            0 <= index < self.tree().children().len(),
        ensures
            self.child(index).valid(),
            self.child(index).parent() == self,
            self.child(index).index() == index,
            !self.child(index).is_root(),
            self.child(index).tree() == self.tree().children()[index],
            self.child(index).start() == self.start() + model::offset_in(
                self.tree().children(),
                index,
            ),
            self.child(index).end() <= self.end(),
            self.child(index).handle() == self.handle()->Node_0.elements()[index],
            self.tree() is Node,
    {
        model::lemma_path_push(self.root@, self.path, index);
        assert(self.path.push(index).drop_last() =~= self.path);
        model::lemma_child_inside(self.tree().children(), index);
    }
}

/// Following two paths after each other leads to the same handle.
pub proof fn lemma_handle_concat(root: GreenNode, upper: Seq<int>, lower: Seq<int>)
    requires
        handle_at(root, upper) is Node,
    ensures
        handle_at(root, upper + lower) == handle_at(handle_at(root, upper)->Node_0, lower),
    decreases lower.len(),
{
    if lower.len() == 0 {
        assert(upper + lower =~= upper);
    } else {
        assert((upper + lower).drop_last() =~= upper + lower.drop_last());
        assert((upper + lower).last() == lower.last());
        lemma_handle_concat(root, upper, lower.drop_last());
    }
}

/// A place below another one that shows the same tree is that place.
pub proof fn lemma_same_below(top: Place, place: Place)
    requires
        top.valid(),
        place.valid(),
        top.holds(place),
        top.tree() == place.tree(),
    ensures
        top == place,
{
    let lower = top.way_to(place);
    assert(top.path + lower =~= place.path);
    model::lemma_path_concat(top.root@, top.path, lower);
    model::lemma_path_height(top.tree(), lower);
    assert(place.path =~= top.path);
}

/// Immutable payload for a red syntax node.
pub struct SyntaxNodeData {
    /// Strong parent-node link; roots have no parent.
    pub parent: Option<SyntaxNode>,
    /// Immutable green node represented by this cursor.
    pub green: GreenNode,
    /// Element index in the parent, or zero for a root.
    pub index: usize,
    /// Absolute UTF-8 byte offset.
    pub offset: TextSize,
}

/// Immutable payload for a red syntax token.
pub struct SyntaxTokenData {
    /// Strong parent-node link.
    pub parent: Option<SyntaxNode>,
    /// Immutable green token represented by this cursor.
    pub green: GreenToken,
    /// Token index in its parent.
    pub index: usize,
    /// Absolute UTF-8 byte offset.
    pub offset: TextSize,
}

/// A shared allocation of a node payload.
///
/// Verus rejects a declared `triomphe::Arc` that holds nodes inside nodes, so it stands in a
/// private field here.
#[verifier::external_body]
pub struct NodeCell {
    arc: triomphe::Arc<SyntaxNodeData>,
}

/// The payload that a node allocation holds.
pub uninterp spec fn node_cell(cell: NodeCell) -> SyntaxNodeData;

/// The payload that a token allocation holds.
pub uninterp spec fn token_cell(cell: triomphe::Arc<SyntaxTokenData>) -> SyntaxTokenData;

/// `triomphe::Arc::new` moves a node payload into a new shared allocation.
#[verifier::external_body]
pub(crate) fn node_cell_new(data: SyntaxNodeData) -> (cell: NodeCell)
    ensures
        node_cell(cell) == data,
{
    NodeCell { arc: triomphe::Arc::new(data) }
}

/// `triomphe::Arc::deref` borrows a node payload.
#[verifier::external_body]
pub(crate) fn node_cell_deref(cell: &NodeCell) -> (data: &SyntaxNodeData)
    ensures
        *data == node_cell(*cell),
{
    &*cell.arc
}

/// `triomphe::Arc::clone` gives another handle on a node payload.
#[verifier::external_body]
pub(crate) fn node_cell_clone(cell: &NodeCell) -> (handle: NodeCell)
    ensures
        handle == *cell,
{
    NodeCell { arc: cell.arc.clone() }
}

/// `triomphe::Arc::get_mut` lends the payload for writing when no other handle shares it; whether
/// one does is left open.
#[verifier::external_body]
pub(crate) fn node_cell_get_mut(cell: &mut NodeCell) -> (data: Option<&mut SyntaxNodeData>)
    ensures
        data is None ==> *final(cell) == *old(cell),
        data is Some ==> *data->0 == node_cell(*old(cell)),
        data is Some ==> node_cell(*final(cell)) == *final(data->0),
{
    triomphe::Arc::get_mut(&mut cell.arc)
}

/// `triomphe::Arc::get_mut` lends a token payload for writing when no other handle shares it;
/// whether one does is left open.
#[verifier::external_body]
pub(crate) fn token_cell_get_mut(cell: &mut triomphe::Arc<SyntaxTokenData>) -> (data: Option<
    &mut SyntaxTokenData,
>)
    ensures
        data is None ==> *final(cell) == *old(cell),
        data is Some ==> *data->0 == token_cell(*old(cell)),
        data is Some ==> token_cell(*final(cell)) == *final(data->0),
{
    triomphe::Arc::get_mut(cell)
}

/// `triomphe::Arc::new` moves a token payload into a new shared allocation.
#[verifier::external_body]
pub(crate) fn token_cell_new(data: SyntaxTokenData) -> (cell: triomphe::Arc<SyntaxTokenData>)
    ensures
        token_cell(cell) == data,
{
    triomphe::Arc::new(data)
}

/// `triomphe::Arc::deref` borrows a token payload.
#[verifier::external_body]
pub(crate) fn token_cell_deref(cell: &triomphe::Arc<SyntaxTokenData>) -> (data: &SyntaxTokenData)
    ensures
        *data == token_cell(*cell),
{
    &**cell
}

/// `triomphe::Arc::try_unwrap` moves the payload out when no other handle shares it, else it gives
/// the handle back; whether one does is left open.
#[verifier::external_body]
pub(crate) fn node_cell_try_unwrap(cell: NodeCell) -> (data: Result<SyntaxNodeData, NodeCell>)
    ensures
        match data {
            Ok(data) => data == node_cell(cell),
            Err(handle) => handle == cell,
        },
    opens_invariants none
    no_unwind
{
    triomphe::Arc::try_unwrap(cell.arc).map_err(|arc| NodeCell { arc })
}

impl Drop for SyntaxNodeData {
    fn drop(&mut self)
        opens_invariants none
        no_unwind
    {
        let mut parent: Option<SyntaxNode> = None;
        core::mem::swap(&mut self.parent, &mut parent);
        release_parent_chain(parent);
    }
}

impl Drop for SyntaxTokenData {
    fn drop(&mut self)
        opens_invariants none
        no_unwind
    {
        let mut parent: Option<SyntaxNode> = None;
        core::mem::swap(&mut self.parent, &mut parent);
        release_parent_chain(parent);
    }
}

} // verus!
