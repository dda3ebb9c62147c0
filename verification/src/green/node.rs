//! Thin, immutable green-node allocations.

use std::ops::Range;

use vstd::prelude::*;
use vstd::string::StringExecFns;

use crate::green::checked_text_add;
use crate::green::element;
use crate::green::element::GreenElement;
use crate::green::element::GreenElementRef;
use crate::green::token::GreenToken;
use crate::green::GreenError;
use crate::green::SyntaxKind;
use crate::hashing::Handed;
use crate::hashing::Recorder;
use crate::model;
use crate::model::Tree;
use crate::text::TextSize;
use crate::utility_types::NodeOrToken;

verus! {

/// Fixed header stored alongside a green node's variable-length child slice.
pub struct GreenNodeHead {
    /// Raw node kind.
    kind: SyntaxKind,
    /// Total UTF-8 byte length of all children.
    text_len: TextSize,
    /// Allocation accounting marker.
    count: countme::Count<GreenNode>,
}

/// A green child paired with its offset relative to its parent.
pub enum GreenChild {
    /// An immutable child node.
    Node {
        /// Child offset relative to its parent.
        rel_offset: TextSize,
        /// Shared child node handle.
        node: GreenNode,
    },
    /// An immutable child token.
    Token {
        /// Child offset relative to its parent.
        rel_offset: TextSize,
        /// Shared child token handle.
        token: GreenToken,
    },
}

/// A thin shared allocation containing a header and children.
///
/// Verus rejects a declared `triomphe::ThinArc` that holds nodes inside nodes, so it stands in a
/// private field here.
#[verifier::external_body]
pub struct NodeStorage {
    arc: triomphe::ThinArc<GreenNodeHead, GreenChild>,
}

/// The header that an allocation holds.
pub uninterp spec fn storage_head(storage: NodeStorage) -> GreenNodeHead;

/// The child records that an allocation holds.
pub uninterp spec fn storage_children(storage: NodeStorage) -> Seq<GreenChild>;

/// The child handles that an allocation holds.
pub open spec fn storage_elements(storage: NodeStorage) -> Seq<GreenElement> {
    storage_children(storage).map_values(|child: GreenChild| child.element())
}

/// The tree that an allocation unfolds to.
pub closed spec fn storage_tree(storage: NodeStorage) -> Tree {
    Tree::Node {
        kind: storage_head(storage).kind,
        children: element::element_trees(storage_elements(storage)),
    }
}

/// The stored length and offsets are those of the tree.
pub closed spec fn storage_agrees(storage: NodeStorage) -> bool {
    let tree = storage_tree(storage);
    let children = storage_children(storage);
    &&& storage_head(storage).text_len@ == tree.len()
    &&& forall|i: int|
        0 <= i < children.len() ==> (#[trigger] children[i]).offset()@ == model::offset_in(
            tree.children(),
            i,
        )
}

/// `triomphe::ThinArc::try_from_header_and_iter` moves a header and children into a new shared
/// allocation, unless the allocator fails; when it fails is left open. The allocation is none that a
/// handle keeps alive meanwhile, such as the one handed over.
#[verifier::external_body]
fn storage_try_new(
    head: GreenNodeHead,
    children: Vec<GreenChild>,
    beside: Option<&NodeStorage>,
) -> (storage: Result<NodeStorage, triomphe::AllocError>)
    ensures
        storage matches Ok(storage) ==> storage_head(storage) == head && storage_children(storage)
            == children@ && (beside matches Some(other) ==> storage != *other),
{
    triomphe::ThinArc::try_from_header_and_iter(head, children.into_iter()).map(
        |arc| NodeStorage { arc },
    )
}

/// `triomphe::ThinArc::deref` borrows the header and the children of a shared allocation.
#[verifier::external_body]
fn storage_deref(storage: &NodeStorage) -> (contents: (&GreenNodeHead, &[GreenChild]))
    ensures
        *contents.0 == storage_head(*storage),
        contents.1@ == storage_children(*storage),
{
    let contents = &*storage.arc;
    (&contents.header.header, &contents.slice)
}

/// `triomphe::ThinArc::clone` gives another handle on the same allocation.
#[verifier::external_body]
fn storage_clone(storage: &NodeStorage) -> (handle: NodeStorage)
    ensures
        handle == *storage,
{
    NodeStorage { arc: storage.arc.clone() }
}

/// Comparing `triomphe::ThinArc::as_ptr` tells whether two handles share one allocation.
#[verifier::external_body]
fn storage_same(left: &NodeStorage, right: &NodeStorage) -> (same: bool)
    ensures
        same == (*left == *right),
{
    std::ptr::eq(left.arc.as_ptr(), right.arc.as_ptr())
}

/// Hand the address of a shared allocation to a hasher, as `std::ptr::hash` does.
#[verifier::external_body]
pub(crate) fn storage_hash_address<HasherType: std::hash::Hasher>(
    storage: &NodeStorage,
    state: &mut HasherType,
) {
    std::ptr::hash(storage.arc.as_ptr(), state);
}

/// An internal node in an immutable green syntax tree.
///
/// Two nodes are the same value for the contracts exactly when they share one allocation; what a
/// node says is its view.
pub struct GreenNode {
    /// Thin shared allocation containing the header and children.
    storage: NodeStorage,
    /// The tree that the allocation unfolds to.
    tree: Ghost<Tree>,
}

impl GreenChild {
    /// The child handle without its offset.
    pub open spec fn element(self) -> GreenElement {
        match self {
            GreenChild::Node { node, .. } => NodeOrToken::Node(node),
            GreenChild::Token { token, .. } => NodeOrToken::Token(token),
        }
    }

    /// The offset relative to the parent.
    pub open spec fn offset(self) -> TextSize {
        match self {
            GreenChild::Node { rel_offset, .. } => rel_offset,
            GreenChild::Token { rel_offset, .. } => rel_offset,
        }
    }

    /// Borrow the child handle without its relative offset.
    pub fn as_ref(&self) -> (element: GreenElementRef<'_>)
        ensures
            element::owned_element(element) == self.element(),
    {
        match self {
            GreenChild::Node { node, .. } => NodeOrToken::Node(node),
            GreenChild::Token { token, .. } => NodeOrToken::Token(token),
        }
    }

    /// Return this child's offset relative to its parent.
    pub fn rel_offset(&self) -> (offset: TextSize)
        ensures
            offset == self.offset(),
    {
        match self {
            GreenChild::Node { rel_offset, .. } => *rel_offset,
            GreenChild::Token { rel_offset, .. } => *rel_offset,
        }
    }
}

/// The outcome of making a node of `elements`.
pub open spec fn node_made(
    kind: SyntaxKind,
    elements: Seq<GreenElement>,
    made: Result<GreenNode, GreenError>,
) -> bool {
    let trees = element::element_trees(elements);
    match made {
        Ok(node) => {
            &&& model::forest_len(trees) <= u32::MAX
            &&& node@ == (Tree::Node { kind, children: trees })
            &&& node.elements() == elements
        },
        Err(GreenError::TextLengthOverflow { accumulated, next }) => first_overflow(
            trees,
            accumulated,
            next,
        ),
        Err(error) => error == GreenError::AllocationFailed && model::forest_len(trees) <= u32::MAX,
    }
}

/// Adding the lengths from the left first leaves the coordinate space at a tree of length `next`,
/// with `accumulated` bytes before it.
pub open spec fn first_overflow(trees: Seq<Tree>, accumulated: TextSize, next: TextSize) -> bool {
    exists|index: int|
        {
            &&& 0 <= index < trees.len()
            &&& accumulated@ == #[trigger] model::offset_in(trees, index)
            &&& next@ == trees[index].len()
            &&& accumulated@ + next@ > u32::MAX
        }
}

/// An overflow is only reported when the whole does not fit.
pub proof fn lemma_first_overflow(trees: Seq<Tree>, accumulated: TextSize, next: TextSize)
    requires
        first_overflow(trees, accumulated, next),
    ensures
        model::forest_len(trees) > u32::MAX,
{
    let index = choose|index: int|
        {
            &&& 0 <= index < trees.len()
            &&& accumulated@ == #[trigger] model::offset_in(trees, index)
            &&& next@ == trees[index].len()
            &&& accumulated@ + next@ > u32::MAX
        };
    model::lemma_child_inside(trees, index);
}

impl View for GreenNode {
    type V = Tree;

    closed spec fn view(&self) -> Tree {
        self.tree@
    }
}

impl GreenNode {
    /// The child handles in source order.
    pub closed spec fn elements(self) -> Seq<GreenElement> {
        storage_elements(self.storage)
    }

    /// The child records in source order.
    pub closed spec fn records(self) -> Seq<GreenChild> {
        storage_children(self.storage)
    }

    /// The stored header, records and offsets agree with the tree.
    #[verifier::type_invariant]
    pub closed spec fn valid(self) -> bool {
        self.tree@ == storage_tree(self.storage) && storage_agrees(self.storage)
    }

    /// What the invariant of a node says of its view.
    pub proof fn lemma_valid(self)
        requires
            self.valid(),
        ensures
            self@ is Node,
            self@.len() <= u32::MAX,
            self@.children() == element::element_trees(self.elements()),
            self.elements().len() == self.records().len(),
            forall|i: int|
                0 <= i < self.records().len() ==> {
                    &&& (#[trigger] self.records()[i]).element() == self.elements()[i]
                    &&& self.records()[i].offset()@ == model::offset_in(self@.children(), i)
                },
    {
    }

    /// Nodes that share their allocation are the same value.
    proof fn lemma_same_storage(self, other: Self)
        requires
            self.valid(),
            other.valid(),
            self.storage == other.storage,
        ensures
            self == other,
    {
    }

    /// Create an immutable node from its children.
    ///
    /// Whether the allocation of children that fit succeeds rests on the allocator.
    pub fn new(kind: SyntaxKind, children: Vec<GreenElement>) -> (made: Result<Self, GreenError>)
        ensures
            node_made(kind, children@, made),
    {
        GreenNode::new_beside(kind, children, None)
    }

    /// Create an immutable node from its children, in another allocation than that of a given node.
    pub(crate) fn new_beside(
        kind: SyntaxKind,
        children: Vec<GreenElement>,
        beside: Option<&GreenNode>,
    ) -> (made: Result<Self, GreenError>)
        ensures
            node_made(kind, children@, made),
            made matches Ok(node) ==> (beside matches Some(other) ==> node != *other),
    {
        let ghost elements = children@;
        let ghost trees = element::element_trees(elements);
        let count: usize = children.len();
        let mut text_len = TextSize { raw: 0 };
        let mut records: Vec<GreenChild> = Vec::with_capacity(count);
        let mut index: usize = 0;
        assert(trees.take(0) =~= Seq::<Tree>::empty());
        while index < count
            invariant
                count == elements.len(),
                index <= count,
                children@ == elements,
                trees == element::element_trees(elements),
                records@.len() == index,
                text_len@ == model::offset_in(trees, index as int),
                forall|i: int|
                    0 <= i < index ==> {
                        &&& (#[trigger] records@[i]).element() == elements[i]
                        &&& records@[i].offset()@ == model::offset_in(trees, i)
                    },
            decreases count - index,
        {
            let rel_offset = text_len;
            let child = &children[index];
            proof {
                model::lemma_offset_step(trees, index as int);
            }
            let next = child.text_len();
            assert(next@ == trees[index as int].len());
            text_len = match checked_text_add(text_len, next) {
                Ok(sum) => sum,
                Err(error) => {
                    assert(first_overflow(trees, rel_offset, next));
                    return Err(error);
                },
            };
            let record = match child {
                NodeOrToken::Node(node) => GreenChild::Node { rel_offset, node: node.clone() },
                NodeOrToken::Token(token) => GreenChild::Token { rel_offset, token: token.clone() },
            };
            records.push(record);
            index += 1;
        }
        proof {
            model::lemma_offset_order(trees, 0, trees.len() as int);
        }
        let ghost stored = records@;
        assert(stored.map_values(|child: GreenChild| child.element()) =~= elements);
        let head = GreenNodeHead { kind, text_len, count: countme::Count::new() };
        let allocated = match beside {
            Some(other) => storage_try_new(head, records, Some(&other.storage)),
            None => storage_try_new(head, records, None),
        };
        GreenNode::from_allocation(allocated)
    }

    /// The allocation that the node shares.
    pub closed spec fn allocation(self) -> NodeStorage {
        self.storage
    }

    /// Take over an allocation, or report that there is none.
    pub fn from_allocation(allocated: Result<NodeStorage, triomphe::AllocError>) -> (made: Result<
        Self,
        GreenError,
    >)
        requires
            allocated matches Ok(storage) ==> storage_agrees(storage),
        ensures
            match allocated {
                Ok(storage) => made matches Ok(node) && node.allocation() == storage && node@
                    == storage_tree(storage) && node.elements() == storage_elements(storage),
                Err(_) => made == Err::<GreenNode, GreenError>(GreenError::AllocationFailed),
            },
    {
        match allocated {
            Ok(storage) => {
                let ghost tree = storage_tree(storage);
                Ok(GreenNode { storage, tree: Ghost(tree) })
            },
            Err(_) => Err(GreenError::AllocationFailed),
        }
    }

    /// Return this node's raw syntax kind.
    pub fn kind(&self) -> (kind: SyntaxKind)
        ensures
            kind == self@.kind(),
    {
        proof {
            use_type_invariant(self);
        }
        storage_deref(&self.storage).0.kind
    }

    /// Return the total UTF-8 byte length covered by this node.
    pub fn text_len(&self) -> (len: TextSize)
        ensures
            len@ == self@.len(),
    {
        proof {
            use_type_invariant(self);
        }
        storage_deref(&self.storage).0.text_len
    }

    /// Iterate over borrowed child handles.
    pub fn children(&self) -> (children: Children<'_>)
        ensures
            children.remaining() == self.elements(),
    {
        let records = self.child_records();
        let back: usize = records.len();
        let children = Children { records, front: 0, back };
        assert(children.remaining() =~= self.elements());
        children
    }

    /// Test whether two nodes share the same thin allocation.
    pub fn ptr_eq(&self, other: &Self) -> (same: bool)
        ensures
            same == (*self == *other),
    {
        proof {
            use_type_invariant(self);
            use_type_invariant(other);
            if self.storage == other.storage {
                self.lemma_same_storage(*other);
            }
        }
        storage_same(&self.storage, &other.storage)
    }

    /// Compare complete green subtrees without recursive application stack use.
    pub fn structurally_eq(&self, other: &Self) -> (same: bool)
        ensures
            same == (self@ == other@),
    {
        let mut pending: Vec<(&GreenNode, &GreenNode)> = Vec::new();
        pending.push((self, other));
        proof {
            reveal_with_fuel(pairs_size, 2);
            assert(pending@.drop_last() =~= Seq::empty());
            assert(pending@[0].0@ == self@ && pending@[0].1@ == other@);
        }
        while pending.len() > 0
            invariant
                self@ == other@ <==> pairs_equal(pending@),
            decreases pairs_size(pending@),
        {
            let ghost before = pending@;
            let (left, right) = match pending.pop() {
                Some(pair) => pair,
                None => {
                    return true;
                },
            };
            let ghost rest = pending@;
            assert(before =~= rest.push((left, right)));
            assert(before[before.len() - 1].0@ == left@);
            if !node_level_matches(left, right, &mut pending) {
                return false;
            }
            proof {
                let added = pending@.skip(rest.len() as int);
                assert(pending@ =~= rest + added);
                lemma_pairs_concat(rest, added);
                assert(before.drop_last() =~= rest);
                assert(pairs_equal(before) <==> pairs_equal(rest) && left@ == right@) by {
                    assert forall|i: int| 0 <= i < rest.len() implies before[i] == rest[i] by {}
                    if pairs_equal(before) {
                        assert(before[before.len() - 1].0@ == before[before.len() - 1].1@);
                        assert forall|i: int| 0 <= i < rest.len() implies (
                        #[trigger] rest[i]).0@ == rest[i].1@ by {
                            assert(before[i].0@ == before[i].1@);
                        }
                    }
                    if pairs_equal(rest) && left@ == right@ {
                        assert forall|i: int| 0 <= i < before.len() implies (
                        #[trigger] before[i]).0@ == before[i].1@ by {
                            if i < rest.len() {
                                assert(rest[i].0@ == rest[i].1@);
                            }
                        }
                    }
                }
            }
        }
        true
    }

    /// Replace one child without changing its syntax kind.
    pub fn replace_child(&self, index: usize, replacement: GreenElement) -> (made: Result<
        Self,
        GreenError,
    >)
        ensures
            child_replaced(*self, index, replacement, made),
    {
        let records = self.child_records();
        let child_count: usize = records.len();
        proof {
            self.lemma_valid();
        }
        if index >= child_count {
            return Err(GreenError::ChildIndexOutOfBounds { index, child_count });
        }
        let expected = records[index].as_ref().kind();
        let actual = replacement.kind();
        assert(expected == self@.children()[index as int].kind());
        if expected != actual {
            return Err(GreenError::KindMismatch { expected, actual });
        }
        let mut rebuilt = elements_between(records, 0, index);
        rebuilt.push(replacement);
        let mut rest = elements_between(records, index + 1, child_count);
        rebuilt.append(&mut rest);
        assert(rebuilt@ =~= self.elements().update(index as int, replacement));
        GreenNode::new(self.kind(), rebuilt)
    }

    /// Insert a child before `index`, permitting insertion at the end.
    pub fn insert_child(&self, index: usize, insertion: GreenElement) -> (made: Result<
        Self,
        GreenError,
    >)
        ensures
            if index > self.elements().len() {
                made == Err::<GreenNode, GreenError>(
                    GreenError::ChildIndexOutOfBounds {
                        index,
                        child_count: self.elements().len() as usize,
                    },
                )
            } else {
                node_made(self@.kind(), self.elements().insert(index as int, insertion), made)
            },
    {
        let records = self.child_records();
        let child_count: usize = records.len();
        proof {
            self.lemma_valid();
        }
        if index > child_count {
            return Err(GreenError::ChildIndexOutOfBounds { index, child_count });
        }
        let mut insertions: Vec<GreenElement> = Vec::new();
        insertions.push(insertion);
        assert(splice(self.elements(), index as int, index as int, insertions@)
            =~= self.elements().insert(index as int, insertion));
        self.splice_children(index..index, insertions)
    }

    /// Remove an existing child.
    pub fn remove_child(&self, index: usize) -> (made: Result<Self, GreenError>)
        ensures
            if index >= self.elements().len() {
                made == Err::<GreenNode, GreenError>(
                    GreenError::ChildIndexOutOfBounds {
                        index,
                        child_count: self.elements().len() as usize,
                    },
                )
            } else {
                node_made(self@.kind(), self.elements().remove(index as int), made)
            },
    {
        let records = self.child_records();
        let child_count: usize = records.len();
        proof {
            self.lemma_valid();
        }
        if index >= child_count {
            return Err(GreenError::ChildIndexOutOfBounds { index, child_count });
        }
        let replacements: Vec<GreenElement> = Vec::new();
        assert(splice(self.elements(), index as int, index + 1, replacements@)
            =~= self.elements().remove(index as int));
        self.splice_children(index..index + 1, replacements)
    }

    /// Replace an exclusive child range with new children.
    pub fn splice_children(&self, range: Range<usize>, replacements: Vec<GreenElement>) -> (made:
        Result<Self, GreenError>)
        ensures
            if range.start > range.end || range.end > self.elements().len() {
                made == Err::<GreenNode, GreenError>(
                    GreenError::InvalidChildRange {
                        start: range.start,
                        end: range.end,
                        child_count: self.elements().len() as usize,
                    },
                )
            } else {
                node_made(
                    self@.kind(),
                    splice(
                        self.elements(),
                        range.start as int,
                        range.end as int,
                        replacements@,
                    ),
                    made,
                )
            },
    {
        let records = self.child_records();
        let child_count: usize = records.len();
        proof {
            self.lemma_valid();
        }
        if range.start > range.end || range.end > child_count {
            return Err(
                GreenError::InvalidChildRange { start: range.start, end: range.end, child_count },
            );
        }
        let ghost inserted = replacements@;
        let mut replacements = replacements;
        let mut rebuilt = elements_between(records, 0, range.start);
        rebuilt.append(&mut replacements);
        let mut rest = elements_between(records, range.end, child_count);
        rebuilt.append(&mut rest);
        assert(rebuilt@ =~= splice(
            self.elements(),
            range.start as int,
            range.end as int,
            inserted,
        ));
        GreenNode::new(self.kind(), rebuilt)
    }

    /// Write out the exact source text of this node.
    pub fn to_string(&self) -> (text: String)
        ensures
            text@ == self@.text(),
    {
        let mut text = String::new();
        let mut pending: Vec<GreenElementRef<'_>> = Vec::new();
        pending.push(NodeOrToken::Node(self));
        proof {
            reveal_with_fuel(pending_text, 2);
            reveal_with_fuel(pending_size, 2);
            assert(pending@.drop_last() =~= Seq::empty());
            assert(text@ + pending_text(pending@) =~= self@.text());
        }
        while pending.len() > 0
            invariant
                text@ + pending_text(pending@) == self@.text(),
            decreases pending_size(pending@),
        {
            let ghost before = pending@;
            let ghost written = text@;
            let element = match pending.pop() {
                Some(element) => element,
                None => {
                    assert(pending_text(pending@) =~= Seq::empty());
                    return text;
                },
            };
            let ghost rest = pending@;
            assert(before.drop_last() =~= rest);
            match element {
                NodeOrToken::Node(node) => {
                    push_children(node, &mut pending);
                    proof {
                        use_type_invariant(node);
                        node.lemma_valid();
                    }
                },
                NodeOrToken::Token(token) => {
                    let piece = token.text();
                    text.append(piece);
                },
            }
            assert(text@ + pending_text(pending@) =~= written + pending_text(before));
        }
        assert(text@ + pending_text(pending@) =~= text@);
        text
    }

    /// Borrow the offset-bearing child records for red cursor construction.
    pub fn child_records(&self) -> (records: &[GreenChild])
        ensures
            records@ == self.records(),
            self.valid(),
    {
        proof {
            use_type_invariant(self);
        }
        storage_deref(&self.storage).1
    }

    /// Borrow the allocation that the node shares.
    pub(crate) fn storage(&self) -> (storage: &NodeStorage)
        ensures
            *storage == self.allocation(),
    {
        &self.storage
    }

    /// Hand the node allocation identity rather than its contents over to a hasher.
    pub fn hash_identity<HasherType: std::hash::Hasher, Kind>(
        &self,
        recorder: &mut Recorder<'_, HasherType, Kind>,
    )
        ensures
            final(recorder).record() == old(recorder).record().push(Handed::Node(*self)),
    {
        recorder.hand_node(self);
    }
}

impl Clone for GreenNode {
    /// Give another handle on the same allocation.
    fn clone(&self) -> (handle: Self)
        ensures
            handle == *self,
    {
        proof {
            use_type_invariant(self);
        }
        GreenNode { storage: storage_clone(&self.storage), tree: Ghost(self.tree@) }
    }
}

/// The outcome of replacing one child.
pub open spec fn child_replaced(
    node: GreenNode,
    index: usize,
    replacement: GreenElement,
    made: Result<GreenNode, GreenError>,
) -> bool {
    let expected = node@.children()[index as int].kind();
    let actual = element::element_tree(replacement).kind();
    if index >= node.elements().len() {
        made == Err::<GreenNode, GreenError>(
            GreenError::ChildIndexOutOfBounds { index,
                child_count: node.elements().len() as usize },
        )
    } else if expected != actual {
        made == Err::<GreenNode, GreenError>(GreenError::KindMismatch { expected, actual })
    } else {
        node_made(node@.kind(), node.elements().update(index as int, replacement), made)
    }
}

/// The sequence with the positions from `start` to `end` replaced.
pub open spec fn splice<A>(elements: Seq<A>, start: int, end: int, replacements: Seq<A>) -> Seq<A> {
    elements.take(start) + replacements + elements.skip(end)
}

/// Clone the child handles between two indices.
fn elements_between(records: &[GreenChild], start: usize, end: usize) -> (elements: Vec<
    GreenElement,
>)
    requires
        start <= end <= records@.len(),
    ensures
        elements@ == records@.map_values(|child: GreenChild| child.element()).subrange(
            start as int,
            end as int,
        ),
{
    let ghost all = records@.map_values(|child: GreenChild| child.element());
    let mut elements: Vec<GreenElement> = Vec::with_capacity(end - start);
    let mut index: usize = start;
    while index < end
        invariant
            start <= index <= end <= records@.len(),
            all == records@.map_values(|child: GreenChild| child.element()),
            elements@ == all.subrange(start as int, index as int),
        decreases end - index,
    {
        elements.push(records[index].as_ref().to_owned());
        index += 1;
        assert(elements@ =~= all.subrange(start as int, index as int));
    }
    elements
}

/// The text that queued elements still contribute; the last one comes first.
spec fn pending_text(pending: Seq<GreenElementRef<'_>>) -> Seq<char>
    decreases pending.len(),
{
    if pending.len() == 0 {
        Seq::empty()
    } else {
        element::element_tree(element::owned_element(pending.last())).text() + pending_text(
            pending.drop_last(),
        )
    }
}

/// The number of elements that queued elements still hold.
spec fn pending_size(pending: Seq<GreenElementRef<'_>>) -> nat
    decreases pending.len(),
{
    if pending.len() == 0 {
        0
    } else {
        model::tree_size(element::element_tree(element::owned_element(pending.last())))
            + pending_size(pending.drop_last())
    }
}

/// Queue the children of a node so that the first one is taken next.
fn push_children<'a>(node: &'a GreenNode, pending: &mut Vec<GreenElementRef<'a>>)
    ensures
        pending_text(final(pending)@) == node@.text() + pending_text(old(pending)@),
        pending_size(final(pending)@) < model::tree_size(node@) + pending_size(old(pending)@),
{
    let records = node.child_records();
    proof {
        node.lemma_valid();
    }
    let ghost before = pending@;
    let ghost trees = node@.children();
    let mut index: usize = records.len();
    proof {
        assert(trees.skip(trees.len() as int) =~= Seq::empty());
        assert(pending_text(pending@) =~= model::forest_text(trees.skip(index as int))
            + pending_text(before));
    }
    while index > 0
        invariant
            index <= records@.len(),
            records@.len() == trees.len(),
            forall|i: int|
                0 <= i < trees.len() ==> element::element_tree((#[trigger] records@[i]).element())
                    == trees[i],
            pending_text(pending@) == model::forest_text(trees.skip(index as int)) + pending_text(
                before,
            ),
            pending_size(pending@) == model::forest_size(trees.skip(index as int)) + pending_size(
                before,
            ),
        decreases index,
    {
        index -= 1;
        let ghost earlier = pending@;
        let child = records[index].as_ref();
        pending.push(child);
        proof {
            assert(pending@.drop_last() =~= earlier);
            model::lemma_forest_text_skip(trees, index as int);
            model::lemma_forest_size_skip(trees, index as int);
            assert(pending_text(pending@) =~= model::forest_text(trees.skip(index as int))
                + pending_text(before));
        }
    }
    assert(trees.skip(0) =~= trees);
}

/// Every queued pair holds equal trees.
spec fn pairs_equal(pairs: Seq<(&GreenNode, &GreenNode)>) -> bool {
    forall|i: int| 0 <= i < pairs.len() ==> (#[trigger] pairs[i]).0@ == pairs[i].1@
}

/// The number of elements that the left nodes of queued pairs still hold.
spec fn pairs_size(pairs: Seq<(&GreenNode, &GreenNode)>) -> nat
    decreases pairs.len(),
{
    if pairs.len() == 0 {
        0
    } else {
        pairs_size(pairs.drop_last()) + model::tree_size(pairs.last().0@)
    }
}

proof fn lemma_pairs_concat(
    left: Seq<(&GreenNode, &GreenNode)>,
    right: Seq<(&GreenNode, &GreenNode)>,
)
    ensures
        pairs_size(left + right) == pairs_size(left) + pairs_size(right),
        pairs_equal(left + right) <==> pairs_equal(left) && pairs_equal(right),
    decreases right.len(),
{
    if right.len() == 0 {
        assert(left + right =~= left);
    } else {
        assert((left + right).drop_last() =~= left + right.drop_last());
        assert((left + right).last() == right.last());
        lemma_pairs_concat(left, right.drop_last());
    }
    if pairs_equal(left + right) {
        assert forall|i: int| 0 <= i < left.len() implies (#[trigger] left[i]).0@ == left[i].1@ by {
            assert((left + right)[i] == left[i]);
        }
        assert forall|i: int| 0 <= i < right.len() implies (#[trigger] right[i]).0@
            == right[i].1@ by {
            assert((left + right)[left.len() + i] == right[i]);
        }
    }
}

/// Compare one pair of borrowed green children and queue matching node pairs.
fn children_match<'a>(
    left: GreenElementRef<'a>,
    right: GreenElementRef<'a>,
    pending: &mut Vec<(&'a GreenNode, &'a GreenNode)>,
) -> (matched: bool)
    ensures
        old(pending)@ == final(pending)@.take(old(pending)@.len() as int),
        ({
            let left_tree = element::element_tree(element::owned_element(left));
            let right_tree = element::element_tree(element::owned_element(right));
            let added = final(pending)@.skip(old(pending)@.len() as int);
            if matched {
                &&& left_tree == right_tree <==> pairs_equal(added)
                &&& pairs_size(added) <= model::tree_size(left_tree)
            } else {
                left_tree != right_tree
            }
        }),
        final(pending)@.len() >= old(pending)@.len(),
{
    let ghost before = pending@;
    match (left, right) {
        (NodeOrToken::Node(left_node), NodeOrToken::Node(right_node)) => {
            pending.push((left_node, right_node));
            proof {
                let added = pending@.skip(before.len() as int);
                assert(added =~= seq![(left_node, right_node)]);
                assert(added.drop_last() =~= Seq::empty());
                reveal_with_fuel(pairs_size, 2);
                assert(added[0].0@ == left_node@ && added[0].1@ == right_node@);
            }
            true
        },
        (NodeOrToken::Token(left_token), NodeOrToken::Token(right_token)) => {
            proof {
                assert(pending@.skip(before.len() as int) =~= Seq::empty());
            }
            *left_token == *right_token
        },
        (NodeOrToken::Node(node), NodeOrToken::Token(token)) => {
            proof {
                use_type_invariant(node);
                use_type_invariant(token);
                node.lemma_valid();
            }
            false
        },
        (NodeOrToken::Token(token), NodeOrToken::Node(node)) => {
            proof {
                use_type_invariant(node);
                use_type_invariant(token);
                node.lemma_valid();
            }
            false
        },
    }
}

/// Compare one node level and queue each matching child-node pair.
fn node_level_matches<'a>(
    left: &'a GreenNode,
    right: &'a GreenNode,
    pending: &mut Vec<(&'a GreenNode, &'a GreenNode)>,
) -> (matched: bool)
    ensures
        old(pending)@ == final(pending)@.take(old(pending)@.len() as int),
        final(pending)@.len() >= old(pending)@.len(),
        ({
            let added = final(pending)@.skip(old(pending)@.len() as int);
            if matched {
                &&& left@ == right@ <==> pairs_equal(added)
                &&& pairs_size(added) < model::tree_size(left@)
            } else {
                left@ != right@
            }
        }),
{
    let left_records = left.child_records();
    let right_records = right.child_records();
    proof {
        left.lemma_valid();
        right.lemma_valid();
    }
    let ghost before = pending@;
    let ghost left_trees = left@.children();
    let ghost right_trees = right@.children();
    assert(pending@.take(before.len() as int) =~= before);
    if left.kind() != right.kind() || left_records.len() != right_records.len() {
        return false;
    }
    let count: usize = left_records.len();
    let mut index: usize = count;
    proof {
        assert(pending@.skip(before.len() as int) =~= Seq::empty());
        assert(left_trees.skip(count as int) =~= Seq::empty());
    }
    while index > 0
        invariant
            index <= count,
            count == left_records@.len() == right_records@.len(),
            count == left_trees.len() == right_trees.len(),
            left_trees == left@.children(),
            right_trees == right@.children(),
            left@ is Node,
            right@ is Node,
            left@.kind() == right@.kind(),
            forall|i: int|
                0 <= i < count ==> element::element_tree((#[trigger] left_records@[i]).element())
                    == left_trees[i],
            forall|i: int|
                0 <= i < count ==> element::element_tree((#[trigger] right_records@[i]).element())
                    == right_trees[i],
            before == pending@.take(before.len() as int),
            pending@.len() >= before.len(),
            before == old(pending)@,
            (forall|i: int|
                index <= i < count ==> (#[trigger] left_trees[i]) == right_trees[i])
                <==> pairs_equal(pending@.skip(before.len() as int)),
            pairs_size(pending@.skip(before.len() as int)) <= model::forest_size(
                left_trees.skip(index as int),
            ),
        decreases index,
    {
        let ghost earlier = pending@;
        let ghost old_index = index;
        index -= 1;
        let matched = children_match(
            left_records[index].as_ref(),
            right_records[index].as_ref(),
            pending,
        );
        proof {
            assert(pending@.take(before.len() as int) =~= earlier.take(before.len() as int));
            model::lemma_forest_size_skip(left_trees, index as int);
            let low = earlier.skip(before.len() as int);
            let added = pending@.skip(earlier.len() as int);
            assert(pending@.skip(before.len() as int) =~= low + added) by {
                assert forall|i: int| 0 <= i < low.len() implies pending@[before.len() + i]
                    == low[i] by {
                    assert(earlier[before.len() + i] == pending@.take(earlier.len() as int)[
                    before.len() + i]);
                }
            }
            lemma_pairs_concat(low, added);
        }
        if !matched {
            assert(left_trees[index as int] != right_trees[index as int]);
            return false;
        }
        proof {
            assert((forall|i: int|
                index <= i < count ==> (#[trigger] left_trees[i]) == right_trees[i]) <==> ((forall|
                i: int,
            |
                old_index <= i < count ==> (#[trigger] left_trees[i]) == right_trees[i])
                && left_trees[index as int] == right_trees[index as int]));
        }
    }
    proof {
        assert(left_trees.skip(0) =~= left_trees);
        assert((forall|i: int| 0 <= i < count ==> (#[trigger] left_trees[i]) == right_trees[i])
            <==> left_trees =~= right_trees);
    }
    true
}

impl PartialEq for GreenNode {
    /// Compare complete subtrees.
    fn eq(&self, other: &Self) -> (same: bool) {
        self.structurally_eq(other)
    }
}

impl vstd::std_specs::cmp::PartialEqSpecImpl for GreenNode {
    open spec fn obeys_eq_spec() -> bool {
        true
    }

    open spec fn eq_spec(&self, other: &Self) -> bool {
        self@ == other@
    }
}

impl Eq for GreenNode {

}

/// A double-ended cursor over borrowed green children.
pub struct Children<'a> {
    /// All child records of the node.
    records: &'a [GreenChild],
    /// Index of the first remaining record.
    front: usize,
    /// Index behind the last remaining record.
    back: usize,
}

impl<'a> Children<'a> {
    /// The bounds stay inside the records.
    #[verifier::type_invariant]
    spec fn bounded(self) -> bool {
        self.front <= self.back <= self.records@.len()
    }

    /// The children that are still to come, from front to back.
    pub closed spec fn remaining(self) -> Seq<GreenElement> {
        self.records@.subrange(self.front as int, self.back as int).map_values(
            |child: GreenChild| child.element(),
        )
    }

    /// The number of remaining children.
    pub fn len(&self) -> (count: usize)
        ensures
            count == self.remaining().len(),
    {
        proof {
            use_type_invariant(self);
        }
        self.back - self.front
    }

    /// The exact bounds on the number of remaining children.
    pub fn size_hint(&self) -> (bounds: (usize, Option<usize>))
        ensures
            bounds.0 == self.remaining().len(),
            bounds.1 == Some(bounds.0),
    {
        let count: usize = self.len();
        (count, Some(count))
    }

    /// Consume the cursor and count the remaining children.
    pub fn count(self) -> (count: usize)
        ensures
            count == self.remaining().len(),
    {
        self.len()
    }

    /// Take the first remaining child.
    pub fn next(&mut self) -> (child: Option<GreenElementRef<'a>>)
        ensures
            match child {
                Some(child) => old(self).remaining() == seq![element::owned_element(child)]
                    + final(self).remaining(),
                None => old(self).remaining().len() == 0 && final(self).remaining().len() == 0,
            },
    {
        self.nth(0)
    }

    /// Skip `index` children from the front and take the one behind them.
    pub fn nth(&mut self, index: usize) -> (child: Option<GreenElementRef<'a>>)
        ensures
            match child {
                Some(child) => {
                    &&& index < old(self).remaining().len()
                    &&& element::owned_element(child) == old(self).remaining()[index as int]
                    &&& final(self).remaining() == old(self).remaining().skip(index + 1)
                },
                None => index >= old(self).remaining().len() && final(self).remaining().len() == 0,
            },
    {
        proof {
            use_type_invariant(&*self);
        }
        let records = self.records;
        let front: usize = self.front;
        let back: usize = self.back;
        let ghost before = self.remaining();
        if index >= back - front {
            *self = Children { records, front: back, back };
            return None;
        }
        *self = Children { records, front: front + index + 1, back };
        assert(self.remaining() =~= before.skip(index + 1));
        Some(records[front + index].as_ref())
    }

    /// Take the last remaining child.
    pub fn next_back(&mut self) -> (child: Option<GreenElementRef<'a>>)
        ensures
            match child {
                Some(child) => old(self).remaining() == final(self).remaining().push(
                    element::owned_element(child),
                ),
                None => old(self).remaining().len() == 0 && final(self).remaining().len() == 0,
            },
    {
        self.nth_back(0)
    }

    /// Skip `index` children from the back and take the one before them.
    pub fn nth_back(&mut self, index: usize) -> (child: Option<GreenElementRef<'a>>)
        ensures
            match child {
                Some(child) => {
                    let position = old(self).remaining().len() - 1 - index;
                    &&& 0 <= position
                    &&& element::owned_element(child) == old(self).remaining()[position]
                    &&& final(self).remaining() == old(self).remaining().take(position)
                },
                None => index >= old(self).remaining().len() && final(self).remaining().len() == 0,
            },
    {
        proof {
            use_type_invariant(&*self);
        }
        let records = self.records;
        let front: usize = self.front;
        let back: usize = self.back;
        let ghost before = self.remaining();
        if index >= back - front {
            *self = Children { records, front, back: front };
            return None;
        }
        let position: usize = back - 1 - index;
        *self = Children { records, front, back: position };
        assert(self.remaining() =~= before.take(before.len() - 1 - index));
        Some(records[position].as_ref())
    }

    /// Consume the cursor and return the last remaining child.
    pub fn last(self) -> (child: Option<GreenElementRef<'a>>)
        ensures
            match child {
                Some(child) => self.remaining().len() > 0 && element::owned_element(child)
                    == self.remaining().last(),
                None => self.remaining().len() == 0,
            },
    {
        let mut children = self;
        children.next_back()
    }
}

impl<'a> Clone for Children<'a> {
    fn clone(&self) -> (children: Self)
        ensures
            children == *self,
    {
        proof {
            use_type_invariant(self);
        }
        Children { records: self.records, front: self.front, back: self.back }
    }
}

} // verus!
