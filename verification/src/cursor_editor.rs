//! Transactional, exclusively borrowed syntax-tree editing.

pub mod checks;
pub mod completion;
pub mod dirty;
pub mod lengths;
pub mod materialization;
pub mod offsets;
pub mod plan;
pub mod splicing;

use vstd::prelude::*;

use crate::cursor;
use crate::cursor::SyntaxElement;
use crate::cursor::SyntaxNode;
use crate::cursor::SyntaxToken;
use crate::cursor_data;
use crate::cursor_data::Place;
use crate::cursor_editor::materialization::copy_parent;
use crate::cursor_editor::materialization::list_children;
use crate::cursor_editor::materialization::materialize;
use crate::cursor_editor::materialization::token_text_len;
use crate::green::GreenError;
use crate::green::SyntaxKind;
use crate::green::checked_text_add;
use crate::green::element;
use crate::green::element::GreenElement;
use crate::green::node::GreenNode;
use crate::green::token::GreenToken;
use crate::hashing::Handed;
use crate::hashing::Recorder;
use crate::model;
use crate::model::Tree;
use crate::shared::fresh_identity;
use crate::text::TextRange;
use crate::text::TextSize;
use crate::utility_types::NodeOrToken;

pub use crate::cursor_editor::checks::validate_duplicates;
pub use crate::cursor_editor::lengths::recompute_lengths;
pub use crate::cursor_editor::plan::PlannedContent;
pub use crate::cursor_editor::plan::PlannedNode;
pub use crate::cursor_editor::plan::PlannedRecord;

verus! {

/// Identity token that scopes all editor IDs to one editor.
pub struct EditorOwner {
    identity: triomphe::Arc<()>,
}

impl EditorOwner {
    /// Allocate a new editor owner identity.
    pub fn new() -> (owner: Self) {
        EditorOwner { identity: fresh_identity() }
    }

    /// Test whether two owners are one identity.
    pub fn same(&self, other: &Self) -> (same: bool)
        ensures
            same == (*self == *other),
    {
        triomphe::Arc::ptr_eq(&self.identity, &other.identity)
    }
}

impl Clone for EditorOwner {
    fn clone(&self) -> (handle: Self)
        ensures
            handle == *self,
    {
        EditorOwner { identity: self.identity.clone() }
    }
}

impl PartialEq for EditorOwner {
    fn eq(&self, other: &Self) -> (same: bool) {
        self.same(other)
    }
}

impl vstd::std_specs::cmp::PartialEqSpecImpl for EditorOwner {
    open spec fn obeys_eq_spec() -> bool {
        true
    }

    open spec fn eq_spec(&self, other: &Self) -> bool {
        *self == *other
    }
}

impl Eq for EditorOwner {

}

impl std::hash::Hash for EditorOwner {
    fn hash<HasherType: std::hash::Hasher>(&self, state: &mut HasherType) {
        let mut recorder: Recorder<'_, HasherType, ()> = Recorder::new(state);
        self.hash_identity(&mut recorder);
    }
}

impl EditorOwner {
    /// Hand the identity over to a hasher.
    fn hash_identity<HasherType: std::hash::Hasher, Kind>(
        &self,
        recorder: &mut Recorder<'_, HasherType, Kind>,
    )
        ensures
            final(recorder).record() == old(recorder).record().push(
                Handed::Identity(self.identity),
            ),
    {
        recorder.hand_identity(&self.identity);
    }
}

/// Stable opaque ID for a node inside one editor.
#[derive(Hash)]
pub struct EditorNodeId {
    /// Editor that owns this ID.
    pub(crate) owner: EditorOwner,
    /// Monotonic arena slot; slots are never reused.
    pub(crate) slot: usize,
}

/// Stable opaque ID for a token inside one editor.
#[derive(Hash)]
pub struct EditorTokenId {
    /// Editor that owns this ID.
    pub(crate) owner: EditorOwner,
    /// Monotonic arena slot; slots are never reused.
    pub(crate) slot: usize,
}

impl EditorNodeId {
    /// Return the arena slot of this ID.
    pub(crate) fn slot_number(&self) -> (slot: usize)
        ensures
            slot == self.slot(),
    {
        self.slot
    }

    /// The editor that owns the ID.
    pub closed spec fn owner(self) -> EditorOwner {
        self.owner
    }

    /// The arena slot of the ID.
    pub closed spec fn slot(self) -> int {
        self.slot as int
    }
}

impl EditorTokenId {
    /// Return the arena slot of this ID.
    pub(crate) fn slot_number(&self) -> (slot: usize)
        ensures
            slot == self.slot(),
    {
        self.slot
    }

    /// The editor that owns the ID.
    pub closed spec fn owner(self) -> EditorOwner {
        self.owner
    }

    /// The arena slot of the ID.
    pub closed spec fn slot(self) -> int {
        self.slot as int
    }
}

impl Clone for EditorNodeId {
    fn clone(&self) -> (id: Self)
        ensures
            id == *self,
    {
        EditorNodeId { owner: self.owner.clone(), slot: self.slot }
    }
}

impl Clone for EditorTokenId {
    fn clone(&self) -> (id: Self)
        ensures
            id == *self,
    {
        EditorTokenId { owner: self.owner.clone(), slot: self.slot }
    }
}

impl PartialEq for EditorNodeId {
    fn eq(&self, other: &Self) -> (same: bool) {
        self.owner.same(&other.owner) && self.slot == other.slot
    }
}

impl vstd::std_specs::cmp::PartialEqSpecImpl for EditorNodeId {
    open spec fn obeys_eq_spec() -> bool {
        true
    }

    open spec fn eq_spec(&self, other: &Self) -> bool {
        *self == *other
    }
}

impl Eq for EditorNodeId {

}

impl PartialEq for EditorTokenId {
    fn eq(&self, other: &Self) -> (same: bool) {
        self.owner.same(&other.owner) && self.slot == other.slot
    }
}

impl vstd::std_specs::cmp::PartialEqSpecImpl for EditorTokenId {
    open spec fn obeys_eq_spec() -> bool {
        true
    }

    open spec fn eq_spec(&self, other: &Self) -> bool {
        *self == *other
    }
}

impl Eq for EditorTokenId {

}

/// Stable opaque ID for either editor element variant.
pub type EditorElementId = NodeOrToken<EditorNodeId, EditorTokenId>;

/// The arena slot of an element ID.
pub open spec fn slot_of(element: EditorElementId) -> int {
    match element {
        NodeOrToken::Node(node) => node.slot(),
        NodeOrToken::Token(token) => token.slot(),
    }
}

/// The editor that owns an element ID.
pub open spec fn owner_of(element: EditorElementId) -> EditorOwner {
    match element {
        NodeOrToken::Node(node) => node.owner(),
        NodeOrToken::Token(token) => token.owner(),
    }
}

/// Return an editor element's arena slot.
pub fn element_slot(element: &EditorElementId) -> (slot: usize)
    ensures
        slot == slot_of(*element),
{
    match element {
        NodeOrToken::Node(node) => node.slot,
        NodeOrToken::Token(token) => token.slot,
    }
}

/// Give another copy of an element ID.
fn copy_id(element: &EditorElementId) -> (copy: EditorElementId)
    ensures
        copy == *element,
{
    match element {
        NodeOrToken::Node(node) => NodeOrToken::Node(node.clone()),
        NodeOrToken::Token(token) => NodeOrToken::Token(token.clone()),
    }
}

/// Compare two element IDs.
fn same_id(left: &EditorElementId, right: &EditorElementId) -> (same: bool)
    ensures
        same == (*left == *right),
{
    match (left, right) {
        (NodeOrToken::Node(left), NodeOrToken::Node(right)) => *left == *right,
        (NodeOrToken::Token(left), NodeOrToken::Token(right)) => *left == *right,
        _ => false,
    }
}

/// Give another copy of a sequence of element IDs.
fn copy_ids(elements: &Vec<EditorElementId>) -> (copies: Vec<EditorElementId>)
    ensures
        copies@ == elements@,
{
    let mut copies: Vec<EditorElementId> = Vec::with_capacity(elements.len());
    let mut index: usize = 0;
    while index < elements.len()
        invariant
            index <= elements@.len(),
            copies@ == elements@.take(index as int),
        decreases elements@.len() - index,
    {
        copies.push(copy_id(&elements[index]));
        index += 1;
        assert(copies@ =~= elements@.take(index as int));
    }
    assert(elements@.take(elements@.len() as int) =~= elements@);
    copies
}

/// Compare two sequences of element IDs.
fn same_ids(left: &Vec<EditorElementId>, right: &Vec<EditorElementId>) -> (same: bool)
    ensures
        same == (left@ == right@),
{
    if left.len() != right.len() {
        return false;
    }
    let mut index: usize = 0;
    while index < left.len()
        invariant
            left@.len() == right@.len(),
            index <= left@.len(),
            forall|i: int| 0 <= i < index ==> left@[i] == right@[i],
        decreases left@.len() - index,
    {
        if !same_id(&left[index], &right[index]) {
            assert(left@[index as int] != right@[index as int]);
            return false;
        }
        index += 1;
    }
    assert(left@ =~= right@);
    true
}

/// Test whether an ID occurs in a sequence.
fn contains_id(elements: &Vec<EditorElementId>, element: &EditorElementId) -> (found: bool)
    ensures
        found == elements@.contains(*element),
{
    let mut index: usize = 0;
    while index < elements.len()
        invariant
            index <= elements@.len(),
            forall|i: int| 0 <= i < index ==> elements@[i] != *element,
        decreases elements@.len() - index,
    {
        if same_id(&elements[index], element) {
            assert(elements@[index as int] == *element);
            return true;
        }
        index += 1;
    }
    false
}

/// Elements detached from the target range by a successful splice.
pub struct SpliceOutcome {
    /// Stable IDs of detached component roots in original target order.
    detached: Vec<EditorElementId>,
}

impl SpliceOutcome {
    /// The detached IDs in original target order.
    pub closed spec fn ids(self) -> Seq<EditorElementId> {
        self.detached@
    }

    /// Borrow the detached component IDs.
    pub fn detached(&self) -> (ids: &[EditorElementId])
        ensures
            ids@ == self.ids(),
    {
        self.detached.as_slice()
    }

    /// Consume the outcome and return its detached component IDs.
    pub fn into_detached(self) -> (ids: Vec<EditorElementId>)
        ensures
            ids@ == self.ids(),
    {
        self.detached
    }
}

/// A rejected editor lookup or transactional edit.
#[derive(Debug, Clone, Copy, PartialEq, Eq, Structural)]
pub enum EditError {
    /// Green-tree validation or allocation failed.
    Green(GreenError),
    /// An ID belongs to another editor or does not name the requested variant.
    ForeignId,
    /// A source cursor is outside the original subtree supplied to this editor.
    UnknownSourceElement,
    /// A target child range is reversed or out of bounds.
    InvalidChildRange {
        /// Inclusive range start.
        start: usize,
        /// Exclusive range end.
        end: usize,
        /// Number of target children.
        child_count: usize,
    },
    /// The same insertion ID appears more than once.
    DuplicateInsertion {
        /// First insertion position.
        first_position: usize,
        /// Repeated insertion position.
        duplicate_position: usize,
    },
    /// An edit would make a node its own ancestor.
    Cycle,
    /// `into_syntax` was asked to finish a node that still has a parent.
    RootStillAttached,
}

impl From<GreenError> for EditError {
    fn from(error: GreenError) -> (converted: Self) {
        EditError::Green(error)
    }
}

impl vstd::std_specs::convert::FromSpecImpl<GreenError> for EditError {
    open spec fn obeys_from_spec() -> bool {
        true
    }

    open spec fn from_spec(error: GreenError) -> Self {
        EditError::Green(error)
    }
}

/// Mutable editor record for a node.
struct EditorNodeRecord {
    /// Current parent ID.
    parent: Option<EditorNodeId>,
    /// Current index, or `None` for a component root.
    index: Option<usize>,
    /// Component-relative offset.
    offset: TextSize,
    /// Current subtree byte length.
    text_len: TextSize,
    /// Original immutable green node.
    green: GreenNode,
    /// Current child IDs in source order.
    children: Vec<EditorElementId>,
    /// Whether this node must be rebuilt during completion.
    dirty: bool,
}

/// Mutable editor record for a token.
struct EditorTokenRecord {
    /// Current parent ID.
    parent: Option<EditorNodeId>,
    /// Current index, or `None` for a detached token.
    index: Option<usize>,
    /// Component-relative offset.
    offset: TextSize,
    /// Immutable green token allocation.
    green: GreenToken,
}

/// One stable editor arena record.
enum EditorRecord {
    /// Node record.
    Node(EditorNodeRecord),
    /// Token record.
    Token(EditorTokenRecord),
}

impl EditorRecord {
    spec fn parent(self) -> Option<EditorNodeId> {
        match self {
            EditorRecord::Node(node) => node.parent,
            EditorRecord::Token(token) => token.parent,
        }
    }

    spec fn index(self) -> Option<usize> {
        match self {
            EditorRecord::Node(node) => node.index,
            EditorRecord::Token(token) => token.index,
        }
    }

    spec fn offset(self) -> TextSize {
        match self {
            EditorRecord::Node(node) => node.offset,
            EditorRecord::Token(token) => token.offset,
        }
    }

    spec fn children(self) -> Seq<EditorElementId> {
        match self {
            EditorRecord::Node(node) => node.children@,
            EditorRecord::Token(_) => Seq::empty(),
        }
    }

    spec fn green(self) -> GreenElement {
        match self {
            EditorRecord::Node(node) => NodeOrToken::Node(node.green),
            EditorRecord::Token(token) => NodeOrToken::Token(token.green),
        }
    }

    spec fn dirty(self) -> bool {
        match self {
            EditorRecord::Node(node) => node.dirty,
            EditorRecord::Token(_) => false,
        }
    }
}

/// The ID of the record at a slot.
spec fn id_at(owner: EditorOwner, records: Seq<EditorRecord>, slot: int) -> EditorElementId {
    match records[slot] {
        EditorRecord::Node(_) => NodeOrToken::Node(EditorNodeId { owner, slot: slot as usize }),
        EditorRecord::Token(_) => NodeOrToken::Token(EditorTokenId { owner, slot: slot as usize }),
    }
}

/// An ID names a record of the arena.
spec fn names_record(
    owner: EditorOwner,
    records: Seq<EditorRecord>,
    element: EditorElementId,
) -> bool {
    &&& 0 <= slot_of(element) < records.len()
    &&& element == id_at(owner, records, slot_of(element))
}

/// The trees of a sequence of elements.
pub open spec fn trees_of(trees: Seq<Tree>, elements: Seq<EditorElementId>) -> Seq<Tree> {
    elements.map_values(|element: EditorElementId| trees[slot_of(element)])
}

/// The content of a record is the tree of its slot.
spec fn content_agrees(
    owner: EditorOwner,
    records: Seq<EditorRecord>,
    trees: Seq<Tree>,
    slot: int,
) -> bool {
    match records[slot] {
        EditorRecord::Node(node) => {
            &&& node.green.valid()
            &&& forall|i: int|
                0 <= i < node.children@.len() ==> names_record(
                    owner,
                    records,
                    #[trigger] node.children@[i],
                )
            &&& trees[slot] == (Tree::Node {
                kind: node.green@.kind(),
                children: trees_of(trees, node.children@),
            })
            &&& node.text_len@ == trees[slot].len()
            &&& !node.dirty ==> {
                &&& node.green@ == trees[slot]
                &&& forall|i: int|
                    0 <= i < node.children@.len() ==> {
                        let child = records[slot_of(#[trigger] node.children@[i])];
                        &&& node.green.elements()[i] == child.green()
                        &&& !child.dirty()
                    }
            }
        },
        EditorRecord::Token(token) => token.green.fits() && trees[slot] == token.green@,
    }
}

/// The parent link of a record leads to a node that lists it.
spec fn link_agrees(
    owner: EditorOwner,
    records: Seq<EditorRecord>,
    trees: Seq<Tree>,
    slot: int,
) -> bool {
    match records[slot].parent() {
        None => records[slot].index() is None && records[slot].offset()@ == 0,
        Some(parent) => {
            &&& parent.owner == owner
            &&& parent.slot < records.len()
            &&& records[parent.slot as int] is Node
            &&& records[slot].index() matches Some(index) && {
                &&& index < records[parent.slot as int].children().len()
                &&& records[parent.slot as int].children()[index as int] == id_at(
                    owner,
                    records,
                    slot,
                )
                &&& records[slot].offset()@ == records[parent.slot as int].offset()@
                    + model::offset_in(trees[parent.slot as int].children(), index as int)
            }
        },
    }
}

/// Every listed child links back to its node.
spec fn children_linked(owner: EditorOwner, records: Seq<EditorRecord>, slot: int) -> bool {
    forall|i: int|
        0 <= i < records[slot].children().len() ==> {
            let child = records[slot_of(#[trigger] records[slot].children()[i])];
            &&& child.parent() == Some(EditorNodeId { owner, slot: slot as usize })
            &&& child.index() == Some(i as usize)
        }
}

/// The range of a record fits the coordinate space.
spec fn span_fits(records: Seq<EditorRecord>, trees: Seq<Tree>, slot: int) -> bool {
    records[slot].offset()@ + trees[slot].len() <= u32::MAX
}

/// Everything that holds of a finished record.
spec fn record_agrees(
    owner: EditorOwner,
    records: Seq<EditorRecord>,
    trees: Seq<Tree>,
    slot: int,
) -> bool {
    &&& content_agrees(owner, records, trees, slot)
    &&& link_agrees(owner, records, trees, slot)
    &&& children_linked(owner, records, slot)
    &&& span_fits(records, trees, slot)
}

/// Links, trees, lengths and offsets of an arena agree.
spec fn arena_agrees(owner: EditorOwner, records: Seq<EditorRecord>, trees: Seq<Tree>) -> bool {
    &&& trees.len() == records.len()
    &&& forall|slot: int|
        0 <= slot < records.len() ==> #[trigger] record_agrees(owner, records, trees, slot)
}

/// A record whose children are not listed yet.
spec fn record_awaits(
    owner: EditorOwner,
    records: Seq<EditorRecord>,
    trees: Seq<Tree>,
    slot: int,
) -> bool {
    &&& link_agrees(owner, records, trees, slot)
    &&& span_fits(records, trees, slot)
    &&& bare_record(records[slot], trees[slot])
}

/// A record that lists no children and holds the green element of a tree.
spec fn bare_record(record: EditorRecord, tree: Tree) -> bool {
    match record {
        EditorRecord::Node(node) => {
            &&& node.green.valid()
            &&& node.children@.len() == 0
            &&& tree == node.green@
            &&& node.text_len@ == tree.len()
            &&& !node.dirty
        },
        EditorRecord::Token(token) => token.green.fits() && tree == token.green@,
    }
}

/// Transactional mutable syntax-tree editor.
pub struct SyntaxEditor {
    /// Owner identity shared by every ID.
    owner: EditorOwner,
    /// Stable, append-only arena.
    records: Vec<EditorRecord>,
    /// ID of the original source subtree root.
    root: EditorNodeId,
    /// Root of the tree that holds the source subtree.
    source_root: GreenNode,
    /// Child indices from that root to the source subtree.
    source_path: Vec<usize>,
    /// Original child IDs of the source elements, by slot.
    source_children: Vec<Vec<EditorElementId>>,
    /// The tree of every slot.
    trees: Ghost<Seq<Tree>>,
}

/// The slot that child indices lead to from a slot, along the original children.
spec fn follow(children: Seq<Vec<EditorElementId>>, slot: int, path: Seq<int>) -> int
    decreases path.len(),
{
    if path.len() == 0 {
        slot
    } else {
        slot_of(children[follow(children, slot, path.drop_last())]@[path.last()])
    }
}

impl SyntaxEditor {
    /// The identity that the IDs of this editor carry.
    pub closed spec fn owner(self) -> EditorOwner {
        self.owner
    }

    /// The number of elements that the editor ever held.
    pub closed spec fn slots(self) -> nat {
        self.records@.len()
    }

    /// The ID names an element of this editor.
    pub closed spec fn owns(self, element: EditorElementId) -> bool {
        names_record(self.owner, self.records@, element)
    }

    /// The ID of the element at a slot.
    pub closed spec fn id(self, slot: int) -> EditorElementId {
        id_at(self.owner, self.records@, slot)
    }

    /// The current tree of the element at a slot.
    pub closed spec fn tree(self, slot: int) -> Tree {
        self.trees@[slot]
    }

    /// The current parent of the element at a slot.
    pub closed spec fn parent_at(self, slot: int) -> Option<EditorNodeId> {
        self.records@[slot].parent()
    }

    /// The current index of the element at a slot.
    pub closed spec fn index_at(self, slot: int) -> Option<usize> {
        self.records@[slot].index()
    }

    /// The current children of the element at a slot.
    pub closed spec fn children_at(self, slot: int) -> Seq<EditorElementId> {
        self.records@[slot].children()
    }

    /// The component-relative offset of the element at a slot.
    pub closed spec fn offset_at(self, slot: int) -> nat {
        self.records@[slot].offset()@
    }

    /// The green element that the element at a slot was made of.
    pub closed spec fn green_at(self, slot: int) -> GreenElement {
        self.records@[slot].green()
    }

    /// Whether the element at a slot has to be rebuilt.
    pub closed spec fn dirty_at(self, slot: int) -> bool {
        self.records@[slot].dirty()
    }

    /// The recorded byte length of the node at a slot; a token's is that of its text.
    pub closed spec fn node_len_at(self, slot: int) -> Option<nat> {
        match self.records@[slot] {
            EditorRecord::Node(node) => Some(node.text_len@),
            EditorRecord::Token(_) => None,
        }
    }

    /// The ID of the original source subtree root.
    pub closed spec fn root(self) -> EditorNodeId {
        self.root
    }

    /// The place of the original source subtree.
    pub closed spec fn source(self) -> Place {
        Place { root: self.source_root, path: cursor::path_of(self.source_path@) }
    }

    /// The slot of the source element that child indices lead to from the source subtree.
    pub closed spec fn source_slot(self, path: Seq<int>) -> int {
        follow(self.source_children@, 0, path)
    }

    /// Links, trees, lengths and offsets of the arena agree.
    pub closed spec fn valid(self) -> bool {
        &&& self.records@.len() <= usize::MAX
        &&& arena_agrees(self.owner, self.records@, self.trees@)
        &&& names_record(self.owner, self.records@, NodeOrToken::Node(self.root))
        &&& self.source_valid()
    }

    /// The original children of the source elements are recorded for every path.
    spec fn source_valid(self) -> bool {
        let children = self.source_children@;
        &&& self.source().valid()
        &&& children.len() <= self.records@.len()
        &&& children.len() > 0
        &&& forall|slot: int, index: int|
            0 <= slot < children.len() && 0 <= index < children[slot]@.len() ==> {
                let child = #[trigger] children[slot]@[index];
                &&& 0 <= slot_of(child) < children.len()
                &&& names_record(self.owner, self.records@, child)
            }
        &&& forall|path: Seq<int>| #[trigger] model::path_exists(self.source().tree(), path) ==> {
            let slot = follow(children, 0, path);
            let tree = model::tree_at(self.source().tree(), path);
            &&& 0 <= slot < children.len()
            &&& children[slot]@.len() == tree.children().len()
            &&& self.records@[slot] is Node <==> tree is Node
        }
    }

    /// Materialize an immutable source subtree into a new editor.
    pub fn new(root: &SyntaxNode) -> (editor: Self)
        ensures
            editor.valid(),
            editor.source() == root.place(),
            editor.root().slot() == editor.source_slot(Seq::empty()),
            editor.parent_at(editor.root().slot()) is None,
            forall|s: int| 0 <= s < editor.slots() ==> !(#[trigger] editor.dirty_at(s)),
            forall|path: Seq<int>|
                #[trigger] model::path_exists(root.place().tree(), path)
                    ==> materialization::mirrors_source(
                    editor,
                    path,
                ),
    {
        let owner = EditorOwner::new();
        let mut records: Vec<EditorRecord> = Vec::new();
        let (source_root, source_path) = root.root_locator();
        let (id, Ghost(trees)) = materialize(
            &owner,
            &mut records,
            Ghost(Seq::empty()),
            NodeOrToken::Node(root.green().clone()),
        );
        let root_id = EditorNodeId { owner: owner.clone(), slot: 0 };
        let source_children = list_children(&records);
        let count: usize = records.len();
        let editor = SyntaxEditor {
            owner,
            records,
            root: root_id,
            source_root,
            source_path,
            source_children,
            trees: Ghost(trees),
        };
        proof {
            use_type_invariant(root);
            root.lemma_valid();
            assert(editor.source() == root.place());
            assert(record_agrees(owner, records@, trees, 0));
            assert forall|path: Seq<int>|
                #[trigger] model::path_exists(root.place().tree(), path) implies {
                let slot = follow(source_children@, 0, path);
                &&& 0 <= slot < records@.len()
                &&& trees[slot] == model::tree_at(root.place().tree(), path)
                &&& records@[slot].green() == cursor_data::handle_at(root.handle(), path)
            } by {
                materialization::lemma_follow(
                    owner, records@, trees, source_children@, root.handle(), path);
            }
            assert forall|slot: int, index: int|
                0 <= slot < source_children@.len() && 0 <= index
                    < source_children@[slot]@.len() implies {
                let child = #[trigger] source_children@[slot]@[index];
                &&& 0 <= slot_of(child) < source_children@.len()
                &&& names_record(owner, records@, child)
            } by {
                assert(record_agrees(owner, records@, trees, slot));
                assert(names_record(owner, records@, records@[slot].children()[index]));
            }
            assert forall|path: Seq<int>|
                #[trigger] model::path_exists(root.place().tree(), path) implies {
                let slot = follow(source_children@, 0, path);
                let tree = model::tree_at(root.place().tree(), path);
                &&& 0 <= slot < source_children@.len()
                &&& source_children@[slot]@.len() == tree.children().len()
                &&& records@[slot] is Node <==> tree is Node
            } by {
                let slot = follow(source_children@, 0, path);
                assert(record_agrees(owner, records@, trees, slot));
            }
            assert(editor.source_valid());
            assert(editor.valid());
            assert forall|path: Seq<int>|
                #[trigger] model::path_exists(
                    root.place().tree(),
                    path,
                ) implies materialization::mirrors_source(editor, path) by {
                cursor_data::lemma_handle_concat(root.place().root, root.place().path, path);
                let slot = follow(source_children@, 0, path);
                assert(record_agrees(owner, records@, trees, slot));
                if path.len() > 0 {
                    assert(model::path_exists(root.place().tree(), path.drop_last()));
                    let parent = follow(source_children@, 0, path.drop_last());
                    assert(record_agrees(owner, records@, trees, parent));
                    assert(names_record(owner, records@, records@[parent].children()[path.last()]));
                }
            }
        }
        editor
    }

    /// Find the slot of a source element from its place.
    fn source_lookup(
        &self, root: &GreenNode, path: &Vec<usize>, Ghost(place): Ghost<Place>) -> (slot:
        Option<usize>)
        requires
            self.valid(),
            place.valid(),
            place.root == *root,
            place.path == cursor::path_of(path@),
        ensures
            match slot {
                Some(slot) => self.source().holds(place) && slot == self.source_slot(
                    self.source().way_to(place),
                ) && slot < self.records@.len(),
                None => !self.source().holds(place),
            },
    {
        if !root.ptr_eq(&self.source_root) {
            return None;
        }
        let depth: usize = self.source_path.len();
        if path.len() < depth {
            return None;
        }
        let ghost top = self.source();
        let mut level: usize = 0;
        while level < depth
            invariant
                depth == self.source_path@.len() <= path@.len(),
                top == self.source(),
                place.path == cursor::path_of(path@),
                level <= depth,
                forall|i: int| 0 <= i < level ==> path@[i] == self.source_path@[i],
            decreases depth - level,
        {
            if path[level] != self.source_path[level] {
                assert(place.path.take(depth as int)[level as int] != top.path[level as int]);
                return None;
            }
            level += 1;
        }
        assert(place.path.take(depth as int) =~= top.path);
        let ghost lower = top.way_to(place);
        proof {
            assert(top.path + lower =~= place.path);
            model::lemma_path_concat(top.root@, top.path, lower);
            assert(model::path_exists(top.tree(), lower));
        }
        let mut slot: usize = 0;
        assert(lower.take(0) =~= Seq::empty());
        while level < path.len()
            invariant
                self.valid(),
                depth <= level <= path@.len(),
                top == self.source(),
                place.path == cursor::path_of(path@),
                lower == place.path.skip(depth as int),
                model::path_exists(top.tree(), lower),
                slot == follow(self.source_children@, 0, lower.take(level - depth)),
                slot < self.source_children@.len(),
            decreases path@.len() - level,
        {
            let ghost done = (level - depth) as int;
            proof {
                model::lemma_path_prefix(top.tree(), lower, done);
                model::lemma_path_prefix(top.tree(), lower, done + 1);
                assert(lower.take(done + 1).drop_last() =~= lower.take(done));
                assert(lower.take(done + 1).last() == lower[done]);
                assert(model::path_exists(top.tree(), lower.take(done)));
            }
            let index: usize = path[level];
            assert(index == lower[done]);
            let child = &self.source_children[slot][index];
            slot = element_slot(child);
            level += 1;
        }
        assert(lower.take(lower.len() as int) =~= lower);
        Some(slot)
    }

    /// Resolve an original source node to its stable editor ID.
    pub fn node_id(&self, source: &SyntaxNode) -> (id: Result<EditorNodeId, EditError>)
        requires
            self.valid(),
        ensures
            match id {
                Ok(id) => {
                    &&& self.source().holds(source.place())
                    &&& id.owner() == self.owner()
                    &&& id.slot() == self.source_slot(self.source().way_to(source.place()))
                    &&& self.owns(NodeOrToken::Node(id))
                },
                Err(error) => !self.source().holds(source.place()) && error
                    == EditError::UnknownSourceElement,
            },
    {
        proof {
            use_type_invariant(source);
            source.lemma_valid();
        }
        let (root, path) = source.root_locator();
        match self.source_lookup(&root, &path, Ghost(source.place())) {
            Some(slot) => {
                proof {
                    self.lemma_source_variant(source.place());
                }
                Ok(EditorNodeId { owner: self.owner.clone(), slot })
            },
            None => Err(EditError::UnknownSourceElement),
        }
    }

    /// Resolve an original source token to its stable editor ID.
    pub fn token_id(&self, source: &SyntaxToken) -> (id: Result<EditorTokenId, EditError>)
        requires
            self.valid(),
        ensures
            match id {
                Ok(id) => {
                    &&& self.source().holds(source.place())
                    &&& id.owner() == self.owner()
                    &&& id.slot() == self.source_slot(self.source().way_to(source.place()))
                    &&& self.owns(NodeOrToken::Token(id))
                },
                Err(error) => !self.source().holds(source.place()) && error
                    == EditError::UnknownSourceElement,
            },
    {
        proof {
            use_type_invariant(source);
            source.lemma_valid();
        }
        let (root, path) = match source.root_locator() {
            Some(locator) => locator,
            None => {
                return Err(EditError::UnknownSourceElement);
            },
        };
        match self.source_lookup(&root, &path, Ghost(source.place())) {
            Some(slot) => {
                proof {
                    self.lemma_source_variant(source.place());
                }
                Ok(EditorTokenId { owner: self.owner.clone(), slot })
            },
            None => Err(EditError::UnknownSourceElement),
        }
    }

    /// A source element is a node or a token as its record is.
    proof fn lemma_source_variant(self, place: Place)
        requires
            self.valid(),
            place.valid(),
            self.source().holds(place),
        ensures
            0 <= self.source_slot(self.source().way_to(place)) < self.records@.len(),
            self.records@[self.source_slot(self.source().way_to(place))] is Node
                <==> place.tree() is Node,
    {
        let top = self.source();
        let lower = top.way_to(place);
        assert(top.path + lower =~= place.path);
        model::lemma_path_concat(top.root@, top.path, lower);
        assert(model::path_exists(top.tree(), lower));
    }

    /// Import an immutable cursor subtree as a detached editor component.
    pub fn import(&mut self, element: SyntaxElement) -> (id: Result<EditorElementId, EditError>)
        requires
            old(self).valid(),
        ensures
            final(self).valid(),
            id matches Ok(id) && materialization::component_added(
                *old(self),
                *final(self),
                id,
                cursor::element_place(element).handle(),
                cursor::element_place(element).tree(),
            ),
    {
        self.import_green(element.green_owned())
    }

    /// Import an immutable green subtree as a detached editor component.
    pub fn import_green(&mut self, element: GreenElement) -> (
        id: Result<EditorElementId, EditError>)
        requires
            old(self).valid(),
        ensures
            final(self).valid(),
            id matches Ok(id) && materialization::component_added(
                *old(self),
                *final(self),
                id,
                element,
                element::element_tree(element),
            ),
    {
        let ghost before = *self;
        let (id, Ghost(trees)) = materialize(
            &self.owner,
            &mut self.records,
            Ghost(self.trees@),
            element,
        );
        self.trees = Ghost(trees);
        let count: usize = self.records.len();
        proof {
            let base = before.records@.len() as int;
            assert forall|slot: int| 0 <= slot < base implies {
                &&& self.records@[slot] == #[trigger] before.records@[slot]
                &&& self.trees@[slot] == before.trees@[slot]
            } by {
                assert(self.records@.take(base)[slot] == self.records@[slot]);
                assert(self.trees@.take(base)[slot] == self.trees@[slot]);
            }
            assert forall|child: EditorElementId|
                names_record(before.owner, before.records@, child) implies #[trigger] names_record(
                self.owner,
                self.records@,
                child,
            ) by {}
            assert(self.source_valid()) by {
                let children = self.source_children@;
                assert forall|slot: int, index: int|
                    0 <= slot < children.len() && 0 <= index < children[slot]@.len() implies {
                    let child = #[trigger] children[slot]@[index];
                    &&& 0 <= slot_of(child) < children.len()
                    &&& names_record(self.owner, self.records@, child)
                } by {
                    let child = before.source_children@[slot]@[index];
                    assert(names_record(before.owner, before.records@, child));
                }
                assert forall|path: Seq<int>|
                    #[trigger] model::path_exists(self.source().tree(), path) implies {
                    let slot = follow(children, 0, path);
                    let tree = model::tree_at(self.source().tree(), path);
                    &&& 0 <= slot < children.len()
                    &&& children[slot]@.len() == tree.children().len()
                    &&& self.records@[slot] is Node <==> tree is Node
                } by {
                    assert(model::path_exists(before.source().tree(), path));
                }
            }
            assert(self.valid());
            assert(materialization::component_added(
                before,
                *self,
                id,
                element,
                element::element_tree(element),
            ));
        }
        Ok(id)
    }

    /// Return the number of arena slots in use.
    pub(crate) fn record_count(&self) -> (count: usize)
        ensures
            count == self.slots(),
    {
        self.records.len()
    }

    /// Return the original source subtree root ID.
    pub fn root_id(&self) -> (id: EditorNodeId)
        ensures
            id == self.root(),
            self.valid() ==> self.owns(NodeOrToken::Node(id)),
    {
        self.root.clone()
    }

    /// Validate editor ownership before looking up one arena slot.
    fn record(&self, owner: &EditorOwner, slot: usize) -> (record: Result<
        Option<&EditorRecord>,
        EditError,
    >)
        ensures
            match record {
                Ok(Some(record)) => *owner == self.owner && slot < self.records@.len() && *record
                    == self.records@[slot as int],
                Ok(None) => *owner == self.owner && slot >= self.records@.len(),
                Err(error) => *owner != self.owner && error == EditError::ForeignId,
            },
    {
        if !owner.same(&self.owner) {
            return Err(EditError::ForeignId);
        }
        if slot < self.records.len() {
            Ok(Some(&self.records[slot]))
        } else {
            Ok(None)
        }
    }

    /// Validate and borrow a node record.
    fn node_record(&self, node: &EditorNodeId) -> (record: Result<&EditorNodeRecord, EditError>)
        ensures
            match record {
                Ok(record) => self.owns(NodeOrToken::Node(*node)) && self.records@[node.slot as int]
                    == EditorRecord::Node(*record),
                Err(error) => !self.owns(NodeOrToken::Node(*node)) && error == EditError::ForeignId,
            },
    {
        match self.record(&node.owner, node.slot) {
            Ok(Some(EditorRecord::Node(record))) => Ok(record),
            Ok(_) => Err(EditError::ForeignId),
            Err(error) => Err(error),
        }
    }

    /// Validate and borrow a token record.
    fn token_record(&self, token: &EditorTokenId) -> (record: Result<&EditorTokenRecord, EditError>)
        ensures
            match record {
                Ok(record) => self.owns(NodeOrToken::Token(*token))
                    && self.records@[token.slot as int] == EditorRecord::Token(*record),
                Err(error) => !self.owns(NodeOrToken::Token(*token)) && error
                    == EditError::ForeignId,
            },
    {
        match self.record(&token.owner, token.slot) {
            Ok(Some(EditorRecord::Token(record))) => Ok(record),
            Ok(_) => Err(EditError::ForeignId),
            Err(error) => Err(error),
        }
    }

    /// Validate an arbitrary editor element ID.
    fn validate_element(&self, element: &EditorElementId) -> (checked: Result<(), EditError>)
        ensures
            match checked {
                Ok(_) => self.owns(*element),
                Err(error) => !self.owns(*element) && error == EditError::ForeignId,
            },
    {
        match element {
            NodeOrToken::Node(node) => match self.node_record(node) {
                Ok(_) => Ok(()),
                Err(error) => Err(error),
            },
            NodeOrToken::Token(token) => match self.token_record(token) {
                Ok(_) => Ok(()),
                Err(error) => Err(error),
            },
        }
    }

    /// Return an editor element's raw syntax kind.
    pub fn kind(&self, element: &EditorElementId) -> (kind: Result<SyntaxKind, EditError>)
        requires
            self.valid(),
        ensures
            match kind {
                Ok(kind) => self.owns(*element) && kind == self.tree(slot_of(*element)).kind(),
                Err(error) => !self.owns(*element) && error == EditError::ForeignId,
            },
    {
        match element {
            NodeOrToken::Node(node) => match self.node_record(node) {
                Ok(record) => {
                    assert(record_agrees(
                        self.owner, self.records@, self.trees@, slot_of(*element)));
                    Ok(record.green.kind())
                },
                Err(error) => Err(error),
            },
            NodeOrToken::Token(token) => match self.token_record(token) {
                Ok(record) => {
                    assert(record_agrees(
                        self.owner, self.records@, self.trees@, slot_of(*element)));
                    Ok(record.green.kind())
                },
                Err(error) => Err(error),
            },
        }
    }

    /// Return an editor element's current parent.
    pub fn parent(&self, element: &EditorElementId) -> (parent: Result<
        Option<EditorNodeId>,
        EditError,
    >)
        ensures
            match parent {
                Ok(parent) => self.owns(*element) && parent == self.parent_at(slot_of(*element)),
                Err(error) => !self.owns(*element) && error == EditError::ForeignId,
            },
    {
        match element {
            NodeOrToken::Node(node) => match self.node_record(node) {
                Ok(record) => Ok(copy_parent(&record.parent)),
                Err(error) => Err(error),
            },
            NodeOrToken::Token(token) => match self.token_record(token) {
                Ok(record) => Ok(copy_parent(&record.parent)),
                Err(error) => Err(error),
            },
        }
    }

    /// Return an editor element's current index, or `None` for a component root.
    pub fn index(&self, element: &EditorElementId) -> (index: Result<Option<usize>, EditError>)
        ensures
            match index {
                Ok(index) => self.owns(*element) && index == self.index_at(slot_of(*element)),
                Err(error) => !self.owns(*element) && error == EditError::ForeignId,
            },
    {
        match element {
            NodeOrToken::Node(node) => match self.node_record(node) {
                Ok(record) => Ok(record.index),
                Err(error) => Err(error),
            },
            NodeOrToken::Token(token) => match self.token_record(token) {
                Ok(record) => Ok(record.index),
                Err(error) => Err(error),
            },
        }
    }

    /// Clone a node's current child IDs in source order.
    pub fn children(&self, node: &EditorNodeId) -> (children: Result<
        Vec<EditorElementId>,
        EditError,
    >)
        ensures
            match children {
                Ok(children) => self.owns(NodeOrToken::Node(*node)) && children@
                    == self.children_at(node.slot()),
                Err(error) => !self.owns(NodeOrToken::Node(*node)) && error == EditError::ForeignId,
            },
    {
        match self.node_record(node) {
            Ok(record) => Ok(copy_ids(&record.children)),
            Err(error) => Err(error),
        }
    }

    /// Return an editor element's current UTF-8 byte length.
    pub fn text_len(&self, element: &EditorElementId) -> (len: Result<TextSize, EditError>)
        requires
            self.valid(),
        ensures
            match len {
                Ok(len) => self.owns(*element) && len@ == self.tree(slot_of(*element)).len(),
                Err(error) => !self.owns(*element) && error == EditError::ForeignId,
            },
    {
        match element {
            NodeOrToken::Node(node) => match self.node_record(node) {
                Ok(record) => {
                    assert(record_agrees(
                        self.owner, self.records@, self.trees@, slot_of(*element)));
                    Ok(record.text_len)
                },
                Err(error) => Err(error),
            },
            NodeOrToken::Token(token) => match self.token_record(token) {
                Ok(record) => {
                    assert(record_agrees(
                        self.owner, self.records@, self.trees@, slot_of(*element)));
                    Ok(token_text_len(record))
                },
                Err(error) => Err(error),
            },
        }
    }

    /// Return an editor element's component-relative text range.
    pub fn text_range(&self, element: &EditorElementId) -> (range: Result<TextRange, EditError>)
        requires
            self.valid(),
        ensures
            match range {
                Ok(range) => {
                    &&& self.owns(*element)
                    &&& range.lo()@ == self.offset_at(slot_of(*element))
                    &&& range.hi()@ == self.offset_at(slot_of(*element)) + self.tree(
                        slot_of(*element),
                    ).len()
                },
                Err(error) => !self.owns(*element) && error == EditError::ForeignId,
            },
    {
        broadcast use crate::text::group_text_range;

        let len = match self.text_len(element) {
            Ok(len) => len,
            Err(error) => {
                return Err(error);
            },
        };
        assert(record_agrees(self.owner, self.records@, self.trees@, slot_of(*element)));
        let offset = match &self.records[element_slot(element)] {
            EditorRecord::Node(record) => record.offset,
            EditorRecord::Token(record) => record.offset,
        };
        match checked_text_add(offset, len) {
            Ok(end) => Ok(TextRange::new(offset, end)),
            Err(error) => Err(EditError::Green(error)),
        }
    }

    /// Borrow an editor token's exact text.
    pub fn token_text(&self, token: &EditorTokenId) -> (text: Result<&str, EditError>)
        requires
            self.valid(),
        ensures
            match text {
                Ok(text) => self.owns(NodeOrToken::Token(*token)) && text@ == self.tree(
                    token.slot(),
                ).text(),
                Err(error) => !self.owns(NodeOrToken::Token(*token)) && error
                    == EditError::ForeignId,
            },
    {
        match self.token_record(token) {
            Ok(record) => {
                assert(record_agrees(self.owner, self.records@, self.trees@, token.slot()));
                Ok(record.green.text())
            },
            Err(error) => Err(error),
        }
    }
}

/// Parents and indices are those of the planned children.
pub open spec fn plan_linked(owner: EditorOwner, planned: Seq<PlannedRecord>) -> bool {
    &&& forall|s: int, i: int|
        0 <= s < planned.len() && 0 <= i < planned[s].kids().len() ==> {
            let kid = planned[slot_of(#[trigger] planned[s].kids()[i])];
            &&& kid.parent matches Some(parent) && parent.owner() == owner && parent.slot() == s
            &&& kid.index == Some(i as usize)
        }
    &&& forall|t: int|
        #![trigger planned[t]]
        0 <= t < planned.len() ==> match planned[t].parent {
            Some(parent) => {
                &&& parent.owner() == owner
                &&& parent.slot() < planned.len()
                &&& planned[t].index matches Some(index) && index
                    < planned[parent.slot()].kids().len() && slot_of(
                    planned[parent.slot()].kids()[index as int],
                ) == t
            },
            None => planned[t].index is None,
        }
}

/// Planned nodes are listed once, by the parent that they link to.
pub open spec fn nodes_linked(planned: Seq<PlannedRecord>) -> bool {
    &&& forall|s: int, i: int|
        0 <= s < planned.len() && 0 <= i < planned[s].kids().len() && (
        #[trigger] planned[s].kids()[i]) is Node ==> (
        planned[slot_of(planned[s].kids()[i])].parent matches Some(parent) && parent.slot() == s)
    &&& forall|s: int, i: int, j: int|
        0 <= s < planned.len() && 0 <= i < j < planned[s].kids().len() && (
        #[trigger] planned[s].kids()[i]) is Node && (#[trigger] planned[s].kids()[j]) is Node
            ==> slot_of(planned[s].kids()[i]) != slot_of(planned[s].kids()[j])
    &&& forall|t: int| 0 <= t < planned.len() ==> #[trigger] lengths::listed_by_parent(planned, t)
}

impl SyntaxEditor {
    /// An ID that the editor accepts carries its identity and names one of its elements.
    pub proof fn lemma_owned(self, element: EditorElementId)
        requires
            self.valid(),
            self.owns(element),
        ensures
            0 <= slot_of(element) < self.slots(),
            owner_of(element) == self.owner(),
            element == self.id(slot_of(element)),
    {
    }

    /// The links, the offset and the tree of every element agree.
    pub proof fn lemma_element(self, slot: int)
        requires
            self.valid(),
            0 <= slot < self.slots(),
        ensures
            self.owns(self.id(slot)),
            slot_of(self.id(slot)) == slot,
            self.id(slot) is Node <==> self.tree(slot) is Node,
            self.offset_at(slot) + self.tree(slot).len() <= u32::MAX,
            self.tree(slot).kind() == element::element_tree(self.green_at(slot)).kind(),
            !self.dirty_at(slot) ==> self.tree(slot) == element::element_tree(self.green_at(slot)),
            self.tree(slot).children().len() == self.children_at(slot).len(),
            self.children_at(slot).no_duplicates(),
            match self.parent_at(slot) {
                None => self.index_at(slot) is None && self.offset_at(slot) == 0,
                Some(parent) => {
                    &&& self.owns(NodeOrToken::Node(parent))
                    &&& self.index_at(slot) matches Some(index) && {
                        &&& index < self.children_at(parent.slot()).len()
                        &&& self.children_at(parent.slot())[index as int] == self.id(slot)
                        &&& self.offset_at(slot) == self.offset_at(parent.slot())
                            + model::offset_in(
                            self.tree(parent.slot()).children(),
                            index as int,
                        )
                    }
                },
            },
    {
        assert(record_agrees(self.owner, self.records@, self.trees@, slot));
        splicing::lemma_children_distinct(self, slot);
        if self.parent_at(slot) is Some {
            let parent = self.parent_at(slot)->0;
            assert(record_agrees(self.owner, self.records@, self.trees@, parent.slot()));
        }
    }

    /// A listed child is the element that its parent's tree holds there, and links back.
    pub proof fn lemma_child(self, slot: int, index: int)
        requires
            self.valid(),
            0 <= slot < self.slots(),
            0 <= index < self.children_at(slot).len(),
        ensures
            ({
                let child = self.children_at(slot)[index];
                &&& self.owns(child)
                &&& self.tree(slot_of(child)) == self.tree(slot).children()[index]
                &&& self.parent_at(slot_of(child)) matches Some(parent) && self.id(slot)
                    == NodeOrToken::<EditorNodeId, EditorTokenId>::Node(parent)
                &&& self.index_at(slot_of(child)) == Some(index as usize)
                &&& index <= usize::MAX
                &&& !self.dirty_at(slot) ==> {
                    &&& !self.dirty_at(slot_of(child))
                    &&& self.green_at(slot_of(child))
                        == self.green_at(slot)->Node_0.elements()[index]
                }
            }),
    {
        assert(record_agrees(self.owner, self.records@, self.trees@, slot));
        splicing::lemma_children_distinct(self, slot);
        let child = self.children_at(slot)[index];
        assert(self.owns(child));
    }
}

} // verus!
