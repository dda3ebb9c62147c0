//! Immutable raw cursors over structurally shared green trees.

use vstd::prelude::*;
use vstd::std_specs::cmp::PartialEqSpec;

use crate::cursor_data::node_cell_clone;
use crate::cursor_data::node_cell_deref;
use crate::cursor_data::node_cell_get_mut;
use crate::cursor_data::node_cell_new;
use crate::cursor_data::node_cell_try_unwrap;
use crate::cursor_data::token_cell_deref;
use crate::cursor_data::token_cell_get_mut;
use crate::cursor_data::token_cell_new;
use crate::cursor_data::NodeCell;
use crate::cursor_data::Place;
use crate::cursor_data::SyntaxNodeData;
use crate::cursor_data::SyntaxTokenData;
use crate::green::element::GreenElement;
use crate::green::node::GreenChild;
use crate::green::node::GreenNode;
use crate::green::token::GreenToken;
use crate::green::SyntaxKind;
use crate::hashing::Handed;
use crate::hashing::Recorder;
use crate::model::Tree;
use crate::text;
use crate::text::TextRange;
use crate::text::TextSize;
use crate::utility_types::Direction;
use crate::utility_types::NodeOrToken;

pub use crate::cursor_editor::EditError;
pub use crate::cursor_editor::EditorElementId;
pub use crate::cursor_editor::EditorNodeId;
pub use crate::cursor_editor::EditorTokenId;
pub use crate::cursor_editor::SpliceOutcome;
pub use crate::cursor_editor::SyntaxEditor;
pub use crate::cursor_traversal::Preorder;
pub use crate::cursor_traversal::PreorderWithTokens;
pub use crate::cursor_traversal::SyntaxElementChildren;
pub use crate::cursor_traversal::SyntaxElementChildrenByKind;
pub use crate::cursor_traversal::SyntaxNodeChildren;
pub use crate::cursor_traversal::SyntaxNodeChildrenByKind;
pub use crate::cursor_traversal::TraversalError;

verus! {

/// A rejected source offset or text range.
#[derive(Debug, Clone, Copy, PartialEq, Eq, Structural)]
pub enum RangeError {
    /// An offset lies outside the valid closed query interval.
    OffsetOutOfBounds {
        /// Rejected offset.
        offset: TextSize,
        /// Valid containing range.
        valid: TextRange,
    },
    /// A range lies outside the valid containing range.
    RangeOutOfBounds {
        /// Rejected range.
        requested: TextRange,
        /// Valid containing range.
        valid: TextRange,
    },
    /// Caller-provided range endpoints are reversed.
    ReversedRange {
        /// Rejected start offset.
        start: TextSize,
        /// Rejected end offset.
        end: TextSize,
    },
    /// A byte offset falls inside a UTF-8 code point.
    NotCharBoundary {
        /// Rejected relative offset.
        offset: TextSize,
    },
    /// Translating a relative offset into an absolute offset overflowed.
    OffsetArithmeticOverflow {
        /// Base offset.
        base: TextSize,
        /// Relative delta.
        delta: TextSize,
    },
}

/// A raw node or token cursor.
pub type SyntaxElement = NodeOrToken<SyntaxNode, SyntaxToken>;

/// Immutable raw cursor pointing at a green node and its absolute source position.
pub struct SyntaxNode {
    /// Shared immutable red payload.
    payload: NodeCell,
    /// The place that the payload describes.
    place: Ghost<Place>,
}

/// Immutable raw cursor pointing at a green token and its absolute source position.
pub struct SyntaxToken {
    /// Shared immutable red payload.
    payload: triomphe::Arc<SyntaxTokenData>,
    /// The place that the payload describes.
    place: Ghost<Place>,
}

/// The parent link and index of a payload lead to its place.
spec fn linked(parent: Option<SyntaxNode>, index: usize, place: Place) -> bool {
    match parent {
        None => place.is_root() && index == 0,
        Some(parent) => {
            &&& !place.is_root()
            &&& parent.place() == place.parent()
            &&& index == place.index()
        },
    }
}

/// The node or token path as mathematical integers.
pub open spec fn path_of(path: Seq<usize>) -> Seq<int> {
    path.map_values(|index: usize| index as int)
}

/// The place of an element.
pub open spec fn element_place(element: SyntaxElement) -> Place {
    match element {
        NodeOrToken::Node(node) => node.place(),
        NodeOrToken::Token(token) => token.place(),
    }
}

/// The place `levels` levels above.
pub open spec fn ancestor(place: Place, levels: int) -> Place {
    Place { root: place.root, path: place.path.take(place.path.len() - levels) }
}

/// The index in the parent of a found node.
pub open spec fn node_index(node: Option<SyntaxNode>) -> Option<int> {
    match node {
        Some(node) => Some(node.place().index()),
        None => None,
    }
}

/// A found node is a direct child.
pub open spec fn is_child_node(place: Place, child: Option<SyntaxNode>) -> bool {
    child matches Some(child) ==> child.place() == place.child(child.place().index())
}

/// A found node is a direct sibling; a root has none.
pub open spec fn is_sibling_node(place: Place, sibling: Option<SyntaxNode>) -> bool {
    match sibling {
        Some(sibling) => !place.is_root() && sibling.place() == place.sibling(
            sibling.place().index(),
        ),
        None => true,
    }
}

/// `found` is the least index from `low` on that holds a node.
pub open spec fn first_node(trees: Seq<Tree>, low: int, found: Option<int>) -> bool {
    match found {
        Some(found) => {
            &&& low <= found < trees.len()
            &&& trees[found] is Node
            &&& forall|i: int| low <= i < found ==> (#[trigger] trees[i]) is Token
        },
        None => forall|i: int| low <= i < trees.len() ==> (#[trigger] trees[i]) is Token,
    }
}

/// `found` is the greatest index below `high` that holds a node.
pub open spec fn last_node(trees: Seq<Tree>, high: int, found: Option<int>) -> bool {
    match found {
        Some(found) => {
            &&& 0 <= found < high
            &&& trees[found] is Node
            &&& forall|i: int| found < i < high ==> (#[trigger] trees[i]) is Token
        },
        None => forall|i: int| 0 <= i < high ==> (#[trigger] trees[i]) is Token,
    }
}

/// The index one step further in a direction.
pub open spec fn step(index: int, direction: Direction) -> int {
    match direction {
        Direction::Next => index + 1,
        Direction::Prev => index - 1,
    }
}

/// `sibling` is the element next to the place in a direction.
pub open spec fn is_adjacent(
    place: Place,
    direction: Direction,
    sibling: Option<SyntaxElement>,
) -> bool {
    let index = step(place.index(), direction);
    match sibling {
        Some(sibling) => {
            &&& !place.is_root()
            &&& 0 <= index < place.siblings().len()
            &&& element_place(sibling) == place.sibling(index)
        },
        None => place.is_root() || !(0 <= index < place.siblings().len()),
    }
}

/// The description of the element next to a place in a direction.
spec fn describes_sibling(
    place: Place,
    direction: Direction,
    descriptor: Option<ElementDescriptor>,
) -> bool {
    let index = step(place.index(), direction);
    match descriptor {
        Some(descriptor) => {
            &&& !place.is_root()
            &&& 0 <= index < place.siblings().len()
            &&& descriptor.place() == place.sibling(index)
        },
        None => place.is_root() || !(0 <= index < place.siblings().len()),
    }
}

/// Fully owned description of one red child cursor.
struct ElementDescriptor {
    /// Parent node.
    parent: SyntaxNode,
    /// Owned immutable green child.
    green: GreenElement,
    /// Child index.
    index: usize,
    /// Absolute offset.
    offset: TextSize,
}

/// Fully owned description of one red node cursor.
struct NodeDescriptor {
    /// Parent node.
    parent: SyntaxNode,
    /// Owned immutable green node.
    green: GreenNode,
    /// Child index.
    index: usize,
    /// Absolute offset.
    offset: TextSize,
}

impl ElementDescriptor {
    /// The described place.
    spec fn place(self) -> Place {
        self.parent.place().child(self.index as int)
    }

    /// The fields describe an existing place.
    #[verifier::type_invariant]
    spec fn valid(self) -> bool {
        &&& self.place().valid()
        &&& self.place().handle() == self.green
        &&& self.place().tree() == crate::green::element::element_tree(self.green)
        &&& self.place().start() == self.offset@
        &&& match self.green {
            NodeOrToken::Node(node) => node.valid(),
            NodeOrToken::Token(token) => token.fits(),
        }
    }

    /// Allocate the variant-specific immutable red payload.
    fn into_element(self) -> (element: SyntaxElement)
        ensures
            element_place(element) == self.place(),
    {
        proof {
            use_type_invariant(&self);
            self.place().lemma_valid();
        }
        let ghost place = self.place();
        assert(place.parent() =~= self.parent.place());
        match self.green {
            NodeOrToken::Node(green) => NodeOrToken::Node(
                SyntaxNode {
                    payload: node_cell_new(
                        SyntaxNodeData {
                            parent: Some(self.parent),
                            green,
                            index: self.index,
                            offset: self.offset,
                        },
                    ),
                    place: Ghost(place),
                },
            ),
            NodeOrToken::Token(green) => NodeOrToken::Token(
                SyntaxToken {
                    payload: token_cell_new(
                        SyntaxTokenData {
                            parent: Some(self.parent),
                            green,
                            index: self.index,
                            offset: self.offset,
                        },
                    ),
                    place: Ghost(place),
                },
            ),
        }
    }
}

impl NodeDescriptor {
    /// The described place.
    spec fn place(self) -> Place {
        self.parent.place().child(self.index as int)
    }

    /// The fields describe an existing place.
    #[verifier::type_invariant]
    spec fn valid(self) -> bool {
        &&& self.place().valid()
        &&& self.place().handle() == NodeOrToken::<GreenNode, GreenToken>::Node(self.green)
        &&& self.place().tree() == self.green@
        &&& self.place().start() == self.offset@
        &&& self.place().parent() == self.parent.place()
        &&& self.green.valid()
    }

    /// Allocate the immutable red-node payload described by this value.
    fn into_node(self) -> (node: SyntaxNode)
        ensures
            node.place() == self.place(),
    {
        proof {
            use_type_invariant(&self);
        }
        let ghost place = self.place();
        SyntaxNode {
            payload: node_cell_new(
                SyntaxNodeData {
                    parent: Some(self.parent),
                    green: self.green,
                    index: self.index,
                    offset: self.offset,
                },
            ),
            place: Ghost(place),
        }
    }
}

/// Construct a valid text range without exposing an overflow panic path.
pub fn validated_text_range(offset: TextSize, text_len: TextSize) -> (range: TextRange)
    ensures
        range.lo() == offset,
        range.hi()@ == if offset@ + text_len@ <= u32::MAX {
            offset@ + text_len@
        } else {
            offset@
        },
{
    broadcast use text::group_text_range;

    match offset.checked_add(text_len) {
        Some(end) => TextRange::new(offset, end),
        None => TextRange::empty(offset),
    }
}

/// Add a parent offset to a child-relative offset.
fn child_offset(parent: &SyntaxNode, index: usize, child: &GreenChild) -> (offset: TextSize)
    requires
        index < parent.handle().records().len(),
        *child == parent.handle().records()[index as int],
    ensures
        offset@ == parent.place().child(index as int).start(),
        parent.place().child(index as int).valid(),
{
    proof {
        use_type_invariant(parent);
        parent.lemma_valid();
        parent.handle().lemma_valid();
        parent.place().lemma_child(index as int);
        parent.place().child(index as int).lemma_valid();
    }
    let base = node_cell_deref(&parent.payload).offset;
    let relative = child.rel_offset();
    TextSize { raw: base.raw + relative.raw }
}

/// Convert an offset-bearing green child into a red element descriptor.
fn describe_child(parent: &SyntaxNode, index: usize, child: &GreenChild) -> (descriptor:
    ElementDescriptor)
    requires
        index < parent.handle().records().len(),
        *child == parent.handle().records()[index as int],
    ensures
        descriptor.place() == parent.place().child(index as int),
{
    let offset = child_offset(parent, index, child);
    let green = child.as_ref().to_owned();
    proof {
        use_type_invariant(parent);
        parent.lemma_valid();
        parent.handle().lemma_valid();
        parent.place().lemma_child(index as int);
        match &green {
            NodeOrToken::Node(node) => {
                use_type_invariant(node);
            },
            NodeOrToken::Token(token) => {
                use_type_invariant(token);
            },
        }
    }
    ElementDescriptor { parent: parent.clone(), green, index, offset }
}

/// Convert one green child into a typed red-node descriptor when it is a node.
fn describe_node_child(parent: &SyntaxNode, index: usize, child: &GreenChild) -> (descriptor:
    Option<NodeDescriptor>)
    requires
        index < parent.handle().records().len(),
        *child == parent.handle().records()[index as int],
    ensures
        match descriptor {
            Some(descriptor) => {
                &&& descriptor.place() == parent.place().child(index as int)
                &&& parent.place().tree().children()[index as int] is Node
            },
            None => parent.place().tree().children()[index as int] is Token,
        },
{
    let offset = child_offset(parent, index, child);
    proof {
        use_type_invariant(parent);
        parent.lemma_valid();
        parent.handle().lemma_valid();
        parent.place().lemma_child(index as int);
    }
    match child.as_ref() {
        NodeOrToken::Node(green) => {
            proof {
                use_type_invariant(green);
                green.lemma_valid();
            }
            Some(NodeDescriptor { parent: parent.clone(), green: green.clone(), index, offset })
        },
        NodeOrToken::Token(token) => {
            proof {
                use_type_invariant(token);
            }
            None
        },
    }
}

/// Find the first node child at or behind an index.
fn node_descriptor_from(parent: &SyntaxNode, low: usize) -> (descriptor: Option<NodeDescriptor>)
    ensures
        match descriptor {
            Some(descriptor) => {
                &&& descriptor.place() == parent.place().child(descriptor.place().index())
                &&& first_node(
                    parent.place().tree().children(),
                    low as int,
                    Some(descriptor.place().index()),
                )
            },
            None => first_node(parent.place().tree().children(), low as int, None),
        },
{
    proof {
        use_type_invariant(parent);
        parent.lemma_valid();
        parent.handle().lemma_valid();
    }
    let records = parent.green().child_records();
    let ghost trees = parent.place().tree().children();
    let mut index: usize = low;
    while index < records.len()
        invariant
            low <= index,
            records@ == parent.handle().records(),
            records@.len() == trees.len(),
            trees == parent.place().tree().children(),
            forall|i: int| low <= i < index && i < trees.len() ==> (#[trigger] trees[i]) is Token,
        decreases records.len() - index,
    {
        if let Some(descriptor) = describe_node_child(parent, index, &records[index]) {
            return Some(descriptor);
        }
        index += 1;
    }
    None
}

/// Find the last node child before an index.
fn node_descriptor_before(parent: &SyntaxNode, high: usize) -> (descriptor: Option<NodeDescriptor>)
    requires
        high <= parent.place().tree().children().len(),
    ensures
        match descriptor {
            Some(descriptor) => {
                &&& descriptor.place() == parent.place().child(descriptor.place().index())
                &&& last_node(
                    parent.place().tree().children(),
                    high as int,
                    Some(descriptor.place().index()),
                )
            },
            None => last_node(parent.place().tree().children(), high as int, None),
        },
{
    proof {
        use_type_invariant(parent);
        parent.lemma_valid();
        parent.handle().lemma_valid();
    }
    let records = parent.green().child_records();
    let ghost trees = parent.place().tree().children();
    let mut index: usize = high;
    while index > 0
        invariant
            index <= high <= records@.len(),
            records@ == parent.handle().records(),
            records@.len() == trees.len(),
            trees == parent.place().tree().children(),
            forall|i: int| index <= i < high ==> (#[trigger] trees[i]) is Token,
        decreases index,
    {
        index -= 1;
        if let Some(descriptor) = describe_node_child(parent, index, &records[index]) {
            return Some(descriptor);
        }
    }
    None
}

/// Find the first node child from one edge without allocating intermediate cursors.
fn boundary_node_descriptor(parent: &SyntaxNode, direction: Direction) -> (descriptor: Option<
    NodeDescriptor,
>)
    ensures
        match descriptor {
            Some(descriptor) => descriptor.place() == parent.place().child(
                descriptor.place().index(),
            ),
            None => true,
        },
        ({
            let trees = parent.place().tree().children();
            let found = match descriptor {
                Some(descriptor) => Some(descriptor.place().index()),
                None => None,
            };
            match direction {
                Direction::Next => first_node(trees, 0, found),
                Direction::Prev => last_node(trees, trees.len() as int, found),
            }
        }),
{
    match direction {
        Direction::Next => node_descriptor_from(parent, 0),
        Direction::Prev => node_descriptor_before(parent, parent.child_count()),
    }
}

/// Describe one immediately adjacent element from shared node/token location metadata.
fn sibling_element_descriptor(
    parent: Option<SyntaxNode>,
    index: usize,
    direction: Direction,
    Ghost(place): Ghost<Place>,
) -> (descriptor: Option<ElementDescriptor>)
    requires
        place.valid(),
        linked(parent, index, place),
    ensures
        describes_sibling(place, direction, descriptor),
{
    proof {
        place.lemma_valid();
    }
    let parent = match parent {
        Some(parent) => parent,
        None => {
            return None;
        },
    };
    proof {
        use_type_invariant(&parent);
        parent.lemma_valid();
        parent.handle().lemma_valid();
    }
    let records = parent.green().child_records();
    let count: usize = records.len();
    proof {
        assert(place.siblings().len() == count);
        assert(index < count);
    }
    let sibling_index: usize = match direction {
        Direction::Next => index + 1,
        Direction::Prev => {
            if index == 0 {
                return None;
            }
            index - 1
        },
    };
    if sibling_index >= count {
        return None;
    }
    Some(describe_child(&parent, sibling_index, &records[sibling_index]))
}

/// Move a node cursor to a described node, reusing its payload when no other handle shares it.
fn reuse_node(cursor: SyntaxNode, descriptor: NodeDescriptor) -> (node: SyntaxNode)
    ensures
        node.place() == descriptor.place(),
{
    let ghost place = descriptor.place();
    proof {
        use_type_invariant(&descriptor);
        place.lemma_valid();
    }
    let mut payload = cursor.payload;
    match node_cell_get_mut(&mut payload) {
        Some(data) => {
            data.parent = Some(descriptor.parent);
            data.green = descriptor.green;
            data.index = descriptor.index;
            data.offset = descriptor.offset;
        },
        None => {
            return descriptor.into_node();
        },
    }
    SyntaxNode { payload, place: Ghost(place) }
}

/// Move a token cursor to a described token, reusing its payload when no other handle shares it.
fn reuse_token(
    cursor: SyntaxToken,
    parent: SyntaxNode,
    green: GreenToken,
    index: usize,
    offset: TextSize,
) -> (token: SyntaxToken)
    requires
        parent.place().child(index as int).valid(),
        parent.place().child(index as int).handle() == NodeOrToken::<GreenNode, GreenToken>::Token(
            green,
        ),
        parent.place().child(index as int).tree() == green@,
        parent.place().child(index as int).start() == offset@,
        parent.place().child(index as int).parent() == parent.place(),
    ensures
        token.place() == parent.place().child(index as int),
{
    let ghost place = parent.place().child(index as int);
    proof {
        use_type_invariant(&green);
        place.lemma_valid();
    }
    let mut payload = cursor.payload;
    match token_cell_get_mut(&mut payload) {
        Some(data) => {
            data.parent = Some(parent);
            data.green = green;
            data.index = index;
            data.offset = offset;
        },
        None => {
            return SyntaxToken {
                payload: token_cell_new(
                    SyntaxTokenData { parent: Some(parent), green, index, offset },
                ),
                place: Ghost(place),
            };
        },
    }
    SyntaxToken { payload, place: Ghost(place) }
}

/// Advance an element cursor, retaining allocation reuse only within the same variant.
fn advance_element(current: SyntaxElement, descriptor: ElementDescriptor) -> (
    element: SyntaxElement)
    ensures
        element_place(element) == descriptor.place(),
{
    proof {
        use_type_invariant(&descriptor);
        descriptor.place().lemma_valid();
        assert(descriptor.place().parent() =~= descriptor.parent.place());
    }
    let ElementDescriptor { parent, green, index, offset } = descriptor;
    match (current, green) {
        (NodeOrToken::Node(node), NodeOrToken::Node(green)) => NodeOrToken::Node(
            reuse_node(node, NodeDescriptor { parent, green, index, offset }),
        ),
        (NodeOrToken::Token(token), NodeOrToken::Token(green)) => NodeOrToken::Token(
            reuse_token(token, parent, green, index, offset),
        ),
        (_, green) => ElementDescriptor { parent, green, index, offset }.into_element(),
    }
}

/// Collect a node and its ancestors, from the node up.
fn ancestors_from(first: Option<SyntaxNode>) -> (nodes: Vec<SyntaxNode>)
    ensures
        match first {
            Some(first) => {
                &&& nodes@.len() == first.place().path.len() + 1
                &&& forall|i: int|
                    0 <= i < nodes@.len() ==> (#[trigger] nodes@[i]).place() == ancestor(
                        first.place(),
                        i,
                    )
            },
            None => nodes@.len() == 0,
        },
{
    let mut nodes: Vec<SyntaxNode> = Vec::new();
    let mut current = match first {
        Some(node) => node,
        None => {
            return nodes;
        },
    };
    let ghost place = current.place();
    assert(place.path.take(place.path.len() as int) =~= place.path);
    loop
        invariant_except_break
            nodes@.len() + current.place().path.len() == place.path.len(),
            current.place() == ancestor(place, nodes@.len() as int),
        invariant
            forall|i: int|
                0 <= i < nodes@.len() ==> (#[trigger] nodes@[i]).place() == ancestor(place, i),
        ensures
            nodes@.len() == place.path.len() + 1,
            forall|i: int|
                0 <= i < nodes@.len() ==> (#[trigger] nodes@[i]).place() == ancestor(place, i),
        decreases current.place().path.len(),
    {
        let parent = current.parent();
        let ghost below = current.place();
        nodes.push(current);
        match parent {
            Some(parent) => {
                assert(parent.place() =~= ancestor(place, nodes@.len() as int));
                current = parent;
            },
            None => {
                break;
            },
        }
    }
    nodes
}

/// Reverse the indices of a path.
fn reversed_path(path: &Vec<usize>) -> (reversed: Vec<usize>)
    ensures
        reversed@ == path@.reverse(),
{
    let mut reversed: Vec<usize> = Vec::with_capacity(path.len());
    let mut index: usize = path.len();
    while index > 0
        invariant
            index <= path@.len(),
            reversed@.len() == path@.len() - index,
            forall|i: int| 0 <= i < reversed@.len() ==> reversed@[i] == path@[path@.len() - 1 - i],
        decreases index,
    {
        index -= 1;
        reversed.push(path[index]);
    }
    assert(reversed@ =~= path@.reverse());
    reversed
}

impl SyntaxToken {
    /// The place of the token in its tree.
    pub closed spec fn place(self) -> Place {
        self.place@
    }

    /// The green token at the place.
    pub closed spec fn handle(self) -> GreenToken {
        crate::cursor_data::token_cell(self.payload).green
    }

    /// The payload describes the place.
    #[verifier::type_invariant]
    pub closed spec fn valid(self) -> bool {
        let data = crate::cursor_data::token_cell(self.payload);
        &&& self.place@.valid()
        &&& self.place@.handle() == NodeOrToken::<GreenNode, GreenToken>::Token(data.green)
        &&& self.place@.tree() == data.green@
        &&& data.green.fits()
        &&& data.offset@ == self.place@.start()
        &&& data.parent is Some
        &&& linked(data.parent, data.index, self.place@)
    }

    /// What the invariant of a cursor says of its place.
    pub proof fn lemma_valid(self)
        requires
            self.valid(),
        ensures
            self.place().valid(),
            !self.place().is_root(),
            self.place().handle() == NodeOrToken::<GreenNode, GreenToken>::Token(self.handle()),
            self.place().tree() == self.handle()@,
            self.place().tree() is Token,
            self.place().end() <= self.place().root@.len() <= u32::MAX,
    {
        self.place().lemma_valid();
    }

    /// Return this token's raw syntax kind.
    pub fn kind(&self) -> (kind: SyntaxKind)
        ensures
            kind == self.place().tree().kind(),
    {
        proof {
            use_type_invariant(self);
        }
        token_cell_deref(&self.payload).green.kind()
    }

    /// Return this token's absolute source range.
    pub fn text_range(&self) -> (range: TextRange)
        ensures
            range.lo()@ == self.place().start(),
            range.hi()@ == self.place().end(),
    {
        proof {
            use_type_invariant(self);
            self.lemma_valid();
        }
        let data = token_cell_deref(&self.payload);
        validated_text_range(data.offset, data.green.text_len())
    }

    /// Return this token's index in its parent.
    pub fn index(&self) -> (index: usize)
        ensures
            index == self.place().index(),
    {
        proof {
            use_type_invariant(self);
        }
        token_cell_deref(&self.payload).index
    }

    /// Borrow this token's exact UTF-8 text.
    pub fn text(&self) -> (text: &str)
        ensures
            text@ == self.place().tree().text(),
    {
        proof {
            use_type_invariant(self);
        }
        token_cell_deref(&self.payload).green.text()
    }

    /// Write out the exact source text of this token.
    pub fn to_string(&self) -> (text: String)
        ensures
            text@ == self.place().tree().text(),
    {
        self.text().to_owned()
    }

    /// Borrow the immutable green token represented by this cursor.
    pub fn green(&self) -> (green: &GreenToken)
        ensures
            *green == self.handle(),
            self.place().handle() == NodeOrToken::<GreenNode, GreenToken>::Token(*green),
            green@ == self.place().tree(),
    {
        proof {
            use_type_invariant(self);
        }
        &token_cell_deref(&self.payload).green
    }

    /// Return this token's parent node.
    pub fn parent(&self) -> (parent: Option<SyntaxNode>)
        ensures
            parent matches Some(parent) && !self.place().is_root() && parent.place()
                == self.place().parent(),
    {
        proof {
            use_type_invariant(self);
        }
        match &token_cell_deref(&self.payload).parent {
            Some(parent) => Some(parent.clone()),
            None => None,
        }
    }

    /// Collect this token's parent and all higher ancestors, from the parent up.
    pub fn ancestors(&self) -> (nodes: Vec<SyntaxNode>)
        ensures
            nodes@.len() == self.place().path.len(),
            forall|i: int|
                0 <= i < nodes@.len() ==> (#[trigger] nodes@[i]).place() == ancestor(
                    self.place(),
                    i + 1,
                ),
    {
        let parent = self.parent();
        let nodes = ancestors_from(parent);
        proof {
            assert forall|i: int| 0 <= i < nodes@.len() implies (#[trigger] nodes@[i]).place()
                == ancestor(self.place(), i + 1) by {
                assert(self.place().parent().path.take(self.place().path.len() - 1 - i)
                    =~= self.place().path.take(self.place().path.len() - (i + 1)));
            }
        }
        nodes
    }

    /// Describe the next direct sibling element.
    fn next_element_descriptor(&self) -> (descriptor: Option<ElementDescriptor>)
        ensures
            describes_sibling(self.place(), Direction::Next, descriptor),
    {
        proof {
            use_type_invariant(self);
            self.place().lemma_valid();
        }
        sibling_element_descriptor(
            self.parent(), self.index(), Direction::Next, Ghost(self.place()))
    }

    /// Return the next direct sibling element.
    pub fn next_sibling_or_token(&self) -> (sibling: Option<SyntaxElement>)
        ensures
            is_adjacent(self.place(), Direction::Next, sibling),
    {
        match self.next_element_descriptor() {
            Some(descriptor) => Some(descriptor.into_element()),
            None => None,
        }
    }

    /// Return the previous direct sibling element.
    pub fn prev_sibling_or_token(&self) -> (sibling: Option<SyntaxElement>)
        ensures
            is_adjacent(self.place(), Direction::Prev, sibling),
    {
        proof {
            use_type_invariant(self);
            self.place().lemma_valid();
        }
        match sibling_element_descriptor(
            self.parent(),
            self.index(),
            Direction::Prev,
            Ghost(self.place()),
        ) {
            Some(descriptor) => Some(descriptor.into_element()),
            None => None,
        }
    }

    /// Return the top green root allocation and complete child-index path for editor lookup.
    pub fn root_locator(&self) -> (locator: Option<(GreenNode, Vec<usize>)>)
        ensures
            locator matches Some((root, path)) && root == self.place().root && path_of(path@)
                == self.place().path,
    {
        proof {
            use_type_invariant(self);
            self.place().lemma_valid();
        }
        let parent = match self.parent() {
            Some(parent) => parent,
            None => {
                return None;
            },
        };
        let (root, mut path) = parent.root_locator();
        path.push(self.index());
        assert(path_of(path@) =~= self.place().path);
        Some((root, path))
    }
}

impl Clone for SyntaxToken {
    /// Give another handle on the same cursor.
    fn clone(&self) -> (handle: Self)
        ensures
            handle == *self,
    {
        proof {
            use_type_invariant(self);
        }
        SyntaxToken { payload: self.payload.clone(), place: Ghost(self.place@) }
    }
}

impl SyntaxElement {
    /// Return this element's absolute source range.
    pub fn text_range(&self) -> (range: TextRange)
        ensures
            range.lo()@ == element_place(*self).start(),
            range.hi()@ == element_place(*self).end(),
    {
        match self {
            NodeOrToken::Node(node) => node.text_range(),
            NodeOrToken::Token(token) => token.text_range(),
        }
    }

    /// Return this element's index in its parent, or zero for a root node.
    pub fn index(&self) -> (index: usize)
        ensures
            index == if element_place(*self).is_root() {
                0
            } else {
                element_place(*self).index()
            },
    {
        match self {
            NodeOrToken::Node(node) => node.index(),
            NodeOrToken::Token(token) => {
                proof {
                    use_type_invariant(token);
                    token.lemma_valid();
                }
                token.index()
            },
        }
    }

    /// Return this element's raw syntax kind.
    pub fn kind(&self) -> (kind: SyntaxKind)
        ensures
            kind == element_place(*self).tree().kind(),
    {
        match self {
            NodeOrToken::Node(node) => node.kind(),
            NodeOrToken::Token(token) => token.kind(),
        }
    }

    /// Return this element's parent node.
    pub fn parent(&self) -> (parent: Option<SyntaxNode>)
        ensures
            match parent {
                Some(parent) => !element_place(*self).is_root() && parent.place() == element_place(
                    *self,
                ).parent(),
                None => element_place(*self).is_root(),
            },
    {
        match self {
            NodeOrToken::Node(node) => node.parent(),
            NodeOrToken::Token(token) => token.parent(),
        }
    }

    /// Return the next direct sibling element.
    pub fn next_sibling_or_token(&self) -> (sibling: Option<Self>)
        ensures
            is_adjacent(element_place(*self), Direction::Next, sibling),
    {
        match self {
            NodeOrToken::Node(node) => node.next_sibling_or_token(),
            NodeOrToken::Token(token) => token.next_sibling_or_token(),
        }
    }

    /// Consume and advance this element, reusing a same-variant uniquely owned payload when possible.
    pub fn into_next_sibling_or_token(self) -> (sibling: Option<Self>)
        ensures
            is_adjacent(element_place(self), Direction::Next, sibling),
    {
        let descriptor = match &self {
            NodeOrToken::Node(node) => node.next_element_descriptor(),
            NodeOrToken::Token(token) => token.next_element_descriptor(),
        };
        match descriptor {
            Some(descriptor) => Some(advance_element(self, descriptor)),
            None => None,
        }
    }

    /// Return the previous direct sibling element.
    pub fn prev_sibling_or_token(&self) -> (sibling: Option<Self>)
        ensures
            is_adjacent(element_place(*self), Direction::Prev, sibling),
    {
        match self {
            NodeOrToken::Node(node) => node.prev_sibling_or_token(),
            NodeOrToken::Token(token) => token.prev_sibling_or_token(),
        }
    }

    /// Give another handle on the same cursor.
    pub fn handle(&self) -> (element: Self)
        ensures
            element == *self,
    {
        match self {
            NodeOrToken::Node(node) => NodeOrToken::Node(node.clone()),
            NodeOrToken::Token(token) => NodeOrToken::Token(token.clone()),
        }
    }

    /// Clone the represented immutable green handle.
    pub fn green_owned(&self) -> (green: GreenElement)
        ensures
            green == element_place(*self).handle(),
            crate::green::element::element_tree(green) == element_place(*self).tree(),
    {
        match self {
            NodeOrToken::Node(node) => NodeOrToken::Node(node.green().clone()),
            NodeOrToken::Token(token) => NodeOrToken::Token(token.green().clone()),
        }
    }
}

impl SyntaxNode {
    /// The place of the node in its tree.
    pub closed spec fn place(self) -> Place {
        self.place@
    }

    /// The green node at the place.
    pub closed spec fn handle(self) -> GreenNode {
        crate::cursor_data::node_cell(self.payload).green
    }

    /// The payload describes the place.
    #[verifier::type_invariant]
    pub closed spec fn valid(self) -> bool {
        let data = crate::cursor_data::node_cell(self.payload);
        &&& self.place@.valid()
        &&& self.place@.handle() == NodeOrToken::<GreenNode, GreenToken>::Node(data.green)
        &&& self.place@.tree() == data.green@
        &&& data.green.valid()
        &&& data.offset@ == self.place@.start()
        &&& linked(data.parent, data.index, self.place@)
    }

    /// What the invariant of a cursor says of its place.
    pub proof fn lemma_valid(self)
        requires
            self.valid(),
        ensures
            self.place().valid(),
            self.place().handle() == NodeOrToken::<GreenNode, GreenToken>::Node(self.handle()),
            self.place().tree() == self.handle()@,
            self.place().tree() is Node,
            self.handle().valid(),
            self.place().end() <= self.place().root@.len() <= u32::MAX,
    {
        self.handle().lemma_valid();
        self.place().lemma_valid();
    }

    /// Create a root cursor at absolute offset zero.
    pub fn new_root(green: GreenNode) -> (node: Self)
        ensures
            node.place() == (Place { root: green, path: Seq::empty() }),
    {
        proof {
            use_type_invariant(&green);
        }
        let ghost place = Place { root: green, path: Seq::empty() };
        let payload = node_cell_new(
            SyntaxNodeData { parent: None, green, index: 0, offset: TextSize { raw: 0 } },
        );
        SyntaxNode { payload, place: Ghost(place) }
    }

    /// Return this node's raw syntax kind.
    pub fn kind(&self) -> (kind: SyntaxKind)
        ensures
            kind == self.place().tree().kind(),
    {
        proof {
            use_type_invariant(self);
        }
        node_cell_deref(&self.payload).green.kind()
    }

    /// Return this node's absolute source range.
    pub fn text_range(&self) -> (range: TextRange)
        ensures
            range.lo()@ == self.place().start(),
            range.hi()@ == self.place().end(),
    {
        proof {
            use_type_invariant(self);
            self.lemma_valid();
        }
        let data = node_cell_deref(&self.payload);
        validated_text_range(data.offset, data.green.text_len())
    }

    /// Return this node's index in its parent, or zero for a root.
    pub fn index(&self) -> (index: usize)
        ensures
            index == if self.place().is_root() {
                0
            } else {
                self.place().index()
            },
    {
        proof {
            use_type_invariant(self);
        }
        node_cell_deref(&self.payload).index
    }

    /// Borrow the immutable green node represented by this cursor.
    pub fn green(&self) -> (green: &GreenNode)
        ensures
            *green == self.handle(),
            self.place().handle() == NodeOrToken::<GreenNode, GreenToken>::Node(*green),
            green@ == self.place().tree(),
    {
        proof {
            use_type_invariant(self);
        }
        &node_cell_deref(&self.payload).green
    }

    /// Return this node's parent.
    pub fn parent(&self) -> (parent: Option<Self>)
        ensures
            match parent {
                Some(parent) => !self.place().is_root() && parent.place() == self.place().parent(),
                None => self.place().is_root(),
            },
    {
        proof {
            use_type_invariant(self);
        }
        match &node_cell_deref(&self.payload).parent {
            Some(parent) => Some(parent.clone()),
            None => None,
        }
    }

    /// Collect this node and all of its ancestors, from the node up.
    pub fn ancestors(&self) -> (nodes: Vec<Self>)
        ensures
            nodes@.len() == self.place().path.len() + 1,
            forall|i: int|
                0 <= i < nodes@.len() ==> (#[trigger] nodes@[i]).place() == ancestor(
                    self.place(),
                    i,
                ),
    {
        ancestors_from(Some(self.clone()))
    }

    /// Return the first direct child node.
    pub fn first_child(&self) -> (child: Option<Self>)
        ensures
            is_child_node(self.place(), child),
            first_node(self.place().tree().children(), 0, node_index(child)),
    {
        match boundary_node_descriptor(self, Direction::Next) {
            Some(descriptor) => Some(descriptor.into_node()),
            None => None,
        }
    }

    /// Return the last direct child node.
    pub fn last_child(&self) -> (child: Option<Self>)
        ensures
            is_child_node(self.place(), child),
            last_node(
                self.place().tree().children(),
                self.place().tree().children().len() as int,
                node_index(child),
            ),
    {
        match boundary_node_descriptor(self, Direction::Prev) {
            Some(descriptor) => Some(descriptor.into_node()),
            None => None,
        }
    }

    /// Return the first direct child element.
    pub fn first_child_or_token(&self) -> (child: Option<SyntaxElement>)
        ensures
            match child {
                Some(child) => self.place().tree().children().len() > 0 && element_place(child)
                    == self.place().child(0),
                None => self.place().tree().children().len() == 0,
            },
    {
        self.child_at(0)
    }

    /// Return the last direct child element.
    pub fn last_child_or_token(&self) -> (child: Option<SyntaxElement>)
        ensures
            match child {
                Some(child) => self.place().tree().children().len() > 0 && element_place(child)
                    == self.place().child(self.place().tree().children().len() - 1),
                None => self.place().tree().children().len() == 0,
            },
    {
        let count: usize = self.child_count();
        if count == 0 {
            return None;
        }
        self.child_at(count - 1)
    }

    /// The number of direct child elements.
    pub(crate) fn child_count(&self) -> (count: usize)
        ensures
            count == self.place().tree().children().len(),
    {
        proof {
            use_type_invariant(self);
            self.handle().lemma_valid();
        }
        self.green().child_records().len()
    }

    /// Return the direct child element at `index`.
    pub(crate) fn child_at(&self, index: usize) -> (child: Option<SyntaxElement>)
        ensures
            match child {
                Some(child) => index < self.place().tree().children().len() && element_place(child)
                    == self.place().child(index as int),
                None => index >= self.place().tree().children().len(),
            },
    {
        proof {
            use_type_invariant(self);
            self.handle().lemma_valid();
        }
        let records = self.green().child_records();
        if index >= records.len() {
            return None;
        }
        Some(describe_child(self, index, &records[index]).into_element())
    }

    /// Describe the next direct sibling element.
    fn next_element_descriptor(&self) -> (descriptor: Option<ElementDescriptor>)
        ensures
            describes_sibling(self.place(), Direction::Next, descriptor),
    {
        proof {
            use_type_invariant(self);
            self.place().lemma_valid();
        }
        sibling_element_descriptor(
            self.parent(), self.index(), Direction::Next, Ghost(self.place()))
    }

    /// Describe the next sibling node, skipping tokens.
    fn next_node_descriptor(&self) -> (descriptor: Option<NodeDescriptor>)
        ensures
            match descriptor {
                Some(descriptor) => {
                    &&& !self.place().is_root()
                    &&& descriptor.place() == self.place().sibling(descriptor.place().index())
                    &&& first_node(
                        self.place().siblings(),
                        self.place().index() + 1,
                        Some(descriptor.place().index()),
                    )
                },
                None => self.place().is_root() || first_node(
                    self.place().siblings(),
                    self.place().index() + 1,
                    None,
                ),
            },
    {
        proof {
            use_type_invariant(self);
            self.place().lemma_valid();
        }
        let parent = match self.parent() {
            Some(parent) => parent,
            None => {
                return None;
            },
        };
        proof {
            use_type_invariant(&parent);
        }
        let count: usize = parent.child_count();
        assert(self.place().index() < count);
        node_descriptor_from(&parent, self.index() + 1)
    }

    /// Consume and advance this cursor, reusing a uniquely owned payload when possible.
    pub fn into_next_sibling(self) -> (sibling: Option<Self>)
        ensures
            is_sibling_node(self.place(), sibling),
            !self.place().is_root() ==> first_node(
                self.place().siblings(),
                self.place().index() + 1,
                node_index(sibling),
            ),
    {
        let descriptor = match self.next_node_descriptor() {
            Some(descriptor) => descriptor,
            None => {
                return None;
            },
        };
        Some(reuse_node(self, descriptor))
    }

    /// Return the next sibling node, skipping tokens.
    pub fn next_sibling(&self) -> (sibling: Option<Self>)
        ensures
            is_sibling_node(self.place(), sibling),
            !self.place().is_root() ==> first_node(
                self.place().siblings(),
                self.place().index() + 1,
                node_index(sibling),
            ),
    {
        match self.next_node_descriptor() {
            Some(descriptor) => Some(descriptor.into_node()),
            None => None,
        }
    }

    /// Return the previous sibling node, skipping tokens.
    pub fn prev_sibling(&self) -> (sibling: Option<Self>)
        ensures
            is_sibling_node(self.place(), sibling),
            !self.place().is_root() ==> last_node(
                self.place().siblings(),
                self.place().index(),
                node_index(sibling),
            ),
    {
        proof {
            use_type_invariant(self);
            self.place().lemma_valid();
        }
        let parent = match self.parent() {
            Some(parent) => parent,
            None => {
                return None;
            },
        };
        proof {
            use_type_invariant(&parent);
            parent.handle().lemma_valid();
        }
        match node_descriptor_before(&parent, self.index()) {
            Some(descriptor) => Some(descriptor.into_node()),
            None => None,
        }
    }

    /// Return the next direct sibling element.
    pub fn next_sibling_or_token(&self) -> (sibling: Option<SyntaxElement>)
        ensures
            is_adjacent(self.place(), Direction::Next, sibling),
    {
        match self.next_element_descriptor() {
            Some(descriptor) => Some(descriptor.into_element()),
            None => None,
        }
    }

    /// Return the previous direct sibling element.
    pub fn prev_sibling_or_token(&self) -> (sibling: Option<SyntaxElement>)
        ensures
            is_adjacent(self.place(), Direction::Prev, sibling),
    {
        proof {
            use_type_invariant(self);
            self.place().lemma_valid();
        }
        match sibling_element_descriptor(
            self.parent(),
            self.index(),
            Direction::Prev,
            Ghost(self.place()),
        ) {
            Some(descriptor) => Some(descriptor.into_element()),
            None => None,
        }
    }

    /// Return an independent root cursor sharing this subtree's green allocation.
    pub fn clone_subtree(&self) -> (root: Self)
        ensures
            root.place() == (Place { root: self.handle(), path: Seq::empty() }),
            root.place().tree() == self.place().tree(),
    {
        proof {
            use_type_invariant(self);
        }
        SyntaxNode::new_root(self.green().clone())
    }

    /// Return the top green root allocation and complete child-index path for editor lookup.
    pub fn root_locator(&self) -> (locator: (GreenNode, Vec<usize>))
        ensures
            locator.0 == self.place().root,
            path_of(locator.1@) == self.place().path,
    {
        let mut current = self.clone();
        let mut path: Vec<usize> = Vec::new();
        let ghost place = self.place();
        assert(path_of(path@) =~= Seq::empty());
        assert(place.path.take(place.path.len() as int) =~= place.path);
        loop
            invariant
                place == self.place(),
                current.place().root == place.root,
                current.place().path.len() <= place.path.len(),
                current.place().path == place.path.take(current.place().path.len() as int),
                path_of(path@) == place.path.skip(current.place().path.len() as int).reverse(),
            ensures
                current.place().root == place.root,
                current.place().is_root(),
                path_of(path@) == place.path.reverse(),
            decreases current.place().path.len(),
        {
            let parent = match current.parent() {
                Some(parent) => parent,
                None => {
                    assert(place.path.skip(0) =~= place.path);
                    break;
                },
            };
            let ghost depth = current.place().path.len();
            let ghost earlier = path@;
            path.push(current.index());
            proof {
                assert(path_of(path@) =~= path_of(earlier).push(place.path[depth - 1]));
                assert(place.path.skip(depth - 1).reverse() =~= place.path.skip(
                    depth as int,
                ).reverse().push(place.path[depth - 1]));
                assert(parent.place().path =~= place.path.take(depth - 1));
            }
            current = parent;
        }
        let reversed = reversed_path(&path);
        proof {
            use_type_invariant(&current);
            assert(path_of(reversed@) =~= place.path) by {
                assert forall|i: int| 0 <= i < place.path.len() implies path_of(reversed@)[i]
                    == place.path[i] by {
                    assert(path_of(path@)[path@.len() - 1 - i] == place.path.reverse()[path@.len()
                        - 1 - i]);
                }
            }
        }
        let green = current.green();
        (green.clone(), reversed)
    }
}

impl PartialEq for SyntaxNode {
    /// Compare the absolute offset and the green allocation.
    fn eq(&self, other: &Self) -> (same: bool) {
        proof {
            use_type_invariant(self);
            use_type_invariant(other);
        }
        let left = node_cell_deref(&self.payload);
        let right = node_cell_deref(&other.payload);
        left.offset.raw == right.offset.raw && left.green.ptr_eq(&right.green)
    }
}

impl vstd::std_specs::cmp::PartialEqSpecImpl for SyntaxNode {
    open spec fn obeys_eq_spec() -> bool {
        true
    }

    open spec fn eq_spec(&self, other: &Self) -> bool {
        self.place().start() == other.place().start() && self.handle() == other.handle()
    }
}

impl Eq for SyntaxNode {

}

impl std::hash::Hash for SyntaxNode {
    fn hash<HasherType: std::hash::Hasher>(&self, state: &mut HasherType) {
        let mut recorder: Recorder<'_, HasherType, ()> = Recorder::new(state);
        self.hash_position(&mut recorder);
    }
}

impl SyntaxNode {
    /// What the green allocation and the absolute offset hand over to a hasher.
    pub open spec fn handed<Kind>(self) -> Seq<Handed<Kind>> {
        seq![
            Handed::Node(self.handle()),
            Handed::Offset(text::size_of_count(self.place().start()).raw),
        ]
    }

    /// Hand the green allocation and the absolute offset over to a hasher.
    pub fn hash_position<HasherType: std::hash::Hasher, Kind>(
        &self,
        recorder: &mut Recorder<'_, HasherType, Kind>,
    )
        ensures
            final(recorder).record() == old(recorder).record() + self.handed::<Kind>(),
    {
        proof {
            use_type_invariant(self);
        }
        let ghost before = recorder.record();
        let data = node_cell_deref(&self.payload);
        data.green.hash_identity(recorder);
        recorder.hand(&data.offset.raw);
        assert(recorder.record() =~= before + self.handed::<Kind>());
    }

    /// Equal cursors hand the same values over to a hasher.
    pub proof fn lemma_equal_hash_alike<Kind>(self, other: Self)
        requires
            PartialEqSpec::eq_spec(&self, &other),
        ensures
            self.handed::<Kind>() == other.handed::<Kind>(),
    {
    }
}

impl PartialEq for SyntaxToken {
    /// Compare the absolute offset and the green allocation.
    fn eq(&self, other: &Self) -> (same: bool) {
        proof {
            use_type_invariant(self);
            use_type_invariant(other);
        }
        let left = token_cell_deref(&self.payload);
        let right = token_cell_deref(&other.payload);
        left.offset.raw == right.offset.raw && left.green.ptr_eq(&right.green)
    }
}

impl vstd::std_specs::cmp::PartialEqSpecImpl for SyntaxToken {
    open spec fn obeys_eq_spec() -> bool {
        true
    }

    open spec fn eq_spec(&self, other: &Self) -> bool {
        self.place().start() == other.place().start() && self.handle() == other.handle()
    }
}

impl Eq for SyntaxToken {

}

impl std::hash::Hash for SyntaxToken {
    fn hash<HasherType: std::hash::Hasher>(&self, state: &mut HasherType) {
        let mut recorder: Recorder<'_, HasherType, ()> = Recorder::new(state);
        self.hash_position(&mut recorder);
    }
}

impl SyntaxToken {
    /// What the green allocation and the absolute offset hand over to a hasher.
    pub open spec fn handed<Kind>(self) -> Seq<Handed<Kind>> {
        seq![
            Handed::Token(self.handle()),
            Handed::Offset(text::size_of_count(self.place().start()).raw),
        ]
    }

    /// Hand the green allocation and the absolute offset over to a hasher.
    pub fn hash_position<HasherType: std::hash::Hasher, Kind>(
        &self,
        recorder: &mut Recorder<'_, HasherType, Kind>,
    )
        ensures
            final(recorder).record() == old(recorder).record() + self.handed::<Kind>(),
    {
        proof {
            use_type_invariant(self);
        }
        let ghost before = recorder.record();
        let data = token_cell_deref(&self.payload);
        data.green.hash_identity(recorder);
        recorder.hand(&data.offset.raw);
        assert(recorder.record() =~= before + self.handed::<Kind>());
    }

    /// Equal cursors hand the same values over to a hasher.
    pub proof fn lemma_equal_hash_alike<Kind>(self, other: Self)
        requires
            PartialEqSpec::eq_spec(&self, &other),
        ensures
            self.handed::<Kind>() == other.handed::<Kind>(),
    {
    }
}

impl Clone for SyntaxNode {
    /// Give another handle on the same cursor.
    fn clone(&self) -> (handle: Self)
        ensures
            handle == *self,
    {
        proof {
            use_type_invariant(self);
        }
        SyntaxNode { payload: node_cell_clone(&self.payload), place: Ghost(self.place@) }
    }
}

impl From<SyntaxNode> for SyntaxElement {
    fn from(node: SyntaxNode) -> (element: Self) {
        NodeOrToken::Node(node)
    }
}

impl vstd::std_specs::convert::FromSpecImpl<SyntaxNode> for SyntaxElement {
    open spec fn obeys_from_spec() -> bool {
        true
    }

    open spec fn from_spec(node: SyntaxNode) -> Self {
        NodeOrToken::Node(node)
    }
}

impl From<SyntaxToken> for SyntaxElement {
    fn from(token: SyntaxToken) -> (element: Self) {
        NodeOrToken::Token(token)
    }
}

impl vstd::std_specs::convert::FromSpecImpl<SyntaxToken> for SyntaxElement {
    open spec fn obeys_from_spec() -> bool {
        true
    }

    open spec fn from_spec(token: SyntaxToken) -> Self {
        NodeOrToken::Token(token)
    }
}

/// The number of nodes from a node up to its root.
spec fn chain_length(node: Option<SyntaxNode>) -> nat {
    match node {
        Some(node) => node.place().path.len() + 1,
        None => 0,
    }
}

/// Iteratively release a uniquely owned parent chain.
pub(crate) fn release_parent_chain(parent: Option<SyntaxNode>)
    opens_invariants none
    no_unwind
{
    let mut parent = parent;
    loop
        decreases chain_length(parent),
    {
        match parent {
            Some(node) => {
                proof {
                    use_type_invariant(&node);
                }
                match node_cell_try_unwrap(node.payload) {
                    Ok(payload) => {
                        let mut payload = payload;
                        let mut next: Option<SyntaxNode> = None;
                        core::mem::swap(&mut payload.parent, &mut next);
                        parent = next;
                    },
                    Err(_) => {
                        return ;
                    },
                }
            },
            None => {
                return ;
            },
        }
    }
}

} // verus!
