//! Functional replacement of one element and its ancestor spine.

use vstd::prelude::*;

use crate::cursor::SyntaxNode;
use crate::cursor::SyntaxToken;
use crate::cursor_data::Place;
use crate::green::element;
use crate::green::element::GreenElement;
use crate::green::node;
use crate::green::node::GreenNode;
use crate::green::token::GreenToken;
use crate::green::GreenError;
use crate::model;
use crate::model::Tree;
use crate::text::TextSize;
use crate::utility_types::NodeOrToken;

verus! {

/// `rebuilt` is `old` with the element at a path replaced: the nodes on the way are new, every
/// other child is the same allocation.
pub open spec fn spine_rebuilt(
    old_element: GreenElement,
    path: Seq<int>,
    replacement: GreenElement,
    rebuilt: GreenElement,
) -> bool
    decreases path.len(),
{
    if path.len() == 0 {
        rebuilt == replacement
    } else {
        let before = old_element->Node_0.elements();
        let after = rebuilt->Node_0.elements();
        &&& rebuilt is Node
        &&& 0 <= path[0] < before.len()
        &&& after.len() == before.len()
        &&& forall|i: int| 0 <= i < before.len() && i != path[0] ==> after[i]
            == #[trigger] before[i]
        &&& spine_rebuilt(before[path[0]], path.drop_first(), replacement, after[path[0]])
    }
}

/// The node `depth` levels below the root is the lowest one whose text leaves the coordinate space
/// after the replacement.
pub open spec fn graft_overflows(
    tree: Tree,
    path: Seq<int>,
    replacement: Tree,
    depth: int,
    accumulated: TextSize,
    next: TextSize,
) -> bool {
    &&& 0 <= depth < path.len()
    &&& node::first_overflow(
        model::graft(
            model::tree_at(tree, path.take(depth)),
            path.skip(depth),
            replacement,
        ).children(),
        accumulated,
        next,
    )
    &&& model::graft(
        model::tree_at(tree, path.take(depth + 1)),
        path.skip(depth + 1),
        replacement,
    ).len() <= u32::MAX
}

/// The outcome of replacing the element at a place.
///
/// Whether the nodes on the way can be allocated rests on the allocator; a root needs none.
pub open spec fn replaced(
    place: Place,
    replacement: GreenElement,
    outcome: Result<GreenNode, GreenError>,
) -> bool {
    let tree = element::element_tree(replacement);
    if tree.kind() != place.tree().kind() {
        outcome == Err::<GreenNode, GreenError>(
            GreenError::KindMismatch { expected: place.tree().kind(), actual: tree.kind() },
        )
    } else {
        match outcome {
            Ok(green) => {
                &&& green@ == model::graft(place.root@, place.path, tree)
                &&& spine_rebuilt(
                    NodeOrToken::Node(place.root),
                    place.path,
                    replacement,
                    NodeOrToken::Node(green),
                )
            },
            Err(GreenError::TextLengthOverflow { accumulated, next }) => exists|depth: int|
                #[trigger]
                graft_overflows(place.root@, place.path, tree, depth, accumulated, next),
            Err(error) => error == GreenError::AllocationFailed && !place.is_root(),
        }
    }
}

/// Rebuild the ancestors of a replaced element.
fn rebuild_spine(
    parent: Option<SyntaxNode>,
    index: usize,
    replacement: GreenElement,
    Ghost(place): Ghost<Place>,
) -> (rebuilt: Result<GreenElement, GreenError>)
    requires
        place.valid(),
        element::element_tree(replacement).kind() == place.tree().kind(),
        match parent {
            Some(parent) => {
                &&& !place.is_root()
                &&& parent.place() == place.parent()
                &&& index == place.index()
            },
            None => place.is_root(),
        },
    ensures
        match rebuilt {
            Ok(green) => {
                &&& element::element_tree(green) == model::graft(
                    place.root@,
                    place.path,
                    element::element_tree(replacement),
                )
                &&& spine_rebuilt(NodeOrToken::Node(place.root), place.path, replacement, green)
                &&& !place.is_root() ==> green is Node
                &&& place.is_root() ==> green == replacement
            },
            Err(GreenError::TextLengthOverflow { accumulated, next }) => exists|depth: int|
                #[trigger]
                graft_overflows(
                    place.root@,
                    place.path,
                    element::element_tree(replacement),
                    depth,
                    accumulated,
                    next,
                ),
            Err(error) => error == GreenError::AllocationFailed && !place.is_root(),
        },
{
    let ghost path = place.path;
    let ghost root = place.root@;
    let ghost tree = element::element_tree(replacement);
    let ghost mut depth = path.len() as int;
    let mut above = parent;
    let mut position: usize = index;
    let mut rebuilt = replacement.handle();
    proof {
        assert(path.take(depth) =~= path);
        assert(path.skip(depth) =~= Seq::empty());
        place.lemma_valid();
        if depth == 0 {
            assert(element::element_tree(replacement) == tree);
        }
        match &rebuilt {
            NodeOrToken::Node(node) => {
                use_type_invariant(node);
            },
            NodeOrToken::Token(token) => {
                use_type_invariant(token);
            },
        }
        lemma_fits(&rebuilt);
    }
    loop
        invariant
            path == place.path,
            root == place.root@,
            tree == element::element_tree(replacement),
            place.valid(),
            0 <= depth <= path.len(),
            tree.kind() == place.tree().kind(),
            element::element_tree(rebuilt) == model::graft(
                model::tree_at(root, path.take(depth)),
                path.skip(depth),
                tree,
            ),
            element::element_tree(rebuilt).kind() == model::tree_at(root, path.take(depth)).kind(),
            element::element_tree(rebuilt).len() <= u32::MAX,
            spine_rebuilt(
                crate::cursor_data::handle_at(place.root, path.take(depth)),
                path.skip(depth),
                replacement,
                rebuilt,
            ),
            depth < path.len() ==> rebuilt is Node,
            depth == path.len() ==> rebuilt == replacement,
            match above {
                Some(node) => {
                    &&& depth > 0
                    &&& node.place().root == place.root
                    &&& node.place().path == path.take(depth - 1)
                    &&& position == path[depth - 1]
                },
                None => depth == 0,
            },
        decreases depth,
    {
        let node = match above {
            Some(node) => node,
            None => {
                proof {
                    assert(path.take(0) =~= Seq::empty());
                    assert(path.skip(0) =~= path);
                }
                return Ok(rebuilt);
            },
        };
        let ghost upper = path.take(depth - 1);
        let ghost parent_tree = model::tree_at(root, upper);
        let ghost lower = path.skip(depth - 1);
        let ghost part = rebuilt;
        proof {
            use_type_invariant(&node);
            node.lemma_valid();
            node.handle().lemma_valid();
            model::lemma_path_prefix(root, path, depth - 1);
            assert(path.take(depth) =~= upper.push(path[depth - 1]));
            model::lemma_path_push(root, upper, path[depth - 1]);
            assert(upper.push(path[depth - 1]).drop_last() =~= upper);
            assert(lower.drop_first() =~= path.skip(depth));
            assert(lower[0] == path[depth - 1]);
        }
        let made = node.green().replace_child(position, rebuilt);
        proof {
            let grafted = model::graft(parent_tree, lower, tree);
            assert(grafted == (Tree::Node {
                kind: parent_tree.kind(),
                children: parent_tree.children().update(
                    path[depth - 1],
                    element::element_tree(part),
                ),
            }));
            let elements = node.handle().elements();
            assert(element::element_trees(elements.update(position as int, part))
                =~= grafted.children());
            if let Err(GreenError::TextLengthOverflow { accumulated, next }) = made {
                assert(graft_overflows(root, path, tree, depth - 1, accumulated, next));
            }
        }
        match made {
            Ok(green) => {
                proof {
                    use_type_invariant(&green);
                    green.lemma_valid();
                    depth = depth - 1;
                    assert(depth > 0 ==> upper.len() > 0);
                    assert(depth > 0 ==> upper.drop_last() =~= path.take(depth - 1));
                    assert(depth > 0 ==> upper.last() == path[depth - 1]);
                }
                position = node.index();
                above = node.parent();
                rebuilt = NodeOrToken::Node(green);
            },
            Err(error) => {
                return Err(error);
            },
        }
    }
}

/// Every green element fits the coordinate space.
proof fn lemma_fits(element: &GreenElement)
    requires
        match *element {
            NodeOrToken::Node(node) => node.valid(),
            NodeOrToken::Token(token) => token.fits(),
        },
    ensures
        element::element_tree(*element).len() <= u32::MAX,
{
    match *element {
        NodeOrToken::Node(node) => {
            node.lemma_valid();
        },
        NodeOrToken::Token(token) => {},
    }
}

impl SyntaxNode {
    /// Functionally replace this node and rebuild its ancestor spine.
    pub fn replace_with(&self, replacement: GreenNode) -> (outcome: Result<GreenNode, GreenError>)
        ensures
            replaced(self.place(), NodeOrToken::Node(replacement), outcome),
    {
        let ghost place = self.place();
        proof {
            use_type_invariant(self);
            self.lemma_valid();
        }
        if replacement.kind() != self.kind() {
            return Err(
                GreenError::KindMismatch { expected: self.kind(), actual: replacement.kind() },
            );
        }
        match rebuild_spine(
            self.parent(),
            self.index(),
            NodeOrToken::Node(replacement),
            Ghost(place),
        ) {
            Ok(NodeOrToken::Node(green)) => Ok(green),
            Ok(NodeOrToken::Token(_)) => Err(GreenError::AllocationFailed),
            Err(error) => Err(error),
        }
    }
}

impl SyntaxToken {
    /// Functionally replace this token and rebuild its ancestor spine.
    pub fn replace_with(&self, replacement: GreenToken) -> (outcome: Result<GreenNode, GreenError>)
        ensures
            replaced(self.place(), NodeOrToken::Token(replacement), outcome),
    {
        let ghost place = self.place();
        proof {
            use_type_invariant(self);
            self.lemma_valid();
        }
        if replacement.kind() != self.kind() {
            return Err(
                GreenError::KindMismatch { expected: self.kind(), actual: replacement.kind() },
            );
        }
        match rebuild_spine(
            self.parent(),
            self.index(),
            NodeOrToken::Token(replacement),
            Ghost(place),
        ) {
            Ok(NodeOrToken::Node(green)) => Ok(green),
            Ok(NodeOrToken::Token(_)) => Err(GreenError::AllocationFailed),
            Err(error) => Err(error),
        }
    }
}

} // verus!
