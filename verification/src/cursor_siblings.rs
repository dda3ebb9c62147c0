//! Searches by kind and walks along siblings.

use vstd::prelude::*;

use crate::cursor;
use crate::cursor::SyntaxElement;
use crate::cursor::SyntaxNode;
use crate::cursor::SyntaxToken;
use crate::cursor_data::Place;
use crate::green::SyntaxKind;
use crate::model::Tree;
use crate::utility_types::Direction;
use crate::utility_types::NodeOrToken;

verus! {

/// A search looks at a child: at every one, or at nodes only.
pub open spec fn looked_at(tree: Tree, nodes_only: bool) -> bool {
    nodes_only ==> tree is Node
}

/// `found` is the first child from `low` on that the search looks at and the matcher accepts; the
/// matcher rejected every child looked at before.
pub open spec fn first_match<Matcher: Fn(SyntaxKind) -> bool>(
    matcher: Matcher,
    trees: Seq<Tree>,
    low: int,
    nodes_only: bool,
    found: Option<int>,
) -> bool {
    let high = match found {
        Some(found) => found,
        None => trees.len() as int,
    };
    &&& found matches Some(found) ==> {
        &&& low <= found < trees.len()
        &&& looked_at(trees[found], nodes_only)
        &&& call_ensures(matcher, (trees[found].kind(),), true)
    }
    &&& forall|i: int|
        low <= i < high && looked_at(#[trigger] trees[i], nodes_only) ==> call_ensures(
            matcher,
            (trees[i].kind(),),
            false,
        )
}

/// The index in the parent of a found element.
pub open spec fn element_index(element: Option<SyntaxElement>) -> Option<int> {
    match element {
        Some(element) => Some(cursor::element_place(element).index()),
        None => None,
    }
}

/// A found element is a direct child.
pub open spec fn is_child(place: Place, child: Option<SyntaxElement>) -> bool {
    child matches Some(child) ==> cursor::element_place(child) == place.child(
        cursor::element_place(child).index(),
    )
}

/// A found element is a direct sibling; a root has none.
pub open spec fn is_sibling(place: Place, sibling: Option<SyntaxElement>) -> bool {
    sibling matches Some(sibling) ==> !place.is_root() && cursor::element_place(sibling)
        == place.sibling(cursor::element_place(sibling).index())
}

/// Find the first child from an index on whose kind satisfies `matcher`.
fn find_child<Matcher: Fn(SyntaxKind) -> bool>(
    parent: &SyntaxNode,
    low: usize,
    nodes_only: bool,
    matcher: &Matcher,
) -> (child: Option<SyntaxElement>)
    requires
        forall|kind: SyntaxKind| call_requires(*matcher, (kind,)),
    ensures
        is_child(parent.place(), child),
        first_match(
            *matcher,
            parent.place().tree().children(),
            low as int,
            nodes_only,
            element_index(child),
        ),
        nodes_only && child is Some ==> child->0 is Node,
{
    let ghost trees = parent.place().tree().children();
    let count: usize = parent.child_count();
    let mut index: usize = low;
    while index < count
        invariant
            forall|kind: SyntaxKind| call_requires(*matcher, (kind,)),
            trees == parent.place().tree().children(),
            count == trees.len(),
            low <= index,
            forall|i: int|
                low <= i < index && i < count && looked_at(#[trigger] trees[i], nodes_only)
                    ==> call_ensures(*matcher, (trees[i].kind(),), false),
        decreases count - index,
    {
        if let Some(child) = parent.child_at(index) {
            proof {
                use_type_invariant(parent);
                parent.lemma_valid();
                parent.place().lemma_child(index as int);
                match &child {
                    NodeOrToken::Node(node) => {
                        use_type_invariant(node);
                        node.lemma_valid();
                    },
                    NodeOrToken::Token(token) => {
                        use_type_invariant(token);
                        token.lemma_valid();
                    },
                }
            }
            let is_node = match &child {
                NodeOrToken::Node(_) => true,
                NodeOrToken::Token(_) => false,
            };
            if is_node || !nodes_only {
                if matcher(child.kind()) {
                    return Some(child);
                }
            }
        }
        index += 1;
    }
    None
}

/// Find the next sibling whose kind satisfies `matcher`.
fn find_sibling<Matcher: Fn(SyntaxKind) -> bool>(
    element: &SyntaxElement,
    nodes_only: bool,
    matcher: &Matcher,
) -> (sibling: Option<SyntaxElement>)
    requires
        forall|kind: SyntaxKind| call_requires(*matcher, (kind,)),
    ensures
        is_sibling(cursor::element_place(*element), sibling),
        !cursor::element_place(*element).is_root() ==> first_match(
            *matcher,
            cursor::element_place(*element).siblings(),
            cursor::element_place(*element).index() + 1,
            nodes_only,
            element_index(sibling),
        ),
        nodes_only && sibling is Some ==> sibling->0 is Node,
{
    let parent = match element.parent() {
        Some(parent) => parent,
        None => {
            return None;
        },
    };
    proof {
        match element {
            NodeOrToken::Node(node) => {
                use_type_invariant(node);
                node.lemma_valid();
            },
            NodeOrToken::Token(token) => {
                use_type_invariant(token);
                token.lemma_valid();
            },
        }
        cursor::element_place(*element).lemma_valid();
    }
    let count: usize = parent.child_count();
    find_child(&parent, element.index() + 1, nodes_only, matcher)
}

/// The nodes from a start on along the siblings in a direction, without a gap.
pub open spec fn are_sibling_nodes(
    place: Place,
    direction: Direction,
    nodes: Seq<SyntaxNode>,
) -> bool {
    &&& nodes.len() > 0
    &&& nodes[0].place() == place
    &&& forall|i: int|
        0 < i < nodes.len() ==> {
            &&& (#[trigger] nodes[i]).place() == place.sibling(nodes[i].place().index())
            &&& node_follows(
                place,
                direction,
                nodes[i - 1].place().index(),
                Some(nodes[i].place().index()),
            )
        }
    &&& node_follows(place, direction, nodes.last().place().index(), None)
}

/// `found` is the next index behind `index` in a direction that holds a node; a root has none.
pub open spec fn node_follows(
    place: Place,
    direction: Direction,
    index: int,
    found: Option<int>,
) -> bool {
    if place.is_root() {
        found is None
    } else {
        match direction {
            Direction::Next => cursor::first_node(place.siblings(), index + 1, found),
            Direction::Prev => cursor::last_node(place.siblings(), index, found),
        }
    }
}

/// The elements from a start on along the siblings in a direction.
pub open spec fn are_sibling_elements(
    place: Place,
    direction: Direction,
    elements: Seq<SyntaxElement>,
) -> bool {
    &&& elements.len() > 0
    &&& cursor::element_place(elements[0]) == place
    &&& if place.is_root() {
        elements.len() == 1
    } else {
        match direction {
            Direction::Next => {
                &&& elements.len() == place.siblings().len() - place.index()
                &&& forall|i: int|
                    0 <= i < elements.len() ==> cursor::element_place(#[trigger] elements[i])
                        == place.sibling(place.index() + i)
            },
            Direction::Prev => {
                &&& elements.len() == place.index() + 1
                &&& forall|i: int|
                    0 <= i < elements.len() ==> cursor::element_place(#[trigger] elements[i])
                        == place.sibling(place.index() - i)
            },
        }
    }
}

/// Collect an element and all sibling elements in one direction.
fn sibling_elements(start: SyntaxElement, direction: Direction) -> (elements: Vec<SyntaxElement>)
    ensures
        are_sibling_elements(cursor::element_place(start), direction, elements@),
{
    let ghost place = cursor::element_place(start);
    proof {
        match &start {
            NodeOrToken::Node(node) => {
                use_type_invariant(node);
                node.lemma_valid();
            },
            NodeOrToken::Token(token) => {
                use_type_invariant(token);
                token.lemma_valid();
            },
        }
        place.lemma_valid();
    }
    let mut elements: Vec<SyntaxElement> = Vec::new();
    let mut current = start;
    let ghost forward = direction == Direction::Next;
    let ghost mut index = place.index();
    loop
        invariant
            place.valid(),
            place == cursor::element_place(start),
            forward == (direction == Direction::Next),
            !place.is_root() ==> {
                &&& place.sibling(place.index()) == place
                &&& 0 <= index < place.siblings().len()
                &&& cursor::element_place(current) == place.sibling(index)
                &&& index == if forward {
                    place.index() + elements@.len()
                } else {
                    place.index() - elements@.len()
                }
                &&& forall|i: int|
                    0 <= i < elements@.len() ==> cursor::element_place(#[trigger] elements@[i])
                        == place.sibling(
                        if forward {
                            place.index() + i
                        } else {
                            place.index() - i
                        },
                    )
            },
            place.is_root() ==> elements@.len() == 0 && cursor::element_place(current) == place,
        decreases
                if place.is_root() {
                    0
                } else if forward {
                    place.siblings().len() - index
                } else {
                    index + 1
                },
    {
        proof {
            if !place.is_root() {
                place.parent().lemma_child(index);
            }
        }
        let next = match direction {
            Direction::Next => current.next_sibling_or_token(),
            Direction::Prev => current.prev_sibling_or_token(),
        };
        elements.push(current);
        match next {
            Some(element) => {
                proof {
                    index = cursor::step(index, direction);
                }
                current = element;
            },
            None => {
                return elements;
            },
        }
    }
}

impl SyntaxNode {
    /// Return the first direct child node whose kind satisfies `matcher`.
    pub fn first_child_by_kind<Matcher: Fn(SyntaxKind) -> bool>(&self, matcher: &Matcher) -> (child:
        Option<Self>)
        requires
            forall|kind: SyntaxKind| call_requires(*matcher, (kind,)),
        ensures
            cursor::is_child_node(self.place(), child),
            first_match(
                *matcher,
                self.place().tree().children(),
                0,
                true,
                cursor::node_index(child),
            ),
    {
        match find_child(self, 0, true, matcher) {
            Some(NodeOrToken::Node(node)) => Some(node),
            _ => None,
        }
    }

    /// Return the first direct child element whose kind satisfies `matcher`.
    pub fn first_child_or_token_by_kind<Matcher: Fn(SyntaxKind) -> bool>(
        &self,
        matcher: &Matcher,
    ) -> (child: Option<SyntaxElement>)
        requires
            forall|kind: SyntaxKind| call_requires(*matcher, (kind,)),
        ensures
            is_child(self.place(), child),
            first_match(
                *matcher,
                self.place().tree().children(),
                0,
                false,
                element_index(child),
            ),
    {
        find_child(self, 0, false, matcher)
    }

    /// Return the next sibling node whose kind satisfies `matcher`.
    pub fn next_sibling_by_kind<Matcher: Fn(SyntaxKind) -> bool>(
        &self,
        matcher: &Matcher,
    ) -> (sibling: Option<Self>)
        requires
            forall|kind: SyntaxKind| call_requires(*matcher, (kind,)),
        ensures
            cursor::is_sibling_node(self.place(), sibling),
            !self.place().is_root() ==> first_match(
                *matcher,
                self.place().siblings(),
                self.place().index() + 1,
                true,
                cursor::node_index(sibling),
            ),
    {
        match find_sibling(&NodeOrToken::Node(self.clone()), true, matcher) {
            Some(NodeOrToken::Node(node)) => Some(node),
            _ => None,
        }
    }

    /// Return the next sibling element whose kind satisfies `matcher`.
    pub fn next_sibling_or_token_by_kind<Matcher: Fn(SyntaxKind) -> bool>(
        &self,
        matcher: &Matcher,
    ) -> (sibling: Option<SyntaxElement>)
        requires
            forall|kind: SyntaxKind| call_requires(*matcher, (kind,)),
        ensures
            is_sibling(self.place(), sibling),
            !self.place().is_root() ==> first_match(
                *matcher,
                self.place().siblings(),
                self.place().index() + 1,
                false,
                element_index(sibling),
            ),
    {
        find_sibling(&NodeOrToken::Node(self.clone()), false, matcher)
    }

    /// Collect this node and its sibling nodes in `direction`.
    pub fn siblings(&self, direction: Direction) -> (nodes: Vec<Self>)
        ensures
            are_sibling_nodes(self.place(), direction, nodes@),
    {
        let ghost place = self.place();
        proof {
            use_type_invariant(self);
            self.lemma_valid();
            place.lemma_valid();
        }
        let mut nodes: Vec<SyntaxNode> = Vec::new();
        let mut current = self.clone();
        loop
            invariant
                place.valid(),
                place == self.place(),
                nodes@.len() > 0 ==> nodes@[0].place() == place,
                nodes@.len() == 0 ==> current.place() == place,
                nodes@.len() > 0 ==> {
                    &&& current.place() == place.sibling(current.place().index())
                    &&& node_follows(
                        place,
                        direction,
                        nodes@.last().place().index(),
                        Some(current.place().index()),
                    )
                },
                !place.is_root() ==> {
                    &&& place.sibling(place.index()) == place
                    &&& 0 <= current.place().index() < place.siblings().len()
                },
                place.is_root() ==> nodes@.len() == 0,
                forall|i: int|
                    0 < i < nodes@.len() ==> {
                        &&& (#[trigger] nodes@[i]).place() == place.sibling(
                            nodes@[i].place().index(),
                        )
                        &&& node_follows(
                            place,
                            direction,
                            nodes@[i - 1].place().index(),
                            Some(nodes@[i].place().index()),
                        )
                    },
            decreases
                    if place.is_root() {
                        0
                    } else if direction == Direction::Next {
                        place.siblings().len() - current.place().index()
                    } else {
                        current.place().index() + 1
                    },
        {
            proof {
                if !place.is_root() {
                    place.lemma_valid();
                    place.parent().lemma_child(current.place().index());
                }
            }
            let next = match direction {
                Direction::Next => current.next_sibling(),
                Direction::Prev => current.prev_sibling(),
            };
            nodes.push(current);
            match next {
                Some(node) => {
                    current = node;
                },
                None => {
                    return nodes;
                },
            }
        }
    }

    /// Collect this element and its sibling elements in `direction`.
    pub fn siblings_with_tokens(&self, direction: Direction) -> (elements: Vec<SyntaxElement>)
        ensures
            are_sibling_elements(self.place(), direction, elements@),
    {
        sibling_elements(NodeOrToken::Node(self.clone()), direction)
    }
}

impl SyntaxToken {
    /// Return the next sibling element whose kind satisfies `matcher`.
    pub fn next_sibling_or_token_by_kind<Matcher: Fn(SyntaxKind) -> bool>(
        &self,
        matcher: &Matcher,
    ) -> (sibling: Option<SyntaxElement>)
        requires
            forall|kind: SyntaxKind| call_requires(*matcher, (kind,)),
        ensures
            is_sibling(self.place(), sibling),
            !self.place().is_root() ==> first_match(
                *matcher,
                self.place().siblings(),
                self.place().index() + 1,
                false,
                element_index(sibling),
            ),
    {
        find_sibling(&NodeOrToken::Token(self.clone()), false, matcher)
    }

    /// Collect this token and its sibling elements in `direction`.
    pub fn siblings_with_tokens(&self, direction: Direction) -> (elements: Vec<SyntaxElement>)
        ensures
            are_sibling_elements(self.place(), direction, elements@),
    {
        sibling_elements(NodeOrToken::Token(self.clone()), direction)
    }
}

impl SyntaxElement {
    /// Return the next sibling element whose kind satisfies `matcher`.
    pub fn next_sibling_or_token_by_kind<Matcher: Fn(SyntaxKind) -> bool>(
        &self,
        matcher: &Matcher,
    ) -> (sibling: Option<Self>)
        requires
            forall|kind: SyntaxKind| call_requires(*matcher, (kind,)),
        ensures
            is_sibling(cursor::element_place(*self), sibling),
            !cursor::element_place(*self).is_root() ==> first_match(
                *matcher,
                cursor::element_place(*self).siblings(),
                cursor::element_place(*self).index() + 1,
                false,
                element_index(sibling),
            ),
    {
        find_sibling(self, false, matcher)
    }

    /// Collect this node and its ancestors, or a token's parent and its ancestors.
    pub fn ancestors(&self) -> (nodes: Vec<SyntaxNode>)
        ensures
            match *self {
                NodeOrToken::Node(node) => {
                    &&& nodes@.len() == node.place().path.len() + 1
                    &&& forall|i: int|
                        0 <= i < nodes@.len() ==> (#[trigger] nodes@[i]).place()
                            == cursor::ancestor(node.place(), i)
                },
                NodeOrToken::Token(token) => {
                    &&& nodes@.len() == token.place().path.len()
                    &&& forall|i: int|
                        0 <= i < nodes@.len() ==> (#[trigger] nodes@[i]).place()
                            == cursor::ancestor(token.place(), i + 1)
                },
            },
    {
        match self {
            NodeOrToken::Node(node) => node.ancestors(),
            NodeOrToken::Token(token) => token.ancestors(),
        }
    }
}

} // verus!
