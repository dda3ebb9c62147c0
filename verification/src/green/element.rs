//! Owned and borrowed green-element unions.

use vstd::prelude::*;

use crate::green::node::GreenNode;
use crate::green::token::GreenToken;
use crate::green::SyntaxKind;
use crate::model::Tree;
use crate::text::TextSize;
use crate::utility_types::NodeOrToken;

verus! {

/// An owned immutable green node or token.
pub type GreenElement = NodeOrToken<GreenNode, GreenToken>;

/// A borrowed immutable green node or token handle.
pub type GreenElementRef<'a> = NodeOrToken<&'a GreenNode, &'a GreenToken>;

/// The tree that an element stands for.
pub open spec fn element_tree(element: GreenElement) -> Tree {
    match element {
        NodeOrToken::Node(node) => node@,
        NodeOrToken::Token(token) => token@,
    }
}

/// The trees that consecutive elements stand for.
pub open spec fn element_trees(elements: Seq<GreenElement>) -> Seq<Tree> {
    elements.map_values(|element: GreenElement| element_tree(element))
}

/// The owned element behind a borrowed one.
pub open spec fn owned_element(element: GreenElementRef<'_>) -> GreenElement {
    match element {
        NodeOrToken::Node(node) => NodeOrToken::Node(*node),
        NodeOrToken::Token(token) => NodeOrToken::Token(*token),
    }
}

impl From<GreenNode> for GreenElement {
    fn from(node: GreenNode) -> (element: Self) {
        NodeOrToken::Node(node)
    }
}

impl vstd::std_specs::convert::FromSpecImpl<GreenNode> for GreenElement {
    open spec fn obeys_from_spec() -> bool {
        true
    }

    open spec fn from_spec(node: GreenNode) -> Self {
        NodeOrToken::Node(node)
    }
}

impl From<GreenToken> for GreenElement {
    fn from(token: GreenToken) -> (element: Self) {
        NodeOrToken::Token(token)
    }
}

impl vstd::std_specs::convert::FromSpecImpl<GreenToken> for GreenElement {
    open spec fn obeys_from_spec() -> bool {
        true
    }

    open spec fn from_spec(token: GreenToken) -> Self {
        NodeOrToken::Token(token)
    }
}

impl<'a> From<&'a GreenNode> for GreenElementRef<'a> {
    fn from(node: &'a GreenNode) -> (element: Self) {
        NodeOrToken::Node(node)
    }
}

impl<'a> vstd::std_specs::convert::FromSpecImpl<&'a GreenNode> for GreenElementRef<'a> {
    open spec fn obeys_from_spec() -> bool {
        true
    }

    open spec fn from_spec(node: &'a GreenNode) -> Self {
        NodeOrToken::Node(node)
    }
}

impl<'a> From<&'a GreenToken> for GreenElementRef<'a> {
    fn from(token: &'a GreenToken) -> (element: Self) {
        NodeOrToken::Token(token)
    }
}

impl<'a> vstd::std_specs::convert::FromSpecImpl<&'a GreenToken> for GreenElementRef<'a> {
    open spec fn obeys_from_spec() -> bool {
        true
    }

    open spec fn from_spec(token: &'a GreenToken) -> Self {
        NodeOrToken::Token(token)
    }
}

impl GreenElement {
    /// Return this element's raw syntax kind.
    pub fn kind(&self) -> (kind: SyntaxKind)
        ensures
            kind == element_tree(*self).kind(),
    {
        match self {
            NodeOrToken::Node(node) => node.kind(),
            NodeOrToken::Token(token) => token.kind(),
        }
    }

    /// Return this element's UTF-8 byte length.
    pub fn text_len(&self) -> (len: TextSize)
        ensures
            len@ == element_tree(*self).len(),
    {
        match self {
            NodeOrToken::Node(node) => node.text_len(),
            NodeOrToken::Token(token) => token.text_len(),
        }
    }

    /// Test whether two elements name the same backing allocation and variant.
    pub fn ptr_eq(&self, other: &Self) -> (same: bool)
        ensures
            same == (*self == *other),
    {
        match (self, other) {
            (NodeOrToken::Node(left), NodeOrToken::Node(right)) => left.ptr_eq(right),
            (NodeOrToken::Token(left), NodeOrToken::Token(right)) => left.ptr_eq(right),
            _ => false,
        }
    }

    /// Give another handle on the same element.
    pub fn handle(&self) -> (element: Self)
        ensures
            element == *self,
    {
        match self {
            NodeOrToken::Node(node) => NodeOrToken::Node(node.clone()),
            NodeOrToken::Token(token) => NodeOrToken::Token(token.clone()),
        }
    }
}

impl GreenElementRef<'_> {
    /// Clone the referenced shared handle into an owned green element.
    pub fn to_owned(self) -> (element: GreenElement)
        ensures
            element == owned_element(self),
    {
        match self {
            NodeOrToken::Node(node) => NodeOrToken::Node(node.clone()),
            NodeOrToken::Token(token) => NodeOrToken::Token(token.clone()),
        }
    }

    /// Return this element's raw syntax kind.
    pub fn kind(self) -> (kind: SyntaxKind)
        ensures
            kind == element_tree(owned_element(self)).kind(),
    {
        match self {
            NodeOrToken::Node(node) => node.kind(),
            NodeOrToken::Token(token) => token.kind(),
        }
    }

    /// Return this element's UTF-8 byte length.
    pub fn text_len(self) -> (len: TextSize)
        ensures
            len@ == element_tree(owned_element(self)).len(),
    {
        match self {
            NodeOrToken::Node(node) => node.text_len(),
            NodeOrToken::Token(token) => token.text_len(),
        }
    }
}

} // verus!
