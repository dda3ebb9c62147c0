//! Plain outlines of typed subtrees, as they are written to the outside.

use vstd::prelude::*;

use crate::api;
use crate::api::Language;
use crate::api::SyntaxElement;
use crate::api::SyntaxNode;
use crate::api::SyntaxToken;
use crate::api_debug;
use crate::cursor_data::Place;
use crate::cursor_traversal;
use crate::model;
use crate::model::Tree;
use crate::utility_types::NodeOrToken;

verus! {

/// A node or a token with its kind label and absolute range.
pub enum Outline {
    /// A node with its children in source order.
    Node {
        /// Debug text of the typed kind.
        kind: String,
        /// Absolute start and end offsets.
        text_range: (u32, u32),
        /// Outlines of the children.
        children: Vec<Outline>,
    },
    /// A token with its exact text.
    Token {
        /// Debug text of the typed kind.
        kind: String,
        /// Absolute start and end offsets.
        text_range: (u32, u32),
        /// Exact token text.
        text: String,
    },
}

/// An outline shows the subtree at a place, with the label of every typed kind.
pub open spec fn outlines<L: Language>(place: Place, tree: Tree, outline: Outline) -> bool
    decreases tree,
{
    match outline {
        Outline::Node { kind, text_range, children } => {
            &&& tree is Node
            &&& api_debug::kind_labelled::<L>(tree.kind(), kind@)
            &&& text_range.0 == place.start()
            &&& text_range.1 == place.end()
            &&& children@.len() == tree.children().len()
            &&& forall|i: int|
                #![trigger children@[i]]
                0 <= i < tree.children().len() ==> outlines::<L>(
                    place.child(i),
                    tree.children()[i],
                    children@[i],
                )
        },
        Outline::Token { kind, text_range, text } => {
            &&& tree is Token
            &&& api_debug::kind_labelled::<L>(tree.kind(), kind@)
            &&& text_range.0 == place.start()
            &&& text_range.1 == place.end()
            &&& text@ == tree.text()
        },
    }
}

impl<L: Language> SyntaxElement<L> {
    /// Outline this element and everything below it.
    pub fn outline(&self) -> (outline: Outline)
        ensures
            outlines::<L>(
                api::element_place(*self),
                api::element_place(*self).tree(),
                outline,
            ),
        decreases api::element_place(*self).tree().height(),
    {
        let range = self.text_range();
        let text_range: (u32, u32) = (range.start().raw, range.end().raw);
        let typed = self.kind();
        let kind = api_debug::show_label(&typed);
        let ghost raw = api::element_place(*self).tree().kind();
        assert(api::typed_kind::<L>(raw, typed));
        assert(api_debug::kind_labelled::<L>(raw, kind@));
        match self {
            NodeOrToken::Node(node) => {
                let ghost place = node.place();
                let ghost trees = place.tree().children();
                let elements = node.children_with_tokens().into_vec();
                let count: usize = elements.len();
                let mut children: Vec<Outline> = Vec::with_capacity(count);
                let mut index: usize = 0;
                let ghost places = cursor_traversal::child_places(place, trees, 0, false);
                proof {
                    use_type_invariant(node);
                    cursor_traversal::lemma_all_places(place, trees, 0);
                    assert(places.len() == elements@.len());
                }
                while index < count
                    invariant
                        index <= count,
                        count == elements@.len(),
                        place == node.place(),
                        node.valid(),
                        *self == NodeOrToken::<SyntaxNode<L>, SyntaxToken<L>>::Node(*node),
                        trees == place.tree().children(),
                        count == trees.len(),
                        count == places.len(),
                        children@.len() == index,
                        elements@.map_values(
                            |element: SyntaxElement<L>| api::element_place(element))
                            == places,
                        forall|i: int|
                            0 <= i < trees.len() ==> (#[trigger] places[i]) == place.child(i),
                        forall|i: int|
                            #![trigger children@[i]]
                            0 <= i < index ==> outlines::<L>(place.child(i), trees[i], children@[i]),
                    decreases count - index,
                {
                    proof {
                        place.lemma_child(index as int);
                        assert(api::element_place(elements@[index as int]) == places[index as int]);
                        model::lemma_height_of_member(trees, index as int);
                    }
                    let child = elements[index].outline();
                    children.push(child);
                    index += 1;
                }
                Outline::Node { kind, text_range, children }
            },
            NodeOrToken::Token(token) => {
                proof {
                    use_type_invariant(token);
                }
                Outline::Token { kind, text_range, text: token.to_string() }
            },
        }
    }
}

impl<L: Language> SyntaxNode<L> {
    /// Outline this node and everything below it.
    pub fn outline(&self) -> (outline: Outline)
        ensures
            outlines::<L>(self.place(), self.place().tree(), outline),
    {
        let element: SyntaxElement<L> = NodeOrToken::Node(self.clone());
        element.outline()
    }
}

impl<L: Language> SyntaxToken<L> {
    /// Outline this token.
    pub fn outline(&self) -> (outline: Outline)
        ensures
            outlines::<L>(self.place(), self.place().tree(), outline),
    {
        let element: SyntaxElement<L> = NodeOrToken::Token(self.clone());
        element.outline()
    }
}

} // verus!
