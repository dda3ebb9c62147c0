//! Common typed AST child and token lookup helpers.

use vstd::prelude::*;

use crate::api::Language;
use crate::api::SyntaxNode;
use crate::api::SyntaxToken;
use crate::ast;
use crate::ast::AstChildren;
use crate::ast::AstNode;
use crate::cursor_traversal;
use crate::model::Tree;
use crate::utility_types::NodeOrToken;

verus! {

/// Return the first direct child accepted by `NodeType`.
pub fn child<NodeType: AstNode>(parent: &SyntaxNode<NodeType::Language>) -> (wrapper: Option<
    NodeType,
>)
    ensures
        ({
            let places = cursor_traversal::child_places(
                parent.place(),
                parent.place().tree().children(),
                0,
                true,
            );
            match wrapper {
                Some(wrapper) => exists|passed: int|
                    0 <= passed < places.len() && ast::all_rejected::<NodeType>(places.take(passed))
                        && ast::cast_at::<NodeType>(#[trigger] places[passed], Some(wrapper)),
                None => ast::all_rejected::<NodeType>(places),
            }
        }),
{
    let mut children = AstChildren::<NodeType>::new(parent);
    let ghost places = children.remaining();
    let wrapper = children.next();
    proof {
        if wrapper is Some {
            let passed = places.len() - children.remaining().len() - 1;
            assert(ast::cast_at::<NodeType>(places[passed], wrapper));
        }
    }
    wrapper
}

/// Iterate over direct children accepted by `NodeType`.
pub fn children<NodeType: AstNode>(parent: &SyntaxNode<NodeType::Language>) -> (children:
    AstChildren<NodeType>)
    ensures
        children.remaining() == cursor_traversal::child_places(
            parent.place(),
            parent.place().tree().children(),
            0,
            true,
        ),
{
    AstChildren::new(parent)
}

/// The tokens among the trees in a stretch have other kinds.
pub open spec fn other_kinds<L: Language>(
    trees: Seq<Tree>,
    count: int,
    kind: L::Kind,
) -> bool {
    forall|i: int|
        0 <= i < count && (#[trigger] trees[i]) is Token ==> ast::kind_answers::<L>(
            trees[i].kind(),
            kind,
            false,
        )
}

/// Return the first direct token with `kind`.
pub fn token<L: Language>(parent: &SyntaxNode<L>, kind: L::Kind) -> (found: Option<SyntaxToken<L>>)
    ensures
        ({
            let trees = parent.place().tree().children();
            match found {
                Some(token) => {
                    let index = token.place().index();
                    &&& 0 <= index < trees.len()
                    &&& token.place() == parent.place().child(index)
                    &&& trees[index] is Token
                    &&& ast::kind_answers::<L>(trees[index].kind(), kind, true)
                    &&& other_kinds::<L>(trees, index, kind)
                },
                None => other_kinds::<L>(trees, trees.len() as int, kind),
            }
        }),
        forall|i: int|
            0 <= i < parent.place().tree().children().len() && (found matches Some(token) ==> i
                < token.place().index()) && (#[trigger] parent.place().tree().children()[i])
                is Token ==> ast::kind_answers::<L>(
                parent.place().tree().children()[i].kind(),
                kind,
                false,
            ),
{
    let elements = parent.children_with_tokens().into_vec();
    let ghost trees = parent.place().tree().children();
    let ghost places = cursor_traversal::child_places(parent.place(), trees, 0, false);
    proof {
        use_type_invariant(parent);
        cursor_traversal::lemma_all_places(parent.place(), trees, 0);
        assert(places.len() == elements@.len());
    }
    let count: usize = elements.len();
    let mut index: usize = 0;
    while index < count
        invariant
            index <= count,
            count == elements@.len(),
            parent.valid(),
            trees == parent.place().tree().children(),
            count == trees.len(),
            count == places.len(),
            elements@.map_values(
                |element: crate::api::SyntaxElement<L>| crate::api::element_place(element),
            ) == places,
            forall|i: int|
                0 <= i < trees.len() ==> (#[trigger] places[i]) == parent.place().child(i),
            other_kinds::<L>(trees, index as int, kind),
        decreases count - index,
    {
        proof {
            parent.place().lemma_child(index as int);
            assert(crate::api::element_place(elements@[index as int]) == places[index as int]);
        }
        match &elements[index] {
            NodeOrToken::Node(node) => {
                proof {
                    use_type_invariant(node);
                }
            },
            NodeOrToken::Token(token) => {
                proof {
                    use_type_invariant(token);
                }
                let typed = token.kind();
                let same = typed == kind;
                assert(ast::kind_answers::<L>(trees[index as int].kind(), kind, same));
                if same {
                    return Some(token.clone());
                }
            },
        }
        index += 1;
    }
    None
}

} // verus!
