//! When cursors and green values are equal.

use vstd::prelude::*;
use vstd::std_specs::cmp::PartialEqSpec;

use crate::api;
use crate::api::Language;
use crate::ast;
use crate::cursor::SyntaxNode;
use crate::cursor::SyntaxToken;
use crate::cursor_data::Place;
use crate::green::node::GreenNode;
use crate::green::token::GreenToken;

verus! {

/// Equal node cursors stand at the same offset, say the same and are hashed alike. Inside one tree,
/// where they are not empty, they are at one place.
pub proof fn lemma_equal_nodes(left: SyntaxNode, right: SyntaxNode)
    requires
        left.valid(),
        right.valid(),
        left.eq_spec(&right),
    ensures
        left.place().start() == right.place().start(),
        left.place().end() == right.place().end(),
        left.place().tree() == right.place().tree(),
        left.handed::<()>() == right.handed::<()>(),
        left.place().root == right.place().root && left.place().start() < left.place().end()
            ==> left.place() == right.place(),
{
    left.lemma_valid();
    right.lemma_valid();
    if left.place().root == right.place().root && left.place().start() < left.place().end() {
        lemma_one_place(left.place(), right.place());
    }
}

/// Equal token cursors stand at the same offset, say the same and are hashed alike. Inside one tree,
/// where they are not empty, they are at one place.
pub proof fn lemma_equal_tokens(left: SyntaxToken, right: SyntaxToken)
    requires
        left.valid(),
        right.valid(),
        left.eq_spec(&right),
    ensures
        left.place().start() == right.place().start(),
        left.place().end() == right.place().end(),
        left.place().tree() == right.place().tree(),
        left.handed::<()>() == right.handed::<()>(),
        left.place().root == right.place().root && left.place().start() < left.place().end()
            ==> left.place() == right.place(),
{
    left.lemma_valid();
    right.lemma_valid();
    if left.place().root == right.place().root && left.place().start() < left.place().end() {
        lemma_one_place(left.place(), right.place());
    }
}

/// Inside one tree, elements that are not empty, begin at the same offset and say the same are at one
/// place.
proof fn lemma_one_place(left: Place, right: Place)
    requires
        left.valid(),
        right.valid(),
        left.root == right.root,
        left.tree() == right.tree(),
        left.start() == right.start(),
        left.start() < left.end(),
    ensures
        left == right,
{
    let top = Place { root: left.root, path: Seq::empty() };
    assert(left.path.take(0) =~= Seq::empty());
    assert(right.path.take(0) =~= Seq::empty());
    ast::lemma_same_range_unique(top, left, right);
}

/// Cursors at one place are equal, and so are cursors at one offset on one shared allocation,
/// whichever trees they are in.
pub proof fn lemma_shared_nodes_equal(left: SyntaxNode, right: SyntaxNode)
    requires
        left.valid(),
        right.valid(),
        left.place().start() == right.place().start(),
        left.place().handle() == right.place().handle(),
    ensures
        left.eq_spec(&right),
        right.eq_spec(&left),
{
    left.lemma_valid();
    right.lemma_valid();
}

/// Token cursors at one place are equal, and so are cursors at one offset on one shared allocation,
/// whichever trees they are in.
pub proof fn lemma_shared_tokens_equal(left: SyntaxToken, right: SyntaxToken)
    requires
        left.valid(),
        right.valid(),
        left.place().start() == right.place().start(),
        left.place().handle() == right.place().handle(),
    ensures
        left.eq_spec(&right),
        right.eq_spec(&left),
{
    left.lemma_valid();
    right.lemma_valid();
}

/// Typed cursors are equal exactly when the raw ones are.
pub proof fn lemma_typed_equality<L: Language>(
    left: api::SyntaxNode<L>,
    right: api::SyntaxNode<L>,
    first: api::SyntaxToken<L>,
    second: api::SyntaxToken<L>,
)
    ensures
        left.eq_spec(&right) <==> left.raw().eq_spec(&right.raw()),
        first.eq_spec(&second) <==> first.raw().eq_spec(&second.raw()),
{
}

/// Green nodes are equal exactly when they have equal kinds and equally many children, equal one by
/// one; green tokens when they have equal kinds and texts. Allocations play no part.
pub proof fn lemma_green_equality(
    left: GreenNode,
    right: GreenNode,
    first: GreenToken,
    second: GreenToken,
)
    requires
        left.valid(),
        right.valid(),
        first.fits(),
        second.fits(),
    ensures
        left.eq_spec(&right) <==> {
            &&& left@.kind() == right@.kind()
            &&& left@.children().len() == right@.children().len()
            &&& forall|i: int|
                0 <= i < left@.children().len() ==> #[trigger] left@.children()[i]
                    == right@.children()[i]
        },
        first.eq_spec(&second) <==> first@.kind() == second@.kind() && first@.text()
            == second@.text(),
{
    left.lemma_valid();
    right.lemma_valid();
    if left@.children().len() == right@.children().len() && forall|i: int|
        0 <= i < left@.children().len() ==> #[trigger] left@.children()[i]
            == right@.children()[i] {
        assert(left@.children() =~= right@.children());
    }
}

/// Cursors that hand the same to a hasher are equal.
pub proof fn lemma_hashed_alike(
    left: SyntaxNode,
    right: SyntaxNode,
    first: SyntaxToken,
    second: SyntaxToken,
)
    requires
        left.valid(),
        right.valid(),
        first.valid(),
        second.valid(),
    ensures
        left.handed::<()>() == right.handed::<()>() ==> left.eq_spec(&right),
        first.handed::<()>() == second.handed::<()>() ==> first.eq_spec(&second),
{
    left.lemma_valid();
    right.lemma_valid();
    first.lemma_valid();
    second.lemma_valid();
    if left.handed::<()>() == right.handed::<()>() {
        assert(left.handed::<()>()[0] == right.handed::<()>()[0]);
        assert(left.handed::<()>()[1] == right.handed::<()>()[1]);
    }
    if first.handed::<()>() == second.handed::<()>() {
        assert(first.handed::<()>()[0] == second.handed::<()>()[0]);
        assert(first.handed::<()>()[1] == second.handed::<()>()[1]);
    }
}

} // verus!
