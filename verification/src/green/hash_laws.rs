//! What the words that a tree is hashed by tell of it.

use vstd::prelude::*;

use crate::green::hash;
use crate::green::hash::Word;
use crate::green::node::GreenNode;
use crate::green::token::GreenToken;
use crate::model::Tree;

verus! {

/// Trees that hand the same words to a hasher are equal: no kind, text, child or nesting is left out.
pub proof fn lemma_words_distinguish(left: Tree, right: Tree)
    requires
        hash::tree_words(left) == hash::tree_words(right),
    ensures
        left == right,
{
    let nothing = Seq::<Word>::empty();
    assert(hash::tree_words(left) + nothing =~= hash::tree_words(right) + nothing);
    lemma_words_prefix(left, right, nothing, nothing);
}

/// The words of a tree say where they end.
proof fn lemma_words_prefix(left: Tree, right: Tree, after_left: Seq<Word>, after_right: Seq<Word>)
    requires
        hash::tree_words(left) + after_left == hash::tree_words(right) + after_right,
    ensures
        left == right,
        after_left == after_right,
    decreases left, 1int,
{
    let words = hash::tree_words(left) + after_left;
    let others = hash::tree_words(right) + after_right;
    assert(words[0] == others[0]);
    assert(words[1] == others[1]);
    assert(words[2] == others[2]);
    match (left, right) {
        (Tree::Node { children: first, .. }, Tree::Node { children: second, .. }) => {
            assert(hash::forest_words(first) + after_left =~= words.skip(3));
            assert(hash::forest_words(second) + after_right =~= others.skip(3));
            lemma_forest_prefix(first, second, after_left, after_right);
        },
        (Tree::Token { .. }, Tree::Token { .. }) => {
            assert(after_left =~= words.skip(3));
            assert(after_right =~= others.skip(3));
        },
        _ => {},
    }
}

/// The words of equally many trees say where they end.
proof fn lemma_forest_prefix(
    left: Seq<Tree>,
    right: Seq<Tree>,
    after_left: Seq<Word>,
    after_right: Seq<Word>,
)
    requires
        left.len() == right.len(),
        hash::forest_words(left) + after_left == hash::forest_words(right) + after_right,
    ensures
        left == right,
        after_left == after_right,
    decreases left, 0int,
{
    if left.len() > 0 {
        let first = hash::forest_words(left.drop_last());
        let second = hash::forest_words(right.drop_last());
        let last_left = hash::tree_words(left.last()) + after_left;
        let last_right = hash::tree_words(right.last()) + after_right;
        assert(first + last_left =~= hash::forest_words(left) + after_left);
        assert(second + last_right =~= hash::forest_words(right) + after_right);
        lemma_forest_prefix(left.drop_last(), right.drop_last(), last_left, last_right);
        lemma_words_prefix(left.last(), right.last(), after_left, after_right);
        assert(left =~= left.drop_last().push(left.last()));
        assert(right =~= right.drop_last().push(right.last()));
    } else {
        assert(hash::forest_words(left) + after_left =~= after_left);
        assert(hash::forest_words(right) + after_right =~= after_right);
        assert(left =~= right);
    }
}

/// Green nodes and tokens hand the same to a hasher exactly when they are equal.
pub proof fn lemma_handed_distinguish<Kind>(
    left: GreenNode,
    right: GreenNode,
    first: GreenToken,
    second: GreenToken,
)
    requires
        first.fits(),
        second.fits(),
    ensures
        left.handed::<Kind>() == right.handed::<Kind>() <==> left@ == right@,
        first.handed::<Kind>() == second.handed::<Kind>() <==> first@ == second@,
{
    if left.handed::<Kind>() == right.handed::<Kind>() {
        let words = hash::tree_words(left@);
        let others = hash::tree_words(right@);
        let handed = left.handed::<Kind>();
        assert(handed.len() == words.len() && handed.len() == others.len());
        assert forall|i: int| 0 <= i < words.len() implies words[i] == others[i] by {
            assert(handed[i] == hash::handed_word::<Kind>(words[i]));
            assert(handed[i] == hash::handed_word::<Kind>(others[i]));
        }
        assert(words =~= others);
        lemma_words_distinguish(left@, right@);
    }
    if first.handed::<Kind>() == second.handed::<Kind>() {
        assert(first.handed::<Kind>()[0] == second.handed::<Kind>()[0]);
        assert(first.handed::<Kind>()[1] == second.handed::<Kind>()[1]);
    }
}

} // verus!
