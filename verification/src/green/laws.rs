//! What edits of green nodes keep and undo.

use vstd::prelude::*;

use crate::green::element;
use crate::green::element::GreenElement;
use crate::green::node;
use crate::green::node::GreenNode;
use crate::green::token;
use crate::green::token::GreenToken;
use crate::green::GreenError;
use crate::green::SyntaxKind;
use crate::model;
use crate::utility_types::NodeOrToken;

verus! {

/// Removing an inserted child restores the children.
pub proof fn lemma_remove_undoes_insert(
    elements: Seq<GreenElement>,
    index: int,
    insertion: GreenElement,
)
    requires
        0 <= index <= elements.len(),
    ensures
        elements.insert(index, insertion).remove(index) == elements,
{
    assert(elements.insert(index, insertion).remove(index) =~= elements);
}

/// Inserting a removed child again restores the children.
pub proof fn lemma_insert_undoes_remove(elements: Seq<GreenElement>, index: int)
    requires
        0 <= index < elements.len(),
    ensures
        elements.remove(index).insert(index, elements[index]) == elements,
{
    assert(elements.remove(index).insert(index, elements[index]) =~= elements);
}

/// Putting a replaced range back restores the children.
pub proof fn lemma_splice_undone(
    elements: Seq<GreenElement>,
    start: int,
    end: int,
    replacements: Seq<GreenElement>,
)
    requires
        0 <= start <= end <= elements.len(),
    ensures
        node::splice(
            node::splice(elements, start, end, replacements),
            start,
            start + replacements.len(),
            elements.subrange(start, end),
        ) == elements,
{
    assert(node::splice(
        node::splice(elements, start, end, replacements),
        start,
        start + replacements.len(),
        elements.subrange(start, end),
    ) =~= elements);
}

/// A splice keeps the texts before and behind the range.
pub proof fn lemma_splice_text(
    elements: Seq<GreenElement>,
    start: int,
    end: int,
    replacements: Seq<GreenElement>,
)
    requires
        0 <= start <= end <= elements.len(),
    ensures
        model::forest_text(
            element::element_trees(node::splice(elements, start, end, replacements)),
        ) == model::forest_text(element::element_trees(elements.take(start)))
            + model::forest_text(element::element_trees(replacements)) + model::forest_text(
            element::element_trees(elements.skip(end)),
        ),
{
    let front = element::element_trees(elements.take(start));
    let between = element::element_trees(replacements);
    let back = element::element_trees(elements.skip(end));
    assert(element::element_trees(node::splice(elements, start, end, replacements)) =~= front
        + between + back);
    model::lemma_forest_text_concat(front + between, back);
    model::lemma_forest_text_concat(front, between);
}

/// A node that was made says exactly its children one after the other, and its length is the number
/// of bytes of its text.
pub proof fn lemma_made_lossless(
    kind: SyntaxKind,
    elements: Seq<GreenElement>,
    made: Result<GreenNode, GreenError>,
)
    requires
        node::node_made(kind, elements, made),
        made is Ok,
    ensures
        made->Ok_0@.text() == model::forest_text(element::element_trees(elements)),
        made->Ok_0@.len() == vstd::utf8::encode_utf8(made->Ok_0@.text()).len(),
{
    model::lemma_tree_len_is_text_len(made->Ok_0@);
}

/// Children whose lengths add up inside the coordinate space are never rejected for their length.
pub proof fn lemma_fitting_children_accepted(
    kind: SyntaxKind,
    elements: Seq<GreenElement>,
    made: Result<GreenNode, GreenError>,
)
    requires
        node::node_made(kind, elements, made),
        model::forest_len(element::element_trees(elements)) <= u32::MAX,
    ensures
        made matches Err(error) ==> error == GreenError::AllocationFailed,
{
    match made {
        Err(GreenError::TextLengthOverflow { accumulated, next }) => {
            node::lemma_first_overflow(element::element_trees(elements), accumulated, next);
        },
        _ => {},
    }
}

/// A splice keeps every child before the range and every child behind it, in order, and puts the
/// replacements between them.
pub proof fn lemma_splice_elements(
    elements: Seq<GreenElement>,
    start: int,
    end: int,
    replacements: Seq<GreenElement>,
)
    requires
        0 <= start <= end <= elements.len(),
    ensures
        ({
            let spliced = node::splice(elements, start, end, replacements);
            &&& spliced.len() == elements.len() - (end - start) + replacements.len()
            &&& forall|i: int| 0 <= i < start ==> #[trigger] spliced[i] == elements[i]
            &&& forall|i: int|
                start <= i < start + replacements.len() ==> #[trigger] spliced[i]
                    == replacements[i - start]
            &&& forall|i: int|
                start + replacements.len() <= i < spliced.len() ==> #[trigger] spliced[i]
                    == elements[i - replacements.len() + (end - start)]
        }),
{
}

/// Making a node keeps the kind and every child handle in order. It fails for its length exactly when
/// the children are together longer than the coordinate space, and then names the first child at
/// which the sum leaves it.
pub proof fn lemma_node_outcome(
    kind: SyntaxKind,
    elements: Seq<GreenElement>,
    made: Result<GreenNode, GreenError>,
)
    requires
        node::node_made(kind, elements, made),
    ensures
        match made {
            Ok(node) => {
                &&& node@ is Node
                &&& node@.kind() == kind
                &&& node@.children().len() == elements.len()
                &&& node.elements().len() == elements.len()
                &&& forall|i: int|
                    0 <= i < elements.len() ==> (#[trigger] node.elements()[i]) == elements[i]
                &&& forall|i: int|
                    0 <= i < elements.len() ==> #[trigger] node@.children()[i] == match elements[i] {
                        NodeOrToken::Node(child) => child@,
                        NodeOrToken::Token(child) => child@,
                    }
            },
            Err(GreenError::TextLengthOverflow { accumulated, next }) => {
                let trees = element::element_trees(elements);
                exists|index: int|
                    {
                        &&& 0 <= index < elements.len()
                        &&& next@ == element::element_tree(elements[index]).len()
                        &&& accumulated@ == model::forest_len(#[trigger] trees.take(index))
                        &&& model::forest_len(trees.take(index + 1)) > u32::MAX
                    }
            },
            Err(error) => error == GreenError::AllocationFailed,
        },
        model::forest_len(element::element_trees(elements)) > u32::MAX <==> made matches Err(
            GreenError::TextLengthOverflow { .. },
        ),
{
    let trees = element::element_trees(elements);
    if let Err(GreenError::TextLengthOverflow { accumulated, next }) = made {
        node::lemma_first_overflow(trees, accumulated, next);
        let index = choose|index: int|
            {
                &&& 0 <= index < trees.len()
                &&& accumulated@ == #[trigger] model::offset_in(trees, index)
                &&& next@ == trees[index].len()
                &&& accumulated@ + next@ > u32::MAX
            };
        model::lemma_offset_step(trees, index);
        assert(accumulated@ == model::forest_len(trees.take(index)));
    }
}

/// Replacing a child fails where there is no such child or where the kinds differ. Otherwise the node
/// has the replacement in its place and every other child as it was.
pub proof fn lemma_replace_outcome(
    node: GreenNode,
    index: usize,
    replacement: GreenElement,
    made: Result<GreenNode, GreenError>,
)
    requires
        node.valid(),
        node::child_replaced(node, index, replacement, made),
    ensures
        match made {
            Ok(edited) => {
                &&& index < node.elements().len()
                &&& element::element_tree(replacement).kind() == element::element_tree(
                    node.elements()[index as int],
                ).kind()
                &&& edited@.kind() == node@.kind()
                &&& edited.elements().len() == node.elements().len()
                &&& edited.elements()[index as int] == replacement
                &&& forall|i: int|
                    0 <= i < node.elements().len() && i != index ==> #[trigger] edited.elements()[i]
                        == node.elements()[i]
            },
            Err(GreenError::ChildIndexOutOfBounds { index: at, child_count }) => {
                &&& index >= node.elements().len()
                &&& at == index
                &&& child_count == node.elements().len() as usize
            },
            Err(GreenError::KindMismatch { expected, actual }) => {
                &&& index < node.elements().len()
                &&& expected == element::element_tree(node.elements()[index as int]).kind()
                &&& actual == element::element_tree(replacement).kind()
                &&& expected != actual
            },
            Err(GreenError::TextLengthOverflow { .. }) => node@.len() - element::element_tree(
                node.elements()[index as int],
            ).len() + element::element_tree(replacement).len() > u32::MAX,
            Err(error) => error == GreenError::AllocationFailed,
        },
        index >= node.elements().len() <==> made matches Err(
            GreenError::ChildIndexOutOfBounds { .. },
        ),
{
    node.lemma_valid();
    if index < node.elements().len() {
        let trees = element::element_trees(node.elements());
        let updated = node.elements().update(index as int, replacement);
        let after = element::element_trees(updated);
        assert(after =~= trees.update(index as int, element::element_tree(replacement)));
        if element::element_tree(replacement).kind() == node@.children()[index as int].kind() {
            lemma_node_outcome(node@.kind(), updated, made);
            let at = index as int;
            assert(trees =~= trees.take(at).push(trees[at]) + trees.skip(at + 1));
            assert(after =~= trees.take(at).push(after[at]) + trees.skip(at + 1));
            model::lemma_forest_len_concat(trees.take(at).push(trees[at]), trees.skip(at + 1));
            model::lemma_forest_len_concat(trees.take(at).push(after[at]), trees.skip(at + 1));
            assert(trees.take(at).push(trees[at]).drop_last() =~= trees.take(at));
            assert(trees.take(at).push(after[at]).drop_last() =~= trees.take(at));
        }
    }
}

/// Making a token keeps its kind and text. It fails for its length exactly when the text has more bytes
/// than a size can count, and then tells how many.
pub proof fn lemma_token_outcome(
    kind: SyntaxKind,
    text: Seq<char>,
    made: Result<GreenToken, GreenError>,
)
    requires
        token::token_made(kind, text, made),
        vstd::utf8::encode_utf8(text).len() <= usize::MAX,
    ensures
        match made {
            Ok(token) => {
                &&& token@ is Token
                &&& token@.kind() == kind
                &&& token@.text() == text
                &&& token@.len() == vstd::utf8::encode_utf8(text).len()
            },
            Err(GreenError::TokenTextTooLong { byte_len }) => byte_len
                == vstd::utf8::encode_utf8(text).len(),
            Err(error) => error == GreenError::AllocationFailed,
        },
        vstd::utf8::encode_utf8(text).len() > u32::MAX <==> made matches Err(
            GreenError::TokenTextTooLong { .. },
        ),
{
}

} // verus!
