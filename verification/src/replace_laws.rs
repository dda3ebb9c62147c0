//! What replacing an element in a tree does to the rest of it.

use vstd::prelude::*;

use crate::cursor_data;
use crate::cursor_data::Place;
use crate::cursor_laws;
use crate::cursor_replace;
use crate::green::element;
use crate::green::element::GreenElement;
use crate::green::node;
use crate::green::node::GreenNode;
use crate::green::token::GreenToken;
use crate::green::GreenError;
use crate::model;
use crate::model::Tree;
use crate::utility_types::NodeOrToken;

verus! {

/// A replacement is refused exactly where the kinds differ. One that fits leaves the text before and
/// behind the element as it was, and fails for its length only where the new text is too long. A root
/// is replaced without fail.
pub proof fn lemma_replacement(
    place: Place,
    replacement: GreenElement,
    outcome: Result<GreenNode, GreenError>,
)
    requires
        place.valid(),
        cursor_replace::replaced(place, replacement, outcome),
    ensures
        ({
            let tree = element::element_tree(replacement);
            match outcome {
                Ok(green) => {
                    &&& tree.kind() == place.tree().kind()
                    &&& model::path_exists(green@, place.path)
                    &&& model::tree_at(green@, place.path) == tree
                    &&& green@.len() == place.root@.len() - place.tree().len() + tree.len()
                    &&& exists|front: Seq<char>, back: Seq<char>|
                        {
                            &&& place.root@.text() == #[trigger] (front + place.tree().text()
                                + back)
                            &&& green@.text() == front + tree.text() + back
                            &&& vstd::utf8::encode_utf8(front).len() == place.start()
                        }
                },
                Err(GreenError::KindMismatch { expected, actual }) => {
                    &&& expected == place.tree().kind()
                    &&& actual == tree.kind()
                    &&& expected != actual
                },
                Err(GreenError::TextLengthOverflow { .. }) => place.root@.len()
                    - place.tree().len() + tree.len() > u32::MAX,
                Err(error) => error == GreenError::AllocationFailed,
            }
        }),
        element::element_tree(replacement).kind() != place.tree().kind() ==> outcome matches Err(
            GreenError::KindMismatch { .. },
        ),
        place.is_root() && element::element_tree(replacement).kind() == place.tree().kind()
            ==> outcome is Ok && replacement == NodeOrToken::<GreenNode, GreenToken>::Node(
            outcome->Ok_0,
        ),
{
    let tree = element::element_tree(replacement);
    let root = place.root@;
    let path = place.path;
    if tree.kind() == place.tree().kind() {
        match outcome {
            Ok(green) => {
                cursor_laws::lemma_graft_found(root, path, tree);
                cursor_laws::lemma_graft_text(root, path, tree);
                lemma_graft_len(root, path, tree);
            },
            Err(GreenError::TextLengthOverflow { accumulated, next }) => {
                let depth = choose|depth: int| #[trigger]
                    cursor_replace::graft_overflows(root, path, tree, depth, accumulated, next);
                let upper = path.take(depth);
                let lower = path.skip(depth);
                let part = model::tree_at(root, upper);
                model::lemma_path_prefix(root, path, depth);
                model::lemma_path_concat(root, upper, lower);
                assert(upper + lower =~= path);
                node::lemma_first_overflow(
                    model::graft(part, lower, tree).children(),
                    accumulated,
                    next,
                );
                lemma_graft_len(part, lower, tree);
                model::lemma_path_inside(root, upper);
                assert(model::graft(part, lower, tree) is Node);
            },
            Err(_) => {},
        }
    }
}

/// The children beside the way down to the replaced element keep their very handles, and with them
/// everything below.
pub proof fn lemma_replacement_elsewhere(
    place: Place,
    replacement: GreenElement,
    outcome: Result<GreenNode, GreenError>,
    depth: int,
    index: int,
)
    requires
        place.valid(),
        cursor_replace::replaced(place, replacement, outcome),
        outcome is Ok,
        0 <= depth < place.path.len(),
        0 <= index < cursor_data::handle_at(
            place.root,
            place.path.take(depth),
        )->Node_0.elements().len(),
        index != place.path[depth],
    ensures
        cursor_data::handle_at(outcome->Ok_0, place.path.take(depth).push(index))
            == cursor_data::handle_at(place.root, place.path.take(depth).push(index)),
        cursor_data::handle_at(outcome->Ok_0, place.path) == replacement,
{
    lemma_spine_kept(
        NodeOrToken::Node(place.root),
        place.path,
        replacement,
        NodeOrToken::Node(outcome->Ok_0),
        depth,
        index,
    );
}

/// The length of a tree after a replacement.
proof fn lemma_graft_len(tree: Tree, path: Seq<int>, replacement: Tree)
    requires
        model::path_exists(tree, path),
    ensures
        model::graft(tree, path, replacement).len() == tree.len() - model::tree_at(tree, path).len()
            + replacement.len(),
{
    let inner = model::tree_at(tree, path);
    let grafted = model::graft(tree, path, replacement);
    cursor_laws::lemma_graft_text(tree, path, replacement);
    let (front, back) = choose|front: Seq<char>, back: Seq<char>|
        tree.text() == #[trigger] (front + inner.text() + back) && grafted.text() == front
            + replacement.text() + back && vstd::utf8::encode_utf8(front).len()
            == model::offset_at(tree, path);
    model::lemma_encode_concat(front + inner.text(), back);
    model::lemma_encode_concat(front, inner.text());
    model::lemma_encode_concat(front + replacement.text(), back);
    model::lemma_encode_concat(front, replacement.text());
    model::lemma_tree_len_is_text_len(tree);
    model::lemma_tree_len_is_text_len(inner);
    model::lemma_tree_len_is_text_len(grafted);
    model::lemma_tree_len_is_text_len(replacement);
}

/// Following handles from the first index of a path.
proof fn lemma_handle_front(root: GreenNode, path: Seq<int>)
    requires
        path.len() > 0,
    ensures
        cursor_data::handle_at(root, path) == if path.len() == 1 {
            root.elements()[path[0]]
        } else {
            cursor_data::handle_at(root.elements()[path[0]]->Node_0, path.drop_first())
        },
    decreases path.len(),
{
    if path.len() == 1 {
        assert(path.drop_last() =~= Seq::empty());
    } else {
        let upper = path.drop_last();
        lemma_handle_front(root, upper);
        assert(upper.drop_first() =~= path.drop_first().drop_last());
        assert(path.drop_first().last() == path.last());
        if upper.len() == 1 {
            assert(path.drop_first().drop_last() =~= Seq::empty());
            let first = root.elements()[path[0]];
            assert(cursor_data::handle_at(first->Node_0, Seq::empty()) == NodeOrToken::<
                GreenNode,
                GreenToken,
            >::Node(first->Node_0));
        }
    }
}

/// Rebuilding the ancestors keeps the handles off the path.
proof fn lemma_spine_kept(
    before: GreenElement,
    path: Seq<int>,
    replacement: GreenElement,
    after: GreenElement,
    depth: int,
    index: int,
)
    requires
        cursor_replace::spine_rebuilt(before, path, replacement, after),
        0 <= depth < path.len(),
        0 <= index < cursor_data::handle_at(
            before->Node_0,
            path.take(depth),
        )->Node_0.elements().len(),
        index != path[depth],
    ensures
        cursor_data::handle_at(after->Node_0, path.take(depth).push(index))
            == cursor_data::handle_at(before->Node_0, path.take(depth).push(index)),
        cursor_data::handle_at(after->Node_0, path) == replacement,
    decreases path.len(),
{
    let other = path.take(depth).push(index);
    lemma_handle_front(after->Node_0, other);
    lemma_handle_front(before->Node_0, other);
    if depth == 0 {
        assert(path.take(0) =~= Seq::empty());
        lemma_spine_end(before, path, replacement, after);
    } else {
        let lower = path.drop_first();
        let inner = before->Node_0.elements()[path[0]];
        let rebuilt = after->Node_0.elements()[path[0]];
        assert(other.drop_first() =~= lower.take(depth - 1).push(index));
        lemma_handle_front(before->Node_0, path.take(depth));
        assert(path.take(depth).drop_first() =~= lower.take(depth - 1));
        if depth == 1 {
            assert(lower.take(0) =~= Seq::empty());
        }
        lemma_spine_kept(inner, lower, replacement, rebuilt, depth - 1, index);
        lemma_handle_front(after->Node_0, path);
    }
}

/// The replacement stands at the end of the path.
proof fn lemma_spine_end(
    before: GreenElement,
    path: Seq<int>,
    replacement: GreenElement,
    after: GreenElement,
)
    requires
        cursor_replace::spine_rebuilt(before, path, replacement, after),
        path.len() > 0,
    ensures
        cursor_data::handle_at(after->Node_0, path) == replacement,
    decreases path.len(),
{
    lemma_handle_front(after->Node_0, path);
    if path.len() > 1 {
        lemma_spine_end(
            before->Node_0.elements()[path[0]],
            path.drop_first(),
            replacement,
            after->Node_0.elements()[path[0]],
        );
    } else {
        reveal_with_fuel(cursor_replace::spine_rebuilt, 2);
        assert(path.drop_first().len() == 0);
    }
}

} // verus!
