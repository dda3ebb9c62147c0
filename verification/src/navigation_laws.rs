//! What navigation finds, in terms of the places, kinds and offsets of the elements.

use vstd::prelude::*;

use crate::api;
use crate::api::Language;
use crate::cursor;
use crate::cursor::SyntaxElement;
use crate::cursor::SyntaxNode;
use crate::cursor::SyntaxToken;
use crate::cursor_data::Place;
use crate::cursor_laws;
use crate::cursor_query;
use crate::cursor_siblings;
use crate::cursor_traversal;
use crate::cursor_traversal::WalkStatus;
use crate::green::SyntaxKind;
use crate::model;
use crate::model::Tree;
use crate::utility_types::Direction;
use crate::utility_types::NodeOrToken;
use crate::utility_types::WalkEvent;

verus! {

/// The first child node is a child, is a node, and has only tokens before it. Where there is none,
/// all children are tokens.
pub proof fn lemma_first_child(place: Place, child: Option<SyntaxNode>)
    requires
        place.valid(),
        cursor::is_child_node(place, child),
        cursor::first_node(place.tree().children(), 0, cursor::node_index(child)),
    ensures
        match child {
            Some(child) => {
                &&& child.place().parent() == place
                &&& 0 <= child.place().index() < place.tree().children().len()
                &&& child.place().tree() is Node
                &&& forall|i: int|
                    0 <= i < child.place().index() ==> (#[trigger] place.child(i)).tree() is Token
            },
            None => forall|i: int|
                0 <= i < place.tree().children().len() ==> (#[trigger] place.child(i)).tree()
                    is Token,
        },
{
    let trees = place.tree().children();
    if child is Some {
        place.lemma_child(child->0.place().index());
    }
    assert forall|i: int| 0 <= i < trees.len() implies (#[trigger] place.child(i)).tree()
        == trees[i] by {
        place.lemma_child(i);
    }
}

/// The last child node is a child, is a node, and has only tokens behind it. Where there is none,
/// all children are tokens.
pub proof fn lemma_last_child(place: Place, child: Option<SyntaxNode>)
    requires
        place.valid(),
        cursor::is_child_node(place, child),
        cursor::last_node(
            place.tree().children(),
            place.tree().children().len() as int,
            cursor::node_index(child),
        ),
    ensures
        match child {
            Some(child) => {
                &&& child.place().parent() == place
                &&& 0 <= child.place().index() < place.tree().children().len()
                &&& child.place().tree() is Node
                &&& forall|i: int|
                    child.place().index() < i < place.tree().children().len() ==> (
                    #[trigger] place.child(i)).tree() is Token
            },
            None => forall|i: int|
                0 <= i < place.tree().children().len() ==> (#[trigger] place.child(i)).tree()
                    is Token,
        },
{
    let trees = place.tree().children();
    if child is Some {
        place.lemma_child(child->0.place().index());
    }
    assert forall|i: int| 0 <= i < trees.len() implies (#[trigger] place.child(i)).tree()
        == trees[i] by {
        place.lemma_child(i);
    }
}

/// The next sibling node stands behind the node below the same parent, with only tokens between.
/// Where there is none, only tokens follow.
pub proof fn lemma_next_sibling(place: Place, sibling: Option<SyntaxNode>)
    requires
        place.valid(),
        !place.is_root(),
        cursor::is_sibling_node(place, sibling),
        cursor::first_node(place.siblings(), place.index() + 1, cursor::node_index(sibling)),
    ensures
        match sibling {
            Some(sibling) => {
                &&& sibling.place().parent() == place.parent()
                &&& place.index() < sibling.place().index()
                &&& sibling.place().tree() is Node
                &&& forall|i: int|
                    place.index() < i < sibling.place().index() ==> (
                    #[trigger] place.parent().child(i)).tree() is Token
            },
            None => forall|i: int|
                place.index() < i < place.siblings().len() ==> (
                #[trigger] place.parent().child(i)).tree() is Token,
        },
{
    let upper = place.parent();
    place.lemma_valid();
    if sibling is Some {
        upper.lemma_child(sibling->0.place().index());
    }
    assert forall|i: int| 0 <= i < place.siblings().len() implies (
    #[trigger] place.parent().child(i)).tree() == place.siblings()[i] by {
        upper.lemma_child(i);
    }
}

/// The previous sibling node stands before the node below the same parent, with only tokens between.
/// Where there is none, only tokens precede.
pub proof fn lemma_prev_sibling(place: Place, sibling: Option<SyntaxNode>)
    requires
        place.valid(),
        !place.is_root(),
        cursor::is_sibling_node(place, sibling),
        cursor::last_node(place.siblings(), place.index(), cursor::node_index(sibling)),
    ensures
        match sibling {
            Some(sibling) => {
                &&& sibling.place().parent() == place.parent()
                &&& 0 <= sibling.place().index() < place.index()
                &&& sibling.place().tree() is Node
                &&& forall|i: int|
                    sibling.place().index() < i < place.index() ==> (
                    #[trigger] place.parent().child(i)).tree() is Token
            },
            None => forall|i: int|
                0 <= i < place.index() ==> (#[trigger] place.parent().child(i)).tree() is Token,
        },
{
    let upper = place.parent();
    place.lemma_valid();
    if sibling is Some {
        upper.lemma_child(sibling->0.place().index());
    }
    assert forall|i: int| 0 <= i < place.siblings().len() implies (
    #[trigger] place.parent().child(i)).tree() == place.siblings()[i] by {
        upper.lemma_child(i);
    }
}

/// The next sibling element begins where the element ends; without one, the element ends where its
/// parent does.
pub proof fn lemma_next_element(place: Place, sibling: Option<SyntaxElement>)
    requires
        place.valid(),
        cursor::is_adjacent(place, Direction::Next, sibling),
    ensures
        match sibling {
            Some(sibling) => {
                let other = cursor::element_place(sibling);
                &&& !place.is_root()
                &&& other.parent() == place.parent()
                &&& other.index() == place.index() + 1
                &&& other.start() == place.end()
            },
            None => !place.is_root() ==> place.index() == place.siblings().len() - 1
                && place.end() == place.parent().end(),
        },
{
    place.lemma_valid();
    if !place.is_root() {
        let upper = place.parent();
        let trees = upper.tree().children();
        model::lemma_offset_step(trees, place.index());
        if sibling is Some {
            upper.lemma_child(place.index() + 1);
        } else {
            model::lemma_offset_order(trees, 0, trees.len() as int);
        }
    }
}

/// The previous sibling element ends where the element begins; without one, the element begins where
/// its parent does.
pub proof fn lemma_prev_element(place: Place, sibling: Option<SyntaxElement>)
    requires
        place.valid(),
        cursor::is_adjacent(place, Direction::Prev, sibling),
    ensures
        match sibling {
            Some(sibling) => {
                let other = cursor::element_place(sibling);
                &&& !place.is_root()
                &&& other.parent() == place.parent()
                &&& other.index() == place.index() - 1
                &&& other.end() == place.start()
            },
            None => !place.is_root() ==> place.index() == 0 && place.start()
                == place.parent().start(),
        },
{
    place.lemma_valid();
    if !place.is_root() {
        let upper = place.parent();
        let trees = upper.tree().children();
        if sibling is Some {
            upper.lemma_child(place.index() - 1);
            model::lemma_offset_step(trees, place.index() - 1);
        } else {
            assert(trees.take(0) =~= Seq::empty());
        }
    }
}

/// The first token of a subtree lies in it, and no token of the subtree lies before it. Where there
/// is none, the subtree holds no token.
pub proof fn lemma_first_token(place: Place, token: Option<SyntaxToken>)
    requires
        place.valid(),
        cursor_query::is_edge_token(place, Direction::Next, token),
    ensures
        match token {
            Some(token) => {
                &&& place.holds(token.place())
                &&& token.place().tree() is Token
                &&& forall|other: Place|
                    #![trigger other.valid()]
                    other.valid() && place.holds(other) && other.tree() is Token ==> other
                        == token.place() || model::path_before(token.place().path, other.path)
                        && token.place().end() <= other.start()
            },
            None => forall|other: Place|
                #![trigger other.valid()]
                other.valid() && place.holds(other) ==> other.tree() is Node,
        },
{
    lemma_no_other_tokens(place, token);
    if let Some(token) = token {
        assert forall|other: Place|
            #![trigger other.valid()]
            other.valid() && place.holds(other) && other.tree() is Token implies other
            == token.place() || model::path_before(token.place().path, other.path)
            && token.place().end() <= other.start() by {
            assert(model::token_at(place.root@, other.path));
            if other.path != token.place().path {
                model::lemma_before_offsets(place.root@, token.place().path, other.path);
            }
        }
    }
}

/// Where no token is found, the subtree holds none.
proof fn lemma_no_other_tokens(place: Place, token: Option<SyntaxToken>)
    requires
        place.valid(),
        cursor_query::is_edge_token(place, Direction::Next, token)
            || cursor_query::is_edge_token(place, Direction::Prev, token),
    ensures
        token is None ==> forall|other: Place|
            #![trigger other.valid()]
            other.valid() && place.holds(other) ==> other.tree() is Node,
{
    if token is None {
        assert forall|other: Place|
            #![trigger other.valid()]
            other.valid() && place.holds(other) implies other.tree() is Node by {
            if other.tree() is Token {
                assert(model::token_at(place.root@, other.path));
            }
        }
    }
}

/// The last token of a subtree lies in it, and no token of the subtree lies behind it. Where there
/// is none, the subtree holds no token.
pub proof fn lemma_last_token(place: Place, token: Option<SyntaxToken>)
    requires
        place.valid(),
        cursor_query::is_edge_token(place, Direction::Prev, token),
    ensures
        match token {
            Some(token) => {
                &&& place.holds(token.place())
                &&& token.place().tree() is Token
                &&& forall|other: Place|
                    #![trigger other.valid()]
                    other.valid() && place.holds(other) && other.tree() is Token ==> other
                        == token.place() || model::path_before(other.path, token.place().path)
                        && other.end() <= token.place().start()
            },
            None => forall|other: Place|
                #![trigger other.valid()]
                other.valid() && place.holds(other) ==> other.tree() is Node,
        },
{
    lemma_no_other_tokens(place, token);
    if let Some(token) = token {
        assert forall|other: Place|
            #![trigger other.valid()]
            other.valid() && place.holds(other) && other.tree() is Token implies other
            == token.place() || model::path_before(other.path, token.place().path) && other.end()
            <= token.place().start() by {
            assert(model::token_at(place.root@, other.path));
            if other.path != token.place().path {
                model::lemma_before_offsets(place.root@, other.path, token.place().path);
            }
        }
    }
}

/// The next token lies behind the element in the same tree, and every other token behind the element
/// lies behind it too. Where there is none, no token lies behind.
pub proof fn lemma_next_token(place: Place, token: Option<SyntaxToken>)
    requires
        place.valid(),
        cursor_query::is_next_token(place, Direction::Next, token),
    ensures
        match token {
            Some(token) => {
                &&& token.place().root == place.root
                &&& token.place().tree() is Token
                &&& model::path_before(place.path, token.place().path)
                &&& place.end() <= token.place().start()
                &&& forall|other: Place|
                    #![trigger other.valid()]
                    other.valid() && other.root == place.root && other.tree() is Token
                        && model::path_before(place.path, other.path) ==> other == token.place()
                        || model::path_before(token.place().path, other.path)
            },
            None => forall|other: Place|
                #![trigger other.valid()]
                other.valid() && other.root == place.root && other.tree() is Token
                    ==> !model::path_before(place.path, other.path),
        },
{
    if let Some(token) = token {
        model::lemma_before_offsets(place.root@, place.path, token.place().path);
    }
    assert forall|other: Place|
        #![trigger other.valid()]
        other.valid() && other.root == place.root && other.tree() is Token implies model::token_at(
        place.root@,
        other.path,
    ) by {}
}

/// The previous token lies before the element in the same tree, and every other token before the
/// element lies before it too. Where there is none, no token lies before.
pub proof fn lemma_prev_token(place: Place, token: Option<SyntaxToken>)
    requires
        place.valid(),
        cursor_query::is_next_token(place, Direction::Prev, token),
    ensures
        match token {
            Some(token) => {
                &&& token.place().root == place.root
                &&& token.place().tree() is Token
                &&& model::path_before(token.place().path, place.path)
                &&& token.place().end() <= place.start()
                &&& forall|other: Place|
                    #![trigger other.valid()]
                    other.valid() && other.root == place.root && other.tree() is Token
                        && model::path_before(other.path, place.path) ==> other == token.place()
                        || model::path_before(other.path, token.place().path)
            },
            None => forall|other: Place|
                #![trigger other.valid()]
                other.valid() && other.root == place.root && other.tree() is Token
                    ==> !model::path_before(other.path, place.path),
        },
{
    if let Some(token) = token {
        model::lemma_before_offsets(place.root@, token.place().path, place.path);
    }
    assert forall|other: Place|
        #![trigger other.valid()]
        other.valid() && other.root == place.root && other.tree() is Token implies model::token_at(
        place.root@,
        other.path,
    ) by {}
}

/// A search by kind finds the first element from an index on that the matcher accepts; the matcher
/// rejected each one before it, or all where none is found. A search for nodes passes over tokens
/// without asking.
pub proof fn lemma_first_by_kind<Matcher: Fn(SyntaxKind) -> bool>(
    matcher: Matcher,
    trees: Seq<Tree>,
    low: int,
    nodes_only: bool,
    found: Option<int>,
)
    requires
        cursor_siblings::first_match(matcher, trees, low, nodes_only, found),
    ensures
        match found {
            Some(index) => {
                &&& low <= index < trees.len()
                &&& nodes_only ==> trees[index] is Node
                &&& call_ensures(matcher, (trees[index].kind(),), true)
                &&& forall|i: int|
                    low <= i < index && (!nodes_only || (#[trigger] trees[i]) is Node)
                        ==> call_ensures(matcher, (trees[i].kind(),), false)
            },
            None => forall|i: int|
                low <= i < trees.len() && (!nodes_only || (#[trigger] trees[i]) is Node)
                    ==> call_ensures(matcher, (trees[i].kind(),), false),
        },
{
}

/// The ancestors of an element begin with it, each next one is the parent of the one before, and the
/// last one is the root.
pub proof fn lemma_ancestors(place: Place, level: int)
    requires
        0 <= level <= place.path.len(),
    ensures
        cursor::ancestor(place, 0) == place,
        level < place.path.len() ==> cursor::ancestor(place, level + 1) == cursor::ancestor(
            place,
            level,
        ).parent(),
        cursor::ancestor(place, place.path.len() as int).is_root(),
        cursor::ancestor(place, level).holds(place),
{
    assert(place.path.take(place.path.len() as int) =~= place.path);
    if level < place.path.len() {
        assert(place.path.take(place.path.len() - (level + 1)) =~= place.path.take(
            place.path.len() - level,
        ).drop_last());
    }
}

/// Listing children gives every child from the index on, or every node among them, in order.
pub proof fn lemma_children_listed(place: Place, trees: Seq<Tree>, index: int, nodes_only: bool)
    requires
        0 <= index <= trees.len(),
    ensures
        ({
            let places = cursor_traversal::child_places(place, trees, index, nodes_only);
            &&& forall|i: int|
                #![trigger place.child(i)]
                index <= i < trees.len() && (!nodes_only || trees[i] is Node) ==> places.contains(
                    place.child(i),
                )
            &&& forall|k: int|
                #![trigger places[k]]
                0 <= k < places.len() ==> {
                    &&& places[k] == place.child(places[k].index())
                    &&& index <= places[k].index() < trees.len()
                    &&& nodes_only ==> trees[places[k].index()] is Node
                }
            &&& forall|k: int, l: int|
                0 <= k < l < places.len() ==> (#[trigger] places[k]).index() < (
                #[trigger] places[l]).index()
        }),
    decreases trees.len() - index,
{
    let places = cursor_traversal::child_places(place, trees, index, nodes_only);
    if index < trees.len() {
        let rest = cursor_traversal::child_places(place, trees, index + 1, nodes_only);
        lemma_children_listed(place, trees, index + 1, nodes_only);
        let own = if nodes_only && trees[index] is Token {
            0int
        } else {
            1int
        };
        assert(place.child(index).index() == index);
        assert forall|k: int|
            #![trigger places[k]]
            0 <= k < places.len() implies {
            &&& places[k] == place.child(places[k].index())
            &&& index <= places[k].index() < trees.len()
            &&& nodes_only ==> trees[places[k].index()] is Node
        } by {
            if k >= own {
                assert(places[k] == rest[k - own]);
            }
        }
        assert forall|k: int, l: int| 0 <= k < l < places.len() implies (
        #[trigger] places[k]).index() < (#[trigger] places[l]).index() by {
            assert(places[l] == rest[l - own]);
            if k >= own {
                assert(places[k] == rest[k - own]);
            }
        }
        assert forall|i: int|
            #![trigger place.child(i)]
            index <= i < trees.len() && (!nodes_only || trees[i] is Node) implies places.contains(
            place.child(i),
        ) by {
            if i == index {
                assert(places[0] == place.child(i));
            } else {
                assert(rest.contains(place.child(i)));
                let k = choose|k: int| 0 <= k < rest.len() && rest[k] == place.child(i);
                assert(places[k + own] == place.child(i));
            }
        }
    }
}

/// Siblings to the right are the element and every sibling behind it, in order; siblings to the left
/// are the element and every sibling before it, from the nearest on.
pub proof fn lemma_sibling_elements(
    place: Place,
    direction: Direction,
    elements: Seq<SyntaxElement>,
)
    requires
        place.valid(),
        cursor_siblings::are_sibling_elements(place, direction, elements),
    ensures
        elements.len() > 0,
        cursor::element_place(elements[0]) == place,
        place.is_root() ==> elements.len() == 1,
        forall|k: int|
            #![trigger elements[k]]
            0 < k < elements.len() ==> cursor::element_place(elements[k]) == place.parent().child(
                match direction {
                    Direction::Next => place.index() + k,
                    Direction::Prev => place.index() - k,
                },
            ),
        !place.is_root() ==> cursor::element_place(elements.last()).index() == match direction {
            Direction::Next => place.siblings().len() - 1,
            Direction::Prev => 0,
        },
{
    place.lemma_valid();
    let last = elements.len() - 1;
    assert(elements[last] == elements.last());
}

/// Sibling nodes to one side are the node and every node among its siblings on that side, from the
/// nearest on.
pub proof fn lemma_sibling_nodes(place: Place, direction: Direction, nodes: Seq<SyntaxNode>)
    requires
        place.valid(),
        place.tree() is Node,
        !place.is_root(),
        cursor_siblings::are_sibling_nodes(place, direction, nodes),
    ensures
        nodes[0].place() == place,
        forall|k: int|
            #![trigger nodes[k]]
            0 <= k < nodes.len() ==> nodes[k].place().parent() == place.parent()
                && nodes[k].place().tree() is Node,
        forall|k: int, l: int|
            0 <= k < l < nodes.len() ==> match direction {
                Direction::Next => (#[trigger] nodes[k]).place().index() < (
                #[trigger] nodes[l]).place().index(),
                Direction::Prev => nodes[l].place().index() < nodes[k].place().index(),
            },
        forall|i: int|
            #![trigger place.parent().child(i)]
            0 <= i < place.siblings().len() && place.parent().child(i).tree() is Node && match
                direction {
                Direction::Next => place.index() <= i,
                Direction::Prev => i <= place.index(),
            } ==> exists|k: int|
                0 <= k < nodes.len() && (#[trigger] nodes[k]).place() == place.parent().child(i),
{
    let upper = place.parent();
    let trees = place.siblings();
    place.lemma_valid();
    assert forall|i: int| 0 <= i < trees.len() implies (#[trigger] place.parent().child(i)).tree()
        == trees[i] by {
        upper.lemma_child(i);
    }
    lemma_listed_siblings(place, direction, nodes);
    assert forall|i: int|
        #![trigger place.parent().child(i)]
        0 <= i < trees.len() && place.parent().child(i).tree() is Node && match direction {
            Direction::Next => place.index() <= i,
            Direction::Prev => i <= place.index(),
        } implies exists|k: int|
        0 <= k < nodes.len() && (#[trigger] nodes[k]).place() == place.parent().child(i) by {
        lemma_sibling_met(place, direction, nodes, i, nodes.len() as int);
    }
}

/// A node of a list is a sibling that lies farther away than the one before it.
spec fn farther(
    place: Place,
    direction: Direction,
    nodes: Seq<SyntaxNode>,
    k: int,
) -> bool {
    let index = nodes[k].place().index();
    &&& nodes[k].place().parent() == place.parent()
    &&& nodes[k].place() == place.parent().child(index)
    &&& 0 <= index < place.siblings().len()
    &&& nodes[k].place().tree() is Node
    &&& k > 0 ==> match direction {
        Direction::Next => nodes[k - 1].place().index() < index,
        Direction::Prev => index < nodes[k - 1].place().index(),
    }
}

/// A node of a list of sibling nodes is the next one after the node before it.
spec fn next_in_list(
    place: Place,
    direction: Direction,
    nodes: Seq<SyntaxNode>,
    k: int,
) -> bool {
    &&& nodes[k].place() == place.sibling(nodes[k].place().index())
    &&& cursor_siblings::node_follows(
        place,
        direction,
        nodes[k - 1].place().index(),
        Some(nodes[k].place().index()),
    )
}

/// Each node of a list of sibling nodes is the next one after the node before it.
proof fn lemma_next_in_list(place: Place, direction: Direction, nodes: Seq<SyntaxNode>, k: int)
    requires
        cursor_siblings::are_sibling_nodes(place, direction, nodes),
        0 < k < nodes.len(),
    ensures
        next_in_list(place, direction, nodes, k),
{
    let node = nodes[k];
}

/// Each node of a list of sibling nodes lies farther away than the one before it.
proof fn lemma_farther(place: Place, direction: Direction, nodes: Seq<SyntaxNode>, k: int)
    requires
        place.valid(),
        place.tree() is Node,
        !place.is_root(),
        nodes.len() > 0,
        nodes[0].place() == place,
        forall|i: int| 0 < i < nodes.len() ==> #[trigger] next_in_list(place, direction, nodes, i),
        0 <= k < nodes.len(),
    ensures
        farther(place, direction, nodes, k),
    decreases k,
{
    place.lemma_valid();
    if k > 0 {
        let index = nodes[k].place().index();
        lemma_farther(place, direction, nodes, k - 1);
        assert(next_in_list(place, direction, nodes, k));
        place.parent().lemma_child(index);
    }
}

/// The nodes of a list of sibling nodes are siblings and lie farther and farther away.
proof fn lemma_sibling_chain(
    place: Place,
    direction: Direction,
    nodes: Seq<SyntaxNode>,
    count: int,
)
    requires
        forall|k: int| 0 <= k < nodes.len() ==> #[trigger] farther(place, direction, nodes, k),
        0 <= count <= nodes.len(),
    ensures
        forall|k: int, l: int|
            0 <= k < l < count ==> match direction {
                Direction::Next => (#[trigger] nodes[k]).place().index() < (
                #[trigger] nodes[l]).place().index(),
                Direction::Prev => nodes[l].place().index() < nodes[k].place().index(),
            },
    decreases count,
{
    if count > 1 {
        lemma_sibling_chain(place, direction, nodes, count - 1);
        assert(farther(place, direction, nodes, count - 1));
    }
}

/// All nodes of a list of sibling nodes lie farther away than the ones before them.
proof fn lemma_all_farther(place: Place, direction: Direction, nodes: Seq<SyntaxNode>)
    requires
        place.valid(),
        place.tree() is Node,
        !place.is_root(),
        cursor_siblings::are_sibling_nodes(place, direction, nodes),
    ensures
        forall|k: int| 0 <= k < nodes.len() ==> #[trigger] farther(place, direction, nodes, k),
{
    assert forall|k: int| 0 < k < nodes.len() implies #[trigger] next_in_list(
        place,
        direction,
        nodes,
        k,
    ) by {
        lemma_next_in_list(place, direction, nodes, k);
    }
    assert forall|k: int| 0 <= k < nodes.len() implies #[trigger] farther(
        place,
        direction,
        nodes,
        k,
    ) by {
        lemma_farther(place, direction, nodes, k);
    }
}

/// What holds of all nodes of a list of sibling nodes.
proof fn lemma_listed_siblings(place: Place, direction: Direction, nodes: Seq<SyntaxNode>)
    requires
        place.valid(),
        place.tree() is Node,
        !place.is_root(),
        cursor_siblings::are_sibling_nodes(place, direction, nodes),
    ensures
        forall|k: int|
            #![trigger nodes[k]]
            0 <= k < nodes.len() ==> nodes[k].place().parent() == place.parent()
                && nodes[k].place().tree() is Node,
        forall|k: int, l: int|
            0 <= k < l < nodes.len() ==> match direction {
                Direction::Next => (#[trigger] nodes[k]).place().index() < (
                #[trigger] nodes[l]).place().index(),
                Direction::Prev => nodes[l].place().index() < nodes[k].place().index(),
            },
{
    lemma_all_farther(place, direction, nodes);
    lemma_sibling_chain(place, direction, nodes, nodes.len() as int);
    assert forall|k: int|
        #![trigger nodes[k]]
        0 <= k < nodes.len() implies nodes[k].place().parent() == place.parent()
        && nodes[k].place().tree() is Node by {
        assert(farther(place, direction, nodes, k));
    }
}

/// Every node among the siblings that lies between the start and one of the listed nodes is listed.
proof fn lemma_sibling_met(
    place: Place,
    direction: Direction,
    nodes: Seq<SyntaxNode>,
    index: int,
    count: int,
)
    requires
        place.valid(),
        place.tree() is Node,
        !place.is_root(),
        cursor_siblings::are_sibling_nodes(place, direction, nodes),
        0 < count <= nodes.len(),
        0 <= index < place.siblings().len(),
        place.siblings()[index] is Node,
        match direction {
            Direction::Next => place.index() <= index && (count < nodes.len() ==> index
                < nodes[count].place().index()),
            Direction::Prev => index <= place.index() && (count < nodes.len()
                ==> nodes[count].place().index() < index),
        },
    ensures
        exists|k: int|
            0 <= k < nodes.len() && (#[trigger] nodes[k]).place() == place.parent().child(index),
    decreases count,
{
    let last = count - 1;
    place.lemma_valid();
    lemma_all_farther(place, direction, nodes);
    assert(farther(place, direction, nodes, last));
    let here = nodes[last].place().index();
    if index == here {
        assert(nodes[last].place() == place.parent().child(index));
    } else {
        let found = if count < nodes.len() {
            assert(nodes[count].place() == nodes[count].place());
            Some(nodes[count].place().index())
        } else {
            assert(nodes[last] == nodes.last());
            None
        };
        assert(cursor_siblings::node_follows(place, direction, here, found)) by {
            if count < nodes.len() {
                assert(nodes[count].place() == place.sibling(nodes[count].place().index()));
            }
        }
        let beyond = match direction {
            Direction::Next => here < index,
            Direction::Prev => index < here,
        };
        if beyond {
            assert(place.siblings()[index] is Token);
        } else {
            assert(last > 0);
            lemma_sibling_met(place, direction, nodes, index, last);
        }
    }
}

/// The places of a subtree are exactly its elements, or its nodes, each once, in preorder.
pub proof fn lemma_descendants(top: Place, nodes_only: bool)
    requires
        top.valid(),
        top.tree() is Node,
    ensures
        ({
            let places = cursor_traversal::subtree_places(top, top.tree(), nodes_only);
            &&& places.no_duplicates()
            &&& forall|place: Place|
                #![trigger top.holds(place)]
                top.holds(place) && place.valid() && (!nodes_only || place.tree() is Node)
                    ==> places.contains(place)
            &&& forall|i: int|
                #![trigger places[i]]
                0 <= i < places.len() ==> top.holds(places[i]) && places[i].valid() && (nodes_only
                    ==> places[i].tree() is Node)
            &&& forall|i: int, j: int|
                0 <= i < j < places.len() ==> (#[trigger] places[i]).holds(#[trigger] places[j])
                    || model::path_before(places[i].path, places[j].path)
        }),
{
    let places = cursor_traversal::subtree_places(top, top.tree(), nodes_only);
    assert(top.path.take(top.path.len() as int) =~= top.path);
    cursor_laws::lemma_places_distinct(top, nodes_only);
    cursor_traversal::lemma_subtree_inside(top, top, nodes_only);
    cursor_laws::lemma_entered_in_preorder(top, top.tree(), nodes_only);
    assert forall|place: Place|
        #![trigger top.holds(place)]
        top.holds(place) && place.valid() && (!nodes_only || place.tree() is Node)
        implies places.contains(place) by {
        if nodes_only {
            crate::ast::lemma_node_listed(top, place);
        } else {
            cursor_laws::lemma_place_listed(top, place);
        }
    }
    assert forall|i: int|
        #![trigger places[i]]
        0 <= i < places.len() implies top.holds(places[i]) && places[i].valid() && (nodes_only
        ==> places[i].tree() is Node) by {
        assert(cursor_traversal::inside(top, places[i]));
        if nodes_only {
            lemma_only_nodes(top, i);
        }
    }
    assert forall|i: int, j: int| 0 <= i < j < places.len() implies (#[trigger] places[i]).holds(
        #[trigger] places[j],
    ) || model::path_before(places[i].path, places[j].path) by {
        assert(cursor_laws::in_preorder(places[i], places[j]));
    }
}

/// A list of nodes holds no tokens.
proof fn lemma_only_nodes(top: Place, index: int)
    requires
        top.valid(),
        top.tree() is Node,
        0 <= index < cursor_traversal::subtree_places(top, top.tree(), true).len(),
    ensures
        cursor_traversal::subtree_places(top, top.tree(), true)[index].tree() is Node,
    decreases top.tree(), top.tree().children().len() + 1,
{
    let below = cursor_traversal::forest_places(top, top.tree(), 0, true);
    if index > 0 {
        lemma_only_lower_nodes(top, 0, index - 1);
        assert(cursor_traversal::subtree_places(top, top.tree(), true)[index] == below[index - 1]);
    }
}

/// A list of the nodes below children holds no tokens.
proof fn lemma_only_lower_nodes(top: Place, low: int, index: int)
    requires
        top.valid(),
        0 <= low,
        0 <= index < cursor_traversal::forest_places(top, top.tree(), low, true).len(),
    ensures
        cursor_traversal::forest_places(top, top.tree(), low, true)[index].tree() is Node,
    decreases top.tree(), top.tree().children().len() - low,
{
    let tree = top.tree();
    let all = cursor_traversal::forest_places(top, tree, low, true);
    let later = cursor_traversal::forest_places(top, tree, low + 1, true);
    top.lemma_child(low);
    let lower = top.child(low);
    let own = if tree.children()[low] is Token {
        Seq::empty()
    } else {
        cursor_traversal::subtree_places(lower, lower.tree(), true)
    };
    assert(all == own + later);
    if index < own.len() {
        lemma_only_nodes(lower, index);
        assert(all[index] == own[index]);
    } else {
        lemma_only_lower_nodes(top, low + 1, index - own.len());
        assert(all[index] == later[index - own.len()]);
    }
}

/// A child element that a search finds lies below the node, at its index.
pub proof fn lemma_child_found(place: Place, child: SyntaxElement)
    requires
        cursor_siblings::is_child(place, Some(child)),
    ensures
        cursor::element_place(child).root == place.root,
        cursor::element_place(child).parent() == place,
        !cursor::element_place(child).is_root(),
        cursor_siblings::element_index(Some(child)) == Some(cursor::element_place(child).index()),
{
    let index = cursor::element_place(child).index();
    assert(place.path.push(index).drop_last() =~= place.path);
}

/// A sibling element that a search finds lies below the same parent, at its index.
pub proof fn lemma_sibling_found(place: Place, sibling: SyntaxElement)
    requires
        cursor_siblings::is_sibling(place, Some(sibling)),
    ensures
        !place.is_root(),
        cursor::element_place(sibling).root == place.root,
        cursor::element_place(sibling).parent() == place.parent(),
        !cursor::element_place(sibling).is_root(),
{
    let index = cursor::element_place(sibling).index();
    assert(place.path.drop_last().push(index).drop_last() =~= place.path.drop_last());
}

/// Asking a walk for its events one after the other gives those that were to come, each once and in
/// order, and then nothing more. A subtree can be skipped right after a node was entered.
pub proof fn lemma_walk_drained(
    statuses: Seq<WalkStatus>,
    events: Seq<Option<WalkEvent<Place>>>,
    count: int,
)
    requires
        statuses.len() == events.len() + 1,
        forall|i: int|
            0 <= i < events.len() ==> cursor_traversal::yields(
                statuses[i],
                statuses[i + 1],
                #[trigger] events[i],
            ),
        0 <= count < events.len(),
    ensures
        events[count] == if count < statuses[0].remaining.len() {
            Some(statuses[0].remaining[count])
        } else {
            None
        },
        count < statuses[0].remaining.len() ==> {
            let entered = statuses[count + 1].entered;
            &&& entered is Some <==> statuses[0].remaining[count] is Enter
                && statuses[0].remaining[count]->Enter_0.tree() is Node
            &&& entered is Some ==> statuses[0].remaining[count] == WalkEvent::Enter(entered->0)
            &&& !statuses[count + 1].skipping
        },
{
    lemma_walk_remains(statuses, events, count);
    let before = statuses[count].remaining;
    assert(cursor_traversal::yields(statuses[count], statuses[count + 1], events[count]));
    if count < statuses[0].remaining.len() {
        assert(before.len() > 0);
        assert(before[0] == statuses[0].remaining[count]);
        if let Some(event) = events[count] {
            assert((seq![event] + statuses[count + 1].remaining)[0] == event);
        }
    } else {
        assert(before.len() == 0);
        if let Some(event) = events[count] {
            assert((seq![event] + statuses[count + 1].remaining).len() > 0);
        }
    }
}

/// What is still to come after some events of a walk.
proof fn lemma_walk_remains(
    statuses: Seq<WalkStatus>,
    events: Seq<Option<WalkEvent<Place>>>,
    count: int,
)
    requires
        statuses.len() == events.len() + 1,
        forall|i: int|
            0 <= i < events.len() ==> cursor_traversal::yields(
                statuses[i],
                statuses[i + 1],
                #[trigger] events[i],
            ),
        0 <= count <= events.len(),
    ensures
        statuses[count].remaining == if count < statuses[0].remaining.len() {
            statuses[0].remaining.skip(count)
        } else {
            Seq::empty()
        },
    decreases count,
{
    let all = statuses[0].remaining;
    if count == 0 {
        assert(all.skip(0) =~= all);
        if all.len() == 0 {
            assert(all =~= Seq::empty());
        }
    } else {
        lemma_walk_remains(statuses, events, count - 1);
        let before = statuses[count - 1].remaining;
        let after = statuses[count].remaining;
        assert(cursor_traversal::yields(statuses[count - 1], statuses[count - 1 + 1], events[count
            - 1]));
        match events[count - 1] {
            Some(event) => {
                assert(before == seq![event] + after);
                assert(after =~= before.skip(1));
                if count - 1 < all.len() {
                    assert(after =~= all.skip(count));
                    if count == all.len() {
                        assert(after =~= Seq::empty());
                    }
                }
            },
            None => {
                assert(after =~= Seq::empty());
            },
        }
    }
}

/// An event about an element is an event about its place, of the same kind.
pub proof fn lemma_event_kinds(node: SyntaxNode, element: SyntaxElement, token: SyntaxToken)
    ensures
        cursor_traversal::node_event(WalkEvent::Enter(node)) == WalkEvent::Enter(node.place()),
        cursor_traversal::node_event(WalkEvent::Leave(node)) == WalkEvent::Leave(node.place()),
        cursor_traversal::element_event(WalkEvent::Enter(element)) == WalkEvent::Enter(
            cursor::element_place(element),
        ),
        cursor_traversal::element_event(WalkEvent::Leave(element)) == WalkEvent::Leave(
            cursor::element_place(element),
        ),
        cursor::element_place(NodeOrToken::Node(node)) == node.place(),
        cursor::element_place(NodeOrToken::Token(token)) == token.place(),
{
}

/// An event about a typed element is an event about its place, of the same kind.
pub proof fn lemma_typed_event_kinds<L: Language>(
    node: api::SyntaxNode<L>,
    element: api::SyntaxElement<L>,
    token: api::SyntaxToken<L>,
)
    ensures
        api::node_event(WalkEvent::Enter(node)) == WalkEvent::Enter(node.place()),
        api::node_event(WalkEvent::Leave(node)) == WalkEvent::Leave(node.place()),
        api::element_event(WalkEvent::Enter(element)) == WalkEvent::Enter(
            api::element_place(element),
        ),
        api::element_event(WalkEvent::Leave(element)) == WalkEvent::Leave(
            api::element_place(element),
        ),
        api::element_place::<L>(NodeOrToken::Node(node)) == node.place(),
        api::element_place::<L>(NodeOrToken::Token(token)) == token.place(),
{
}

} // verus!
