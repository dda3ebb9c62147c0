//! Searches through the trees behind raw cursors.

use vstd::prelude::*;

use crate::cursor;
use crate::cursor::RangeError;
use crate::cursor::SyntaxElement;
use crate::cursor::SyntaxNode;
use crate::cursor::SyntaxToken;
use crate::cursor_data::Place;
use crate::model;
use crate::model::Tree;
use crate::utility_types::Direction;
use crate::query_laws;
use crate::text::TextRange;
use crate::text::TextSize;
use crate::utility_types::NodeOrToken;
use crate::utility_types::TokenAtOffset;

verus! {

/// `left` lies before `right` when walking in a direction.
pub open spec fn ahead(left: Seq<int>, right: Seq<int>, direction: Direction) -> bool {
    match direction {
        Direction::Next => model::path_before(left, right),
        Direction::Prev => model::path_before(right, left),
    }
}

/// The first token of a subtree in a direction.
pub open spec fn is_edge_token(
    place: Place,
    direction: Direction,
    token: Option<SyntaxToken>,
) -> bool {
    match token {
        Some(token) => {
            &&& place.holds(token.place())
            &&& model::token_at(place.root@, token.place().path)
            &&& forall|path: Seq<int>|
                #[trigger] model::token_at(place.root@, path) && model::path_through(
                    path,
                    place.path,
                ) ==> path == token.place().path || ahead(token.place().path, path, direction)
        },
        None => forall|path: Seq<int>|
            #[trigger] model::token_at(place.root@, path) ==> !model::path_through(
                path,
                place.path,
            ),
    }
}

/// The token next to a place in a direction.
pub open spec fn is_next_token(
    place: Place,
    direction: Direction,
    token: Option<SyntaxToken>,
) -> bool {
    match token {
        Some(token) => {
            &&& token.place().root == place.root
            &&& model::token_at(place.root@, token.place().path)
            &&& ahead(place.path, token.place().path, direction)
            &&& forall|path: Seq<int>|
                #[trigger] model::token_at(place.root@, path) && ahead(place.path, path, direction)
                    ==> path == token.place().path || ahead(token.place().path, path, direction)
        },
        None => forall|path: Seq<int>|
            #[trigger] model::token_at(place.root@, path) ==> !ahead(place.path, path, direction),
    }
}

/// The walk in a direction that skips the subtree at `from` goes on at `to`, inside `top`.
spec fn walk_goes_on(top: Place, from: Place, direction: Direction, to: Option<Place>) -> bool {
    match to {
        Some(to) => {
            &&& to.valid()
            &&& top.holds(to)
            &&& to.path.len() > top.path.len()
            &&& ahead(from.path, to.path, direction)
            &&& model::walk_rank(top.root@, to.path, direction == Direction::Next)
                >= model::walk_rank(top.root@, from.path, direction == Direction::Next)
                + model::tree_size(from.tree())
            &&& forall|path: Seq<int>|
                #[trigger] model::path_exists(top.root@, path) && model::path_through(
                    path,
                    top.path,
                ) && ahead(from.path, path, direction) ==> model::path_through(path, to.path)
                    || ahead(to.path, path, direction)
        },
        None => forall|path: Seq<int>|
            #[trigger] model::path_exists(top.root@, path) && model::path_through(path, top.path)
                ==> !ahead(from.path, path, direction),
    }
}

/// Going on at the next sibling.
proof fn lemma_on_to_sibling(top: Place, from: Place, direction: Direction)
    requires
        from.valid(),
        top.holds(from),
        from.path.len() > top.path.len(),
        0 <= cursor::step(from.index(), direction) < from.siblings().len(),
    ensures
        walk_goes_on(
            top,
            from,
            direction,
            Some(from.sibling(cursor::step(from.index(), direction))),
        ),
{
    let index = cursor::step(from.index(), direction);
    let parent = from.path.drop_last();
    let to = from.sibling(index);
    let root = top.root@;
    assert(parent.push(from.index()) =~= from.path);
    from.lemma_valid();
    from.parent().lemma_child(index);
    model::lemma_rank_sibling(root, parent, from.index(), direction == Direction::Next);
    assert(to.path.take(top.path.len() as int) =~= from.path.take(top.path.len() as int));
    assert(ahead(from.path, to.path, direction)) by {
        assert(to.path.take(parent.len() as int) =~= parent);
        model::lemma_before_sibling(parent, from.index(), to.path);
    }
    assert forall|path: Seq<int>|
        #[trigger] model::path_exists(root, path) && model::path_through(path, top.path) && ahead(
            from.path,
            path,
            direction,
        ) implies model::path_through(path, to.path) || ahead(to.path, path, direction) by {
        model::lemma_before_child(parent, from.index(), path);
        if model::path_through(path, parent) && path.len() > parent.len() {
            model::lemma_before_sibling(parent, index, path);
        }
        model::lemma_before_push(parent, path, index);
        model::lemma_before_push(path, parent, index);
    }
}

/// Behind the last sibling the walk goes on behind the parent.
proof fn lemma_on_to_parent(top: Place, from: Place, direction: Direction, path: Seq<int>)
    requires
        from.valid(),
        top.holds(from),
        from.path.len() > top.path.len(),
        !(0 <= cursor::step(from.index(), direction) < from.siblings().len()),
        model::path_exists(top.root@, path),
        ahead(from.path, path, direction),
    ensures
        ahead(from.parent().path, path, direction),
{
    let parent = from.path.drop_last();
    assert(parent.push(from.index()) =~= from.path);
    from.lemma_valid();
    model::lemma_before_child(parent, from.index(), path);
    if model::path_through(path, parent) && path.len() > parent.len() {
        model::lemma_path_prefix(top.root@, path, parent.len() as int);
    }
}

/// Leave the subtree at an element and find where a walk inside `top` goes on.
fn element_behind(current: &SyntaxElement, top: &SyntaxNode, direction: Direction) -> (
    found: Option<
    SyntaxElement,
>)
    requires
        top.place().holds(cursor::element_place(*current)),
        cursor::element_place(*current).path.len() > top.place().path.len(),
    ensures
        walk_goes_on(
            top.place(),
            cursor::element_place(*current),
            direction,
            match found {
                Some(found) => Some(cursor::element_place(found)),
                None => None,
            },
        ),
{
    let ghost start = cursor::element_place(*current);
    let ghost goal = top.place();
    let ghost forward = direction == Direction::Next;
    let ghost top_depth = goal.path.len();
    let mut element = current.handle();
    proof {
        use_type_invariant(top);
        top.lemma_valid();
        match &element {
            NodeOrToken::Node(node) => {
                use_type_invariant(node);
            },
            NodeOrToken::Token(token) => {
                use_type_invariant(token);
            },
        }
        lemma_element_place(element);
        assert(start.path.take(start.path.len() as int) =~= start.path);
    }
    loop
        invariant
            goal == top.place(),
            start == cursor::element_place(*current),
            top.valid(),
            top_depth == goal.path.len(),
            cursor::element_place(element).path.len() > top_depth,
            forward == (direction == Direction::Next),
            cursor::element_place(element).valid(),
            goal.holds(cursor::element_place(element)),
            model::path_through(start.path, cursor::element_place(element).path),
            start.root == goal.root,
            model::walk_rank(goal.root@, cursor::element_place(element).path, forward)
                + model::tree_size(cursor::element_place(element).tree()) >= model::walk_rank(
                goal.root@,
                start.path,
                forward,
            ) + model::tree_size(start.tree()),
            forall|path: Seq<int>|
                #[trigger] model::path_exists(goal.root@, path) && ahead(
                    start.path,
                    path,
                    direction,
                ) ==> ahead(cursor::element_place(element).path, path, direction),
        decreases cursor::element_place(element).path.len(),
    {
        let ghost place = cursor::element_place(element);
        let sibling = match direction {
            Direction::Next => element.next_sibling_or_token(),
            Direction::Prev => element.prev_sibling_or_token(),
        };
        match sibling {
            Some(sibling) => {
                proof {
                    lemma_on_to_sibling(goal, place, direction);
                    let to = cursor::element_place(sibling);
                    assert(ahead(start.path, to.path, direction)) by {
                        model::lemma_before_through(place.path, start.path, to.path);
                    }
                }
                return Some(sibling);
            },
            None => {},
        }
        let parent = match element.parent() {
            Some(parent) => parent,
            None => {
                return None;
            },
        };
        proof {
            use_type_invariant(&parent);
            parent.lemma_valid();
            assert forall|path: Seq<int>|
                #[trigger] model::path_exists(goal.root@, path) && ahead(
                    start.path,
                    path,
                    direction,
                ) implies ahead(parent.place().path, path, direction) by {
                lemma_on_to_parent(goal, place, direction, path);
            }
            place.lemma_valid();
            assert(place.path.drop_last().push(place.index()) =~= place.path);
            model::lemma_rank_child(goal.root@, place.path.drop_last(), place.index(), forward);
            assert(start.path.take(parent.place().path.len() as int) =~= start.path.take(
                place.path.len() as int,
            ).drop_last());
            assert(parent.place().path.take(top_depth as int)
                =~= place.path.take(top_depth as int));
        }
        proof {
            top.lemma_valid();
            if parent.handle() == top.handle() {
                crate::cursor_data::lemma_same_below(goal, parent.place());
            }
            if parent.place().path.len() == top_depth {
                assert(parent.place().path =~= goal.path);
            }
        }
        if parent == *top {
            proof {
                assert forall|path: Seq<int>|
                    #[trigger] model::path_exists(goal.root@, path) && model::path_through(
                        path,
                        goal.path,
                    ) implies !ahead(start.path, path, direction) by {
                    model::lemma_before_irreflexive(goal.path, path);
                }
            }
            return None;
        }
        element = NodeOrToken::Node(parent);
    }
}

/// The invariant of an element says that its place exists.
proof fn lemma_element_place(element: SyntaxElement)
    requires
        match element {
            NodeOrToken::Node(node) => node.valid(),
            NodeOrToken::Token(token) => token.valid(),
        },
    ensures
        cursor::element_place(element).valid(),
        element is Node <==> cursor::element_place(element).tree() is Node,
{
    match element {
        NodeOrToken::Node(node) => {
            node.lemma_valid();
        },
        NodeOrToken::Token(token) => {
            token.lemma_valid();
        },
    }
}

/// Descend to the token nearest one edge of a subtree.
fn boundary_token(top: &SyntaxNode, direction: Direction) -> (token: Option<SyntaxToken>)
    ensures
        is_edge_token(top.place(), direction, token),
{
    let ghost goal = top.place();
    let ghost root = goal.root@;
    let ghost forward = direction == Direction::Next;
    proof {
        use_type_invariant(top);
        top.lemma_valid();
        assert(goal.path.take(goal.path.len() as int) =~= goal.path);
    }
    let mut current = match edge_child(top, direction) {
        Some(child) => child,
        None => {
            proof {
                assert forall|path: Seq<int>|
                    #[trigger] model::token_at(root, path) implies !model::path_through(
                    path,
                    goal.path,
                ) by {
                    if model::path_through(path, goal.path) {
                        lemma_through(root, goal.path, path);
                    }
                }
            }
            return None;
        },
    };
    proof {
        lemma_enter_child(goal, direction);
        assert forall|path: Seq<int>|
            #[trigger] model::token_at(root, path) && model::path_through(
                path,
                goal.path,
            ) implies model::path_through(path, cursor::element_place(current).path) || ahead(
            cursor::element_place(current).path,
            path,
            direction,
        ) by {
            lemma_through(root, goal.path, path);
        }
    }
    loop
        invariant
            goal == top.place(),
            goal.valid(),
            root == goal.root@,
            forward == (direction == Direction::Next),
            goal.holds(cursor::element_place(current)),
            cursor::element_place(current).path.len() > goal.path.len(),
            forall|path: Seq<int>|
                #[trigger] model::token_at(root, path) && model::path_through(path, goal.path)
                    ==> model::path_through(path, cursor::element_place(current).path) || ahead(
                    cursor::element_place(current).path,
                    path,
                    direction,
                ),
        decreases
                model::tree_size(root) - model::walk_rank(
                    root,
                    cursor::element_place(current).path,
                    forward,
                ),
    {
        let ghost place = cursor::element_place(current);
        proof {
            match &current {
                NodeOrToken::Node(node) => {
                    use_type_invariant(node);
                },
                NodeOrToken::Token(token) => {
                    use_type_invariant(token);
                },
            }
            lemma_element_place(current);
            model::lemma_rank_bound(root, place.path, forward);
        }
        let next = match current {
            NodeOrToken::Token(token) => {
                proof {
                    assert forall|path: Seq<int>|
                        #[trigger] model::token_at(root, path) && model::path_through(
                            path,
                            goal.path,
                        ) implies path == place.path || ahead(place.path, path, direction) by {
                        if model::path_through(path, place.path) {
                            lemma_through(root, place.path, path);
                        }
                    }
                }
                return Some(token);
            },
            NodeOrToken::Node(node) => match edge_child(&node, direction) {
                Some(child) => {
                    proof {
                        lemma_enter_child(place, direction);
                        let to = cursor::element_place(child);
                        assert(to.path.take(goal.path.len() as int) =~= place.path.take(
                            goal.path.len() as int,
                        ));
                        model::lemma_rank_child(root, place.path, to.path.last(), forward);
                        model::lemma_rank_bound(root, to.path, forward);
                        assert forall|path: Seq<int>|
                            #[trigger] model::token_at(root, path) && model::path_through(
                                path,
                                goal.path,
                            ) implies model::path_through(path, to.path) || ahead(
                            to.path,
                            path,
                            direction,
                        ) by {
                            if model::path_through(path, place.path) {
                                lemma_through(root, place.path, path);
                            } else {
                                model::lemma_before_through(place.path, to.path, path);
                            }
                        }
                    }
                    Some(child)
                },
                None => {
                    let behind = element_behind(&NodeOrToken::Node(node), top, direction);
                    proof {
                        assert forall|path: Seq<int>|
                            #[trigger] model::token_at(root, path) && model::path_through(
                                path,
                                goal.path,
                            ) implies ahead(place.path, path, direction) by {
                            if model::path_through(path, place.path) {
                                lemma_through(root, place.path, path);
                            }
                        }
                        if behind is Some {
                            model::lemma_rank_bound(
                                root,
                                cursor::element_place(behind->0).path,
                                forward,
                            );
                        }
                    }
                    behind
                },
            },
        };
        match next {
            Some(element) => {
                current = element;
            },
            None => {
                return None;
            },
        }
    }
}

/// The child nearest one edge of a node.
fn edge_child(node: &SyntaxNode, direction: Direction) -> (child: Option<SyntaxElement>)
    ensures
        match child {
            Some(child) => {
                let trees = node.place().tree().children();
                &&& trees.len() > 0
                &&& cursor::element_place(child) == node.place().child(edge_index(trees, direction))
            },
            None => node.place().tree().children().len() == 0,
        },
{
    match direction {
        Direction::Next => node.first_child_or_token(),
        Direction::Prev => node.last_child_or_token(),
    }
}

/// The index nearest one edge.
spec fn edge_index(trees: Seq<Tree>, direction: Direction) -> int {
    match direction {
        Direction::Next => 0,
        Direction::Prev => trees.len() - 1,
    }
}

/// A token below a node lies below one of its children; below a token lies nothing else.
proof fn lemma_through(root: Tree, upper: Seq<int>, path: Seq<int>)
    requires
        model::token_at(root, path),
        model::path_through(path, upper),
    ensures
        model::tree_at(root, upper) is Token ==> path == upper,
        model::tree_at(root, upper) is Node ==> {
            &&& path.len() > upper.len()
            &&& 0 <= path[upper.len() as int] < model::tree_at(root, upper).children().len()
        },
{
    if path.len() == upper.len() {
        assert(path =~= upper);
    } else {
        model::lemma_path_prefix(root, path, upper.len() as int);
    }
}

/// The child nearest an edge comes first of everything below its parent.
proof fn lemma_enter_child(place: Place, direction: Direction)
    requires
        place.valid(),
        place.tree().children().len() > 0,
    ensures
        ({
            let to = place.child(edge_index(place.tree().children(), direction));
            &&& to.valid()
            &&& place.holds(to)
            &&& model::path_exists(place.root@, to.path)
            &&& forall|path: Seq<int>|
                #![trigger model::path_through(path, place.path)]
                model::path_through(path, place.path) && path.len() > place.path.len() && 0
                    <= path[place.path.len() as int] < place.tree().children().len()
                    ==> model::path_through(path, to.path) || ahead(to.path, path, direction)
        }),
{
    let index = edge_index(place.tree().children(), direction);
    let to = place.child(index);
    place.lemma_child(index);
    assert(to.path.take(place.path.len() as int) =~= place.path);
    assert forall|path: Seq<int>|
        #![trigger model::path_through(path, place.path)]
        model::path_through(path, place.path) && path.len() > place.path.len() && 0
            <= path[place.path.len() as int]
            < place.tree().children().len() implies model::path_through(path, to.path) || ahead(
        to.path,
        path,
        direction,
    ) by {
        model::lemma_before_sibling(place.path, index, path);
    }
}

/// Find the next token in one source-order direction, skipping empty subtrees.
fn adjacent_token(start: SyntaxElement, direction: Direction) -> (token: Option<SyntaxToken>)
    ensures
        is_next_token(cursor::element_place(start), direction, token),
{
    let ghost origin = cursor::element_place(start);
    let ghost root = origin.root@;
    let ghost forward = direction == Direction::Next;
    let top = match root_of(&start) {
        Some(top) => top,
        None => {
            proof {
                assert forall|path: Seq<int>|
                    #[trigger] model::token_at(root, path) implies !ahead(
                    origin.path,
                    path,
                    direction,
                ) by {
                    assert(path.take(0) =~= origin.path);
                    model::lemma_before_irreflexive(origin.path, path);
                }
            }
            return None;
        },
    };
    let mut current = start;
    proof {
        assert forall|path: Seq<int>| model::path_through(path, top.place().path) by {
            assert(path.take(0) =~= top.place().path);
        }
    }
    loop
        invariant
            forward == (direction == Direction::Next),
            root == origin.root@,
            top.place().root == origin.root,
            top.place().is_root(),
            top.place().holds(cursor::element_place(current)),
            cursor::element_place(current).path.len() > 0,
            forall|path: Seq<int>| #[trigger] model::path_through(path, top.place().path),
            forall|path: Seq<int>|
                #[trigger] model::token_at(root, path) ==> (ahead(origin.path, path, direction)
                    <==> ahead(cursor::element_place(current).path, path, direction)),
            origin == cursor::element_place(start),
        decreases
                model::tree_size(root) - model::walk_rank(
                    root,
                    cursor::element_place(current).path,
                    forward,
                ),
    {
        let ghost place = cursor::element_place(current);
        proof {
            match &current {
                NodeOrToken::Node(node) => {
                    use_type_invariant(node);
                },
                NodeOrToken::Token(token) => {
                    use_type_invariant(token);
                },
            }
            lemma_element_place(current);
            model::lemma_rank_bound(root, place.path, forward);
        }
        let sibling = match element_behind(&current, &top, direction) {
            Some(sibling) => sibling,
            None => {
                return None;
            },
        };
        let ghost to = cursor::element_place(sibling);
        let token = match &sibling {
            NodeOrToken::Node(node) => boundary_token(node, direction),
            NodeOrToken::Token(token) => Some(token.clone()),
        };
        proof {
            match &sibling {
                NodeOrToken::Node(node) => {},
                NodeOrToken::Token(token) => {
                    use_type_invariant(token);
                    token.lemma_valid();
                    assert forall|path: Seq<int>|
                        #[trigger] model::token_at(root, path) && model::path_through(
                            path,
                            to.path,
                        ) implies path == to.path by {
                        lemma_through(root, to.path, path);
                    }
                    assert(to.path.take(to.path.len() as int) =~= to.path);
                },
            }
            assert(is_edge_token(to, direction, token));
        }
        if token.is_some() {
            proof {
                let found = token->0.place();
                model::lemma_before_through(to.path, found.path, place.path);
                assert(ahead(place.path, found.path, direction));
                assert forall|path: Seq<int>|
                    #[trigger] model::token_at(root, path) && ahead(
                        origin.path,
                        path,
                        direction,
                    ) implies path == found.path || ahead(found.path, path, direction) by {
                    if !model::path_through(path, to.path) {
                        model::lemma_before_through(to.path, found.path, path);
                    }
                }
            }
            return token;
        }
        proof {
            model::lemma_rank_bound(root, to.path, forward);
            assert forall|path: Seq<int>| #[trigger] model::token_at(root, path) implies (ahead(
                origin.path,
                path,
                direction,
            ) <==> ahead(to.path, path, direction)) by {
                if ahead(to.path, path, direction) {
                    match direction {
                        Direction::Next => {
                            model::lemma_before_transitive(place.path, to.path, path);
                        },
                        Direction::Prev => {
                            model::lemma_before_transitive(path, to.path, place.path);
                        },
                    }
                }
            }
        }
        current = sibling;
    }
}

/// Climb from an element to the root of its tree; a root has nothing above it.
fn root_of(element: &SyntaxElement) -> (root: Option<SyntaxNode>)
    ensures
        match root {
            Some(root) => {
                &&& !cursor::element_place(*element).is_root()
                &&& root.place().is_root()
                &&& root.place().root == cursor::element_place(*element).root
                &&& root.place().holds(cursor::element_place(*element))
            },
            None => cursor::element_place(*element).is_root(),
        },
{
    let ghost place = cursor::element_place(*element);
    let mut current = match element.parent() {
        Some(parent) => parent,
        None => {
            return None;
        },
    };
    loop
        invariant
            !place.is_root(),
            place == cursor::element_place(*element),
            current.place().root == place.root,
        decreases current.place().path.len(),
    {
        match current.parent() {
            Some(parent) => {
                current = parent;
            },
            None => {
                assert(place.path.take(0) =~= current.place().path);
                return Some(current);
            },
        }
    }
}

impl SyntaxNode {
    /// Return the leftmost token in this subtree.
    pub fn first_token(&self) -> (token: Option<SyntaxToken>)
        ensures
            is_edge_token(self.place(), Direction::Next, token),
    {
        boundary_token(self, Direction::Next)
    }

    /// Return the rightmost token in this subtree.
    pub fn last_token(&self) -> (token: Option<SyntaxToken>)
        ensures
            is_edge_token(self.place(), Direction::Prev, token),
    {
        boundary_token(self, Direction::Prev)
    }
}

impl SyntaxToken {
    /// Return the next token in source order.
    pub fn next_token(&self) -> (token: Option<Self>)
        ensures
            is_next_token(self.place(), Direction::Next, token),
    {
        adjacent_token(NodeOrToken::Token(self.clone()), Direction::Next)
    }

    /// Return the previous token in source order.
    pub fn prev_token(&self) -> (token: Option<Self>)
        ensures
            is_next_token(self.place(), Direction::Prev, token),
    {
        adjacent_token(NodeOrToken::Token(self.clone()), Direction::Prev)
    }
}

impl SyntaxElement {
    /// Return this element's leftmost token.
    pub fn first_token(&self) -> (token: Option<SyntaxToken>)
        ensures
            is_edge_token(cursor::element_place(*self), Direction::Next, token),
    {
        match self {
            NodeOrToken::Node(node) => node.first_token(),
            NodeOrToken::Token(token) => {
                proof {
                    use_type_invariant(token);
                    lemma_own_token(*token, Direction::Next);
                }
                Some(token.clone())
            },
        }
    }

    /// Return this element's rightmost token.
    pub fn last_token(&self) -> (token: Option<SyntaxToken>)
        ensures
            is_edge_token(cursor::element_place(*self), Direction::Prev, token),
    {
        match self {
            NodeOrToken::Node(node) => node.last_token(),
            NodeOrToken::Token(token) => {
                proof {
                    use_type_invariant(token);
                    lemma_own_token(*token, Direction::Prev);
                }
                Some(token.clone())
            },
        }
    }
}

/// A token is the only token of its subtree.
proof fn lemma_own_token(token: SyntaxToken, direction: Direction)
    requires
        token.valid(),
    ensures
        is_edge_token(token.place(), direction, Some(token)),
{
    let place = token.place();
    token.lemma_valid();
    assert(place.path.take(place.path.len() as int) =~= place.path);
    assert forall|path: Seq<int>|
        #[trigger] model::token_at(place.root@, path) && model::path_through(
            path,
            place.path,
        ) implies path == place.path by {
        lemma_through(place.root@, place.path, path);
    }
}

/// A query range selects a child: an empty one where it starts or strictly inside it, another one
/// where it lies inside it.
pub open spec fn selects(child_start: nat, child_end: nat, start: nat, end: nat) -> bool {
    if start == end {
        child_start == start || child_start < start < child_end
    } else {
        child_start <= start && end <= child_end
    }
}

/// Test whether one direct child satisfies the deterministic range-selection rule.
pub fn query_selects_child(child_range: TextRange, query: TextRange) -> (selected: bool)
    ensures
        selected == selects(
            child_range.lo()@,
            child_range.hi()@,
            query.lo()@,
            query.hi()@,
        ),
{
    if query.is_empty() {
        let offset = query.start();
        child_range.start().raw == offset.raw || (child_range.start().raw < offset.raw && offset.raw
            < child_range.end().raw)
    } else {
        assert(query.lo()@ != query.hi()@);
        child_range.contains_range(query)
    }
}

/// Validate a caller-provided absolute range before any query arithmetic.
pub fn validate_query_range(valid: TextRange, requested: TextRange) -> (checked: Result<
    (),
    RangeError,
>)
    ensures
        match checked {
            Ok(_) => valid.lo()@ <= requested.lo()@ && requested.hi()@ <= valid.hi()@,
            Err(error) => {
                &&& !(valid.lo()@ <= requested.lo()@ && requested.hi()@ <= valid.hi()@)
                &&& error == (RangeError::RangeOutOfBounds { requested, valid })
            },
        },
{
    if requested.start().raw > requested.end().raw {
        return Err(
            RangeError::ReversedRange { start: requested.start(), end: requested.end() },
        );
    }
    if valid.contains_range(requested) {
        Ok(())
    } else {
        Err(RangeError::RangeOutOfBounds { requested, valid })
    }
}

/// The first child from an index on that a query selects; the children start at `base`.
pub open spec fn selected_from(
    trees: Seq<Tree>,
    base: nat,
    start: nat,
    end: nat,
    index: int,
) -> Option<int>
    decreases trees.len() - index,
{
    if index >= trees.len() {
        None
    } else {
        let child_start = base + model::offset_in(trees, index);
        if selects(child_start, child_start + trees[index].len(), start, end) {
            Some(index)
        } else {
            selected_from(trees, base, start, end, index + 1)
        }
    }
}

/// The child of a tree that a range query picks: the last one for an empty range at the end, else
/// the first one that the query selects.
pub open spec fn picked_child(tree: Tree, base: nat, start: nat, end: nat) -> Option<int> {
    if start == end && start == base + tree.len() {
        if tree.children().len() == 0 {
            None
        } else {
            Some(tree.children().len() - 1)
        }
    } else {
        selected_from(tree.children(), base, start, end, 0)
    }
}

/// The way that a range query takes downward.
pub open spec fn covering_path(tree: Tree, base: nat, start: nat, end: nat) -> Seq<int>
    decreases tree,
{
    match picked_child(tree, base, start, end) {
        Some(index) => if 0 <= index < tree.children().len() {
            seq![index] + covering_path(
                tree.children()[index],
                base + model::offset_in(tree.children(), index),
                start,
                end,
            )
        } else {
            Seq::empty()
        },
        None => Seq::empty(),
    }
}

/// The valid range of a place.
pub open spec fn range_at(place: Place) -> TextRange {
    crate::text::range_of(
        crate::text::size_of_count(place.start()),
        crate::text::size_of_count(place.end()),
    )
}

/// A range lies inside a place.
pub open spec fn range_inside(place: Place, range: TextRange) -> bool {
    place.start() <= range.lo()@ && range.hi()@ <= place.end()
}

impl SyntaxNode {
    /// Return the direct child that fully contains an absolute range.
    ///
    /// Valid ranges spanning multiple children return `Ok(None)`. Empty internal boundaries are
    /// right-biased; an empty range at this node's end selects its last child.
    pub fn child_or_token_at_range(&self, range: TextRange) -> (found: Result<
        Option<SyntaxElement>,
        RangeError,
    >)
        ensures
            match found {
                Ok(child) => {
                    let index = picked_child(
                        self.place().tree(),
                        self.place().start(),
                        range.lo()@,
                        range.hi()@,
                    );
                    &&& range_inside(self.place(), range)
                    &&& child is Some <==> index is Some
                    &&& child matches Some(child) ==> {
                        &&& 0 <= index->0 < self.place().tree().children().len()
                        &&& cursor::element_place(child) == self.place().child(index->0)
                    }
                },
                Err(error) => {
                    &&& !range_inside(self.place(), range)
                    &&& error == (RangeError::RangeOutOfBounds {
                        requested: range,
                        valid: range_at(self.place()),
                    })
                },
            },
            found matches Ok(Some(child)) ==> {
                &&& cursor::element_place(child).parent() == self.place()
                &&& cursor::element_place(child).start() <= range.lo()@
                &&& range.hi()@ <= cursor::element_place(child).end()
            },
            range.lo()@ < range.hi()@ ==> forall|i: int|
                #![trigger self.place().child(i)]
                0 <= i < self.place().tree().children().len() && self.place().child(i).start()
                    <= range.lo()@ && range.hi()@ <= self.place().child(i).end() ==> (
                found matches Ok(Some(child)) && cursor::element_place(child) == self.place().child(i)),
            range.lo()@ == range.hi()@ && range.lo()@ == self.place().end()
                && self.place().tree().children().len() > 0 ==> (found matches Ok(Some(child))
                && cursor::element_place(child) == self.place().child(
                self.place().tree().children().len() - 1,
            )),
            range.lo()@ == range.hi()@ && self.place().start() <= range.lo()@
                < self.place().end() ==> (found matches Ok(Some(child)) && {
                let chosen = cursor::element_place(child);
                &&& chosen.start() == range.lo()@ || range.lo()@ < chosen.end()
                &&& forall|i: int|
                    #![trigger self.place().child(i)]
                    0 <= i < chosen.index() ==> self.place().child(i).start() < range.lo()@
                        && self.place().child(i).end() <= range.lo()@
            }),
    {
        let first = range.start();
        let found = self.picked_at_range(range);
        proof {
            use_type_invariant(self);
            self.lemma_valid();
            let place = self.place();
            if range_inside(place, range) {
                query_laws::lemma_child_at_range(place, range.lo()@, range.hi()@);
                let picked = picked_child(place.tree(), place.start(), range.lo()@, range.hi()@);
                if picked is Some {
                    place.lemma_child(picked->0);
                }
            } else {
                assert forall|i: int|
                    #![trigger place.child(i)]
                    0 <= i < place.tree().children().len() implies !(place.child(i).start()
                    <= range.lo()@ && range.hi()@ <= place.child(i).end()) by {
                    place.lemma_child(i);
                }
            }
        }
        found
    }

    /// Return the direct child that a range query picks.
    fn picked_at_range(&self, range: TextRange) -> (found: Result<
        Option<SyntaxElement>,
        RangeError,
    >)
        ensures
            match found {
                Ok(child) => {
                    let index = picked_child(
                        self.place().tree(),
                        self.place().start(),
                        range.lo()@,
                        range.hi()@,
                    );
                    &&& range_inside(self.place(), range)
                    &&& child is Some <==> index is Some
                    &&& child matches Some(child) ==> {
                        &&& 0 <= index->0 < self.place().tree().children().len()
                        &&& cursor::element_place(child) == self.place().child(index->0)
                    }
                },
                Err(error) => {
                    &&& !range_inside(self.place(), range)
                    &&& error == (RangeError::RangeOutOfBounds {
                        requested: range,
                        valid: range_at(self.place()),
                    })
                },
            },
    {
        broadcast use crate::text::group_text_range;

        let valid = self.text_range();
        proof {
            use_type_invariant(self);
            self.lemma_valid();
            assert(valid == range_at(self.place()));
        }
        match validate_query_range(valid, range) {
            Ok(_) => {},
            Err(error) => {
                return Err(error);
            },
        }
        if range.is_empty() && range.start().raw == valid.end().raw {
            return Ok(self.last_child_or_token());
        }
        let ghost place = self.place();
        let ghost trees = place.tree().children();
        let count: usize = self.child_count();
        let mut index: usize = 0;
        while index < count
            invariant
                self.valid(),
                place == self.place(),
                trees == place.tree().children(),
                count == trees.len(),
                index <= count,
                range_inside(place, range),
                !(range.lo()@ == range.hi()@ && range.lo()@ == place.end()),
                selected_from(trees, place.start(), range.lo()@, range.hi()@, 0) == selected_from(
                    trees,
                    place.start(),
                    range.lo()@,
                    range.hi()@,
                    index as int,
                ),
            decreases count - index,
        {
            proof {
                self.lemma_valid();
                place.lemma_child(index as int);
            }
            match self.child_at(index) {
                Some(child) => {
                    if query_selects_child(child.text_range(), range) {
                        return Ok(Some(child));
                    }
                },
                None => {},
            }
            index += 1;
        }
        Ok(None)
    }

    /// Return the deepest descendant that fully contains an absolute range.
    pub fn covering_element(&self, range: TextRange) -> (found: Result<SyntaxElement, RangeError>)
        ensures
            match found {
                Ok(element) => {
                    &&& range_inside(self.place(), range)
                    &&& cursor::element_place(element) == self.place().below(
                        covering_path(
                            self.place().tree(),
                            self.place().start(),
                            range.lo()@,
                            range.hi()@,
                        ),
                    )
                },
                Err(error) => {
                    &&& !range_inside(self.place(), range)
                    &&& error == (RangeError::RangeOutOfBounds {
                        requested: range,
                        valid: range_at(self.place()),
                    })
                },
            },
            found matches Ok(element) ==> {
                let covering = cursor::element_place(element);
                &&& self.place().holds(covering)
                &&& covering.start() <= range.lo()@
                &&& range.hi()@ <= covering.end()
                &&& range.lo()@ < range.hi()@ ==> forall|other: Place|
                    #![trigger other.valid()]
                    other.valid() && self.place().holds(other) && other.start() <= range.lo()@
                        && range.hi()@ <= other.end() ==> other.holds(covering)
                &&& range.lo()@ == range.hi()@ ==> covering.tree().children().len() == 0
            },
    {
        let first = range.start();
        let found = self.covered_at_range(range);
        proof {
            use_type_invariant(self);
            self.lemma_valid();
            if range_inside(self.place(), range) {
                query_laws::lemma_covering(self.place(), range.lo()@, range.hi()@);
            }
        }
        found
    }

    /// Return the element that a range query ends at.
    fn covered_at_range(&self, range: TextRange) -> (found: Result<SyntaxElement, RangeError>)
        ensures
            match found {
                Ok(element) => {
                    &&& range_inside(self.place(), range)
                    &&& cursor::element_place(element) == self.place().below(
                        covering_path(
                            self.place().tree(),
                            self.place().start(),
                            range.lo()@,
                            range.hi()@,
                        ),
                    )
                },
                Err(error) => {
                    &&& !range_inside(self.place(), range)
                    &&& error == (RangeError::RangeOutOfBounds {
                        requested: range,
                        valid: range_at(self.place()),
                    })
                },
            },
    {
        broadcast use crate::text::group_text_range;

        let valid = self.text_range();
        let first = range.start();
        let ghost top = self.place();
        let ghost low = range.lo()@;
        let ghost high = range.hi()@;
        proof {
            use_type_invariant(self);
            self.lemma_valid();
            assert(valid == range_at(self.place()));
        }
        match validate_query_range(valid, range) {
            Ok(_) => {},
            Err(error) => {
                return Err(error);
            },
        }
        let ghost whole = covering_path(top.tree(), top.start(), low, high);
        let mut current: SyntaxElement = NodeOrToken::Node(self.clone());
        proof {
            assert(top.below(whole) =~= top.below(
                covering_path(top.tree(), top.start(), low, high),
            ));
        }
        loop
            invariant
                low == range.lo()@,
                high == range.hi()@,
                low <= high,
                top == self.place(),
                range_inside(top, range),
                range_inside(cursor::element_place(current), range),
                cursor::element_place(current).below(
                    covering_path(
                        cursor::element_place(current).tree(),
                        cursor::element_place(current).start(),
                        low,
                        high,
                    ),
                ) == top.below(covering_path(top.tree(), top.start(), low, high)),
            decreases cursor::element_place(current).tree(),
        {
            let ghost place = cursor::element_place(current);
            proof {
                match &current {
                    NodeOrToken::Node(node) => {
                        use_type_invariant(node);
                    },
                    NodeOrToken::Token(token) => {
                        use_type_invariant(token);
                    },
                }
                lemma_element_place(current);
            }
            match current {
                NodeOrToken::Token(token) => {
                    assert(place.below(Seq::empty()) =~= place);
                    return Ok(NodeOrToken::Token(token));
                },
                NodeOrToken::Node(node) => match node.child_or_token_at_range(range) {
                    Ok(Some(child)) => {
                        proof {
                            let index = picked_child(place.tree(), place.start(), low, high)->0;
                            place.lemma_child(index);
                            lemma_picked_inside(place.tree(), place.start(), low, high);
                            let lower = covering_path(
                                place.child(index).tree(),
                                place.child(index).start(),
                                low,
                                high,
                            );
                            assert(place.path + (seq![index] + lower) =~= place.path.push(index)
                                + lower);
                            assert(decreases_to!(place.tree() => place.tree().children()[index]));
                        }
                        current = child;
                    },
                    Ok(None) => {
                        assert(place.below(Seq::empty()) =~= place);
                        return Ok(NodeOrToken::Node(node));
                    },
                    Err(error) => {
                        return Err(error);
                    },
                },
            }
        }
    }
}

/// A picked child contains the range.
pub proof fn lemma_picked_inside(tree: Tree, base: nat, start: nat, end: nat)
    requires
        base <= start <= end <= base + tree.len(),
        tree is Node,
    ensures
        picked_child(tree, base, start, end) matches Some(index) ==> {
            let child_start = base + model::offset_in(tree.children(), index);
            &&& 0 <= index < tree.children().len()
            &&& child_start <= start
            &&& end <= child_start + tree.children()[index].len()
        },
{
    let trees = tree.children();
    if start == end && start == base + tree.len() {
        if trees.len() > 0 {
            model::lemma_child_inside(trees, trees.len() - 1);
            model::lemma_offset_order(trees, 0, trees.len() as int);
        }
    } else {
        lemma_selected_inside(trees, base, start, end, 0);
    }
}

pub proof fn lemma_selected_inside(trees: Seq<Tree>, base: nat, start: nat, end: nat, index: int)
    requires
        0 <= index,
        start <= end,
    ensures
        selected_from(trees, base, start, end, index) matches Some(found) ==> {
            let child_start = base + model::offset_in(trees, found);
            &&& index <= found < trees.len()
            &&& selects(child_start, child_start + trees[found].len(), start, end)
            &&& child_start <= start
            &&& end <= child_start + trees[found].len()
        },
    decreases trees.len() - index,
{
    if index < trees.len() {
        lemma_selected_inside(trees, base, start, end, index + 1);
    }
}

/// A token of the subtree holds text that touches an offset.
pub open spec fn touches(place: Place, path: Seq<int>, offset: nat) -> bool {
    &&& model::token_at(place.root@, path)
    &&& model::path_through(path, place.path)
    &&& model::tree_at(place.root@, path).len() > 0
    &&& model::offset_at(place.root@, path) <= offset <= model::offset_at(place.root@, path)
        + model::tree_at(place.root@, path).len()
}

/// The tokens are those of the subtree that touch an offset, in source order.
pub open spec fn are_touching(place: Place, offset: nat, tokens: Seq<SyntaxToken>) -> bool {
    &&& forall|i: int|
        0 <= i < tokens.len() ==> {
            &&& (#[trigger] tokens[i]).place().root == place.root
            &&& touches(place, tokens[i].place().path, offset)
        }
    &&& forall|path: Seq<int>|
        #[trigger] touches(place, path, offset) ==> exists|i: int|
            0 <= i < tokens.len() && (#[trigger] tokens[i]).place().path == path
    &&& forall|i: int, j: int|
        0 <= i < j < tokens.len() ==> model::path_before(
            (#[trigger] tokens[i]).place().path,
            (#[trigger] tokens[j]).place().path,
        )
}

/// No offset touches three tokens.
pub proof fn lemma_touching_pair(place: Place, offset: nat, tokens: Seq<SyntaxToken>)
    requires
        forall|i: int|
            0 <= i < tokens.len() ==> touches(
                place,
                (#[trigger] tokens[i]).place().path,
                offset,
            ),
        forall|i: int, j: int|
            0 <= i < j < tokens.len() ==> model::path_before(
                (#[trigger] tokens[i]).place().path,
                (#[trigger] tokens[j]).place().path,
            ),
    ensures
        tokens.len() <= 2,
{
    if tokens.len() >= 3 {
        let root = place.root@;
        let first = tokens[0].place().path;
        let second = tokens[1].place().path;
        let third = tokens[2].place().path;
        model::lemma_before_offsets(root, first, second);
        model::lemma_before_offsets(root, second, third);
    }
}

impl SyntaxNode {
    /// Find the token or adjacent token pair touching an absolute offset.
    pub fn token_at_offset(&self, offset: TextSize) -> (found: Result<
        TokenAtOffset<SyntaxToken>,
        RangeError,
    >)
        ensures
            match found {
                Ok(tokens) => {
                    &&& self.place().start() <= offset@ <= self.place().end()
                    &&& are_touching(self.place(), offset@, tokens.tokens())
                },
                Err(error) => {
                    &&& !(self.place().start() <= offset@ <= self.place().end())
                    &&& error == (RangeError::OffsetOutOfBounds {
                        offset,
                        valid: range_at(self.place()),
                    })
                },
            },
            found matches Ok(tokens) ==> {
                &&& self.place().start() < self.place().end() ==> !(tokens is Empty)
                &&& forall|token: Place|
                    #![trigger token.valid()]
                    token.valid() && self.place().holds(token) && token.tree() is Token
                        && token.start() < token.end() ==> ((token.start() <= offset@
                        <= token.end()) <==> match tokens {
                        TokenAtOffset::Empty => false,
                        TokenAtOffset::Single(single) => single.place() == token,
                        TokenAtOffset::Between(left, right) => left.place() == token
                            || right.place() == token,
                    })
                &&& tokens matches TokenAtOffset::Between(left, right) ==> left.place().end()
                    == offset@ && right.place().start() == offset@
            },
    {
        broadcast use crate::text::group_text_range;

        let valid = self.text_range();
        let ghost place = self.place();
        let ghost root = place.root@;
        proof {
            use_type_invariant(self);
            self.lemma_valid();
            assert(valid == range_at(self.place()));
        }
        if !valid.contains_inclusive(offset) {
            return Err(RangeError::OffsetOutOfBounds { offset, valid });
        }
        let mut touching: Vec<SyntaxToken> = Vec::new();
        let mut current = self.first_token();
        loop
            invariant
                self.valid(),
                place == self.place(),
                root == place.root@,
                valid.lo()@ == place.start(),
                valid.hi()@ == place.end(),
                forall|i: int|
                    0 <= i < touching@.len() ==> {
                        &&& (#[trigger] touching@[i]).place().root == place.root
                        &&& touches(place, touching@[i].place().path, offset@)
                        &&& current matches Some(token) ==> model::path_before(
                            touching@[i].place().path,
                            token.place().path,
                        )
                    },
                forall|i: int, j: int|
                    0 <= i < j < touching@.len() ==> model::path_before(
                        (#[trigger] touching@[i]).place().path,
                        (#[trigger] touching@[j]).place().path,
                    ),
                current matches Some(token) ==> {
                    &&& token.place().root == place.root
                    &&& model::token_at(root, token.place().path)
                    &&& model::path_through(token.place().path, place.path) || model::path_before(
                        place.path,
                        token.place().path,
                    )
                },
                forall|path: Seq<int>|
                    #[trigger] touches(place, path, offset@) ==> listed_or_ahead(
                        touching@,
                        current,
                        path,
                    ),
            ensures
                are_touching(place, offset@, touching@),
            decreases
                    match current {
                        Some(token) => model::tree_size(root) + 1 - model::walk_rank(
                            root,
                            token.place().path,
                            true,
                        ),
                        None => 0,
                    },
        {
            let token = match &current {
                Some(token) => token.clone(),
                None => {
                    proof {
                        lemma_all_listed(place, offset@, touching@, current);
                    }
                    break ;
                },
            };
            let ghost path = token.place().path;
            let range = token.text_range();
            proof {
                use_type_invariant(&token);
                token.lemma_valid();
                self.lemma_valid();
                if model::path_before(place.path, path) {
                    model::lemma_before_offsets(root, place.path, path);
                }
            }
            if range.start().raw >= valid.end().raw {
                proof {
                    assert forall|other: Seq<int>|
                        #[trigger] touches(place, other, offset@) implies exists|i: int|
                        0 <= i < touching@.len() && (#[trigger] touching@[i]).place().path
                            == other by {
                        assert(listed_or_ahead(touching@, current, other));
                        model::lemma_inside_upper(root, place.path, other);
                        if model::path_before(path, other) {
                            model::lemma_before_offsets(root, path, other);
                        }
                    }
                }
                break ;
            }
            let next = token.next_token();
            let ghost earlier = touching@;
            proof {
                if next is Some {
                    let behind = next->0.place().path;
                    model::lemma_rank_ahead(root, path, behind);
                    model::lemma_rank_bound(root, behind, true);
                    assert(model::path_through(behind, place.path) || model::path_before(
                        place.path,
                        behind,
                    )) by {
                        lemma_stays_or_leaves(place.path, path, behind);
                    }
                    assert forall|i: int|
                        0 <= i < touching@.len() implies #[trigger] model::path_before(
                        touching@[i].place().path,
                        behind,
                    ) by {
                        model::lemma_before_transitive(touching@[i].place().path, path, behind);
                    }
                }
                model::lemma_rank_bound(root, path, true);
            }
            if !range.is_empty() && range.contains_inclusive(offset) {
                assert(touches(place, path, offset@));
                touching.push(token);
                assert(touching@[earlier.len() as int].place().path == path);
            }
            proof {
                assert forall|other: Seq<int>|
                    #[trigger] touches(place, other, offset@) implies listed_or_ahead(
                    touching@,
                    next,
                    other,
                ) by {
                    assert(listed_or_ahead(earlier, current, other));
                    if exists|i: int|
                        0 <= i < earlier.len() && (#[trigger] earlier[i]).place().path == other {
                        let i = choose|i: int|
                            0 <= i < earlier.len() && (#[trigger] earlier[i]).place().path == other;
                        assert(touching@[i].place().path == other);
                    } else if other == path {
                        assert(touching@[earlier.len() as int].place().path == other);
                    } else {
                        assert(model::path_before(path, other));
                    }
                }
            }
            current = next;
        }
        proof {
            lemma_touching_pair(place, offset@, touching@);
        }
        let found = two_tokens(touching);
        proof {
            query_laws::lemma_tokens_at_offset(place, offset@, found);
        }
        Ok(found)
    }
}

/// A path is among the tokens found, or the walk still comes to it.
spec fn listed_or_ahead(
    tokens: Seq<SyntaxToken>,
    current: Option<SyntaxToken>,
    path: Seq<int>,
) -> bool {
    ||| exists|i: int| 0 <= i < tokens.len() && (#[trigger] tokens[i]).place().path == path
    ||| (current matches Some(token) && (token.place().path == path || model::path_before(
        token.place().path,
        path,
    )))
}

proof fn lemma_all_listed(
    place: Place,
    offset: nat,
    tokens: Seq<SyntaxToken>,
    current: Option<SyntaxToken>,
)
    requires
        current is None,
        forall|path: Seq<int>|
            #[trigger] touches(place, path, offset) ==> listed_or_ahead(tokens, current, path),
    ensures
        forall|path: Seq<int>|
            #[trigger] touches(place, path, offset) ==> exists|i: int|
                0 <= i < tokens.len() && (#[trigger] tokens[i]).place().path == path,
{
    assert forall|path: Seq<int>| #[trigger] touches(place, path, offset) implies exists|i: int|
        0 <= i < tokens.len() && (#[trigger] tokens[i]).place().path == path by {
        assert(listed_or_ahead(tokens, current, path));
    }
}

/// What comes behind an element of a subtree, or behind the subtree, stays in it or leaves it.
proof fn lemma_stays_or_leaves(top: Seq<int>, path: Seq<int>, behind: Seq<int>)
    requires
        model::path_through(path, top) || model::path_before(top, path),
        model::path_before(path, behind),
    ensures
        model::path_through(behind, top) || model::path_before(top, behind),
{
    if model::path_before(top, path) {
        model::lemma_before_transitive(top, path, behind);
    } else {
        let depth = choose|depth: int| #[trigger] model::parts_at(path, behind, depth);
        if depth >= top.len() {
            assert(behind.take(top.len() as int) =~= behind.take(depth).take(top.len() as int));
            assert(path.take(top.len() as int) =~= path.take(depth).take(top.len() as int));
        } else {
            assert(path.take(top.len() as int)[depth] == top[depth]);
            assert(path.take(top.len() as int).take(depth) =~= path.take(depth));
            assert(top.take(depth) =~= path.take(depth));
            assert(model::parts_at(top, behind, depth));
        }
    }
}

/// Wrap at most two tokens.
fn two_tokens(tokens: Vec<SyntaxToken>) -> (wrapped: TokenAtOffset<SyntaxToken>)
    requires
        tokens@.len() <= 2,
    ensures
        wrapped.tokens() == tokens@,
{
    if tokens.len() == 0 {
        assert(tokens@ =~= Seq::empty());
        TokenAtOffset::Empty
    } else if tokens.len() == 1 {
        assert(tokens@ =~= seq![tokens@[0]]);
        TokenAtOffset::Single(tokens[0].clone())
    } else {
        assert(tokens@ =~= seq![tokens@[0], tokens@[1]]);
        TokenAtOffset::Between(tokens[0].clone(), tokens[1].clone())
    }
}

} // verus!
