//! Iterative child and preorder traversal for immutable red cursors.

use vstd::prelude::*;
use vstd::string::StringExecFns;

use crate::cursor;
use crate::cursor::SyntaxElement;
use crate::cursor::SyntaxNode;
use crate::cursor_data::Place;
use crate::green::SyntaxKind;
use crate::model;
use crate::model::Tree;
use crate::utility_types::NodeOrToken;
use crate::utility_types::WalkEvent;

verus! {

/// Misuse of preorder subtree skipping.
#[derive(Debug, Clone, Copy, PartialEq, Eq, Structural)]
pub enum TraversalError {
    /// The most recently yielded event did not enter a node subtree.
    NoNodeSubtree,
    /// A skip was already requested for the current entered node.
    SkipAlreadyRequested,
}

/// The child places from an index on: all of them, or those of nodes only.
pub open spec fn child_places(
    place: Place,
    trees: Seq<Tree>,
    index: int,
    nodes_only: bool,
) -> Seq<Place>
    decreases trees.len() - index,
{
    if index >= trees.len() {
        Seq::empty()
    } else {
        let rest = child_places(place, trees, index + 1, nodes_only);
        if nodes_only && trees[index] is Token {
            rest
        } else {
            seq![place.child(index)] + rest
        }
    }
}

/// Children that a search for nodes passes over contribute nothing.
proof fn lemma_places_skip(place: Place, trees: Seq<Tree>, low: int, high: int)
    requires
        0 <= low <= high <= trees.len(),
        forall|i: int| low <= i < high ==> (#[trigger] trees[i]) is Token,
    ensures
        child_places(place, trees, low, true) == child_places(place, trees, high, true),
    decreases high - low,
{
    if low < high {
        assert(trees[low] is Token);
        lemma_places_skip(place, trees, low + 1, high);
    }
}

/// Without a choice the child places are those of all children.
pub proof fn lemma_all_places(place: Place, trees: Seq<Tree>, index: int)
    requires
        0 <= index <= trees.len(),
    ensures
        child_places(place, trees, index, false).len() == trees.len() - index,
        forall|i: int|
            0 <= i < trees.len() - index
                ==> (#[trigger] child_places(place, trees, index, false)[i])
                == place.child(index + i),
    decreases trees.len() - index,
{
    if index < trees.len() {
        lemma_all_places(place, trees, index + 1);
        let rest = child_places(place, trees, index + 1, false);
        assert forall|i: int| 0 <= i < trees.len() - index implies (#[trigger] child_places(
            place,
            trees,
            index,
            false,
        )[i]) == place.child(index + i) by {
            if i > 0 {
                assert(child_places(place, trees, index, false)[i] == rest[i - 1]);
            }
        }
    }
}

/// Taking the first of the remaining items.
pub proof fn lemma_first_taken<A>(all: Seq<A>, passed: int, first: A, rest: Seq<A>)
    requires
        0 <= passed <= all.len(),
        all.skip(passed) == seq![first] + rest,
    ensures
        passed < all.len(),
        all[passed] == first,
        rest == all.skip(passed + 1),
        all == all.take(passed) + seq![first] + rest,
{
    assert(all.skip(passed).len() == 1 + rest.len());
    assert(passed < all.len());
    assert(all.skip(passed)[0] == first);
    assert forall|i: int| 0 <= i < rest.len() implies rest[i] == all.skip(passed + 1)[i] by {
        assert((seq![first] + rest)[i + 1] == rest[i]);
        assert(all.skip(passed)[i + 1] == all[passed + i + 1]);
    }
    assert(rest =~= all.skip(passed + 1));
    assert(all =~= all.take(passed) + seq![first] + rest);
}

/// Direct child nodes, one after the other.
pub struct SyntaxNodeChildren {
    /// Parent whose children are traversed.
    parent: SyntaxNode,
    /// Last yielded node, retained for allocation-reusing advancement.
    current: Option<SyntaxNode>,
    /// Whether the first child has already been selected.
    initialized: bool,
}

impl SyntaxNodeChildren {
    /// The yielded node is a child of the parent.
    #[verifier::type_invariant]
    spec fn agrees(self) -> bool {
        self.current matches Some(node) ==> {
            &&& node.place() == self.parent.place().child(node.place().index())
            &&& 0 <= node.place().index() < self.parent.place().tree().children().len()
        }
    }

    /// The places of the nodes that are still to come.
    pub closed spec fn remaining(self) -> Seq<Place> {
        let place = self.parent.place();
        if !self.initialized {
            child_places(place, place.tree().children(), 0, true)
        } else {
            match self.current {
                Some(node) => child_places(
                    place,
                    place.tree().children(),
                    node.place().index() + 1,
                    true,
                ),
                None => Seq::empty(),
            }
        }
    }

    /// Start before the first child node.
    pub(crate) fn new(parent: SyntaxNode) -> (children: Self)
        ensures
            children.remaining() == child_places(
                parent.place(),
                parent.place().tree().children(),
                0,
                true,
            ),
    {
        SyntaxNodeChildren { parent, current: None, initialized: false }
    }

    /// Yield the next child node.
    pub fn next(&mut self) -> (node: Option<SyntaxNode>)
        ensures
            match node {
                Some(node) => old(self).remaining() == seq![node.place()] + final(self).remaining(),
                None => old(self).remaining().len() == 0 && final(self).remaining().len() == 0,
            },
    {
        proof {
            use_type_invariant(&*self);
        }
        let ghost place = self.parent.place();
        let ghost trees = place.tree().children();
        let parent = self.parent.clone();
        proof {
            use_type_invariant(&parent);
            parent.lemma_valid();
        }
        let next = if self.initialized {
            let current = self.take_current();
            match current {
                Some(node) => {
                    let ghost index = node.place().index();
                    proof {
                        assert(place.path.push(index).drop_last() =~= place.path);
                        assert(node.place().siblings() == trees);
                    }
                    let next = node.into_next_sibling();
                    proof {
                        let high = if next is Some {
                            next->0.place().index()
                        } else {
                            trees.len() as int
                        };
                        lemma_places_skip(place, trees, index + 1, high);
                    }
                    next
                },
                None => None,
            }
        } else {
            let next = parent.first_child();
            proof {
                let high = if next is Some {
                            next->0.place().index()
                        } else {
                            trees.len() as int
                        };
                lemma_places_skip(place, trees, 0, high);
            }
            next
        };
        let yielded = match &next {
            Some(node) => Some(node.clone()),
            None => None,
        };
        *self = SyntaxNodeChildren { parent, current: next, initialized: true };
        yielded
    }

    /// Take the last yielded node out of the state.
    fn take_current(&mut self) -> (current: Option<SyntaxNode>)
        ensures
            current == old(self).current,
            final(self).parent == old(self).parent,
            final(self).initialized == old(self).initialized,
            final(self).current is None,
    {
        let mut current: Option<SyntaxNode> = None;
        std::mem::swap(&mut current, &mut self.current);
        current
    }

    /// Collect the nodes that are still to come.
    pub fn into_vec(self) -> (nodes: Vec<SyntaxNode>)
        ensures
            nodes@.map_values(|node: SyntaxNode| node.place()) == self.remaining(),
    {
        let mut children = self;
        let mut nodes: Vec<SyntaxNode> = Vec::new();
        let ghost all = self.remaining();
        assert(nodes@.map_values(|node: SyntaxNode| node.place()) + children.remaining() =~= all);
        loop
            invariant
                all == self.remaining(),
                nodes@.map_values(|node: SyntaxNode| node.place()) + children.remaining() == all,
            decreases children.remaining().len(),
        {
            let ghost before = nodes@.map_values(|node: SyntaxNode| node.place());
            match children.next() {
                Some(node) => {
                    nodes.push(node);
                    assert(nodes@.map_values(|node: SyntaxNode| node.place()) =~= before.push(
                        node.place(),
                    ));
                    assert(before.push(node.place()) + children.remaining() =~= before + (
                    seq![node.place()] + children.remaining()));
                },
                None => {
                    assert(before + children.remaining() =~= before);
                    return nodes;
                },
            }
        }
    }

    /// Keep only child nodes whose raw kind satisfies `matcher`.
    pub fn by_kind<Matcher: Fn(SyntaxKind) -> bool>(self, matcher: Matcher) -> (filtered:
        SyntaxNodeChildrenByKind<Matcher>)
        ensures
            filtered.remaining() == self.remaining(),
            filtered.matcher() == matcher,
    {
        SyntaxNodeChildrenByKind { inner: self, matcher }
    }
}

/// Kind-filtered direct child nodes.
pub struct SyntaxNodeChildrenByKind<Matcher: Fn(SyntaxKind) -> bool> {
    /// Unfiltered children.
    inner: SyntaxNodeChildren,
    /// Raw kind predicate.
    matcher: Matcher,
}

/// The matcher rejected the kinds at all places of a sequence.
pub open spec fn all_rejected<Matcher: Fn(SyntaxKind) -> bool>(
    matcher: Matcher,
    places: Seq<Place>,
) -> bool {
    forall|i: int|
        0 <= i < places.len() ==> call_ensures(
            matcher,
            ((#[trigger] places[i]).tree().kind(),),
            false,
        )
}

impl<Matcher: Fn(SyntaxKind) -> bool> SyntaxNodeChildrenByKind<Matcher> {
    /// The places of the nodes that are still to be looked at.
    pub closed spec fn remaining(self) -> Seq<Place> {
        self.inner.remaining()
    }

    /// The raw kind predicate.
    pub closed spec fn matcher(self) -> Matcher {
        self.matcher
    }

    /// Yield the next child node that the matcher accepts.
    pub fn next(&mut self) -> (node: Option<SyntaxNode>)
        requires
            forall|kind: SyntaxKind| call_requires(old(self).matcher(), (kind,)),
        ensures
            final(self).matcher() == old(self).matcher(),
            match node {
                Some(node) => {
                    let passed = old(self).remaining().len() - final(self).remaining().len() - 1;
                    &&& 0 <= passed
                    &&& old(self).remaining() == old(self).remaining().take(passed)
                        + seq![node.place()] + final(self).remaining()
                    &&& all_rejected(old(self).matcher(), old(self).remaining().take(passed))
                    &&& call_ensures(old(self).matcher(), (node.place().tree().kind(),), true)
                },
                None => {
                    &&& final(self).remaining().len() == 0
                    &&& all_rejected(old(self).matcher(), old(self).remaining())
                },
            },
    {
        let ghost all = self.remaining();
        let ghost matcher = self.matcher();
        let ghost mut passed: int = 0;
        assert(all.skip(0) =~= all);
        loop
            invariant
                all == old(self).remaining(),
                matcher == old(self).matcher(),
                self.matcher == matcher,
                forall|kind: SyntaxKind| call_requires(matcher, (kind,)),
                0 <= passed <= all.len(),
                self.inner.remaining() == all.skip(passed),
                all_rejected(matcher, all.take(passed)),
            decreases self.inner.remaining().len(),
        {
            match self.inner.next() {
                Some(node) => {
                    proof {
                        lemma_first_taken(all, passed, node.place(), self.inner.remaining());
                    }
                    if (self.matcher)(node.kind()) {
                        return Some(node);
                    }
                    proof {
                        let longer = all.take(passed + 1);
                        assert forall|i: int| 0 <= i < longer.len() implies call_ensures(
                            matcher,
                            ((#[trigger] longer[i]).tree().kind(),),
                            false,
                        ) by {
                            if i < passed {
                                assert(all.take(passed)[i] == longer[i]);
                            }
                        }
                        passed = passed + 1;
                    }
                },
                None => {
                    assert(all.take(passed) =~= all);
                    return None;
                },
            }
        }
    }
}

/// Direct child nodes and tokens, one after the other.
pub struct SyntaxElementChildren {
    /// Parent whose children are traversed.
    parent: SyntaxNode,
    /// Last yielded element, retained for allocation-reusing advancement.
    current: Option<SyntaxElement>,
    /// Whether the first child has already been selected.
    initialized: bool,
}

impl SyntaxElementChildren {
    /// The yielded element is a child of the parent.
    #[verifier::type_invariant]
    spec fn agrees(self) -> bool {
        self.current matches Some(element) ==> {
            let place = cursor::element_place(element);
            &&& place == self.parent.place().child(place.index())
            &&& 0 <= place.index() < self.parent.place().tree().children().len()
        }
    }

    /// The places of the elements that are still to come.
    pub closed spec fn remaining(self) -> Seq<Place> {
        let place = self.parent.place();
        if !self.initialized {
            child_places(place, place.tree().children(), 0, false)
        } else {
            match self.current {
                Some(element) => child_places(
                    place,
                    place.tree().children(),
                    cursor::element_place(element).index() + 1,
                    false,
                ),
                None => Seq::empty(),
            }
        }
    }

    /// Start before the first child element.
    pub(crate) fn new(parent: SyntaxNode) -> (children: Self)
        ensures
            children.remaining() == child_places(
                parent.place(),
                parent.place().tree().children(),
                0,
                false,
            ),
    {
        SyntaxElementChildren { parent, current: None, initialized: false }
    }

    /// Yield the next child element.
    pub fn next(&mut self) -> (element: Option<SyntaxElement>)
        ensures
            match element {
                Some(element) => old(self).remaining() == seq![cursor::element_place(element)]
                    + final(self).remaining(),
                None => old(self).remaining().len() == 0 && final(self).remaining().len() == 0,
            },
    {
        proof {
            use_type_invariant(&*self);
        }
        let ghost place = self.parent.place();
        let ghost trees = place.tree().children();
        let parent = self.parent.clone();
        let next = if self.initialized {
            let current = self.take_current();
            match current {
                Some(element) => {
                    let ghost index = cursor::element_place(element).index();
                    proof {
                        assert(place.path.push(index).drop_last() =~= place.path);
                        assert(cursor::element_place(element).siblings() == trees);
                    }
                    element.into_next_sibling_or_token()
                },
                None => None,
            }
        } else {
            parent.first_child_or_token()
        };
        let yielded = match &next {
            Some(element) => Some(element.handle()),
            None => None,
        };
        *self = SyntaxElementChildren { parent, current: next, initialized: true };
        yielded
    }

    /// Take the last yielded element out of the state.
    fn take_current(&mut self) -> (current: Option<SyntaxElement>)
        ensures
            current == old(self).current,
            final(self).parent == old(self).parent,
            final(self).initialized == old(self).initialized,
            final(self).current is None,
    {
        let mut current: Option<SyntaxElement> = None;
        std::mem::swap(&mut current, &mut self.current);
        current
    }

    /// Collect the elements that are still to come.
    pub fn into_vec(self) -> (elements: Vec<SyntaxElement>)
        ensures
            elements@.map_values(|element: SyntaxElement| cursor::element_place(element))
                == self.remaining(),
    {
        let mut children = self;
        let mut elements: Vec<SyntaxElement> = Vec::new();
        let ghost all = self.remaining();
        assert(elements@.map_values(|element: SyntaxElement| cursor::element_place(element))
            + children.remaining() =~= all);
        loop
            invariant
                all == self.remaining(),
                elements@.map_values(|element: SyntaxElement| cursor::element_place(element))
                    + children.remaining() == all,
            decreases children.remaining().len(),
        {
            let ghost before = elements@.map_values(
                |element: SyntaxElement| cursor::element_place(element),
            );
            match children.next() {
                Some(element) => {
                    let ghost found = cursor::element_place(element);
                    elements.push(element);
                    assert(elements@.map_values(
                        |element: SyntaxElement| cursor::element_place(element),
                    ) =~= before.push(found));
                    assert(before.push(found) + children.remaining() =~= before + (seq![found]
                        + children.remaining()));
                },
                None => {
                    assert(before + children.remaining() =~= before);
                    return elements;
                },
            }
        }
    }

    /// Keep only elements whose raw kind satisfies `matcher`.
    pub fn by_kind<Matcher: Fn(SyntaxKind) -> bool>(self, matcher: Matcher) -> (filtered:
        SyntaxElementChildrenByKind<Matcher>)
        ensures
            filtered.remaining() == self.remaining(),
            filtered.matcher() == matcher,
    {
        SyntaxElementChildrenByKind { inner: self, matcher }
    }
}

/// Kind-filtered direct child elements.
pub struct SyntaxElementChildrenByKind<Matcher: Fn(SyntaxKind) -> bool> {
    /// Unfiltered children.
    inner: SyntaxElementChildren,
    /// Raw kind predicate.
    matcher: Matcher,
}

impl<Matcher: Fn(SyntaxKind) -> bool> SyntaxElementChildrenByKind<Matcher> {
    /// The places of the elements that are still to be looked at.
    pub closed spec fn remaining(self) -> Seq<Place> {
        self.inner.remaining()
    }

    /// The raw kind predicate.
    pub closed spec fn matcher(self) -> Matcher {
        self.matcher
    }

    /// Yield the next child element that the matcher accepts.
    pub fn next(&mut self) -> (element: Option<SyntaxElement>)
        requires
            forall|kind: SyntaxKind| call_requires(old(self).matcher(), (kind,)),
        ensures
            final(self).matcher() == old(self).matcher(),
            match element {
                Some(element) => {
                    let place = cursor::element_place(element);
                    let passed = old(self).remaining().len() - final(self).remaining().len() - 1;
                    &&& 0 <= passed
                    &&& old(self).remaining() == old(self).remaining().take(passed) + seq![place]
                        + final(self).remaining()
                    &&& all_rejected(old(self).matcher(), old(self).remaining().take(passed))
                    &&& call_ensures(old(self).matcher(), (place.tree().kind(),), true)
                },
                None => {
                    &&& final(self).remaining().len() == 0
                    &&& all_rejected(old(self).matcher(), old(self).remaining())
                },
            },
    {
        let ghost all = self.remaining();
        let ghost matcher = self.matcher();
        let ghost mut passed: int = 0;
        assert(all.skip(0) =~= all);
        loop
            invariant
                all == old(self).remaining(),
                matcher == old(self).matcher(),
                self.matcher == matcher,
                forall|kind: SyntaxKind| call_requires(matcher, (kind,)),
                0 <= passed <= all.len(),
                self.inner.remaining() == all.skip(passed),
                all_rejected(matcher, all.take(passed)),
            decreases self.inner.remaining().len(),
        {
            match self.inner.next() {
                Some(element) => {
                    let ghost place = cursor::element_place(element);
                    proof {
                        lemma_first_taken(all, passed, place, self.inner.remaining());
                    }
                    if (self.matcher)(element.kind()) {
                        return Some(element);
                    }
                    proof {
                        let longer = all.take(passed + 1);
                        assert forall|i: int| 0 <= i < longer.len() implies call_ensures(
                            matcher,
                            ((#[trigger] longer[i]).tree().kind(),),
                            false,
                        ) by {
                            if i < passed {
                                assert(all.take(passed)[i] == longer[i]);
                            }
                        }
                        passed = passed + 1;
                    }
                },
                None => {
                    assert(all.take(passed) =~= all);
                    return None;
                },
            }
        }
    }
}

/// The events of a walk through the tree at a place.
pub open spec fn walk(place: Place, tree: Tree, nodes_only: bool) -> Seq<WalkEvent<Place>>
    decreases tree, tree.children().len() + 1,
{
    seq![WalkEvent::Enter(place)] + walk_from(place, tree, 0, nodes_only) + seq![
        WalkEvent::Leave(place),
    ]
}

/// The events of a walk through the children from an index on.
pub open spec fn walk_from(
    place: Place,
    tree: Tree,
    index: int,
    nodes_only: bool,
) -> Seq<WalkEvent<Place>>
    decreases tree, tree.children().len() - index,
{
    if index < 0 || index >= tree.children().len() {
        Seq::empty()
    } else {
        let child = tree.children()[index];
        let own = if nodes_only && child is Token {
            Seq::empty()
        } else {
            walk(place.child(index), child, nodes_only)
        };
        own + walk_from(place, tree, index + 1, nodes_only)
    }
}

/// The events that are left of the walk through `top` once the children of `place` before an index
/// are done.
pub open spec fn walk_rest(top: Place, place: Place, index: int, nodes_only: bool) -> Seq<
    WalkEvent<Place>,
>
    decreases place.path.len(),
{
    walk_from(place, place.tree(), index, nodes_only) + leave_rest(top, place, nodes_only)
}

/// The events that are left of the walk through `top` from leaving `place` on.
pub open spec fn leave_rest(top: Place, place: Place, nodes_only: bool) -> Seq<WalkEvent<Place>>
    decreases place.path.len(),
{
    seq![WalkEvent::Leave(place)] + if place.path.len() <= top.path.len() {
        Seq::empty()
    } else {
        walk_from(place.parent(), place.parent().tree(), place.index() + 1, nodes_only)
            + leave_rest(top, place.parent(), nodes_only)
    }
}

/// The events from an event on.
pub open spec fn events_from(
    top: Place,
    event: Option<WalkEvent<Place>>,
    nodes_only: bool,
) -> Seq<WalkEvent<Place>> {
    match event {
        Some(WalkEvent::Enter(place)) => seq![WalkEvent::Enter(place)] + walk_rest(
            top,
            place,
            0,
            nodes_only,
        ),
        Some(WalkEvent::Leave(place)) => leave_rest(top, place, nodes_only),
        None => Seq::empty(),
    }
}

/// Tokens that a walk over nodes passes over contribute nothing.
proof fn lemma_walk_skip(place: Place, tree: Tree, low: int, high: int)
    requires
        0 <= low <= high <= tree.children().len(),
        forall|i: int| low <= i < high ==> (#[trigger] tree.children()[i]) is Token,
    ensures
        walk_from(place, tree, low, true) == walk_from(place, tree, high, true),
    decreases high - low,
{
    if low < high {
        assert(tree.children()[low] is Token);
        lemma_walk_skip(place, tree, low + 1, high);
        assert(walk_from(place, tree, low, true) =~= walk_from(place, tree, low + 1, true));
    }
}

/// The walk enters the first child that it does not pass over.
proof fn lemma_walk_enters(top: Place, place: Place, low: int, index: int, nodes_only: bool)
    requires
        place.valid(),
        top.path.len() <= place.path.len(),
        0 <= low <= index < place.tree().children().len(),
        nodes_only ==> place.tree().children()[index] is Node,
        nodes_only ==> forall|i: int|
            low <= i < index ==> (#[trigger] place.tree().children()[i]) is Token,
        !nodes_only ==> low == index,
    ensures
        walk_from(place, place.tree(), low, nodes_only) + leave_rest(top, place, nodes_only)
            == events_from(top, Some(WalkEvent::Enter(place.child(index))), nodes_only),
{
    if nodes_only {
        lemma_walk_skip(place, place.tree(), low, index);
    }
    let child = place.child(index);
    place.lemma_child(index);
    let inner = walk_from(child, child.tree(), 0, nodes_only);
    let later = walk_from(place, place.tree(), index + 1, nodes_only);
    let up = leave_rest(top, place, nodes_only);
    let enter = seq![WalkEvent::Enter(child)];
    let leave = seq![WalkEvent::Leave(child)];
    assert(walk(child, child.tree(), nodes_only) == enter + inner + leave);
    assert(walk_from(place, place.tree(), index, nodes_only) == enter + inner + leave + later);
    assert(leave_rest(top, child, nodes_only) == leave + (later + up));
    assert(enter + inner + leave + later + up =~= enter + (inner + (leave + (later + up))));
}

/// The walk through a place begins with entering it.
proof fn lemma_walk_starts(place: Place, nodes_only: bool)
    ensures
        events_from(place, Some(WalkEvent::Enter(place)), nodes_only) == walk(
            place,
            place.tree(),
            nodes_only,
        ),
{
    assert(leave_rest(place, place, nodes_only) =~= seq![WalkEvent::Leave(place)]);
    assert(events_from(place, Some(WalkEvent::Enter(place)), nodes_only) =~= walk(
        place,
        place.tree(),
        nodes_only,
    ));
}

/// Where a walk stands between two calls.
pub struct WalkStatus {
    /// The events that are still to come.
    pub remaining: Seq<WalkEvent<Place>>,
    /// The place of the node that the last event entered.
    pub entered: Option<Place>,
    /// Whether the descendants of the entered node are to be skipped.
    pub skipping: bool,
}

/// What asking a walk for the next event does.
pub open spec fn yields(
    before: WalkStatus,
    after: WalkStatus,
    event: Option<WalkEvent<Place>>,
) -> bool {
    match event {
        Some(event) => {
            &&& before.remaining == seq![event] + after.remaining
            &&& after.entered == match event {
                WalkEvent::Enter(place) => if place.tree() is Node {
                    Some(place)
                } else {
                    None
                },
                WalkEvent::Leave(_) => None,
            }
            &&& !after.skipping
        },
        None => before.remaining.len() == 0 && after == before,
    }
}

/// What asking a walk to skip the entered subtree does: the events below the entered node fall
/// away, so that leaving it comes next.
pub open spec fn skips(
    before: WalkStatus,
    after: WalkStatus,
    nodes_only: bool,
    checked: Result<(), TraversalError>,
) -> bool {
    match checked {
        Ok(_) => {
            &&& !before.skipping
            &&& before.entered matches Some(place) && {
                &&& before.remaining == walk_from(place, place.tree(), 0, nodes_only)
                    + after.remaining
                &&& after.remaining.len() > 0
                &&& after.remaining[0] == WalkEvent::Leave(place)
            }
            &&& after.skipping
            &&& after.entered == before.entered
        },
        Err(TraversalError::SkipAlreadyRequested) => before.skipping && after == before,
        Err(TraversalError::NoNodeSubtree) => before.entered is None && after == before,
    }
}

/// Skip eligibility after the most recent preorder event.
enum NodeSkipState {
    /// No node entry is available.
    Unavailable,
    /// A node was entered and can be skipped.
    Eligible(SyntaxNode),
    /// A skip has been requested for the entered node.
    Requested(SyntaxNode),
}

impl NodeSkipState {
    /// The place of the node that was entered last.
    spec fn entered(self) -> Option<Place> {
        match self {
            NodeSkipState::Unavailable => None,
            NodeSkipState::Eligible(node) => Some(node.place()),
            NodeSkipState::Requested(node) => Some(node.place()),
        }
    }

    /// Request skipping while preserving rejected state transitions.
    fn request(&self) -> (next: Result<NodeSkipState, TraversalError>)
        ensures
            match next {
                Ok(next) => *self is Eligible && next is Requested && next.entered()
                    == self.entered(),
                Err(TraversalError::SkipAlreadyRequested) => *self is Requested,
                Err(TraversalError::NoNodeSubtree) => *self is Unavailable,
            },
    {
        match self {
            NodeSkipState::Eligible(node) => Ok(NodeSkipState::Requested(node.clone())),
            NodeSkipState::Requested(_) => Err(TraversalError::SkipAlreadyRequested),
            NodeSkipState::Unavailable => Err(TraversalError::NoNodeSubtree),
        }
    }
}

/// The place that an event is about.
pub open spec fn node_event(event: WalkEvent<SyntaxNode>) -> WalkEvent<Place> {
    match event {
        WalkEvent::Enter(node) => WalkEvent::Enter(node.place()),
        WalkEvent::Leave(node) => WalkEvent::Leave(node.place()),
    }
}

/// The place that an event is about.
pub open spec fn element_event(event: WalkEvent<SyntaxElement>) -> WalkEvent<Place> {
    match event {
        WalkEvent::Enter(element) => WalkEvent::Enter(cursor::element_place(element)),
        WalkEvent::Leave(element) => WalkEvent::Leave(cursor::element_place(element)),
    }
}

/// The place that an event is about, if there is one.
pub open spec fn some_node_event(event: Option<WalkEvent<SyntaxNode>>) -> Option<WalkEvent<Place>> {
    match event {
        Some(event) => Some(node_event(event)),
        None => None,
    }
}

/// The place that an event is about, if there is one.
pub open spec fn some_element_event(event: Option<WalkEvent<SyntaxElement>>) -> Option<
    WalkEvent<Place>,
> {
    match event {
        Some(event) => Some(element_event(event)),
        None => None,
    }
}

/// The place that an event is about lies inside the walk.
spec fn event_inside(top: Place, event: WalkEvent<Place>) -> bool {
    match event {
        WalkEvent::Enter(place) => top.holds(place) && place.valid(),
        WalkEvent::Leave(place) => top.holds(place) && place.valid(),
    }
}

/// The state of a walk: what comes next fits what was entered last.
spec fn walk_state(
    top: Place,
    next_event: Option<WalkEvent<Place>>,
    skip: NodeSkipState,
    nodes_only: bool,
) -> bool {
    &&& top.valid()
    &&& next_event matches Some(event) ==> event_inside(top, event)
    &&& skip.entered() matches Some(place) ==> {
        &&& top.holds(place)
        &&& place.valid()
        &&& events_from(top, next_event, nodes_only) == walk_rest(top, place, 0, nodes_only)
    }
}

/// The events that are still to come.
spec fn walk_remaining(
    top: Place,
    next_event: Option<WalkEvent<Place>>,
    skip: NodeSkipState,
    nodes_only: bool,
) -> Seq<WalkEvent<Place>> {
    match skip {
        NodeSkipState::Requested(node) => leave_rest(top, node.place(), nodes_only),
        _ => events_from(top, next_event, nodes_only),
    }
}

/// Preorder traversal over nodes only.
pub struct Preorder {
    /// Root at which traversal stops.
    start: SyntaxNode,
    /// Next event under normal traversal.
    next_event: Option<WalkEvent<SyntaxNode>>,
    /// Current skip eligibility.
    skip_state: NodeSkipState,
}

impl Preorder {
    spec fn upcoming(self) -> Option<WalkEvent<Place>> {
        match self.next_event {
            Some(event) => Some(node_event(event)),
            None => None,
        }
    }

    #[verifier::type_invariant]
    spec fn agrees(self) -> bool {
        walk_state(self.start.place(), self.upcoming(), self.skip_state, true)
    }

    /// The events that are still to come.
    pub closed spec fn remaining(self) -> Seq<WalkEvent<Place>> {
        walk_remaining(self.start.place(), self.upcoming(), self.skip_state, true)
    }

    /// The place of the node that the last event entered.
    pub closed spec fn entered(self) -> Option<Place> {
        self.skip_state.entered()
    }

    /// Whether the descendants of the entered node are to be skipped.
    pub closed spec fn skipping(self) -> bool {
        self.skip_state is Requested
    }

    /// Where the walk stands.
    pub open spec fn status(self) -> WalkStatus {
        WalkStatus {
            remaining: self.remaining(),
            entered: self.entered(),
            skipping: self.skipping(),
        }
    }

    /// Create a node-only preorder traversal.
    pub(crate) fn new(start: SyntaxNode) -> (preorder: Self)
        ensures
            preorder.remaining() == walk(start.place(), start.place().tree(), true),
            preorder.entered() is None,
            !preorder.skipping(),
    {
        proof {
            use_type_invariant(&start);
            start.lemma_valid();
            lemma_walk_starts(start.place(), true);
            assert(start.place().path.take(start.place().path.len() as int) =~= start.place().path);
        }
        let first = start.clone();
        Preorder {
            start,
            next_event: Some(WalkEvent::Enter(first)),
            skip_state: NodeSkipState::Unavailable,
        }
    }

    /// Compute the event following `current` without recursion.
    fn following_event(&self, current: &WalkEvent<SyntaxNode>) -> (next: Option<
        WalkEvent<SyntaxNode>,
    >)
        requires
            event_inside(self.start.place(), node_event(*current)),
        ensures
            ({
                let top = self.start.place();
                let following = match next {
                    Some(event) => Some(node_event(event)),
                    None => None,
                };
                &&& events_from(top, Some(node_event(*current)), true) == seq![
                    node_event(*current),
                ] + events_from(top, following, true)
                &&& following matches Some(event) ==> event_inside(top, event)
            }),
    {
        let ghost top = self.start.place();
        proof {
            use_type_invariant(&self.start);
            self.start.lemma_valid();
        }
        match current {
            WalkEvent::Enter(node) => {
                let ghost place = node.place();
                let ghost trees = place.tree().children();
                match node.first_child() {
                    Some(child) => {
                        proof {
                            let index = child.place().index();
                            lemma_walk_enters(top, place, 0, index, true);
                            place.lemma_child(index);
                            lemma_holds_child(top, place, index);
                        }
                        Some(WalkEvent::Enter(child))
                    },
                    None => {
                        proof {
                            lemma_walk_skip(place, place.tree(), 0, trees.len() as int);
                            assert(walk_from(place, place.tree(), 0, true) =~= Seq::empty());
                            assert(walk_rest(top, place, 0, true) =~= leave_rest(top, place, true));
                        }
                        Some(WalkEvent::Leave(node.clone()))
                    },
                }
            },
            WalkEvent::Leave(node) => {
                let ghost place = node.place();
                proof {
                    use_type_invariant(node);
                    node.lemma_valid();
                    place.lemma_valid();
                    if node.handle() == self.start.handle() {
                        crate::cursor_data::lemma_same_below(top, place);
                    }
                    lemma_holds_top(top, place);
                }
                if *node == self.start {
                    assert(leave_rest(top, place, true) =~= seq![WalkEvent::Leave(place)]
                        + Seq::empty());
                    return None;
                }
                proof {
                    assert(place.path.len() > top.path.len());
                    lemma_holds_parent(top, place);
                }
                let ghost upper = place.parent();
                match node.next_sibling() {
                    Some(sibling) => {
                        proof {
                            let index = sibling.place().index();
                            lemma_walk_enters(top, upper, place.index() + 1, index, true);
                            upper.lemma_child(index);
                            lemma_holds_child(top, upper, index);
                        }
                        Some(WalkEvent::Enter(sibling))
                    },
                    None => {
                        proof {
                            lemma_walk_skip(
                                upper,
                                upper.tree(),
                                place.index() + 1,
                                upper.tree().children().len() as int,
                            );
                            assert(walk_from(upper, upper.tree(), place.index() + 1, true)
                                =~= Seq::empty());
                            assert(walk_rest(top, upper, place.index() + 1, true) =~= leave_rest(
                                top,
                                upper,
                                true,
                            ));
                        }
                        match node.parent() {
                            Some(parent) => Some(WalkEvent::Leave(parent)),
                            None => None,
                        }
                    },
                }
            },
        }
    }

    /// Yield the next event.
    pub fn next(&mut self) -> (event: Option<WalkEvent<SyntaxNode>>)
        ensures
            yields(old(self).status(), final(self).status(), some_node_event(event)),
            event is None ==> *final(self) == *old(self),
    {
        proof {
            use_type_invariant(&*self);
        }
        let pending = match &self.skip_state {
            NodeSkipState::Requested(node) => Some(WalkEvent::Leave(node.clone())),
            _ => match &self.next_event {
                Some(WalkEvent::Enter(node)) => Some(WalkEvent::Enter(node.clone())),
                Some(WalkEvent::Leave(node)) => Some(WalkEvent::Leave(node.clone())),
                None => None,
            },
        };
        let current = match pending {
            Some(event) => event,
            None => {
                return None;
            },
        };
        let next_event = self.following_event(&current);
        let start = self.start.clone();
        let skip_state = match &current {
            WalkEvent::Enter(node) => {
                proof {
                    use_type_invariant(node);
                    node.lemma_valid();
                }
                NodeSkipState::Eligible(node.clone())
            },
            WalkEvent::Leave(_) => NodeSkipState::Unavailable,
        };
        proof {
            let top = self.start.place();
            if current is Enter {
                let place = current->Enter_0.place();
                lemma_same_tail(
                    WalkEvent::Enter(place),
                    walk_rest(top, place, 0, true),
                    events_from(
                        top,
                        if next_event is Some {
                            Some(node_event(next_event->0))
                        } else {
                            None
                        },
                        true,
                    ),
                );
            }
        }
        *self = Preorder { start, next_event, skip_state };
        Some(current)
    }

    /// Skip descendants of the node most recently entered.
    pub fn skip_subtree(&mut self) -> (checked: Result<(), TraversalError>)
        ensures
            skips(old(self).status(), final(self).status(), true, checked),
            checked is Err ==> *final(self) == *old(self),
    {
        proof {
            use_type_invariant(&*self);
        }
        match self.skip_state.request() {
            Ok(skip_state) => {
                let start = self.start.clone();
                let next_event = match &self.next_event {
                    Some(WalkEvent::Enter(node)) => Some(WalkEvent::Enter(node.clone())),
                    Some(WalkEvent::Leave(node)) => Some(WalkEvent::Leave(node.clone())),
                    None => None,
                };
                *self = Preorder { start, next_event, skip_state };
                Ok(())
            },
            Err(error) => Err(error),
        }
    }

    /// Collect the events that are still to come.
    pub fn into_vec(self) -> (events: Vec<WalkEvent<SyntaxNode>>)
        ensures
            events@.map_values(|event: WalkEvent<SyntaxNode>| node_event(event))
                == self.remaining(),
    {
        let mut preorder = self;
        let mut events: Vec<WalkEvent<SyntaxNode>> = Vec::new();
        let ghost all = self.remaining();
        assert(events@.map_values(|event: WalkEvent<SyntaxNode>| node_event(event))
            + preorder.remaining() =~= all);
        loop
            invariant
                all == self.remaining(),
                events@.map_values(|event: WalkEvent<SyntaxNode>| node_event(event))
                    + preorder.remaining() == all,
            decreases preorder.remaining().len(),
        {
            let ghost before = events@.map_values(
                |event: WalkEvent<SyntaxNode>| node_event(event),
            );
            match preorder.next() {
                Some(event) => {
                    let ghost found = node_event(event);
                    events.push(event);
                    assert(events@.map_values(|event: WalkEvent<SyntaxNode>| node_event(event))
                        =~= before.push(found));
                    assert(before.push(found) + preorder.remaining() =~= before + (seq![found]
                        + preorder.remaining()));
                },
                None => {
                    assert(before + preorder.remaining() =~= before);
                    return events;
                },
            }
        }
    }
}

/// Sequences that continue the same first item alike are the same.
proof fn lemma_same_tail<A>(first: A, left: Seq<A>, right: Seq<A>)
    requires
        seq![first] + left == seq![first] + right,
    ensures
        left == right,
{
    assert((seq![first] + left).skip(1) =~= left);
    assert((seq![first] + right).skip(1) =~= right);
}

/// A place that is not the top of the walk lies below it.
proof fn lemma_holds_top(top: Place, place: Place)
    requires
        top.holds(place),
    ensures
        place.path.len() <= top.path.len() ==> place == top,
{
    if place.path.len() == top.path.len() {
        assert(place.path.take(top.path.len() as int) =~= place.path);
    }
}

/// The parent of a place below the top lies inside the walk.
proof fn lemma_holds_parent(top: Place, place: Place)
    requires
        top.holds(place),
        place.path.len() > top.path.len(),
    ensures
        top.holds(place.parent()),
{
    assert(place.parent().path.take(top.path.len() as int) =~= place.path.take(
        top.path.len() as int,
    ));
}

/// The children of a place inside the walk lie inside the walk.
proof fn lemma_holds_child(top: Place, place: Place, index: int)
    requires
        top.holds(place),
    ensures
        top.holds(place.child(index)),
{
    assert(place.child(index).path.take(top.path.len() as int) =~= place.path.take(
        top.path.len() as int,
    ));
}

/// Preorder traversal over nodes and tokens.
pub struct PreorderWithTokens {
    /// Root at which traversal stops.
    start: SyntaxNode,
    /// Next event under normal traversal.
    next_event: Option<WalkEvent<SyntaxElement>>,
    /// Current node-only skip eligibility.
    skip_state: NodeSkipState,
}

/// Give another copy of an event.
fn copy_event(event: &WalkEvent<SyntaxElement>) -> (copy: WalkEvent<SyntaxElement>)
    ensures
        copy == *event,
{
    match event {
        WalkEvent::Enter(element) => WalkEvent::Enter(element.handle()),
        WalkEvent::Leave(element) => WalkEvent::Leave(element.handle()),
    }
}

impl PreorderWithTokens {
    spec fn upcoming(self) -> Option<WalkEvent<Place>> {
        match self.next_event {
            Some(event) => Some(element_event(event)),
            None => None,
        }
    }

    #[verifier::type_invariant]
    spec fn agrees(self) -> bool {
        walk_state(self.start.place(), self.upcoming(), self.skip_state, false)
    }

    /// The events that are still to come.
    pub closed spec fn remaining(self) -> Seq<WalkEvent<Place>> {
        walk_remaining(self.start.place(), self.upcoming(), self.skip_state, false)
    }

    /// The place of the node that the last event entered.
    pub closed spec fn entered(self) -> Option<Place> {
        self.skip_state.entered()
    }

    /// Whether the descendants of the entered node are to be skipped.
    pub closed spec fn skipping(self) -> bool {
        self.skip_state is Requested
    }

    /// Where the walk stands.
    pub open spec fn status(self) -> WalkStatus {
        WalkStatus {
            remaining: self.remaining(),
            entered: self.entered(),
            skipping: self.skipping(),
        }
    }

    /// Create a preorder traversal that includes tokens.
    pub(crate) fn new(start: SyntaxNode) -> (preorder: Self)
        ensures
            preorder.remaining() == walk(start.place(), start.place().tree(), false),
            preorder.entered() is None,
            !preorder.skipping(),
    {
        proof {
            use_type_invariant(&start);
            start.lemma_valid();
            lemma_walk_starts(start.place(), false);
            assert(start.place().path.take(start.place().path.len() as int) =~= start.place().path);
        }
        let first = start.clone();
        PreorderWithTokens {
            start,
            next_event: Some(WalkEvent::Enter(NodeOrToken::Node(first))),
            skip_state: NodeSkipState::Unavailable,
        }
    }

    /// Compute the event following `current` without recursion.
    fn following_event(&self, current: &WalkEvent<SyntaxElement>) -> (next: Option<
        WalkEvent<SyntaxElement>,
    >)
        requires
            event_inside(self.start.place(), element_event(*current)),
        ensures
            ({
                let top = self.start.place();
                let following = match next {
                    Some(event) => Some(element_event(event)),
                    None => None,
                };
                &&& events_from(top, Some(element_event(*current)), false) == seq![
                    element_event(*current),
                ] + events_from(top, following, false)
                &&& following matches Some(event) ==> event_inside(top, event)
            }),
    {
        let ghost top = self.start.place();
        proof {
            use_type_invariant(&self.start);
            self.start.lemma_valid();
        }
        match current {
            WalkEvent::Enter(element) => {
                let ghost place = cursor::element_place(*element);
                let child = match element {
                    NodeOrToken::Node(node) => node.first_child_or_token(),
                    NodeOrToken::Token(token) => {
                        proof {
                            use_type_invariant(token);
                            token.lemma_valid();
                        }
                        None
                    },
                };
                match child {
                    Some(child) => {
                        proof {
                            lemma_walk_enters(top, place, 0, 0, false);
                            place.lemma_child(0);
                            lemma_holds_child(top, place, 0);
                        }
                        Some(WalkEvent::Enter(child))
                    },
                    None => {
                        proof {
                            assert(walk_from(place, place.tree(), 0, false) =~= Seq::empty());
                            assert(walk_rest(top, place, 0, false) =~= leave_rest(
                                top,
                                place,
                                false,
                            ));
                        }
                        Some(WalkEvent::Leave(element.handle()))
                    },
                }
            },
            WalkEvent::Leave(element) => {
                let ghost place = cursor::element_place(*element);
                let finished = match element {
                    NodeOrToken::Node(node) => {
                        proof {
                            use_type_invariant(node);
                            node.lemma_valid();
                            if node.handle() == self.start.handle() {
                                crate::cursor_data::lemma_same_below(top, place);
                            }
                        }
                        *node == self.start
                    },
                    NodeOrToken::Token(token) => {
                        proof {
                            use_type_invariant(token);
                            token.lemma_valid();
                        }
                        false
                    },
                };
                proof {
                    place.lemma_valid();
                    lemma_holds_top(top, place);
                }
                if finished {
                    assert(leave_rest(top, place, false) =~= seq![WalkEvent::Leave(place)]
                        + Seq::empty());
                    return None;
                }
                proof {
                    assert(place.path.len() > top.path.len());
                    lemma_holds_parent(top, place);
                }
                let ghost upper = place.parent();
                match element.next_sibling_or_token() {
                    Some(sibling) => {
                        proof {
                            let index = place.index() + 1;
                            lemma_walk_enters(top, upper, index, index, false);
                            upper.lemma_child(index);
                            lemma_holds_child(top, upper, index);
                        }
                        Some(WalkEvent::Enter(sibling))
                    },
                    None => {
                        proof {
                            assert(walk_from(upper, upper.tree(), place.index() + 1, false)
                                =~= Seq::empty());
                            assert(walk_rest(top, upper, place.index() + 1, false) =~= leave_rest(
                                top,
                                upper,
                                false,
                            ));
                        }
                        match element.parent() {
                            Some(parent) => Some(WalkEvent::Leave(NodeOrToken::Node(parent))),
                            None => None,
                        }
                    },
                }
            },
        }
    }

    /// Yield the next event.
    pub fn next(&mut self) -> (event: Option<WalkEvent<SyntaxElement>>)
        ensures
            yields(old(self).status(), final(self).status(), some_element_event(event)),
            event is None ==> *final(self) == *old(self),
    {
        proof {
            use_type_invariant(&*self);
        }
        let pending = match &self.skip_state {
            NodeSkipState::Requested(node) => Some(
                WalkEvent::Leave(NodeOrToken::Node(node.clone())),
            ),
            _ => match &self.next_event {
                Some(event) => Some(copy_event(event)),
                None => None,
            },
        };
        let current = match pending {
            Some(event) => event,
            None => {
                return None;
            },
        };
        let next_event = self.following_event(&current);
        let start = self.start.clone();
        let skip_state = match &current {
            WalkEvent::Enter(NodeOrToken::Node(node)) => {
                proof {
                    use_type_invariant(node);
                    node.lemma_valid();
                }
                NodeSkipState::Eligible(node.clone())
            },
            WalkEvent::Enter(NodeOrToken::Token(token)) => {
                proof {
                    use_type_invariant(token);
                    token.lemma_valid();
                }
                NodeSkipState::Unavailable
            },
            WalkEvent::Leave(_) => NodeSkipState::Unavailable,
        };
        proof {
            let top = self.start.place();
            if current is Enter {
                let place = cursor::element_place(current->Enter_0);
                lemma_same_tail(
                    WalkEvent::Enter(place),
                    walk_rest(top, place, 0, false),
                    events_from(
                        top,
                        if next_event is Some {
                            Some(element_event(next_event->0))
                        } else {
                            None
                        },
                        false,
                    ),
                );
            }
        }
        *self = PreorderWithTokens { start, next_event, skip_state };
        Some(current)
    }

    /// Skip descendants of the node most recently entered.
    pub fn skip_subtree(&mut self) -> (checked: Result<(), TraversalError>)
        ensures
            skips(old(self).status(), final(self).status(), false, checked),
            checked is Err ==> *final(self) == *old(self),
    {
        proof {
            use_type_invariant(&*self);
        }
        match self.skip_state.request() {
            Ok(skip_state) => {
                let start = self.start.clone();
                let next_event = match &self.next_event {
                    Some(event) => Some(copy_event(event)),
                    None => None,
                };
                *self = PreorderWithTokens { start, next_event, skip_state };
                Ok(())
            },
            Err(error) => Err(error),
        }
    }

    /// Collect the events that are still to come.
    pub fn into_vec(self) -> (events: Vec<WalkEvent<SyntaxElement>>)
        ensures
            events@.map_values(|event: WalkEvent<SyntaxElement>| element_event(event))
                == self.remaining(),
    {
        let mut preorder = self;
        let mut events: Vec<WalkEvent<SyntaxElement>> = Vec::new();
        let ghost all = self.remaining();
        assert(events@.map_values(|event: WalkEvent<SyntaxElement>| element_event(event))
            + preorder.remaining() =~= all);
        loop
            invariant
                all == self.remaining(),
                events@.map_values(|event: WalkEvent<SyntaxElement>| element_event(event))
                    + preorder.remaining() == all,
            decreases preorder.remaining().len(),
        {
            let ghost before = events@.map_values(
                |event: WalkEvent<SyntaxElement>| element_event(event),
            );
            match preorder.next() {
                Some(event) => {
                    let ghost found = element_event(event);
                    events.push(event);
                    assert(events@.map_values(
                        |event: WalkEvent<SyntaxElement>| element_event(event),
                    ) =~= before.push(found));
                    assert(before.push(found) + preorder.remaining() =~= before + (seq![found]
                        + preorder.remaining()));
                },
                None => {
                    assert(before + preorder.remaining() =~= before);
                    return events;
                },
            }
        }
    }
}

/// The place of a tree and the places below it, in preorder: all of them, or those of nodes only.
pub open spec fn subtree_places(place: Place, tree: Tree, nodes_only: bool) -> Seq<Place>
    decreases tree, tree.children().len() + 1,
{
    seq![place] + forest_places(place, tree, 0, nodes_only)
}

/// The places of the children from an index on and of what is below them, in preorder.
pub open spec fn forest_places(
    place: Place,
    tree: Tree,
    index: int,
    nodes_only: bool,
) -> Seq<Place>
    decreases tree, tree.children().len() - index,
{
    if index < 0 || index >= tree.children().len() {
        Seq::empty()
    } else {
        let child = tree.children()[index];
        let own = if nodes_only && child is Token {
            Seq::empty()
        } else {
            subtree_places(place.child(index), child, nodes_only)
        };
        own + forest_places(place, tree, index + 1, nodes_only)
    }
}

/// The places that are entered, in the order in which they are.
pub open spec fn entered_places(events: Seq<WalkEvent<Place>>) -> Seq<Place>
    decreases events.len(),
{
    if events.len() == 0 {
        Seq::empty()
    } else {
        let rest = entered_places(events.drop_first());
        match events[0] {
            WalkEvent::Enter(place) => seq![place] + rest,
            WalkEvent::Leave(_) => rest,
        }
    }
}

/// The text of the tokens among some places.
pub open spec fn places_text(places: Seq<Place>) -> Seq<char>
    decreases places.len(),
{
    if places.len() == 0 {
        Seq::empty()
    } else {
        let rest = places_text(places.drop_first());
        if places[0].tree() is Token {
            places[0].tree().text() + rest
        } else {
            rest
        }
    }
}

/// What events in a row enter is what each part of them enters.
pub proof fn lemma_entered_concat(left: Seq<WalkEvent<Place>>, right: Seq<WalkEvent<Place>>)
    ensures
        entered_places(left + right) == entered_places(left) + entered_places(right),
    decreases left.len(),
{
    if left.len() == 0 {
        assert(left + right =~= right);
        assert(entered_places(left) + entered_places(right) =~= entered_places(right));
    } else {
        assert((left + right).drop_first() =~= left.drop_first() + right);
        lemma_entered_concat(left.drop_first(), right);
        assert(entered_places(left + right) =~= entered_places(left) + entered_places(right));
    }
}

/// The text of places in a row is the text of each part of them.
pub proof fn lemma_places_text_concat(left: Seq<Place>, right: Seq<Place>)
    ensures
        places_text(left + right) == places_text(left) + places_text(right),
    decreases left.len(),
{
    if left.len() == 0 {
        assert(left + right =~= right);
        assert(places_text(left) + places_text(right) =~= places_text(right));
    } else {
        assert((left + right).drop_first() =~= left.drop_first() + right);
        lemma_places_text_concat(left.drop_first(), right);
        assert(places_text(left + right) =~= places_text(left) + places_text(right));
    }
}

/// A walk enters the place and every place below it exactly once, in preorder.
pub proof fn lemma_walk_enters_subtree(place: Place, tree: Tree, nodes_only: bool)
    ensures
        entered_places(walk(place, tree, nodes_only)) == subtree_places(place, tree, nodes_only),
    decreases tree, tree.children().len() + 1,
{
    let enter = seq![WalkEvent::Enter(place)];
    let leave = seq![WalkEvent::<Place>::Leave(place)];
    let inner = walk_from(place, tree, 0, nodes_only);
    lemma_walk_enters_forest(place, tree, 0, nodes_only);
    reveal_with_fuel(entered_places, 3);
    lemma_entered_concat(enter + inner, leave);
    lemma_entered_concat(enter, inner);
    assert(enter.drop_first() =~= Seq::empty());
    assert(leave.drop_first() =~= Seq::empty());
    assert(entered_places(enter) =~= seq![place]);
    assert(entered_places(leave) =~= Seq::empty());
    assert(entered_places(walk(place, tree, nodes_only)) =~= subtree_places(
        place,
        tree,
        nodes_only,
    ));
}

/// A walk through children enters them and every place below them exactly once, in preorder.
pub proof fn lemma_walk_enters_forest(place: Place, tree: Tree, index: int, nodes_only: bool)
    ensures
        entered_places(walk_from(place, tree, index, nodes_only)) == forest_places(
            place,
            tree,
            index,
            nodes_only,
        ),
    decreases tree, tree.children().len() - index,
{
    if 0 <= index < tree.children().len() {
        let child = tree.children()[index];
        lemma_walk_enters_forest(place, tree, index + 1, nodes_only);
        if nodes_only && child is Token {
            let later = walk_from(place, tree, index + 1, nodes_only);
            assert(walk_from(place, tree, index, nodes_only) =~= later);
            assert(forest_places(place, tree, index, nodes_only) =~= forest_places(
                place,
                tree,
                index + 1,
                nodes_only,
            ));
        } else {
            lemma_walk_enters_subtree(place.child(index), child, nodes_only);
            lemma_entered_concat(
                walk(place.child(index), child, nodes_only),
                walk_from(place, tree, index + 1, nodes_only),
            );
        }
    }
}

/// The places of a subtree exist and lie inside it.
pub proof fn lemma_subtree_inside(top: Place, place: Place, nodes_only: bool)
    requires
        place.valid(),
        top.holds(place),
    ensures
        forall|i: int|
            0 <= i < subtree_places(place, place.tree(), nodes_only).len() ==> inside(
                top,
                #[trigger] subtree_places(place, place.tree(), nodes_only)[i],
            ),
    decreases place.tree(), place.tree().children().len() + 1,
{
    lemma_forest_inside(top, place, 0, nodes_only);
    let below = forest_places(place, place.tree(), 0, nodes_only);
    assert forall|i: int|
        0 <= i < subtree_places(place, place.tree(), nodes_only).len() implies inside(
        top,
        #[trigger] subtree_places(place, place.tree(), nodes_only)[i],
    ) by {
        if i > 0 {
            assert(subtree_places(place, place.tree(), nodes_only)[i] == below[i - 1]);
        }
    }
}

/// The places of children and of what is below them exist and lie inside the subtree.
pub proof fn lemma_forest_inside(top: Place, place: Place, index: int, nodes_only: bool)
    requires
        place.valid(),
        top.holds(place),
        0 <= index <= place.tree().children().len(),
    ensures
        forall|i: int|
            0 <= i < forest_places(place, place.tree(), index, nodes_only).len() ==> inside(
                top,
                #[trigger] forest_places(place, place.tree(), index, nodes_only)[i],
            ),
    decreases place.tree(), place.tree().children().len() - index,
{
    let tree = place.tree();
    if index < tree.children().len() {
        let child = place.child(index);
        place.lemma_child(index);
        lemma_holds_child(top, place, index);
        lemma_subtree_inside(top, child, nodes_only);
        lemma_forest_inside(top, place, index + 1, nodes_only);
        let own = subtree_places(child, child.tree(), nodes_only);
        let later = forest_places(place, tree, index + 1, nodes_only);
        assert forall|i: int|
            0 <= i < forest_places(place, tree, index, nodes_only).len() implies inside(
            top,
            #[trigger] forest_places(place, tree, index, nodes_only)[i],
        ) by {
            if nodes_only && child.tree() is Token {
                assert(forest_places(place, tree, index, nodes_only)[i] == later[i]);
            } else if i < own.len() {
                assert(forest_places(place, tree, index, nodes_only)[i] == own[i]);
            } else {
                assert(forest_places(place, tree, index, nodes_only)[i] == later[i - own.len()]);
            }
        }
    }
}

/// The first step from a place down to a place below it.
pub proof fn lemma_step_down(top: Place, place: Place)
    requires
        top.valid(),
        place.valid(),
        top.holds(place),
        place.path.len() > top.path.len(),
    ensures
        ({
            let index = place.path[top.path.len() as int];
            let lower = top.child(index);
            &&& 0 <= index < top.tree().children().len()
            &&& lower.valid()
            &&& lower.holds(place)
            &&& place.path.len() > lower.path.len() ==> lower.tree() is Node
        }),
    decreases place.path.len(),
{
    let index = place.path[top.path.len() as int];
    let lower = top.child(index);
    place.lemma_valid();
    let parent = place.parent();
    assert(place.path.take(lower.path.len() as int) =~= lower.path);
    if parent.path.len() == top.path.len() {
        assert(parent.path =~= top.path);
        assert(place == lower);
    } else {
        assert(parent.path.take(top.path.len() as int) =~= place.path.take(
            top.path.len() as int,
        ));
        lemma_step_down(top, parent);
    }
}

/// A place exists and lies inside a subtree.
pub open spec fn inside(top: Place, place: Place) -> bool {
    top.holds(place) && place.valid()
}

/// The tokens of a subtree in preorder spell its text.
pub proof fn lemma_subtree_text(place: Place)
    requires
        place.valid(),
    ensures
        places_text(subtree_places(place, place.tree(), false)) == place.tree().text(),
    decreases place.tree(), place.tree().children().len() + 1,
{
    let tree = place.tree();
    let below = forest_places(place, tree, 0, false);
    reveal_with_fuel(places_text, 2);
    assert(subtree_places(place, tree, false).drop_first() =~= below);
    lemma_forest_text_from(place, 0);
    assert(tree.children().skip(0) =~= tree.children());
    match tree {
        Tree::Node { kind, children } => {},
        Tree::Token { kind, text } => {
            assert(places_text(below) =~= Seq::empty());
            assert(tree.text() + places_text(below) =~= tree.text());
        },
    }
}

/// The tokens of children in preorder spell their text.
pub proof fn lemma_forest_text_from(place: Place, index: int)
    requires
        place.valid(),
        0 <= index <= place.tree().children().len(),
    ensures
        places_text(forest_places(place, place.tree(), index, false)) == model::forest_text(
            place.tree().children().skip(index),
        ),
    decreases place.tree(), place.tree().children().len() - index,
{
    let tree = place.tree();
    let trees = tree.children();
    if index < trees.len() {
        let child = place.child(index);
        place.lemma_child(index);
        lemma_subtree_text(child);
        lemma_forest_text_from(place, index + 1);
        lemma_places_text_concat(
            subtree_places(child, trees[index], false),
            forest_places(place, tree, index + 1, false),
        );
        model::lemma_forest_text_skip(trees, index);
    }
}

impl SyntaxNode {
    /// Iterate over direct child nodes.
    pub fn children(&self) -> (children: SyntaxNodeChildren)
        ensures
            children.remaining() == child_places(
                self.place(),
                self.place().tree().children(),
                0,
                true,
            ),
    {
        SyntaxNodeChildren::new(self.clone())
    }

    /// Iterate over direct child nodes and tokens.
    pub fn children_with_tokens(&self) -> (children: SyntaxElementChildren)
        ensures
            children.remaining() == child_places(
                self.place(),
                self.place().tree().children(),
                0,
                false,
            ),
    {
        SyntaxElementChildren::new(self.clone())
    }

    /// Traverse this subtree in node-only preorder.
    pub fn preorder(&self) -> (preorder: Preorder)
        ensures
            preorder.remaining() == walk(self.place(), self.place().tree(), true),
            preorder.entered() is None,
            !preorder.skipping(),
    {
        Preorder::new(self.clone())
    }

    /// Traverse this subtree in preorder including tokens.
    pub fn preorder_with_tokens(&self) -> (preorder: PreorderWithTokens)
        ensures
            preorder.remaining() == walk(self.place(), self.place().tree(), false),
            preorder.entered() is None,
            !preorder.skipping(),
    {
        PreorderWithTokens::new(self.clone())
    }

    /// Collect this node and every descendant node in preorder.
    pub fn descendants(&self) -> (nodes: Vec<SyntaxNode>)
        ensures
            nodes@.map_values(|node: SyntaxNode| node.place()) == subtree_places(
                self.place(),
                self.place().tree(),
                true,
            ),
    {
        let mut preorder = self.preorder();
        let mut nodes: Vec<SyntaxNode> = Vec::new();
        let ghost all = entered_places(preorder.remaining());
        proof {
            lemma_walk_enters_subtree(self.place(), self.place().tree(), true);
            assert(nodes@.map_values(|node: SyntaxNode| node.place()) + all =~= all);
        }
        loop
            invariant
                all == subtree_places(self.place(), self.place().tree(), true),
                nodes@.map_values(|node: SyntaxNode| node.place()) + entered_places(
                    preorder.remaining(),
                ) == all,
            decreases preorder.remaining().len(),
        {
            let ghost before = nodes@.map_values(|node: SyntaxNode| node.place());
            let ghost events = preorder.remaining();
            match preorder.next() {
                Some(event) => {
                    assert(events.drop_first() =~= preorder.remaining());
                    assert(events[0] == node_event(event));
                    match event {
                        WalkEvent::Enter(node) => {
                            let ghost found = node.place();
                            nodes.push(node);
                            assert(nodes@.map_values(|node: SyntaxNode| node.place())
                                =~= before.push(found));
                            assert(before.push(found) + entered_places(preorder.remaining())
                                =~= before + (seq![found] + entered_places(preorder.remaining())));
                        },
                        WalkEvent::Leave(_) => {},
                    }
                },
                None => {
                    assert(before + entered_places(preorder.remaining()) =~= before);
                    return nodes;
                },
            }
        }
    }

    /// Collect this node and every descendant node or token in preorder.
    pub fn descendants_with_tokens(&self) -> (elements: Vec<SyntaxElement>)
        ensures
            elements@.map_values(|element: SyntaxElement| cursor::element_place(element))
                == subtree_places(self.place(), self.place().tree(), false),
    {
        let mut preorder = self.preorder_with_tokens();
        let mut elements: Vec<SyntaxElement> = Vec::new();
        let ghost all = entered_places(preorder.remaining());
        proof {
            lemma_walk_enters_subtree(self.place(), self.place().tree(), false);
            assert(elements@.map_values(|element: SyntaxElement| cursor::element_place(element))
                + all =~= all);
        }
        loop
            invariant
                all == subtree_places(self.place(), self.place().tree(), false),
                elements@.map_values(|element: SyntaxElement| cursor::element_place(element))
                    + entered_places(preorder.remaining()) == all,
            decreases preorder.remaining().len(),
        {
            let ghost before = elements@.map_values(
                |element: SyntaxElement| cursor::element_place(element),
            );
            let ghost events = preorder.remaining();
            match preorder.next() {
                Some(event) => {
                    assert(events.drop_first() =~= preorder.remaining());
                    assert(events[0] == element_event(event));
                    match event {
                        WalkEvent::Enter(element) => {
                            let ghost found = cursor::element_place(element);
                            elements.push(element);
                            assert(elements@.map_values(
                                |element: SyntaxElement| cursor::element_place(element),
                            ) =~= before.push(found));
                            assert(before.push(found) + entered_places(preorder.remaining())
                                =~= before + (seq![found] + entered_places(preorder.remaining())));
                        },
                        WalkEvent::Leave(_) => {},
                    }
                },
                None => {
                    assert(before + entered_places(preorder.remaining()) =~= before);
                    return elements;
                },
            }
        }
    }

    /// Write out the exact source text of this subtree.
    pub fn to_string(&self) -> (text: String)
        ensures
            text@ == self.place().tree().text(),
    {
        let mut preorder = self.preorder_with_tokens();
        let mut text = String::new();
        let ghost all = self.place().tree().text();
        proof {
            use_type_invariant(self);
            self.lemma_valid();
            lemma_walk_enters_subtree(self.place(), self.place().tree(), false);
            lemma_subtree_text(self.place());
            assert(text@ + all =~= all);
        }
        loop
            invariant
                all == self.place().tree().text(),
                text@ + places_text(entered_places(preorder.remaining())) == all,
            decreases preorder.remaining().len(),
        {
            let ghost before = text@;
            let ghost events = preorder.remaining();
            match preorder.next() {
                Some(event) => {
                    let ghost later = entered_places(preorder.remaining());
                    assert(events.drop_first() =~= preorder.remaining());
                    assert(events[0] == element_event(event));
                    match event {
                        WalkEvent::Enter(NodeOrToken::Token(token)) => {
                            let piece = token.text();
                            text.append(piece);
                            proof {
                                use_type_invariant(&token);
                                token.lemma_valid();
                                assert((seq![token.place()] + later).drop_first() =~= later);
                                assert(before + piece@ + places_text(later) =~= before + (piece@
                                    + places_text(later)));
                            }
                        },
                        WalkEvent::Enter(NodeOrToken::Node(node)) => {
                            proof {
                                use_type_invariant(&node);
                                node.lemma_valid();
                                assert((seq![node.place()] + later).drop_first() =~= later);
                            }
                        },
                        WalkEvent::Leave(_) => {},
                    }
                },
                None => {
                    assert(before + places_text(entered_places(preorder.remaining()))
                        =~= before);
                    return text;
                },
            }
        }
    }
}

impl Clone for SyntaxNodeChildren {
    fn clone(&self) -> (children: Self)
        ensures
            children == *self,
    {
        proof {
            use_type_invariant(self);
        }
        let current = match &self.current {
            Some(node) => Some(node.clone()),
            None => None,
        };
        SyntaxNodeChildren { parent: self.parent.clone(), current, initialized: self.initialized }
    }
}

impl Clone for SyntaxElementChildren {
    fn clone(&self) -> (children: Self)
        ensures
            children == *self,
    {
        proof {
            use_type_invariant(self);
        }
        let current = match &self.current {
            Some(element) => Some(element.handle()),
            None => None,
        };
        SyntaxElementChildren {
            parent: self.parent.clone(),
            current,
            initialized: self.initialized,
        }
    }
}

impl Clone for NodeSkipState {
    fn clone(&self) -> (state: Self)
        ensures
            state == *self,
    {
        match self {
            NodeSkipState::Unavailable => NodeSkipState::Unavailable,
            NodeSkipState::Eligible(node) => NodeSkipState::Eligible(node.clone()),
            NodeSkipState::Requested(node) => NodeSkipState::Requested(node.clone()),
        }
    }
}

impl Clone for Preorder {
    fn clone(&self) -> (preorder: Self)
        ensures
            preorder == *self,
    {
        proof {
            use_type_invariant(self);
        }
        let next_event = match &self.next_event {
            Some(WalkEvent::Enter(node)) => Some(WalkEvent::Enter(node.clone())),
            Some(WalkEvent::Leave(node)) => Some(WalkEvent::Leave(node.clone())),
            None => None,
        };
        Preorder { start: self.start.clone(), next_event, skip_state: self.skip_state.clone() }
    }
}

impl Clone for PreorderWithTokens {
    fn clone(&self) -> (preorder: Self)
        ensures
            preorder == *self,
    {
        proof {
            use_type_invariant(self);
        }
        let next_event = match &self.next_event {
            Some(event) => Some(copy_event(event)),
            None => None,
        };
        PreorderWithTokens {
            start: self.start.clone(),
            next_event,
            skip_state: self.skip_state.clone(),
        }
    }
}

} // verus!
