//! Typed AST wrappers and source-location pointers.

pub mod support;

use std::marker::PhantomData;

use vstd::prelude::*;
use vstd::std_specs::cmp::PartialEqSpec;

use crate::api;
use crate::api::Language;
use crate::api::SyntaxNode;
use crate::api::SyntaxNodeChildren;
use crate::cursor_data::Place;
use crate::cursor_query;
use crate::cursor_traversal;
use crate::green::hash;
use crate::green::node::GreenNode;
use crate::green::token::GreenToken;
use crate::green::SyntaxKind;
use crate::hashing::Handed;
use crate::hashing::Recorder;
use crate::model;
use crate::model::Tree;
use crate::text;
use crate::text::TextRange;
use crate::utility_types::NodeOrToken;
use crate::utility_types::WalkEvent;

verus! {

/// Failure to resolve a source pointer against a purported tree root.
#[derive(Debug, Clone, Copy, PartialEq, Eq, Structural)]
pub enum ResolveError {
    /// The supplied cursor has a parent and therefore is not a tree root.
    RootHasParent,
}

/// Failure in a typed AST operation.
#[derive(Debug, Clone, Copy, PartialEq, Eq, Structural)]
pub enum AstError {
    /// An AST implementation rejected the syntax kind produced by cloning its own syntax node.
    CloneCastRejected {
        /// Raw syntax kind rejected by the faulty cast implementation.
        kind: SyntaxKind,
    },
}

/// A wrapper casts a syntax node at a place with an outcome.
pub open spec fn cast_at<NodeType: AstNode>(place: Place, outcome: Option<NodeType>) -> bool {
    exists|node: SyntaxNode<NodeType::Language>|
        node.place() == place && #[trigger] call_ensures(NodeType::cast, (node,), outcome)
}

/// The language gives a raw kind back for the typed kind of a raw kind.
pub open spec fn raw_again<L: Language>(raw: SyntaxKind, again: SyntaxKind) -> bool {
    exists|kind: L::Kind|
        api::typed_kind::<L>(raw, kind) && #[trigger] call_ensures(L::kind_to_raw, (kind,), again)
}

/// Typed AST wrapper contract over a language-specific syntax node.
pub trait AstNode {
    /// Language used by this AST node.
    type Language: Language;

    /// Test whether this AST wrapper accepts a typed syntax kind.
    fn can_cast(kind: <Self::Language as Language>::Kind) -> (accepted: bool) where Self: Sized;

    /// Convert a syntax node into this AST wrapper when its kind is accepted.
    fn cast(node: SyntaxNode<Self::Language>) -> (wrapper: Option<Self>) where Self: Sized;

    /// Borrow this wrapper's underlying syntax node.
    fn syntax(&self) -> (node: &SyntaxNode<Self::Language>);

    /// Clone this AST subtree into an independent root cursor.
    ///
    /// The cast of this wrapper decides on a root cursor over the same green node.
    fn clone_subtree(&self) -> (cloned: Result<Self, AstError>) where Self: Sized
        ensures
            exists|
                syntax: &SyntaxNode<Self::Language>,
                copy: SyntaxNode<Self::Language>,
                wrapper: Option<Self>,
            |
                #![trigger call_ensures(Self::syntax, (self,), syntax),
                    call_ensures(Self::cast, (copy,), wrapper)]
                {
                    &&& call_ensures(Self::syntax, (self,), syntax)
                    &&& call_ensures(Self::cast, (copy,), wrapper)
                    &&& copy.place() == (Place { root: syntax.raw().handle(), path: Seq::empty() })
                    &&& match cloned {
                        Ok(node) => wrapper == Some(node),
                        Err(AstError::CloneCastRejected { kind }) => wrapper is None && raw_again::<
                            Self::Language,
                        >(syntax.place().tree().kind(), kind),
                    }
                },
    {
        let source = self.syntax();
        let syntax = source.clone_subtree();
        let typed = syntax.kind();
        let kind = <Self::Language as Language>::kind_to_raw(typed);
        proof {
            assert(api::typed_kind::<Self::Language>(source.place().tree().kind(), typed));
            assert(raw_again::<Self::Language>(source.place().tree().kind(), kind));
        }
        let ghost copy = syntax;
        let outcome = Self::cast(syntax);
        assert(call_ensures(Self::syntax, (self,), source));
        assert(call_ensures(Self::cast, (copy,), outcome));
        match outcome {
            Some(node) => Ok(node),
            None => Err(AstError::CloneCastRejected { kind }),
        }
    }
}

/// Comparing typed kinds of a language is what its contract says.
pub open spec fn kinds_obey<L: Language>() -> bool {
    L::Kind::obeys_eq_spec()
}

/// Comparing two typed kinds gives an answer.
pub open spec fn kinds_compared<L: Language>(left: L::Kind, right: L::Kind, same: bool) -> bool {
    kinds_obey::<L>() ==> same == left.eq_spec(&right)
}

/// Comparing the typed kind of a raw kind with a typed kind gives an answer.
pub open spec fn kind_answers<L: Language>(raw: SyntaxKind, kind: L::Kind, same: bool) -> bool {
    exists|typed: L::Kind| #[trigger]
        api::typed_kind::<L>(raw, typed) && kinds_compared::<L>(typed, kind, same)
}

/// A place shows the range and the structure of a source, or (`exact`) the source itself.
pub open spec fn shows(place: Place, range: TextRange, source: GreenNode, exact: bool) -> bool {
    &&& place.start() == range.lo()@
    &&& place.end() == range.hi()@
    &&& place.tree() == source@
    &&& exact ==> place.handle() == NodeOrToken::<GreenNode, GreenToken>::Node(source)
}

/// The first of some places that shows a source.
pub open spec fn first_showing(
    places: Seq<Place>,
    range: TextRange,
    source: GreenNode,
    exact: bool,
) -> Option<Place>
    decreases places.len(),
{
    if places.len() == 0 {
        None
    } else {
        match first_showing(places.drop_last(), range, source, exact) {
            Some(place) => Some(place),
            None => if shows(places.last(), range, source, exact) {
                Some(places.last())
            } else {
                None
            },
        }
    }
}

/// The node below `top`, or `top` itself, that a source location leads to: the first one in
/// preorder that is the source itself at its range, else the first one there that is equivalent to
/// it.
pub open spec fn located(top: Place, range: TextRange, source: GreenNode) -> Option<Place> {
    let places = cursor_traversal::subtree_places(top, top.tree(), true);
    match first_showing(places, range, source, true) {
        Some(place) => Some(place),
        None => first_showing(places, range, source, false),
    }
}

/// A pointer finds what its location leads to, unless its kind is not the one that the language
/// gives for the source.
pub open spec fn resolves<L: Language>(
    pointer: SyntaxNodePtr<L>,
    top: Place,
    found: Option<Place>,
) -> bool {
    exists|same: bool| #[trigger]
        kind_answers::<L>(pointer.stored_tree().kind(), pointer.stored_kind(), same) && found
            == if same {
            located(top, pointer.stored_range(), pointer.stored_source())
        } else {
            None
        }
}

/// Stable source-kind and source-range pointer to a syntax node.
pub struct SyntaxNodePtr<L: Language> {
    /// Typed syntax kind at pointer creation.
    kind: L::Kind,
    /// Absolute source range at pointer creation.
    range: TextRange,
    /// Structurally comparable source subtree used to reject non-equivalent trees.
    source: GreenNode,
}

impl<L: Language> SyntaxNodePtr<L> {
    /// The typed kind of the node that the pointer was made of.
    pub closed spec fn stored_kind(self) -> L::Kind {
        self.kind
    }

    /// The range of the node that the pointer was made of.
    pub closed spec fn stored_range(self) -> TextRange {
        self.range
    }

    /// The green node that the pointer was made of.
    pub closed spec fn stored_source(self) -> GreenNode {
        self.source
    }

    /// The tree of the node that the pointer was made of.
    pub open spec fn stored_tree(self) -> Tree {
        self.stored_source()@
    }

    /// Create a pointer from an immutable syntax node.
    pub fn new(node: &SyntaxNode<L>) -> (pointer: Self)
        ensures
            api::typed_kind::<L>(node.place().tree().kind(), pointer.stored_kind()),
            pointer.stored_range() == cursor_query::range_at(node.place()),
            node.place().handle() == NodeOrToken::<GreenNode, GreenToken>::Node(
                pointer.stored_source(),
            ),
            pointer.stored_tree() == node.place().tree(),
    {
        broadcast use text::group_text_range;

        let range = node.text_range();
        proof {
            use_type_invariant(node);
            node.place().lemma_valid();
            assert(range == cursor_query::range_at(node.place()));
        }
        SyntaxNodePtr { kind: node.kind(), range, source: node.green().clone() }
    }

    /// Resolve this pointer against an equivalent tree root.
    ///
    /// A valid but non-equivalent tree, wrong kind, or absent range returns `Ok(None)`. Of several
    /// equivalent nodes at the range, the one that the pointer was made of goes first.
    pub fn resolve(&self, root: &SyntaxNode<L>) -> (resolved: Result<
        Option<SyntaxNode<L>>,
        ResolveError,
    >)
        ensures
            match resolved {
                Ok(found) => root.place().is_root() && resolves::<L>(
                    *self,
                    root.place(),
                    api_place(found),
                ),
                Err(ResolveError::RootHasParent) => !root.place().is_root(),
            },
    {
        broadcast use text::group_text_range;

        if root.parent().is_some() {
            return Err(ResolveError::RootHasParent);
        }
        let typed = L::kind_from_raw(self.source.kind());
        let same = typed == self.kind;
        assert(api::typed_kind::<L>(self.stored_tree().kind(), typed));
        assert(kind_answers::<L>(self.stored_tree().kind(), self.stored_kind(), same));
        if !same {
            assert(resolves::<L>(*self, root.place(), None));
            return Ok(None);
        }
        let ghost top = root.place();
        let ghost places = cursor_traversal::subtree_places(top, top.tree(), true);
        let ghost mut seen: Seq<Place> = Seq::empty();
        let mut equivalent: Option<SyntaxNode<L>> = None;
        let mut walk = root.preorder();
        proof {
            use_type_invariant(root);
            assert(top.path.take(top.path.len() as int) =~= top.path);
            cursor_traversal::lemma_walk_enters_subtree(top, top.tree(), true);
            cursor_traversal::lemma_subtree_inside(top, top, true);
            assert(seen + places =~= places);
        }
        loop
            invariant
                kind_answers::<L>(self.stored_tree().kind(), self.stored_kind(), true),
                top == root.place(),
                top.is_root(),
                places == cursor_traversal::subtree_places(top, top.tree(), true),
                seen + cursor_traversal::entered_places(walk.remaining()) == places,
                first_showing(seen, self.range, self.source, true) is None,
                api_place(equivalent) == first_showing(seen, self.range, self.source, false),
            decreases walk.remaining().len(),
        {
            let ghost before = walk.remaining();
            match walk.next() {
                Some(WalkEvent::Enter(node)) => {
                    let ghost place = node.place();
                    let ghost earlier = seen;
                    proof {
                        lemma_entered_next(before, seq![WalkEvent::Enter(place)], walk.remaining());
                        seen = seen.push(place);
                        assert(seen.drop_last() =~= earlier);
                        assert(seen + cursor_traversal::entered_places(walk.remaining())
                            =~= earlier + (seq![place] + cursor_traversal::entered_places(
                            walk.remaining(),
                        )));
                    }
                    let here = node.text_range();
                    if here.contains_range(self.range) {
                        if self.range.contains_range(here) {
                            if self.source.ptr_eq(node.green()) {
                                proof {
                                    lemma_first_kept(
                                        seen,
                                        cursor_traversal::entered_places(walk.remaining()),
                                        self.range,
                                        self.source,
                                        true,
                                    );
                                }
                                assert(resolves::<L>(*self, top, Some(place)));
                                return Ok(Some(node));
                            }
                            if equivalent.is_none() && self.source.structurally_eq(node.green()) {
                                equivalent = Some(node);
                            }
                        }
                    } else {
                        let ghost inner = walk.remaining();
                        let skipped = walk.skip_subtree();
                        proof {
                            use_type_invariant(&node);
                            let below = cursor_traversal::forest_places(
                                place,
                                place.tree(),
                                0,
                                true,
                            );
                            cursor_traversal::lemma_walk_enters_forest(
                                place,
                                place.tree(),
                                0,
                                true,
                            );
                            cursor_traversal::lemma_entered_concat(
                                cursor_traversal::walk_from(place, place.tree(), 0, true),
                                walk.remaining(),
                            );
                            assert(seen + (below + cursor_traversal::entered_places(
                                walk.remaining(),
                            )) =~= seen + below + cursor_traversal::entered_places(
                                walk.remaining(),
                            ));
                            lemma_outside_shows_nothing(place, self.range, self.source);
                            lemma_first_passes(seen, below, self.range, self.source, true);
                            lemma_first_passes(seen, below, self.range, self.source, false);
                            seen = seen + below;
                        }
                    }
                },
                Some(WalkEvent::Leave(node)) => {
                    proof {
                        lemma_entered_next(
                            before,
                            seq![WalkEvent::Leave(node.place())],
                            walk.remaining(),
                        );
                    }
                },
                None => {
                    assert(cursor_traversal::entered_places(walk.remaining()) =~= Seq::empty());
                    assert(seen =~= places);
                    assert(resolves::<L>(*self, top, api_place(equivalent)));
                    return Ok(equivalent);
                },
            }
        }
    }

    /// Hand the kind, the range and the structure of the source over to a hasher.
    fn hash_location<HasherType: std::hash::Hasher>(
        &self,
        recorder: &mut Recorder<'_, HasherType, L::Kind>,
    )
        ensures
            final(recorder).record() == old(recorder).record() + seq![
                Handed::Typed(self.stored_kind()),
                Handed::Offset(self.stored_range().lo().raw),
                Handed::Offset(self.stored_range().hi().raw),
            ] + hash::handed_words::<L::Kind>(hash::tree_words(self.stored_tree())),
    {
        let ghost before = recorder.record();
        recorder.hand_typed(&self.kind);
        recorder.hand(&self.range.start().raw);
        recorder.hand(&self.range.end().raw);
        assert(recorder.record() =~= before + seq![
            Handed::Typed(self.stored_kind()),
            Handed::Offset(self.stored_range().lo().raw),
            Handed::Offset(self.stored_range().hi().raw),
        ]);
        self.source.hash_structure(recorder);
    }

    /// Return the typed syntax kind stored by this pointer.
    pub fn kind(&self) -> (kind: L::Kind)
        ensures
            kind == self.stored_kind(),
    {
        self.kind
    }

    /// Return the absolute source range stored by this pointer.
    pub fn text_range(&self) -> (range: TextRange)
        ensures
            range == self.stored_range(),
    {
        self.range
    }
}

/// The place of a node, if any.
pub open spec fn api_place<L: Language>(node: Option<SyntaxNode<L>>) -> Option<Place> {
    match node {
        Some(node) => Some(node.place()),
        None => None,
    }
}

impl<L: Language> SyntaxNodePtr<L> {
    /// Cast this pointer to a typed AST pointer when the target wrapper accepts its kind.
    pub fn cast<NodeType: AstNode<Language = L>>(self) -> (typed: Option<AstPtr<NodeType>>)
        ensures
            match typed {
                Some(typed) => typed.pointer() == self && call_ensures(
                    NodeType::can_cast,
                    (self.stored_kind(),),
                    true,
                ),
                None => call_ensures(NodeType::can_cast, (self.stored_kind(),), false),
            },
    {
        if NodeType::can_cast(self.kind) {
            Some(AstPtr { raw: self })
        } else {
            None
        }
    }
}

impl<L: Language> Clone for SyntaxNodePtr<L> {
    fn clone(&self) -> (pointer: Self)
        ensures
            pointer == *self,
    {
        SyntaxNodePtr { kind: self.kind, range: self.range, source: self.source.clone() }
    }
}

impl<L: Language> PartialEq for SyntaxNodePtr<L> {
    fn eq(&self, other: &Self) -> (same: bool) {
        broadcast use text::group_text_range;

        self.kind == other.kind && self.range.start().raw == other.range.start().raw
            && self.range.end().raw == other.range.end().raw && self.source.structurally_eq(
            &other.source,
        )
    }
}

impl<L: Language> vstd::std_specs::cmp::PartialEqSpecImpl for SyntaxNodePtr<L> {
    open spec fn obeys_eq_spec() -> bool {
        kinds_obey::<L>()
    }

    open spec fn eq_spec(&self, other: &Self) -> bool {
        &&& self.stored_kind().eq_spec(&other.stored_kind())
        &&& self.stored_range() == other.stored_range()
        &&& self.stored_tree() == other.stored_tree()
    }
}

impl<L: Language> Eq for SyntaxNodePtr<L> {

}

impl<L: Language> std::hash::Hash for SyntaxNodePtr<L> {
    fn hash<HasherType: std::hash::Hasher>(&self, state: &mut HasherType) {
        let mut recorder: Recorder<'_, HasherType, L::Kind> = Recorder::new(state);
        self.hash_location(&mut recorder);
    }
}

/// Typed AST pointer retaining its wrapper type.
pub struct AstPtr<NodeType: AstNode> {
    /// Underlying syntax-node pointer.
    raw: SyntaxNodePtr<NodeType::Language>,
}

impl<NodeType: AstNode> AstPtr<NodeType> {
    /// The underlying syntax-node pointer.
    pub closed spec fn pointer(self) -> SyntaxNodePtr<NodeType::Language> {
        self.raw
    }

    /// Create a typed pointer from an AST node.
    pub fn new(node: &NodeType) -> (pointer: Self)
        ensures
            exists|syntax: &SyntaxNode<NodeType::Language>| #[trigger]
                call_ensures(NodeType::syntax, (node,), syntax) && {
                    &&& api::typed_kind::<NodeType::Language>(
                        syntax.place().tree().kind(),
                        pointer.pointer().stored_kind(),
                    )
                    &&& pointer.pointer().stored_range() == cursor_query::range_at(syntax.place())
                    &&& syntax.place().handle() == NodeOrToken::<GreenNode, GreenToken>::Node(
                        pointer.pointer().stored_source(),
                    )
                    &&& pointer.pointer().stored_tree() == syntax.place().tree()
                },
    {
        let syntax = node.syntax();
        assert(call_ensures(NodeType::syntax, (node,), syntax));
        AstPtr { raw: SyntaxNodePtr::new(syntax) }
    }

    /// Resolve this pointer against an equivalent tree root.
    pub fn resolve(&self, root: &SyntaxNode<NodeType::Language>) -> (resolved: Result<
        Option<NodeType>,
        ResolveError,
    >)
        ensures
            match resolved {
                Ok(wrapper) => root.place().is_root() && exists|found: Option<Place>| #[trigger]
                    resolves::<NodeType::Language>(self.pointer(), root.place(), found) && match found {
                        Some(place) => cast_at::<NodeType>(place, wrapper),
                        None => wrapper is None,
                    },
                Err(ResolveError::RootHasParent) => !root.place().is_root(),
            },
    {
        match self.raw.resolve(root) {
            Ok(Some(node)) => {
                let ghost found = node;
                let wrapper = NodeType::cast(node);
                assert(call_ensures(NodeType::cast, (found,), wrapper));
                assert(cast_at::<NodeType>(found.place(), wrapper));
                assert(resolves::<NodeType::Language>(
                    self.pointer(),
                    root.place(),
                    Some(found.place()),
                ));
                Ok(wrapper)
            },
            Ok(None) => {
                assert(resolves::<NodeType::Language>(self.pointer(), root.place(), None));
                Ok(None)
            },
            Err(error) => Err(error),
        }
    }

    /// Return the underlying syntax-node pointer.
    pub fn syntax_node_ptr(&self) -> (pointer: SyntaxNodePtr<NodeType::Language>)
        ensures
            pointer == self.pointer(),
    {
        self.raw.clone()
    }

    /// Cast this pointer to another AST wrapper accepting the same stored kind.
    pub fn cast<Other: AstNode<Language = NodeType::Language>>(self) -> (typed: Option<
        AstPtr<Other>,
    >)
        ensures
            match typed {
                Some(typed) => typed.pointer() == self.pointer() && call_ensures(
                    Other::can_cast,
                    (self.pointer().stored_kind(),),
                    true,
                ),
                None => call_ensures(Other::can_cast, (self.pointer().stored_kind(),), false),
            },
    {
        self.raw.cast()
    }
}

impl<NodeType: AstNode> Clone for AstPtr<NodeType> {
    fn clone(&self) -> (pointer: Self)
        ensures
            pointer == *self,
    {
        AstPtr { raw: self.raw.clone() }
    }
}

impl<NodeType: AstNode> PartialEq for AstPtr<NodeType> {
    fn eq(&self, other: &Self) -> (same: bool) {
        self.raw == other.raw
    }
}

impl<NodeType: AstNode> vstd::std_specs::cmp::PartialEqSpecImpl for AstPtr<NodeType> {
    open spec fn obeys_eq_spec() -> bool {
        kinds_obey::<NodeType::Language>()
    }

    open spec fn eq_spec(&self, other: &Self) -> bool {
        PartialEqSpec::eq_spec(&self.pointer(), &other.pointer())
    }
}

impl<NodeType: AstNode> Eq for AstPtr<NodeType> {

}

impl<NodeType: AstNode> std::hash::Hash for AstPtr<NodeType> {
    fn hash<HasherType: std::hash::Hasher>(&self, state: &mut HasherType) {
        let mut recorder: Recorder<
            '_,
            HasherType,
            <NodeType::Language as Language>::Kind,
        > = Recorder::new(state);
        self.raw.hash_location(&mut recorder);
    }
}

impl<NodeType: AstNode> From<AstPtr<NodeType>> for SyntaxNodePtr<NodeType::Language> {
    fn from(pointer: AstPtr<NodeType>) -> (raw: Self) {
        pointer.raw
    }
}

impl<NodeType: AstNode> vstd::std_specs::convert::FromSpecImpl<AstPtr<NodeType>> for SyntaxNodePtr<NodeType::Language> {
    open spec fn obeys_from_spec() -> bool {
        true
    }

    open spec fn from_spec(pointer: AstPtr<NodeType>) -> Self {
        pointer.pointer()
    }
}

/// Iterator over direct children accepted by one AST wrapper type.
pub struct AstChildren<NodeType: AstNode> {
    /// Underlying typed syntax-node iterator.
    inner: SyntaxNodeChildren<NodeType::Language>,
    /// AST wrapper marker.
    node_type: PhantomData<NodeType>,
}

/// The wrapper's cast rejected the nodes at all places of a sequence.
pub open spec fn all_rejected<NodeType: AstNode>(places: Seq<Place>) -> bool {
    forall|i: int| 0 <= i < places.len() ==> cast_at::<NodeType>(#[trigger] places[i], None)
}

impl<NodeType: AstNode> AstChildren<NodeType> {
    /// The places of the nodes that are still to be looked at.
    pub closed spec fn remaining(self) -> Seq<Place> {
        self.inner.remaining()
    }

    /// Create a typed AST child iterator.
    pub(crate) fn new(parent: &SyntaxNode<NodeType::Language>) -> (children: Self)
        ensures
            children.remaining() == cursor_traversal::child_places(
                parent.place(),
                parent.place().tree().children(),
                0,
                true,
            ),
    {
        AstChildren { inner: parent.children(), node_type: PhantomData }
    }

    /// Yield the next child that the wrapper accepts.
    pub fn next(&mut self) -> (wrapper: Option<NodeType>)
        ensures
            match wrapper {
                Some(wrapper) => {
                    let passed = old(self).remaining().len() - final(self).remaining().len() - 1;
                    &&& 0 <= passed < old(self).remaining().len()
                    &&& final(self).remaining() == old(self).remaining().skip(passed + 1)
                    &&& all_rejected::<NodeType>(old(self).remaining().take(passed))
                    &&& cast_at::<NodeType>(old(self).remaining()[passed], Some(wrapper))
                },
                None => {
                    &&& final(self).remaining().len() == 0
                    &&& all_rejected::<NodeType>(old(self).remaining())
                },
            },
    {
        let ghost all = self.remaining();
        let ghost mut passed: int = 0;
        assert(all.skip(0) =~= all);
        assert(all.take(0) =~= Seq::empty());
        loop
            invariant
                all == old(self).remaining(),
                0 <= passed <= all.len(),
                self.inner.remaining() == all.skip(passed),
                all_rejected::<NodeType>(all.take(passed)),
            decreases self.inner.remaining().len(),
        {
            match self.inner.next() {
                Some(node) => {
                    let ghost found = node;
                    proof {
                        cursor_traversal::lemma_first_taken(
                            all,
                            passed,
                            found.place(),
                            self.inner.remaining(),
                        );
                    }
                    let outcome = NodeType::cast(node);
                    proof {
                        assert(call_ensures(NodeType::cast, (found,), outcome));
                        assert(cast_at::<NodeType>(all[passed], outcome));
                    }
                    match outcome {
                        Some(wrapper) => {
                            return Some(wrapper);
                        },
                        None => {},
                    }
                    proof {
                        let longer = all.take(passed + 1);
                        assert forall|i: int| 0 <= i < longer.len() implies cast_at::<NodeType>(
                            #[trigger] longer[i],
                            None,
                        ) by {
                            if i < passed {
                                assert(all.take(passed)[i] == longer[i]);
                            }
                        }
                        passed = passed + 1;
                    }
                },
                None => {
                    assert(all.take(passed) =~= all);
                    return None;
                },
            }
        }
    }
}

impl<NodeType: AstNode> Clone for AstChildren<NodeType> {
    fn clone(&self) -> (children: Self)
        ensures
            children == *self,
    {
        AstChildren { inner: self.inner.clone(), node_type: PhantomData }
    }
}

/// What an event enters comes before what the events behind it enter.
proof fn lemma_entered_next(
    events: Seq<WalkEvent<Place>>,
    first: Seq<WalkEvent<Place>>,
    rest: Seq<WalkEvent<Place>>,
)
    requires
        first.len() == 1,
        events == first + rest,
    ensures
        cursor_traversal::entered_places(events) == match first[0] {
            WalkEvent::Enter(place) => seq![place] + cursor_traversal::entered_places(rest),
            WalkEvent::Leave(_) => cursor_traversal::entered_places(rest),
        },
{
    assert(events.drop_first() =~= rest);
}

/// The first place that shows a source stays the first one when places follow.
proof fn lemma_first_kept(
    places: Seq<Place>,
    later: Seq<Place>,
    range: TextRange,
    source: GreenNode,
    exact: bool,
)
    requires
        first_showing(places, range, source, exact) is Some,
    ensures
        first_showing(places + later, range, source, exact) == first_showing(
            places,
            range,
            source,
            exact,
        ),
    decreases later.len(),
{
    if later.len() == 0 {
        assert(places + later =~= places);
    } else {
        assert((places + later).drop_last() =~= places + later.drop_last());
        lemma_first_kept(places, later.drop_last(), range, source, exact);
    }
}

/// Places that do not show a source do not change which one is the first.
proof fn lemma_first_passes(
    places: Seq<Place>,
    later: Seq<Place>,
    range: TextRange,
    source: GreenNode,
    exact: bool,
)
    requires
        forall|i: int|
            0 <= i < later.len() ==> !shows(#[trigger] later[i], range, source, false),
    ensures
        first_showing(places + later, range, source, exact) == first_showing(
            places,
            range,
            source,
            exact,
        ),
    decreases later.len(),
{
    if later.len() == 0 {
        assert(places + later =~= places);
    } else {
        assert((places + later).drop_last() =~= places + later.drop_last());
        assert(!shows(later[later.len() - 1], range, source, false));
        lemma_first_passes(places, later.drop_last(), range, source, exact);
    }
}

/// Nothing below a place shows a source whose range is not inside it.
proof fn lemma_outside_shows_nothing(place: Place, range: TextRange, source: GreenNode)
    requires
        place.valid(),
        !cursor_query::range_inside(place, range),
    ensures
        forall|i: int|
            0 <= i < cursor_traversal::forest_places(place, place.tree(), 0, true).len() ==> !shows(
                #[trigger] cursor_traversal::forest_places(place, place.tree(), 0, true)[i],
                range,
                source,
                false,
            ),
{
    let below = cursor_traversal::forest_places(place, place.tree(), 0, true);
    assert(place.path.take(place.path.len() as int) =~= place.path);
    cursor_traversal::lemma_forest_inside(place, place, 0, true);
    assert forall|i: int| 0 <= i < below.len() implies !shows(
        #[trigger] below[i],
        range,
        source,
        false,
    ) by {
        assert(cursor_traversal::inside(place, below[i]));
        lemma_held_inside(place, below[i]);
    }
}

/// The first place that shows a source is one of the places and shows it, and none before it does;
/// where there is none, no place does.
proof fn lemma_first_showing(places: Seq<Place>, range: TextRange, source: GreenNode, exact: bool)
    ensures
        match first_showing(places, range, source, exact) {
            Some(place) => {
                &&& shows(place, range, source, exact)
                &&& exists|j: int|
                    0 <= j < places.len() && #[trigger] places[j] == place && forall|i: int|
                        0 <= i < j ==> !shows(#[trigger] places[i], range, source, exact)
            },
            None => forall|i: int|
                0 <= i < places.len() ==> !shows(#[trigger] places[i], range, source, exact),
        },
    decreases places.len(),
{
    if places.len() > 0 {
        let shorter = places.drop_last();
        lemma_first_showing(shorter, range, source, exact);
        match first_showing(shorter, range, source, exact) {
            Some(place) => {
                let j = choose|j: int|
                    0 <= j < shorter.len() && #[trigger] shorter[j] == place && forall|i: int|
                        0 <= i < j ==> !shows(#[trigger] shorter[i], range, source, exact);
                assert forall|i: int| 0 <= i < j implies !shows(
                    #[trigger] places[i],
                    range,
                    source,
                    exact,
                ) by {
                    assert(shorter[i] == places[i]);
                }
                assert(places[j] == place);
            },
            None => {
                assert(places[places.len() - 1] == places.last());
                assert forall|i: int| 0 <= i < places.len() - 1 implies !shows(
                    #[trigger] places[i],
                    range,
                    source,
                    exact,
                ) by {
                    assert(shorter[i] == places[i]);
                }
                assert forall|i: int|
                    0 <= i < places.len() && !shows(places.last(), range, source, exact) implies !shows(
                    #[trigger] places[i],
                    range,
                    source,
                    exact,
                ) by {
                    if i < shorter.len() {
                        assert(shorter[i] == places[i]);
                    }
                }
            },
        }
    }
}

/// A place lies inside every place above it.
proof fn lemma_held_inside(top: Place, place: Place)
    requires
        top.valid(),
        place.valid(),
        top.holds(place),
    ensures
        top.start() <= place.start(),
        place.end() <= top.end(),
{
    model::lemma_inside_upper(top.root@, top.path, place.path);
}

/// Every node of a subtree is among its places.
pub proof fn lemma_node_listed(top: Place, node: Place)
    requires
        top.valid(),
        node.valid(),
        top.holds(node),
        node.tree() is Node,
    ensures
        cursor_traversal::subtree_places(top, top.tree(), true).contains(node),
    decreases node.path.len() - top.path.len(),
{
    let places = cursor_traversal::subtree_places(top, top.tree(), true);
    if node.path.len() == top.path.len() {
        assert(node.path.take(top.path.len() as int) =~= node.path);
        assert(places[0] == node);
    } else {
        let index = node.path[top.path.len() as int];
        let lower = top.child(index);
        cursor_traversal::lemma_step_down(top, node);
        top.lemma_child(index);
        assert(lower.tree() is Node) by {
            if node.path.len() == lower.path.len() {
                assert(node.path.take(lower.path.len() as int) =~= node.path);
            }
        }
        lemma_node_listed(lower, node);
        lemma_forest_lists(top, 0, index, node);
        let below = cursor_traversal::forest_places(top, top.tree(), 0, true);
        let i = choose|i: int| 0 <= i < below.len() && below[i] == node;
        assert(places[i + 1] == node);
    }
}

/// What the subtree of a child lists, the children together list.
proof fn lemma_forest_lists(top: Place, low: int, index: int, node: Place)
    requires
        top.valid(),
        0 <= low <= index < top.tree().children().len(),
        top.tree().children()[index] is Node,
        cursor_traversal::subtree_places(
            top.child(index),
            top.tree().children()[index],
            true,
        ).contains(node),
    ensures
        cursor_traversal::forest_places(top, top.tree(), low, true).contains(node),
    decreases index - low,
{
    let tree = top.tree();
    let all = cursor_traversal::forest_places(top, tree, low, true);
    let own = if tree.children()[low] is Token {
        Seq::empty()
    } else {
        cursor_traversal::subtree_places(top.child(low), tree.children()[low], true)
    };
    let later = cursor_traversal::forest_places(top, tree, low + 1, true);
    assert(all == own + later);
    if low == index {
        let i = choose|i: int| 0 <= i < own.len() && own[i] == node;
        assert(all[i] == node);
    } else {
        lemma_forest_lists(top, low + 1, index, node);
        let i = choose|i: int| 0 <= i < later.len() && later[i] == node;
        assert(all[own.len() + i] == node);
    }
}

/// Two places with the same non-empty range and the same tree are one.
pub proof fn lemma_same_range_unique(top: Place, left: Place, right: Place)
    requires
        left.valid(),
        right.valid(),
        top.holds(left),
        top.holds(right),
        left.tree() == right.tree(),
        left.start() == right.start(),
        left.start() < left.end(),
    ensures
        left == right,
{
    model::lemma_before_total(left.path, right.path);
    if model::path_before(left.path, right.path) {
        model::lemma_before_offsets(top.root@, left.path, right.path);
    } else if model::path_before(right.path, left.path) {
        model::lemma_before_offsets(top.root@, right.path, left.path);
    } else if model::path_through(right.path, left.path) {
        crate::cursor_data::lemma_same_below(left, right);
    } else {
        crate::cursor_data::lemma_same_below(right, left);
    }
}

/// A pointer resolves in its own tree to the node that it was made of: what it finds has the
/// node's offset and is the node's own green handle, so the two cursors are equal. Where the node
/// is not empty, only one place is so.
pub proof fn lemma_pointer_resolves<L: Language>(
    pointer: SyntaxNodePtr<L>,
    top: Place,
    node: Place,
    found: Option<Place>,
)
    requires
        top.valid(),
        node.valid(),
        top.holds(node),
        node.tree() is Node,
        node.tree() == pointer.stored_tree(),
        node.handle() == NodeOrToken::<GreenNode, GreenToken>::Node(pointer.stored_source()),
        pointer.stored_range() == cursor_query::range_at(node),
        forall|same: bool| #[trigger]
            kind_answers::<L>(node.tree().kind(), pointer.stored_kind(), same) ==> same,
        resolves::<L>(pointer, top, found),
    ensures
        found matches Some(place) && {
            &&& top.holds(place)
            &&& place.valid()
            &&& place.start() == node.start()
            &&& place.handle() == node.handle()
            &&& node.start() < node.end() ==> place == node
        },
{
    broadcast use text::group_text_range;

    let range = pointer.stored_range();
    let source = pointer.stored_source();
    let places = cursor_traversal::subtree_places(top, top.tree(), true);
    node.lemma_valid();
    lemma_node_listed(top, node);
    lemma_first_showing(places, range, source, true);
    let i = choose|i: int| 0 <= i < places.len() && places[i] == node;
    assert(shows(places[i], range, source, true));
    let place = first_showing(places, range, source, true)->0;
    assert(top.path.take(top.path.len() as int) =~= top.path);
    cursor_traversal::lemma_subtree_inside(top, top, true);
    let j = choose|j: int| 0 <= j < places.len() && places[j] == place;
    assert(cursor_traversal::inside(top, places[j]));
    if node.start() < node.end() {
        lemma_same_range_unique(top, place, node);
    }
}

/// What a pointer resolves to lies in the tree, has the pointer's range and kind and says what its
/// source says. It is the source itself wherever that stands in the range, and the first such node in
/// preorder. It resolves to nothing only where no node is so.
pub proof fn lemma_resolved_equivalent<L: Language>(
    pointer: SyntaxNodePtr<L>,
    top: Place,
    found: Option<Place>,
)
    requires
        top.valid(),
        resolves::<L>(pointer, top, found),
    ensures
        match found {
            Some(place) => {
                &&& top.holds(place)
                &&& place.valid()
                &&& place.start() == pointer.stored_range().lo()@
                &&& place.end() == pointer.stored_range().hi()@
                &&& place.tree() == pointer.stored_source()@
                &&& kind_answers::<L>(place.tree().kind(), pointer.stored_kind(), true)
                &&& forall|node: Place|
                    #![trigger top.holds(node)]
                    top.holds(node) && node.valid() && node.start() == pointer.stored_range().lo()@
                        && node.end() == pointer.stored_range().hi()@ && node.tree()
                        == pointer.stored_source()@ && (node.handle() == NodeOrToken::<
                        GreenNode,
                        GreenToken,
                    >::Node(pointer.stored_source()) || place.handle() != NodeOrToken::<
                        GreenNode,
                        GreenToken,
                    >::Node(pointer.stored_source())) && node.tree() is Node ==> {
                        &&& node.handle() == NodeOrToken::<GreenNode, GreenToken>::Node(
                            pointer.stored_source(),
                        ) ==> place.handle() == node.handle()
                        &&& place == node || place.holds(node) || model::path_before(
                            place.path,
                            node.path,
                        )
                    }
            },
            None => forall|node: Place|
                #![trigger top.holds(node)]
                top.holds(node) && node.valid() && node.tree() is Node && node.start()
                    == pointer.stored_range().lo()@ && node.end() == pointer.stored_range().hi()@
                    && node.tree() == pointer.stored_source()@ ==> kind_answers::<L>(
                    node.tree().kind(),
                    pointer.stored_kind(),
                    false,
                ),
        },
{
    let range = pointer.stored_range();
    let source = pointer.stored_source();
    let places = cursor_traversal::subtree_places(top, top.tree(), true);
    lemma_first_showing(places, range, source, true);
    lemma_first_showing(places, range, source, false);
    assert(top.path.take(top.path.len() as int) =~= top.path);
    cursor_traversal::lemma_subtree_inside(top, top, true);
    match found {
        Some(place) => {
            let exact = first_showing(places, range, source, true) is Some;
            let j = choose|j: int|
                0 <= j < places.len() && places[j] == place && forall|i: int|
                    0 <= i < j ==> !shows(#[trigger] places[i], range, source, exact);
            assert(cursor_traversal::inside(top, places[j]));
            assert forall|node: Place|
                #![trigger top.holds(node)]
                top.holds(node) && node.valid() && node.tree() is Node && shows(
                    node,
                    range,
                    source,
                    exact,
                ) implies place == node || place.holds(node) || model::path_before(
                place.path,
                node.path,
            ) by {
                lemma_node_listed(top, node);
                let i = choose|i: int| 0 <= i < places.len() && places[i] == node;
                assert(shows(places[i], range, source, exact));
                if i > j {
                    crate::cursor_laws::lemma_entered_in_preorder(top, top.tree(), true);
                    assert(crate::cursor_laws::in_preorder(places[j], places[i]));
                }
            }
            assert forall|node: Place|
                #![trigger top.holds(node)]
                top.holds(node) && node.valid() && node.tree() is Node && shows(
                    node,
                    range,
                    source,
                    true,
                ) implies exact by {
                lemma_node_listed(top, node);
                let i = choose|i: int| 0 <= i < places.len() && places[i] == node;
                assert(shows(places[i], range, source, true));
            }
        },
        None => {
            assert forall|node: Place|
                #![trigger top.holds(node)]
                top.holds(node) && node.valid() && node.tree() is Node && shows(
                    node,
                    range,
                    source,
                    false,
                ) implies kind_answers::<L>(
                node.tree().kind(),
                pointer.stored_kind(),
                false,
            ) by {
                lemma_node_listed(top, node);
                let i = choose|i: int| 0 <= i < places.len() && places[i] == node;
                assert(shows(places[i], range, source, false));
            }
        },
    }
}

} // verus!
