//! Protocol-checked construction of green trees.

use vstd::prelude::*;

use crate::debug;
use crate::green::builder_laws;
use crate::green::element;
use crate::green::node::GreenNode;
use crate::green::node_cache;
use crate::green::node_cache::CachedElement;
use crate::green::node_cache::NodeCache;
use crate::green::GreenError;
use crate::green::SyntaxKind;
use crate::hashing::Handed;
use crate::hashing::Recorder;
use crate::model;
use crate::shared::fresh_identity;
use crate::utility_types::NodeOrToken;

verus! {

/// Pointer-identity token used to keep checkpoints scoped to one builder or frame.
pub struct Identity {
    shared: triomphe::Arc<()>,
}

impl Identity {
    /// Allocate a new identity token.
    fn new() -> (identity: Self) {
        Identity { shared: fresh_identity() }
    }

    /// Test whether two tokens are one identity.
    fn same(&self, other: &Self) -> (same: bool)
        ensures
            same == (*self == *other),
    {
        triomphe::Arc::ptr_eq(&self.shared, &other.shared)
    }
}

impl Clone for Identity {
    fn clone(&self) -> (handle: Self)
        ensures
            handle == *self,
    {
        Identity { shared: self.shared.clone() }
    }
}

impl PartialEq for Identity {
    fn eq(&self, other: &Self) -> (same: bool) {
        self.same(other)
    }
}

impl vstd::std_specs::cmp::PartialEqSpecImpl for Identity {
    open spec fn obeys_eq_spec() -> bool {
        true
    }

    open spec fn eq_spec(&self, other: &Self) -> bool {
        *self == *other
    }
}

impl Eq for Identity {

}

impl std::hash::Hash for Identity {
    fn hash<HasherType: std::hash::Hasher>(&self, state: &mut HasherType) {
        let mut recorder: Recorder<'_, HasherType, ()> = Recorder::new(state);
        self.hash_identity(&mut recorder);
    }
}

impl Identity {
    /// Hand the identity over to a hasher.
    fn hash_identity<HasherType: std::hash::Hasher, Kind>(
        &self,
        recorder: &mut Recorder<'_, HasherType, Kind>,
    )
        ensures
            final(recorder).record() == old(recorder).record().push(
                Handed::Identity(self.shared),
            ),
    {
        recorder.hand_identity(&self.shared);
    }
}

/// A reusable location within one open builder frame.
#[derive(Hash)]
pub struct Checkpoint {
    /// Builder that created this checkpoint.
    builder: Identity,
    /// Open frame that owned the child position.
    frame: Identity,
    /// Child position within the frame.
    child_index: usize,
}

impl Checkpoint {
    /// The builder that created the checkpoint.
    pub closed spec fn builder(self) -> Identity {
        self.builder
    }

    /// The frame that the checkpoint lies in.
    pub closed spec fn frame(self) -> Identity {
        self.frame
    }

    /// The number of children before the checkpoint.
    pub closed spec fn child_index(self) -> usize {
        self.child_index
    }
}

impl Clone for Checkpoint {
    fn clone(&self) -> (checkpoint: Self)
        ensures
            checkpoint == *self,
    {
        Checkpoint {
            builder: self.builder.clone(),
            frame: self.frame.clone(),
            child_index: self.child_index,
        }
    }
}

impl PartialEq for Checkpoint {
    fn eq(&self, other: &Self) -> (same: bool) {
        self.builder.same(&other.builder) && self.frame.same(&other.frame) && self.child_index
            == other.child_index
    }
}

impl vstd::std_specs::cmp::PartialEqSpecImpl for Checkpoint {
    open spec fn obeys_eq_spec() -> bool {
        true
    }

    open spec fn eq_spec(&self, other: &Self) -> bool {
        *self == *other
    }
}

impl Eq for Checkpoint {

}

/// A green builder protocol or allocation failure.
#[derive(Debug, Clone, Copy, PartialEq, Eq, Structural)]
pub enum BuildError {
    /// Green construction failed.
    Green(GreenError),
    /// No syntax node is currently open.
    NoOpenNode,
    /// A checkpoint belongs to another builder.
    ForeignCheckpoint,
    /// A checkpoint's owning frame is no longer current.
    StaleCheckpoint,
    /// A checkpoint points beyond its current frame.
    CheckpointOutOfBounds {
        /// Rejected child index.
        index: usize,
        /// Current number of frame children.
        child_count: usize,
    },
    /// `finish` was called while syntax nodes remained open.
    UnclosedNodes {
        /// Number of unclosed syntax nodes.
        count: usize,
    },
    /// `finish` found zero or multiple root elements.
    InvalidRootArity {
        /// Number of completed root elements.
        count: usize,
    },
    /// The sole root element was a token rather than a node.
    RootMustBeNode,
}

impl From<GreenError> for BuildError {
    fn from(error: GreenError) -> (failure: Self) {
        BuildError::Green(error)
    }
}

impl vstd::std_specs::convert::FromSpecImpl<GreenError> for BuildError {
    open spec fn obeys_from_spec() -> bool {
        true
    }

    open spec fn from_spec(error: GreenError) -> Self {
        BuildError::Green(error)
    }
}

/// One open node.
struct Frame {
    /// Stable frame identity used by checkpoints.
    identity: Identity,
    /// Node kind.
    kind: SyntaxKind,
    /// Completed children in source order.
    children: Vec<CachedElement>,
}

/// Permanent collection for completed root elements.
struct RootFrame {
    /// Stable identity used by checkpoints captured outside an open node.
    identity: Identity,
    /// Completed root elements in source order.
    children: Vec<CachedElement>,
}

/// What a frame holds: its identity, the kind of the open node, and the children completed so far.
/// The permanent root collection has no kind.
pub struct FrameState {
    /// The identity that checkpoints refer to.
    pub identity: Identity,
    /// The kind of the open node.
    pub kind: Option<SyntaxKind>,
    /// The completed children in source order.
    pub children: Seq<CachedElement>,
}

impl Frame {
    spec fn state(self) -> FrameState {
        FrameState { identity: self.identity, kind: Some(self.kind), children: self.children@ }
    }
}

impl RootFrame {
    spec fn state(self) -> FrameState {
        FrameState { identity: self.identity, kind: None, children: self.children@ }
    }
}

/// The frames with one more child in the current one.
pub open spec fn appended(frames: Seq<FrameState>, element: CachedElement) -> Seq<FrameState> {
    let current = frames.last();
    frames.drop_last().push(
        FrameState { children: current.children.push(element), ..current },
    )
}

/// The frames once a node is opened that takes over the children from an index on.
pub open spec fn opened_at(
    frames: Seq<FrameState>,
    index: int,
    identity: Identity,
    kind: SyntaxKind,
) -> Seq<FrameState> {
    let current = frames.last();
    frames.drop_last().push(
        FrameState { children: current.children.take(index), ..current },
    ).push(FrameState { identity, kind: Some(kind), children: current.children.skip(index) })
}

/// The text of everything that was completed so far.
pub open spec fn frames_text(frames: Seq<FrameState>) -> Seq<char>
    decreases frames.len(),
{
    if frames.len() == 0 {
        Seq::empty()
    } else {
        frames_text(frames.drop_last()) + model::forest_text(
            element::element_trees(node_cache::greens(frames.last().children)),
        )
    }
}

/// An owned or exclusively borrowed node cache.
pub enum BuilderCache<'cache> {
    /// Cache owned by this builder.
    Owned(NodeCache),
    /// Cache borrowed exclusively from the caller.
    Borrowed(&'cache mut NodeCache),
}

impl BuilderCache<'_> {
    /// The cache at present.
    pub open spec fn contents(self) -> NodeCache {
        match self {
            BuilderCache::Owned(cache) => cache,
            BuilderCache::Borrowed(cache) => *cache,
        }
    }

    /// Borrow the selected cache mutably.
    fn get_mut(&mut self) -> (cache: &mut NodeCache)
        ensures
            *cache == old(self).contents(),
            final(self).contents() == *final(cache),
            *old(self) is Owned == *final(self) is Owned,
            *old(self) matches BuilderCache::Borrowed(before)
                ==> *final(self) matches BuilderCache::Borrowed(after) && *final(before)
                    == *final(after),
    {
        match self {
            BuilderCache::Owned(cache) => cache,
            BuilderCache::Borrowed(cache) => cache,
        }
    }
}

/// The identity of a builder and its frames.
pub struct FrameStack {
    /// Unique builder identity used to reject foreign checkpoints.
    identity: Identity,
    /// Permanent collection for completed root elements.
    root: RootFrame,
    /// Open syntax-node frames.
    open: Vec<Frame>,
}

impl FrameStack {
    /// The identity that the checkpoints of the builder carry.
    pub closed spec fn identity(self) -> Identity {
        self.identity
    }

    /// The permanent root collection and, inside it, the open nodes from the outermost in.
    pub closed spec fn frames(self) -> Seq<FrameState> {
        seq![self.root.state()] + self.open@.map_values(|frame: Frame| frame.state())
    }

    /// There always is the permanent root collection, and only it has no kind.
    pub proof fn lemma_frames(self)
        ensures
            self.frames().len() >= 1,
            forall|i: int|
                0 <= i < self.frames().len() ==> ((#[trigger] self.frames()[i]).kind is None <==> i
                    == 0),
    {
    }

    /// Append a completed element to the current frame.
    fn push_current(&mut self, element: CachedElement)
        ensures
            final(self).identity() == old(self).identity(),
            final(self).frames() == appended(old(self).frames(), element),
    {
        let ghost before = self.frames();
        let open: usize = self.open.len();
        if open > 0 {
            let children = &mut self.open[open - 1].children;
            children.push(element);
        } else {
            self.root.children.push(element);
        }
        assert(self.frames() =~= appended(before, element));
    }

    /// Open a frame for a node.
    fn push_frame(&mut self, kind: SyntaxKind, children: Vec<CachedElement>)
        ensures
            final(self).identity() == old(self).identity(),
            exists|identity: Identity|
                is_new(identity, old(self).frames()) && final(self).frames()
                    == old(self).frames().push(#[trigger] opened_frame(identity, kind, children@)),
    {
        let identity = identity_beside(self);
        let ghost state = opened_frame(identity, kind, children@);
        self.open.push(Frame { identity, kind, children });
        assert(self.frames() =~= old(self).frames().push(state));
    }

    /// Close the innermost frame.
    fn pop_frame(&mut self)
        requires
            old(self).frames().len() > 1,
        ensures
            final(self).identity() == old(self).identity(),
            final(self).frames() == old(self).frames().drop_last(),
    {
        let _ = self.open.pop();
        assert(self.frames() =~= old(self).frames().drop_last());
    }

    /// Keep only the first children of the current frame.
    fn truncate_current(&mut self, count: usize)
        requires
            count <= old(self).frames().last().children.len(),
        ensures
            final(self).identity() == old(self).identity(),
            final(self).frames() == old(self).frames().drop_last().push(
                FrameState {
                    children: old(self).frames().last().children.take(count as int),
                    ..old(self).frames().last()
                },
            ),
    {
        let ghost before = self.frames();
        let open: usize = self.open.len();
        if open > 0 {
            let children = &mut self.open[open - 1].children;
            children.truncate(count);
        } else {
            self.root.children.truncate(count);
        }
        assert(self.frames() =~= before.drop_last().push(
            FrameState { children: before.last().children.take(count as int), ..before.last() },
        ));
    }

    /// Borrow the current frame identity and its completed children.
    fn current_identity_and_children(&self) -> (current: (&Identity, &[CachedElement]))
        ensures
            *current.0 == self.frames().last().identity,
            current.1@ == self.frames().last().children,
    {
        let open: usize = self.open.len();
        if open > 0 {
            let frame = &self.open[open - 1];
            (&frame.identity, frame.children.as_slice())
        } else {
            (&self.root.identity, self.root.children.as_slice())
        }
    }
}

/// No frame has the identity.
pub open spec fn is_new(identity: Identity, frames: Seq<FrameState>) -> bool {
    forall|i: int| 0 <= i < frames.len() ==> (#[trigger] frames[i]).identity != identity
}

/// `triomphe::Arc::new` makes a new allocation: it is none of those that the frames hold.
#[verifier::external_body]
fn identity_beside(stack: &FrameStack) -> (identity: Identity)
    ensures
        is_new(identity, stack.frames()),
{
    Identity { shared: triomphe::Arc::new(()) }
}

/// The frame of a node that was just opened with some children.
pub open spec fn opened_frame(
    identity: Identity,
    kind: SyntaxKind,
    children: Seq<CachedElement>,
) -> FrameState {
    FrameState { identity, kind: Some(kind), children }
}

/// A completed child carries a hash where its tree is small. It then carries the hash of its tree,
/// and the cache holds it and everything below it.
pub open spec fn child_settled(cache: NodeCache, child: CachedElement) -> bool {
    let tree = element::element_tree(child.green);
    &&& child.hash is Some <==> node_cache::small(tree)
    &&& node_cache::rightly_hashed(child)
    &&& child.hash is Some ==> node_cache::interned_in(cache, tree, child.green)
}

/// All of some completed children are settled.
pub open spec fn children_settled(cache: NodeCache, children: Seq<CachedElement>) -> bool {
    forall|i: int| 0 <= i < children.len() ==> child_settled(cache, #[trigger] children[i])
}

/// A cache keeps its entries apart and under their hashes, and all completed children are settled.
pub open spec fn is_sound(frames: Seq<FrameState>, cache: NodeCache) -> bool {
    &&& cache.unique()
    &&& cache.keyed()
    &&& forall|f: int|
        0 <= f < frames.len() ==> children_settled(cache, (#[trigger] frames[f]).children)
}

/// What adding a token does: it is interned under the hash of its kind and text and becomes the
/// last child of the current frame, or nothing changes.
pub open spec fn token_added(
    frames: Seq<FrameState>,
    cache: NodeCache,
    frames_after: Seq<FrameState>,
    cache_after: NodeCache,
    kind: SyntaxKind,
    text: Seq<char>,
    added: Result<(), BuildError>,
) -> bool {
    match added {
        Ok(_) => exists|hash: u64, element: CachedElement|
            {
                &&& node_cache::fx_hashed(hash, node_cache::token_writes(kind, text))
                &&& #[trigger] node_cache::token_interned(
                    cache,
                    cache_after,
                    hash,
                    kind,
                    text,
                    Ok(element),
                )
                &&& frames_after == appended(frames, element)
            },
        Err(BuildError::Green(error)) => frames_after == frames && exists|hash: u64|
            {
                &&& node_cache::fx_hashed(hash, node_cache::token_writes(kind, text))
                &&& #[trigger] node_cache::token_interned(
                    cache,
                    cache_after,
                    hash,
                    kind,
                    text,
                    Err(error),
                )
            },
        Err(_) => false,
    }
}

/// What starting a node does: a frame without children is opened.
pub open spec fn node_started(
    frames: Seq<FrameState>,
    frames_after: Seq<FrameState>,
    kind: SyntaxKind,
) -> bool {
    exists|identity: Identity|
        is_new(identity, frames) && frames_after == frames.push(
            #[trigger] opened_frame(identity, kind, Seq::empty()),
        )
}

/// What starting a node at a checkpoint does: a frame is opened that takes over the children behind
/// the checkpoint, or the checkpoint is rejected and nothing changes.
pub open spec fn node_started_at(
    builder: Identity,
    frames: Seq<FrameState>,
    frames_after: Seq<FrameState>,
    checkpoint: Checkpoint,
    kind: SyntaxKind,
    started: Result<(), BuildError>,
) -> bool {
    match checkpoint_error(builder, frames, checkpoint) {
        Some(error) => started == Err::<(), BuildError>(error) && frames_after == frames,
        None => started is Ok && exists|identity: Identity|
            is_new(identity, frames) && frames_after == #[trigger] opened_at(
                frames,
                checkpoint.child_index() as int,
                identity,
                kind,
            ),
    }
}

/// What finishing a node does: it is made or interned and becomes the last child of the frame
/// around it, or nothing changes.
pub open spec fn node_finished(
    frames: Seq<FrameState>,
    cache: NodeCache,
    frames_after: Seq<FrameState>,
    cache_after: NodeCache,
    finished: Result<(), BuildError>,
) -> bool {
    &&& finished == Err::<(), BuildError>(BuildError::NoOpenNode) <==> frames.len() <= 1
    &&& match finished {
        Ok(_) => exists|hash: Option<u64>, element: CachedElement| #[trigger]
            closed_with(frames.last(), cache, cache_after, hash, Ok(element)) && frames_after
                == appended(frames.drop_last(), element),
        Err(BuildError::Green(error)) => frames_after == frames && exists|hash: Option<u64>|
            #[trigger] closed_with(frames.last(), cache, cache_after, hash, Err(error)),
        Err(error) => error == BuildError::NoOpenNode && frames_after == frames && cache_after
            == cache,
    }
}

/// A protocol-checked builder for one immutable green tree.
pub struct GreenNodeBuilder<'cache> {
    /// Identity and frames.
    pub stack: FrameStack,
    /// Cache selected by the constructor.
    pub cache: BuilderCache<'cache>,
}

/// Create a builder around its selected cache ownership mode.
fn builder_with_cache(cache: BuilderCache<'_>) -> (builder: GreenNodeBuilder<'_>)
    ensures
        is_fresh(builder.frames()),
        builder.cache == cache,
{
    GreenNodeBuilder {
        stack: FrameStack {
            identity: Identity::new(),
            root: RootFrame { identity: Identity::new(), children: Vec::new() },
            open: Vec::new(),
        },
        cache,
    }
}

/// The frames of a builder that was not used yet: the empty root collection alone.
pub open spec fn is_fresh(frames: Seq<FrameState>) -> bool {
    &&& frames.len() == 1
    &&& frames[0].kind is None
    &&& frames[0].children.len() == 0
}

impl GreenNodeBuilder<'_> {
    /// The identity that the checkpoints of this builder carry.
    pub open spec fn identity(self) -> Identity {
        self.stack.identity()
    }

    /// The permanent root collection and, inside it, the open nodes from the outermost in.
    pub open spec fn frames(self) -> Seq<FrameState> {
        self.stack.frames()
    }

    /// The cache keeps its entries apart and under their hashes, and holds the completed children
    /// that are small.
    pub open spec fn sound(self) -> bool {
        is_sound(self.frames(), self.cache.contents())
    }

    /// Create a builder with a private node cache.
    pub fn new() -> (builder: GreenNodeBuilder<'static>)
        ensures
            is_fresh(builder.frames()),
            builder.sound(),
            builder.cache is Owned,
            builder.cache.contents().nodes() == vstd::multiset::Multiset::<
                node_cache::CachedNode,
            >::empty(),
            builder.cache.contents().tokens() == vstd::multiset::Multiset::<
                node_cache::CachedToken,
            >::empty(),
    {
        builder_with_cache(BuilderCache::Owned(NodeCache::new()))
    }

    /// Create a builder that reuses an exclusively borrowed node cache.
    pub fn with_cache<'cache>(cache: &'cache mut NodeCache) -> (builder: GreenNodeBuilder<'cache>)
        ensures
            is_fresh(builder.frames()),
            old(cache).unique() && old(cache).keyed() ==> builder.sound(),
            builder.cache.contents() == *old(cache),
            builder.cache matches BuilderCache::Borrowed(lent) && *final(lent) == *final(cache),
    {
        builder_with_cache(BuilderCache::Borrowed(cache))
    }

    /// Append a token to the current frame.
    ///
    /// The builder is unchanged on failure.
    pub fn token(&mut self, kind: SyntaxKind, text: &str) -> (added: Result<(), BuildError>)
        ensures
            final(self).identity() == old(self).identity(),
            old(self).cache is Owned == final(self).cache is Owned,
            old(self).cache matches BuilderCache::Borrowed(before) ==> final(self).cache matches
                BuilderCache::Borrowed(after) && *final(before) == *final(after),
            token_added(
                old(self).frames(),
                old(self).cache.contents(),
                final(self).frames(),
                final(self).cache.contents(),
                kind,
                text@,
                added,
            ),
            added is Ok ==> {
                let last = old(self).frames().len() - 1;
                let count = old(self).frames()[last].children.len();
                &&& final(self).frames().len() == last + 1
                &&& forall|f: int|
                    0 <= f < last ==> #[trigger] final(self).frames()[f] == old(self).frames()[f]
                &&& final(self).frames()[last].children.len() == count + 1
                &&& forall|i: int|
                    0 <= i < count ==> #[trigger] final(self).frames()[last].children[i] == old(
                        self,
                    ).frames()[last].children[i]
                &&& element::element_tree(
                    final(self).frames()[last].children[count as int].green,
                ) == (model::Tree::Token { kind, text: text@ })
            },
            old(self).sound() ==> final(self).sound(),
    {
        let added = match self.cache.get_mut().token(kind, text) {
            Ok(token) => {
                self.stack.push_current(token);
                Ok(())
            },
            Err(error) => Err(BuildError::Green(error)),
        };
        proof {
            self.stack.lemma_frames();
            old(self).stack.lemma_frames();
            assert(token_added(
                old(self).frames(),
                old(self).cache.contents(),
                self.frames(),
                self.cache.contents(),
                kind,
                text@,
                added,
            ));
            builder_laws::lemma_token_appends(
                old(self).frames(),
                old(self).cache.contents(),
                self.frames(),
                self.cache.contents(),
                kind,
                text@,
                added,
            );
            if old(self).sound() {
                lemma_token_keeps_sound(
                    old(self).frames(),
                    old(self).cache.contents(),
                    self.frames(),
                    self.cache.contents(),
                    kind,
                    text@,
                    added,
                );
            }
        }
        added
    }

    /// Start a new node and make it the current frame.
    pub fn start_node(&mut self, kind: SyntaxKind)
        ensures
            final(self).identity() == old(self).identity(),
            final(self).cache == old(self).cache,
            node_started(old(self).frames(), final(self).frames(), kind),
            final(self).frames().len() == old(self).frames().len() + 1,
            forall|f: int|
                0 <= f < old(self).frames().len() ==> #[trigger] final(self).frames()[f] == old(
                    self,
                ).frames()[f],
            final(self).frames().last().kind == Some(kind),
            final(self).frames().last().children.len() == 0,
            old(self).sound() ==> final(self).sound(),
    {
        self.stack.push_frame(kind, Vec::new());
        proof {
            if old(self).sound() {
                lemma_start_keeps_sound(
                    old(self).frames(),
                    self.frames(),
                    self.cache.contents(),
                    kind,
                );
            }
        }
    }

    /// Finish the current node and append it to its parent frame.
    ///
    /// The builder is unchanged on failure.
    pub fn finish_node(&mut self) -> (finished: Result<(), BuildError>)
        ensures
            final(self).identity() == old(self).identity(),
            old(self).cache is Owned == final(self).cache is Owned,
            old(self).cache matches BuilderCache::Borrowed(before) ==> final(self).cache matches
                BuilderCache::Borrowed(after) && *final(before) == *final(after),
            node_finished(
                old(self).frames(),
                old(self).cache.contents(),
                final(self).frames(),
                final(self).cache.contents(),
                finished,
            ),
            finished == Err::<(), BuildError>(BuildError::NoOpenNode) ==> *final(self)
                == *old(self),
            finished is Ok ==> {
                let last = old(self).frames().len() - 1;
                let outer = last - 1;
                let count = old(self).frames()[outer].children.len();
                &&& last >= 1
                &&& final(self).frames().len() == last
                &&& forall|f: int|
                    0 <= f < outer ==> #[trigger] final(self).frames()[f] == old(self).frames()[f]
                &&& final(self).frames()[outer].children.len() == count + 1
                &&& forall|i: int|
                    0 <= i < count ==> #[trigger] final(self).frames()[outer].children[i] == old(
                        self,
                    ).frames()[outer].children[i]
                &&& element::element_tree(
                    final(self).frames()[outer].children[count as int].green,
                ) matches model::Tree::Node { kind, children } && {
                    &&& old(self).frames()[last].kind == Some(kind)
                    &&& children.len() == old(self).frames()[last].children.len()
                    &&& forall|i: int|
                        0 <= i < children.len() ==> #[trigger] children[i]
                            == element::element_tree(
                            old(self).frames()[last].children[i].green,
                        )
                }
            },
            old(self).sound() ==> final(self).sound(),
    {
        let open: usize = self.stack.open.len();
        if open == 0 {
            return Err(BuildError::NoOpenNode);
        }
        let ghost frame = self.frames().last();
        let innermost = &self.stack.open[open - 1];
        let finished = match self.cache.get_mut().node(
            innermost.kind,
            innermost.children.as_slice(),
        ) {
            Ok(node) => {
                self.stack.pop_frame();
                self.stack.push_current(node);
                proof {
                    let hash = choose|hash: Option<u64>|
                        hash is Some == node_cache::cacheable(frame.children) && (
                        hash matches Some(hash) ==> node_cache::fx_hashed(
                            hash,
                            node_cache::node_writes(
                                frame.kind->0,
                                node_cache::hashes_of(frame.children),
                            ),
                        )) && #[trigger] node_cache::node_interned(
                            old(self).cache.contents(),
                            self.cache.contents(),
                            hash,
                            frame.kind->0,
                            frame.children,
                            Ok(node),
                        );
                    assert(closed_with(
                        frame,
                        old(self).cache.contents(),
                        self.cache.contents(),
                        hash,
                        Ok(node),
                    ));
                }
                Ok(())
            },
            Err(error) => {
                proof {
                    let hash = choose|hash: Option<u64>|
                        hash is Some == node_cache::cacheable(frame.children) && (
                        hash matches Some(hash) ==> node_cache::fx_hashed(
                            hash,
                            node_cache::node_writes(
                                frame.kind->0,
                                node_cache::hashes_of(frame.children),
                            ),
                        )) && #[trigger] node_cache::node_interned(
                            old(self).cache.contents(),
                            self.cache.contents(),
                            hash,
                            frame.kind->0,
                            frame.children,
                            Err(error),
                        );
                    assert(closed_with(
                        frame,
                        old(self).cache.contents(),
                        self.cache.contents(),
                        hash,
                        Err(error),
                    ));
                }
                Err(BuildError::Green(error))
            },
        };
        proof {
            assert(node_finished(
                old(self).frames(),
                old(self).cache.contents(),
                self.frames(),
                self.cache.contents(),
                finished,
            ));
            builder_laws::lemma_finish_wraps(
                old(self).frames(),
                old(self).cache.contents(),
                self.frames(),
                self.cache.contents(),
                finished,
            );
            if old(self).sound() {
                lemma_finish_keeps_sound(
                    old(self).frames(),
                    old(self).cache.contents(),
                    self.frames(),
                    self.cache.contents(),
                    finished,
                );
            }
        }
        finished
    }

    /// Capture the current child position for a later `start_node_at` call.
    pub fn checkpoint(&self) -> (checkpoint: Checkpoint)
        ensures
            checkpoint.builder() == self.identity(),
            checkpoint.frame() == self.frames().last().identity,
            checkpoint.child_index() == self.frames().last().children.len(),
    {
        let (frame_identity, children) = self.stack.current_identity_and_children();
        Checkpoint {
            builder: self.stack.identity.clone(),
            frame: frame_identity.clone(),
            child_index: children.len(),
        }
    }

    /// Start a node whose initial children begin at a checkpoint in the current frame.
    ///
    /// Ownership, frame and position of the checkpoint are checked in that order. The builder is
    /// unchanged on failure.
    pub fn start_node_at(&mut self, checkpoint: &Checkpoint, kind: SyntaxKind) -> (started: Result<
        (),
        BuildError,
    >)
        ensures
            final(self).identity() == old(self).identity(),
            final(self).cache == old(self).cache,
            started is Err ==> *final(self) == *old(self),
            node_started_at(
                old(self).identity(),
                old(self).frames(),
                final(self).frames(),
                *checkpoint,
                kind,
                started,
            ),
            started is Ok <==> checkpoint.builder() == old(self).identity() && checkpoint.frame()
                == old(self).frames().last().identity && checkpoint.child_index() <= old(
                self,
            ).frames().last().children.len(),
            started is Ok ==> {
                let last = old(self).frames().len() - 1;
                let before = checkpoint.child_index() as int;
                let count = old(self).frames()[last].children.len();
                &&& final(self).frames().len() == last + 2
                &&& forall|f: int|
                    0 <= f < last ==> #[trigger] final(self).frames()[f] == old(self).frames()[f]
                &&& final(self).frames()[last].identity == old(self).frames()[last].identity
                &&& final(self).frames()[last].kind == old(self).frames()[last].kind
                &&& final(self).frames()[last].children.len() == before
                &&& forall|i: int|
                    0 <= i < before ==> #[trigger] final(self).frames()[last].children[i] == old(
                        self,
                    ).frames()[last].children[i]
                &&& final(self).frames()[last + 1].kind == Some(kind)
                &&& final(self).frames()[last + 1].children.len() == count - before
                &&& forall|i: int|
                    0 <= i < count - before ==> #[trigger] final(self).frames()[last
                        + 1].children[i] == old(self).frames()[last].children[before + i]
            },
            old(self).sound() ==> final(self).sound(),
    {
        if !checkpoint.builder.same(&self.stack.identity) {
            return Err(BuildError::ForeignCheckpoint);
        }
        let (current_identity, current_children) = self.stack.current_identity_and_children();
        if !checkpoint.frame.same(current_identity) {
            return Err(BuildError::StaleCheckpoint);
        }
        let child_count: usize = current_children.len();
        if checkpoint.child_index > child_count {
            return Err(
                BuildError::CheckpointOutOfBounds { index: checkpoint.child_index, child_count },
            );
        }
        let moved_children = copy_from(current_children, checkpoint.child_index);
        let ghost before = self.frames();
        self.stack.truncate_current(checkpoint.child_index);
        self.stack.push_frame(kind, moved_children);
        proof {
            let start = checkpoint.child_index as int;
            let shortened = before.drop_last().push(
                FrameState { children: before.last().children.take(start), ..before.last() },
            );
            let identity = choose|identity: Identity|
                is_new(identity, shortened) && self.frames() == shortened.push(
                    #[trigger] opened_frame(identity, kind, before.last().children.skip(start)),
                );
            assert(self.frames() == opened_at(before, start, identity, kind));
            assert forall|i: int| 0 <= i < before.len() implies (#[trigger] before[i]).identity
                != identity by {
                assert(shortened[i].identity == before[i].identity);
            }
            old(self).stack.lemma_frames();
            assert(node_started_at(
                old(self).identity(),
                before,
                self.frames(),
                *checkpoint,
                kind,
                Ok(()),
            ));
            if old(self).sound() {
                lemma_start_at_keeps_sound(
                    old(self).identity(),
                    before,
                    self.frames(),
                    self.cache.contents(),
                    *checkpoint,
                    kind,
                    Ok(()),
                );
            }
        }
        Ok(())
    }

    /// Finish this builder and return its sole root node.
    ///
    /// Unclosed nodes are reported before root validation, the root arity before the root kind.
    pub fn finish(self) -> (finished: Result<GreenNode, BuildError>)
        ensures
            self.cache matches BuilderCache::Borrowed(lent) ==> *final(lent) == *lent,
            match finished {
                Ok(root) => {
                    &&& self.frames().len() == 1
                    &&& self.frames()[0].children.len() == 1
                    &&& self.frames()[0].children[0].green == NodeOrToken::<
                        GreenNode,
                        crate::green::token::GreenToken,
                    >::Node(root)
                },
                Err(BuildError::UnclosedNodes { count }) => self.frames().len() > 1 && count
                    == self.frames().len() - 1,
                Err(BuildError::InvalidRootArity { count }) => {
                    &&& self.frames().len() == 1
                    &&& self.frames()[0].children.len() != 1
                    &&& count == self.frames()[0].children.len()
                },
                Err(error) => {
                    &&& error == BuildError::RootMustBeNode
                    &&& self.frames().len() == 1
                    &&& self.frames()[0].children.len() == 1
                    &&& self.frames()[0].children[0].green is Token
                },
            },
    {
        let open_count: usize = self.stack.open.len();
        if open_count != 0 {
            return Err(BuildError::UnclosedNodes { count: open_count });
        }
        let root_count: usize = self.stack.root.children.len();
        if root_count != 1 {
            return Err(BuildError::InvalidRootArity { count: root_count });
        }
        match &self.stack.root.children[0].green {
            NodeOrToken::Node(node) => Ok(node.clone()),
            NodeOrToken::Token(_) => Err(BuildError::RootMustBeNode),
        }
    }
}

impl Default for GreenNodeBuilder<'static> {
    /// Create a builder with a private node cache.
    fn default() -> (builder: Self)
        ensures
            is_fresh(builder.frames()),
            builder.sound(),
            builder.cache is Owned,
            builder.cache.contents().nodes() == vstd::multiset::Multiset::<
                node_cache::CachedNode,
            >::empty(),
            builder.cache.contents().tokens() == vstd::multiset::Multiset::<
                node_cache::CachedToken,
            >::empty(),
    {
        GreenNodeBuilder::new()
    }
}

/// The node of a frame was made, or interned where its children allow it.
pub open spec fn closed_with(
    frame: FrameState,
    before: NodeCache,
    after: NodeCache,
    hash: Option<u64>,
    interned: Result<CachedElement, GreenError>,
) -> bool {
    &&& frame.kind is Some
    &&& hash is Some == node_cache::cacheable(frame.children)
    &&& hash matches Some(hash) ==> node_cache::fx_hashed(
        hash,
        node_cache::node_writes(frame.kind->0, node_cache::hashes_of(frame.children)),
    )
    &&& node_cache::node_interned(before, after, hash, frame.kind->0, frame.children, interned)
}

/// Settled children stay settled while the cache grows.
proof fn lemma_children_stay_settled(
    cache: NodeCache,
    later: NodeCache,
    children: Seq<CachedElement>,
)
    requires
        later.holds_all(cache),
        children_settled(cache, children),
    ensures
        children_settled(later, children),
{
    assert forall|i: int| 0 <= i < children.len() implies child_settled(
        later,
        #[trigger] children[i],
    ) by {
        assert(child_settled(cache, children[i]));
        if children[i].hash is Some {
            node_cache::lemma_interned_stays(
                cache,
                later,
                element::element_tree(children[i].green),
                children[i].green,
            );
        }
    }
}

/// Appending a settled child keeps the children settled.
proof fn lemma_append_keeps_sound(
    frames: Seq<FrameState>,
    cache: NodeCache,
    later: NodeCache,
    element: CachedElement,
)
    requires
        frames.len() > 0,
        is_sound(frames, cache),
        later.unique(),
        later.keyed(),
        later.holds_all(cache),
        child_settled(later, element),
    ensures
        is_sound(appended(frames, element), later),
{
    let grown = appended(frames, element);
    assert forall|f: int| 0 <= f < grown.len() implies children_settled(
        later,
        (#[trigger] grown[f]).children,
    ) by {
        lemma_children_stay_settled(cache, later, frames[f].children);
        if f == frames.len() - 1 {
            assert forall|i: int| 0 <= i < grown[f].children.len() implies child_settled(
                later,
                #[trigger] grown[f].children[i],
            ) by {
                if i < frames[f].children.len() {
                    assert(grown[f].children[i] == frames[f].children[i]);
                }
            }
        }
    }
}

/// Adding a token keeps the cache and the children sound, and keeps what the cache held.
pub proof fn lemma_token_keeps_sound(
    frames: Seq<FrameState>,
    cache: NodeCache,
    frames_after: Seq<FrameState>,
    cache_after: NodeCache,
    kind: SyntaxKind,
    text: Seq<char>,
    added: Result<(), BuildError>,
)
    requires
        frames.len() > 0,
        is_sound(frames, cache),
        token_added(frames, cache, frames_after, cache_after, kind, text, added),
    ensures
        is_sound(frames_after, cache_after),
        cache_after.holds_all(cache),
{
    if added is Ok {
        let (hash, element) = choose|hash: u64, element: CachedElement|
            {
                &&& node_cache::fx_hashed(hash, node_cache::token_writes(kind, text))
                &&& #[trigger] node_cache::token_interned(
                    cache,
                    cache_after,
                    hash,
                    kind,
                    text,
                    Ok(element),
                )
                &&& frames_after == appended(frames, element)
            };
        let interned = Ok::<CachedElement, GreenError>(element);
        node_cache::lemma_token_interning_keeps_unique(
            cache,
            cache_after,
            hash,
            kind,
            text,
            interned,
        );
        node_cache::lemma_token_interning_keeps_keyed(
            cache,
            cache_after,
            hash,
            kind,
            text,
            interned,
        );
        node_cache::lemma_token_interning_grows(cache, cache_after, hash, kind, text, interned);
        node_cache::lemma_written_hash(hash, node_cache::token_writes(kind, text));
        let green = element.green->Token_0;
        assert(exists|entry: u64|
            cache_after.tokens().contains(#[trigger] node_cache::token_entry(entry, green))) by {
            if cache_after == cache && exists|cached: node_cache::CachedToken|
                #![trigger cache.tokens().contains(cached)]
                cache.tokens().contains(cached) && cached.green == green {
                let cached = choose|cached: node_cache::CachedToken|
                    #![trigger cache.tokens().contains(cached)]
                    cache.tokens().contains(cached) && cached.green == green;
                assert(node_cache::token_entry(cached.hash, green) == cached);
            } else {
                let entry = node_cache::token_entry(hash, green);
                vstd::multiset::lemma_insert_containment(cache.tokens(), entry, entry);
            }
        }
        assert(child_settled(cache_after, element));
        lemma_append_keeps_sound(frames, cache, cache_after, element);
    }
}

/// Starting a node keeps the cache and the children sound.
pub proof fn lemma_start_keeps_sound(
    frames: Seq<FrameState>,
    frames_after: Seq<FrameState>,
    cache: NodeCache,
    kind: SyntaxKind,
)
    requires
        is_sound(frames, cache),
        node_started(frames, frames_after, kind),
    ensures
        is_sound(frames_after, cache),
{
    assert forall|f: int| 0 <= f < frames_after.len() implies children_settled(
        cache,
        (#[trigger] frames_after[f]).children,
    ) by {
        if f < frames.len() {
            assert(frames_after[f] == frames[f]);
        }
    }
}

/// Starting a node at a checkpoint keeps the cache and the children sound.
pub proof fn lemma_start_at_keeps_sound(
    builder: Identity,
    frames: Seq<FrameState>,
    frames_after: Seq<FrameState>,
    cache: NodeCache,
    checkpoint: Checkpoint,
    kind: SyntaxKind,
    started: Result<(), BuildError>,
)
    requires
        frames.len() > 0,
        is_sound(frames, cache),
        node_started_at(builder, frames, frames_after, checkpoint, kind, started),
    ensures
        is_sound(frames_after, cache),
{
    let index = checkpoint.child_index() as int;
    let last = frames.len() - 1;
    assert(children_settled(cache, frames[last].children));
    if started is Ok {
        assert forall|f: int| 0 <= f < frames_after.len() implies children_settled(
            cache,
            (#[trigger] frames_after[f]).children,
        ) by {
            let own = frames_after[f].children;
            if f < last {
                assert(frames_after[f] == frames[f]);
            } else {
                assert forall|i: int| 0 <= i < own.len() implies child_settled(
                    cache,
                    #[trigger] own[i],
                ) by {
                    if f == last {
                        assert(own[i] == frames[last].children[i]);
                    } else {
                        assert(own[i] == frames[last].children[index + i]);
                    }
                }
            }
        }
    }
}

/// Finishing a node keeps the cache and the children sound, and keeps what the cache held.
pub proof fn lemma_finish_keeps_sound(
    frames: Seq<FrameState>,
    cache: NodeCache,
    frames_after: Seq<FrameState>,
    cache_after: NodeCache,
    finished: Result<(), BuildError>,
)
    requires
        is_sound(frames, cache),
        node_finished(frames, cache, frames_after, cache_after, finished),
    ensures
        is_sound(frames_after, cache_after),
        cache_after.holds_all(cache),
{
    if finished is Ok {
        let frame = frames.last();
        let kind = frame.kind->0;
        let children = frame.children;
        let (hash, element) = choose|hash: Option<u64>, element: CachedElement| #[trigger]
            closed_with(frame, cache, cache_after, hash, Ok(element)) && frames_after == appended(
                frames.drop_last(),
                element,
            );
        let interned = Ok::<CachedElement, GreenError>(element);
        assert(children_settled(cache, frames[frames.len() - 1].children));
        assert forall|i: int| 0 <= i < children.len() implies node_cache::rightly_hashed(
            #[trigger] children[i],
        ) by {
            assert(child_settled(cache, children[i]));
        }
        node_cache::lemma_node_interning_keeps_unique(
            cache,
            cache_after,
            hash,
            kind,
            children,
            interned,
        );
        node_cache::lemma_node_interning_keeps_keyed(
            cache,
            cache_after,
            hash,
            kind,
            children,
            interned,
        );
        node_cache::lemma_node_interning_grows(cache, cache_after, hash, kind, children, interned);
        lemma_node_settled(frame, cache, cache_after, hash, element);
        assert forall|f: int| 0 <= f < frames.drop_last().len() implies children_settled(
            cache,
            (#[trigger] frames.drop_last()[f]).children,
        ) by {
            assert(frames.drop_last()[f] == frames[f]);
        }
        lemma_append_keeps_sound(frames.drop_last(), cache, cache_after, element);
    }
}

/// A node made of settled children is settled.
proof fn lemma_node_settled(
    frame: FrameState,
    cache: NodeCache,
    cache_after: NodeCache,
    hash: Option<u64>,
    element: CachedElement,
)
    requires
        children_settled(cache, frame.children),
        cache_after.holds_all(cache),
        closed_with(frame, cache, cache_after, hash, Ok(element)),
    ensures
        child_settled(cache_after, element),
{
    let kind = frame.kind->0;
    let children = frame.children;
    let greens = node_cache::greens(children);
    let trees = element::element_trees(greens);
    let tree = model::Tree::Node { kind, children: trees };
    let green = element.green->Node_0;
    assert(element::element_tree(element.green) == tree);
    assert forall|i: int| 0 <= i < children.len() implies node_cache::rightly_hashed(
        #[trigger] children[i],
    ) by {
        assert(child_settled(cache, children[i]));
    }
    assert(node_cache::cacheable(children) <==> node_cache::small(tree)) by {
        if node_cache::cacheable(children) {
            assert forall|i: int| 0 <= i < trees.len() implies node_cache::small(
                #[trigger] trees[i],
            ) by {
                assert(child_settled(cache, children[i]));
                assert(trees[i] == element::element_tree(children[i].green));
            }
        }
        if node_cache::small(tree) {
            assert forall|i: int| 0 <= i < children.len() implies (
            #[trigger] children[i]).hash is Some by {
                assert(child_settled(cache, children[i]));
                assert(node_cache::small(trees[i]));
                assert(trees[i] == element::element_tree(children[i].green));
            }
        }
    }
    if hash is Some {
        node_cache::lemma_node_hashed(kind, children, hash->0);
        lemma_children_stay_settled(cache, cache_after, children);
        assert forall|i: int| 0 <= i < trees.len() implies node_cache::interned_in(
            cache_after,
            #[trigger] trees[i],
            green.elements()[i],
        ) by {
            assert(child_settled(cache_after, children[i]));
            assert(trees[i] == element::element_tree(children[i].green));
        }
        assert(exists|entry: u64|
            cache_after.nodes().contains(#[trigger] node_cache::node_entry(entry, green))) by {
            if cache_after == cache && exists|cached: node_cache::CachedNode|
                #![trigger cache.nodes().contains(cached)]
                cache.nodes().contains(cached) && cached.green == green {
                let cached = choose|cached: node_cache::CachedNode|
                    #![trigger cache.nodes().contains(cached)]
                    cache.nodes().contains(cached) && cached.green == green;
                assert(node_cache::node_entry(cached.hash, green) == cached);
            } else {
                let entry = node_cache::node_entry(hash->0, green);
                vstd::multiset::lemma_insert_containment(cache.nodes(), entry, entry);
            }
        }
        assert(node_cache::interned_in(cache_after, tree, element.green));
    }
}

/// Why a checkpoint cannot be used with the current frame, in the order of the checks.
pub open spec fn checkpoint_error(
    builder: Identity,
    frames: Seq<FrameState>,
    checkpoint: Checkpoint,
) -> Option<BuildError> {
    let current = frames.last();
    if checkpoint.builder() != builder {
        Some(BuildError::ForeignCheckpoint)
    } else if checkpoint.frame() != current.identity {
        Some(BuildError::StaleCheckpoint)
    } else if checkpoint.child_index() > current.children.len() {
        Some(
            BuildError::CheckpointOutOfBounds {
                index: checkpoint.child_index(),
                child_count: current.children.len() as usize,
            },
        )
    } else {
        None
    }
}

/// Collect handles on the elements from an index on.
fn copy_from(elements: &[CachedElement], start: usize) -> (copies: Vec<CachedElement>)
    requires
        start <= elements@.len(),
    ensures
        copies@ == elements@.skip(start as int),
{
    let mut copies: Vec<CachedElement> = Vec::new();
    let count: usize = elements.len();
    let mut index: usize = start;
    while index < count
        invariant
            start <= index <= count,
            count == elements@.len(),
            copies@ == elements@.subrange(start as int, index as int),
        decreases count - index,
    {
        copies.push(elements[index].handle());
        assert(copies@ =~= elements@.subrange(start as int, index + 1));
        index += 1;
    }
    assert(copies@ =~= elements@.skip(start as int));
    copies
}

/// A child that is added to the current frame adds its text behind everything completed before.
pub proof fn lemma_appended_text(frames: Seq<FrameState>, element: CachedElement)
    requires
        frames.len() > 0,
    ensures
        frames_text(appended(frames, element)) == frames_text(frames) + element::element_tree(
            element.green,
        ).text(),
{
    let before = node_cache::greens(frames.last().children);
    let tree = element::element_tree(element.green);
    let after = appended(frames, element);
    assert(after.drop_last() =~= frames.drop_last());
    assert(element::element_trees(node_cache::greens(after.last().children))
        =~= element::element_trees(before) + seq![tree]);
    model::lemma_forest_text_concat(element::element_trees(before), seq![tree]);
    assert(seq![tree].drop_first() =~= Seq::empty());
    assert(model::forest_text(seq![tree]) =~= tree.text()) by {
        reveal_with_fuel(model::forest_text, 2);
    }
    assert(frames_text(after) =~= frames_text(frames) + tree.text());
}

/// Opening a node at a checkpoint changes no text.
pub proof fn lemma_opened_text(
    frames: Seq<FrameState>,
    index: int,
    identity: Identity,
    kind: SyntaxKind,
)
    requires
        frames.len() > 0,
        0 <= index <= frames.last().children.len(),
    ensures
        frames_text(opened_at(frames, index, identity, kind)) == frames_text(frames),
{
    let children = frames.last().children;
    let after = opened_at(frames, index, identity, kind);
    let left = element::element_trees(node_cache::greens(children.take(index)));
    let right = element::element_trees(node_cache::greens(children.skip(index)));
    assert(after.drop_last().drop_last() =~= frames.drop_last());
    assert(element::element_trees(node_cache::greens(children)) =~= left + right);
    model::lemma_forest_text_concat(left, right);
    assert(frames_text(after) == frames_text(after.drop_last()) + model::forest_text(right));
    assert(frames_text(after.drop_last()) == frames_text(frames.drop_last())
        + model::forest_text(left));
    assert(frames_text(after) =~= frames_text(frames));
}

/// Closing a node changes no text.
pub proof fn lemma_closed_text(
    frames: Seq<FrameState>,
    before: NodeCache,
    after: NodeCache,
    hash: Option<u64>,
    element: CachedElement,
)
    requires
        frames.len() > 1,
        closed_with(frames.last(), before, after, hash, Ok(element)),
    ensures
        frames_text(appended(frames.drop_last(), element)) == frames_text(frames),
{
    lemma_appended_text(frames.drop_last(), element);
}

/// The root that a finished builder gives back has the text of everything that was completed.
pub proof fn lemma_finished_text(frames: Seq<FrameState>, root: GreenNode)
    requires
        frames.len() == 1,
        frames[0].children.len() == 1,
        frames[0].children[0].green == NodeOrToken::<
            GreenNode,
            crate::green::token::GreenToken,
        >::Node(root),
    ensures
        frames_text(frames) == root@.text(),
{
    reveal_with_fuel(frames_text, 2);
    reveal_with_fuel(model::forest_text, 2);
    assert(frames.drop_last() =~= Seq::empty());
    let trees = element::element_trees(node_cache::greens(frames[0].children));
    assert(trees =~= seq![root@]);
    assert(seq![root@].drop_first() =~= Seq::empty());
    assert(frames_text(frames) =~= root@.text());
}

/// A checkpoint in the current frame can be used.
pub proof fn lemma_checkpoint_usable(
    builder: Identity,
    frames: Seq<FrameState>,
    checkpoint: Checkpoint,
)
    requires
        checkpoint.builder() == builder,
        checkpoint.frame() == frames.last().identity,
        checkpoint.child_index() <= frames.last().children.len(),
    ensures
        checkpoint_error(builder, frames, checkpoint) is None,
{
}

/// A usable checkpoint stays usable when the current frame grows.
pub proof fn lemma_checkpoint_survives_growth(
    builder: Identity,
    frames: Seq<FrameState>,
    checkpoint: Checkpoint,
    element: CachedElement,
)
    requires
        frames.len() > 0,
        checkpoint_error(builder, frames, checkpoint) is None,
    ensures
        checkpoint_error(builder, appended(frames, element), checkpoint) is None,
{
}

/// A usable checkpoint is usable again once a node opened at it is closed.
pub proof fn lemma_checkpoint_reusable(
    builder: Identity,
    frames: Seq<FrameState>,
    checkpoint: Checkpoint,
    identity: Identity,
    kind: SyntaxKind,
    element: CachedElement,
)
    requires
        frames.len() > 0,
        checkpoint_error(builder, frames, checkpoint) is None,
    ensures
        checkpoint_error(
            builder,
            appended(
                opened_at(
                    frames,
                    checkpoint.child_index() as int,
                    identity,
                    kind,
                ).drop_last(),
                element,
            ),
            checkpoint,
        ) is None,
{
    let opened = opened_at(frames, checkpoint.child_index() as int, identity, kind);
    assert(opened.drop_last().last().identity == frames.last().identity);
}

/// The identities of the frames are all different.
pub open spec fn frames_distinct(frames: Seq<FrameState>) -> bool {
    forall|i: int, j: int|
        0 <= i < j < frames.len() ==> (#[trigger] frames[i]).identity != (
        #[trigger] frames[j]).identity
}

/// A checkpoint is stale as long as another node is open inside its frame.
pub proof fn lemma_checkpoint_stale_inside(
    builder: Identity,
    frames: Seq<FrameState>,
    checkpoint: Checkpoint,
    depth: int,
)
    requires
        frames_distinct(frames),
        0 <= depth < frames.len() - 1,
        checkpoint.builder() == builder,
        checkpoint.frame() == frames[depth].identity,
    ensures
        checkpoint_error(builder, frames, checkpoint) == Some(BuildError::StaleCheckpoint),
{
    assert(frames[depth].identity != frames[frames.len() - 1].identity);
}

/// Every step of a builder keeps the identities of its frames apart.
pub proof fn lemma_frames_stay_distinct(
    frames: Seq<FrameState>,
    element: CachedElement,
    index: int,
    identity: Identity,
    kind: SyntaxKind,
)
    requires
        frames.len() > 0,
        frames_distinct(frames),
        is_new(identity, frames),
    ensures
        frames_distinct(appended(frames, element)),
        frames_distinct(frames.drop_last()),
        frames_distinct(frames.push(opened_frame(identity, kind, Seq::empty()))),
        frames_distinct(opened_at(frames, index, identity, kind)),
{
    let grown = appended(frames, element);
    assert forall|i: int, j: int| 0 <= i < j < grown.len() implies (#[trigger] grown[i]).identity
        != (#[trigger] grown[j]).identity by {
        assert(frames[i].identity != frames[j].identity);
    }
    let pushed = frames.push(opened_frame(identity, kind, Seq::empty()));
    assert forall|i: int, j: int| 0 <= i < j < pushed.len() implies (#[trigger] pushed[i]).identity
        != (#[trigger] pushed[j]).identity by {
        if j < frames.len() {
            assert(frames[i].identity != frames[j].identity);
        } else {
            assert(frames[i].identity != identity);
        }
    }
    let opened = opened_at(frames, index, identity, kind);
    assert forall|i: int, j: int| 0 <= i < j < opened.len() implies (#[trigger] opened[i]).identity
        != (#[trigger] opened[j]).identity by {
        if j < frames.len() {
            assert(frames[i].identity != frames[j].identity);
        } else {
            assert(frames[i].identity != identity);
        }
    }
}

/// The debug text of a cached element.
pub open spec fn cached_shown(element: CachedElement) -> Seq<char> {
    "CachedElement { hash: "@ + debug::option_shown(element.hash) + ", green: "@
        + debug::element_shown(element.green) + " }"@
}

/// The debug texts of cached elements with commas between them.
pub open spec fn cached_list_shown(elements: Seq<CachedElement>) -> Seq<char>
    decreases elements.len(),
{
    if elements.len() == 0 {
        ""@
    } else if elements.len() == 1 {
        cached_shown(elements[0])
    } else {
        cached_list_shown(elements.drop_last()) + ", "@ + cached_shown(elements.last())
    }
}

/// The debug text of a frame.
pub open spec fn frame_shown(frame: FrameState) -> Seq<char> {
    match frame.kind {
        Some(kind) => "Frame { identity: Identity, kind: "@ + debug::kind_shown(kind)
            + ", children: ["@ + cached_list_shown(frame.children) + "] }"@,
        None => "RootFrame { identity: Identity, children: ["@ + cached_list_shown(frame.children)
            + "] }"@,
    }
}

/// The debug texts of open frames with commas between them.
pub open spec fn frames_shown(frames: Seq<FrameState>) -> Seq<char>
    decreases frames.len(),
{
    if frames.len() == 0 {
        ""@
    } else if frames.len() == 1 {
        frame_shown(frames[0])
    } else {
        frames_shown(frames.drop_last()) + ", "@ + frame_shown(frames.last())
    }
}

/// Write out a cached element.
fn show_cached(element: &CachedElement) -> (text: String)
    ensures
        text@ == cached_shown(*element),
{
    let mut text = "CachedElement { hash: ".to_owned();
    text.append(debug::show_option(element.hash).as_str());
    text.append(", green: ");
    text.append(debug::show_element(&element.green).as_str());
    text.append(" }");
    text
}

/// Write out cached elements with commas between them.
fn show_cached_list(elements: &Vec<CachedElement>) -> (text: String)
    ensures
        text@ == cached_list_shown(elements@),
{
    let mut text = "".to_owned();
    let count: usize = elements.len();
    let mut index: usize = 0;
    while index < count
        invariant
            index <= count,
            count == elements@.len(),
            text@ == cached_list_shown(elements@.take(index as int)),
        decreases count - index,
    {
        proof {
            assert(elements@.take(index + 1).drop_last() =~= elements@.take(index as int));
        }
        if index == 0 {
            text = show_cached(&elements[index]);
        } else {
            text.append(", ");
            text.append(show_cached(&elements[index]).as_str());
        }
        index += 1;
    }
    assert(elements@.take(count as int) =~= elements@);
    text
}

impl Checkpoint {
    /// Write out the child position.
    pub fn debug_string(&self) -> (text: String)
        ensures
            text@ == "Checkpoint { builder: Identity, frame: Identity, child_index: "@
                + debug::digits(self.child_index() as nat) + " }"@,
    {
        let mut text = "Checkpoint { builder: Identity, frame: Identity, child_index: ".to_owned();
        text.append(debug::decimal(self.child_index as u64).as_str());
        text.append(" }");
        text
    }
}

impl FrameStack {
    /// Write out the open frames with commas between them.
    fn show_open(&self) -> (text: String)
        ensures
            text@ == frames_shown(self.frames().skip(1)),
    {
        let mut text = "".to_owned();
        let count: usize = self.open.len();
        let mut index: usize = 0;
        let ghost frames = self.frames().skip(1);
        assert(frames =~= self.open@.map_values(|frame: Frame| frame.state()));
        while index < count
            invariant
                index <= count,
                count == self.open@.len(),
                frames == self.open@.map_values(|frame: Frame| frame.state()),
                text@ == frames_shown(frames.take(index as int)),
            decreases count - index,
        {
            proof {
                assert(frames.take(index + 1).drop_last() =~= frames.take(index as int));
                assert(frames.take(index + 1).last() == self.open@[index as int].state());
            }
            let frame = &self.open[index];
            let mut shown = "Frame { identity: Identity, kind: ".to_owned();
            shown.append(debug::show_kind(frame.kind).as_str());
            shown.append(", children: [");
            shown.append(show_cached_list(&frame.children).as_str());
            shown.append("] }");
            if index == 0 {
                text = shown;
            } else {
                text.append(", ");
                text.append(shown.as_str());
            }
            index += 1;
        }
        assert(frames.take(count as int) =~= frames);
        text
    }
}

impl GreenNodeBuilder<'_> {
    /// Write out the frames and the cache ownership mode.
    pub fn debug_string(&self) -> (text: String)
        ensures
            text@ == "GreenNodeBuilder { identity: Identity, root: "@ + frame_shown(
                self.frames()[0],
            ) + ", frames: ["@ + frames_shown(self.frames().skip(1)) + (if self.cache is Owned {
                "], cache: Owned(NodeCache) }"@
            } else {
                "], cache: Borrowed(NodeCache) }"@
            }),
    {
        let mut root = "RootFrame { identity: Identity, children: [".to_owned();
        root.append(show_cached_list(&self.stack.root.children).as_str());
        root.append("] }");
        let mut text = "GreenNodeBuilder { identity: Identity, root: ".to_owned();
        text.append(root.as_str());
        text.append(", frames: [");
        text.append(self.stack.show_open().as_str());
        match &self.cache {
            BuilderCache::Owned(_) => text.append("], cache: Owned(NodeCache) }"),
            BuilderCache::Borrowed(_) => text.append("], cache: Borrowed(NodeCache) }"),
        }
        text
    }
}

} // verus!
