//! Laws of a builder over a history of calls.

use vstd::prelude::*;

use crate::green::builder;
use crate::green::builder::BuildError;
use crate::green::builder::Checkpoint;
use crate::green::builder::FrameState;
use crate::green::builder::Identity;
use crate::green::element;
use crate::green::node::GreenNode;
use crate::green::node_cache;
use crate::green::node_cache::CachedElement;
use crate::green::node_cache::NodeCache;
use crate::green::token::GreenToken;
use crate::green::SyntaxKind;
use crate::model;
use crate::model::Tree;
use crate::utility_types::NodeOrToken;

verus! {

/// A token that is added becomes the last child of the current frame, with its kind and text; all
/// other children and frames stay as they were.
pub proof fn lemma_token_appends(
    frames: Seq<FrameState>,
    cache: NodeCache,
    frames_after: Seq<FrameState>,
    cache_after: NodeCache,
    kind: SyntaxKind,
    text: Seq<char>,
    added: Result<(), BuildError>,
)
    requires
        frames.len() > 0,
        builder::token_added(frames, cache, frames_after, cache_after, kind, text, added),
    ensures
        added is Err ==> frames_after == frames,
        added is Ok ==> {
            let last = frames.len() - 1;
            let count = frames[last].children.len();
            &&& frames_after.len() == frames.len()
            &&& forall|f: int| 0 <= f < last ==> #[trigger] frames_after[f] == frames[f]
            &&& frames_after[last].identity == frames[last].identity
            &&& frames_after[last].kind == frames[last].kind
            &&& frames_after[last].children.len() == count + 1
            &&& forall|i: int|
                0 <= i < count ==> #[trigger] frames_after[last].children[i]
                    == frames[last].children[i]
            &&& element::element_tree(frames_after[last].children[count as int].green) == (
            Tree::Token { kind, text })
        },
{
}

/// A node that is started has no children, and everything else stays as it was.
pub proof fn lemma_start_opens(
    frames: Seq<FrameState>,
    frames_after: Seq<FrameState>,
    kind: SyntaxKind,
)
    requires
        builder::node_started(frames, frames_after, kind),
    ensures
        frames_after.len() == frames.len() + 1,
        forall|f: int| 0 <= f < frames.len() ==> #[trigger] frames_after[f] == frames[f],
        frames_after[frames.len() as int].kind == Some(kind),
        frames_after[frames.len() as int].children.len() == 0,
{
}

/// A node that is started at a checkpoint takes over exactly the children that were completed after
/// the checkpoint was taken. The children that stood before it stay in the surrounding frame, one
/// by one as they were. A checkpoint fails only in another frame, or where the frame has fewer
/// children than when it was taken.
pub proof fn lemma_checkpoint_splits(
    identity: Identity,
    taken: Seq<FrameState>,
    frames: Seq<FrameState>,
    frames_after: Seq<FrameState>,
    checkpoint: Checkpoint,
    kind: SyntaxKind,
    started: Result<(), BuildError>,
)
    requires
        taken.len() > 0,
        frames.len() > 0,
        checkpoint.builder() == identity,
        checkpoint.frame() == taken.last().identity,
        checkpoint.child_index() == taken.last().children.len(),
        frames.last().children.len() <= usize::MAX,
        builder::node_started_at(identity, frames, frames_after, checkpoint, kind, started),
    ensures
        ({
            let last = frames.len() - 1;
            let before = taken.last().children.len();
            let count = frames[last].children.len();
            &&& started is Err ==> frames_after == frames
            &&& started is Ok <==> frames[last].identity == taken.last().identity && before
                <= count
            &&& frames[last].identity != taken.last().identity ==> started == Err::<
                (),
                BuildError,
            >(BuildError::StaleCheckpoint)
            &&& started is Ok ==> {
                &&& frames_after.len() == frames.len() + 1
                &&& forall|f: int| 0 <= f < last ==> #[trigger] frames_after[f] == frames[f]
                &&& frames_after[last].identity == frames[last].identity
                &&& frames_after[last].kind == frames[last].kind
                &&& frames_after[last].children.len() == before
                &&& forall|i: int|
                    0 <= i < before ==> #[trigger] frames_after[last].children[i]
                        == frames[last].children[i]
                &&& frames_after[last + 1].kind == Some(kind)
                &&& frames_after[last + 1].children.len() + before == count
                &&& forall|i: int|
                    0 <= i < count - before ==> #[trigger] frames_after[last + 1].children[i]
                        == frames[last].children[before + i]
            }
        }),
{
}

/// A node that is finished becomes the last child of the frame around it, with its kind and with the
/// trees of its children in order; all other children and frames stay as they were.
pub proof fn lemma_finish_wraps(
    frames: Seq<FrameState>,
    cache: NodeCache,
    frames_after: Seq<FrameState>,
    cache_after: NodeCache,
    finished: Result<(), BuildError>,
)
    requires
        builder::node_finished(frames, cache, frames_after, cache_after, finished),
    ensures
        finished is Err ==> frames_after == frames,
        frames.len() <= 1 ==> finished == Err::<(), BuildError>(BuildError::NoOpenNode),
        finished is Ok ==> {
            let last = frames.len() - 1;
            let outer = last - 1;
            let count = frames[outer].children.len();
            &&& frames.len() > 1
            &&& frames_after.len() == last
            &&& forall|f: int| 0 <= f < outer ==> #[trigger] frames_after[f] == frames[f]
            &&& frames_after[outer].identity == frames[outer].identity
            &&& frames_after[outer].kind == frames[outer].kind
            &&& frames_after[outer].children.len() == count + 1
            &&& forall|i: int|
                0 <= i < count ==> #[trigger] frames_after[outer].children[i]
                    == frames[outer].children[i]
            &&& element::element_tree(frames_after[outer].children[count as int].green) matches
                Tree::Node { kind, children } && {
                &&& frames[last].kind == Some(kind)
                &&& children.len() == frames[last].children.len()
                &&& forall|i: int|
                    0 <= i < children.len() ==> #[trigger] children[i] == element::element_tree(
                        frames[last].children[i].green,
                    )
            }
        },
{
    if finished is Ok {
        let last = frames.len() - 1;
        let (hash, element) = choose|hash: Option<u64>, element: CachedElement| #[trigger]
            builder::closed_with(frames.last(), cache, cache_after, hash, Ok(element))
                && frames_after == builder::appended(frames.drop_last(), element);
        assert(frames.drop_last().last() == frames[last - 1]);
        let children = element::element_trees(node_cache::greens(frames[last].children));
        assert forall|i: int| 0 <= i < children.len() implies #[trigger] children[i]
            == element::element_tree(frames[last].children[i].green) by {}
    }
}

/// The frames and the cache of a builder between two calls.
pub struct Moment {
    /// The permanent root collection and the open nodes.
    pub frames: Seq<FrameState>,
    /// The cache.
    pub cache: NodeCache,
}

/// A call on a builder and what it returned.
pub enum Call {
    /// `token`.
    Token { kind: SyntaxKind, text: Seq<char>, added: Result<(), BuildError> },
    /// `start_node`.
    StartNode { kind: SyntaxKind },
    /// `start_node_at`.
    StartNodeAt { checkpoint: Checkpoint, kind: SyntaxKind, started: Result<(), BuildError> },
    /// `finish_node`.
    FinishNode { finished: Result<(), BuildError> },
}

impl Call {
    /// Whether the call succeeded.
    pub open spec fn succeeded(self) -> bool {
        match self {
            Call::Token { added, .. } => added is Ok,
            Call::StartNode { .. } => true,
            Call::StartNodeAt { started, .. } => started is Ok,
            Call::FinishNode { finished } => finished is Ok,
        }
    }
}

/// A call leads from one moment to the next: what the contract of the called method says.
pub open spec fn called(identity: Identity, before: Moment, call: Call, after: Moment) -> bool {
    match call {
        Call::Token { kind, text, added } => builder::token_added(
            before.frames,
            before.cache,
            after.frames,
            after.cache,
            kind,
            text,
            added,
        ),
        Call::StartNode { kind } => after.cache == before.cache && builder::node_started(
            before.frames,
            after.frames,
            kind,
        ),
        Call::StartNodeAt { checkpoint, kind, started } => after.cache == before.cache
            && builder::node_started_at(
            identity,
            before.frames,
            after.frames,
            checkpoint,
            kind,
            started,
        ),
        Call::FinishNode { finished } => builder::node_finished(
            before.frames,
            before.cache,
            after.frames,
            after.cache,
            finished,
        ),
    }
}

/// Calls on a builder that was not used before, with the moments between them.
pub open spec fn runs(identity: Identity, moments: Seq<Moment>, calls: Seq<Call>) -> bool {
    &&& moments.len() == calls.len() + 1
    &&& builder::is_fresh(moments[0].frames)
    &&& forall|i: int|
        0 <= i < calls.len() ==> called(
            identity,
            moments[i],
            #[trigger] calls[i],
            moments[i + 1],
        )
}

/// A run without its last call is a run.
proof fn lemma_shorter_run(identity: Identity, moments: Seq<Moment>, calls: Seq<Call>)
    requires
        runs(identity, moments, calls),
        calls.len() > 0,
    ensures
        runs(identity, moments.drop_last(), calls.drop_last()),
        called(identity, moments.drop_last().last(), calls.last(), moments.last()),
{
    let shorter = calls.drop_last();
    assert forall|i: int| 0 <= i < shorter.len() implies called(
        identity,
        moments.drop_last()[i],
        #[trigger] shorter[i],
        moments.drop_last()[i + 1],
    ) by {
        assert(shorter[i] == calls[i]);
    }
    assert(calls[calls.len() - 1] == calls.last());
}

/// A call that fails changes nothing: neither the frames nor the cache.
pub proof fn lemma_failed_call(identity: Identity, before: Moment, call: Call, after: Moment)
    requires
        called(identity, before, call, after),
        !call.succeeded(),
    ensures
        after == before,
{
}

/// There always is the permanent root collection.
proof fn lemma_run_frames(identity: Identity, moments: Seq<Moment>, calls: Seq<Call>)
    requires
        runs(identity, moments, calls),
    ensures
        moments.last().frames.len() > 0,
    decreases calls.len(),
{
    if calls.len() > 0 {
        lemma_shorter_run(identity, moments, calls);
        lemma_run_frames(identity, moments.drop_last(), calls.drop_last());
    }
}

/// The texts of the successful `token` calls, joined in the order of the calls.
pub open spec fn joined_texts(calls: Seq<Call>) -> Seq<char>
    decreases calls.len(),
{
    if calls.len() == 0 {
        Seq::empty()
    } else {
        joined_texts(calls.drop_last()) + match calls.last() {
            Call::Token { text, added: Ok(_), .. } => text,
            _ => Seq::empty(),
        }
    }
}

/// One call adds its token's text behind everything completed before, or no text at all.
proof fn lemma_call_text(identity: Identity, before: Moment, call: Call, after: Moment)
    requires
        before.frames.len() > 0,
        called(identity, before, call, after),
    ensures
        builder::frames_text(after.frames) == builder::frames_text(before.frames) + match call {
            Call::Token { text, added: Ok(_), .. } => text,
            _ => Seq::empty(),
        },
{
    let text = builder::frames_text(before.frames);
    assert(text + Seq::<char>::empty() =~= text);
    match call {
        Call::Token { kind, text, added } => {
            if added is Ok {
                let (hash, element) = choose|hash: u64, element: CachedElement|
                    {
                        &&& node_cache::fx_hashed(hash, node_cache::token_writes(kind, text))
                        &&& #[trigger] node_cache::token_interned(
                            before.cache,
                            after.cache,
                            hash,
                            kind,
                            text,
                            Ok(element),
                        )
                        &&& after.frames == builder::appended(before.frames, element)
                    };
                builder::lemma_appended_text(before.frames, element);
            }
        },
        Call::StartNode { kind } => {
            let identity = choose|identity: Identity|
                builder::is_new(identity, before.frames) && after.frames == before.frames.push(
                    #[trigger] builder::opened_frame(identity, kind, Seq::empty()),
                );
            let none = element::element_trees(node_cache::greens(Seq::<CachedElement>::empty()));
            assert(after.frames.drop_last() =~= before.frames);
            assert(none =~= Seq::empty());
            assert(model::forest_text(none) =~= Seq::empty());
        },
        Call::StartNodeAt { checkpoint, kind, started } => {
            if started is Ok {
                let index = checkpoint.child_index() as int;
                let identity = choose|identity: Identity|
                    builder::is_new(identity, before.frames) && after.frames
                        == #[trigger] builder::opened_at(before.frames, index, identity, kind);
                builder::lemma_opened_text(before.frames, index, identity, kind);
            }
        },
        Call::FinishNode { finished } => {
            if finished is Ok {
                let (hash, element) = choose|hash: Option<u64>, element: CachedElement| #[trigger]
                    builder::closed_with(
                        before.frames.last(),
                        before.cache,
                        after.cache,
                        hash,
                        Ok(element),
                    ) && after.frames == builder::appended(before.frames.drop_last(), element);
                builder::lemma_closed_text(
                    before.frames,
                    before.cache,
                    after.cache,
                    hash,
                    element,
                );
            }
        },
    }
}

/// Whatever is called, the completed text is that of the successful `token` calls in order.
pub proof fn lemma_run_text(identity: Identity, moments: Seq<Moment>, calls: Seq<Call>)
    requires
        runs(identity, moments, calls),
    ensures
        builder::frames_text(moments.last().frames) == joined_texts(calls),
    decreases calls.len(),
{
    if calls.len() == 0 {
        let frames = moments[0].frames;
        reveal_with_fuel(builder::frames_text, 2);
        assert(frames.drop_last() =~= Seq::empty());
        let none = element::element_trees(node_cache::greens(frames[0].children));
        assert(none =~= Seq::empty());
        assert(builder::frames_text(frames) =~= Seq::empty());
    } else {
        lemma_shorter_run(identity, moments, calls);
        lemma_run_frames(identity, moments.drop_last(), calls.drop_last());
        lemma_run_text(identity, moments.drop_last(), calls.drop_last());
        lemma_call_text(identity, moments.drop_last().last(), calls.last(), moments.last());
    }
}

/// The frames are those of a builder that `finish` gives a root for.
pub open spec fn finishes_with(frames: Seq<FrameState>, root: GreenNode) -> bool {
    &&& frames.len() == 1
    &&& frames[0].children.len() == 1
    &&& frames[0].children[0].green == NodeOrToken::<GreenNode, GreenToken>::Node(root)
}

/// The root that a builder gives has the text of the successful `token` calls in order, and its
/// length in bytes.
pub proof fn lemma_root_text(
    identity: Identity,
    moments: Seq<Moment>,
    calls: Seq<Call>,
    root: GreenNode,
)
    requires
        runs(identity, moments, calls),
        finishes_with(moments.last().frames, root),
    ensures
        root@.text() == joined_texts(calls),
        root@.len() == vstd::utf8::encode_utf8(joined_texts(calls)).len(),
{
    lemma_run_text(identity, moments, calls);
    builder::lemma_finished_text(moments.last().frames, root);
    model::lemma_tree_len_is_text_len(root@);
}

/// A successful call without what depends on the builder it is made on.
pub enum Step {
    /// A token.
    Token { kind: SyntaxKind, text: Seq<char> },
    /// A node.
    StartNode { kind: SyntaxKind },
    /// A node that takes over the children from an index on.
    StartNodeAt { index: int, kind: SyntaxKind },
    /// The end of a node.
    FinishNode,
}

/// The steps that the successful calls make; failed calls make none.
pub open spec fn steps(calls: Seq<Call>) -> Seq<Step>
    decreases calls.len(),
{
    if calls.len() == 0 {
        Seq::empty()
    } else {
        let earlier = steps(calls.drop_last());
        if !calls.last().succeeded() {
            earlier
        } else {
            earlier.push(
                match calls.last() {
                    Call::Token { kind, text, .. } => Step::Token { kind, text },
                    Call::StartNode { kind } => Step::StartNode { kind },
                    Call::StartNodeAt { checkpoint, kind, .. } => Step::StartNodeAt {
                        index: checkpoint.child_index() as int,
                        kind,
                    },
                    Call::FinishNode { .. } => Step::FinishNode,
                },
            )
        }
    }
}

/// The kind of a frame and the trees completed in it.
pub struct Outline {
    /// The kind of the open node.
    pub kind: Option<SyntaxKind>,
    /// The completed trees.
    pub trees: Seq<Tree>,
}

/// A frame without its identity, its handles and its hashes.
pub open spec fn outline(frame: FrameState) -> Outline {
    Outline {
        kind: frame.kind,
        trees: element::element_trees(node_cache::greens(frame.children)),
    }
}

/// The frames without their identities, handles and hashes.
pub open spec fn outlines(frames: Seq<FrameState>) -> Seq<Outline> {
    frames.map_values(|frame: FrameState| outline(frame))
}

/// The outlines with one more tree in the current frame.
pub open spec fn grown(frames: Seq<Outline>, tree: Tree) -> Seq<Outline> {
    let current = frames.last();
    frames.drop_last().push(Outline { kind: current.kind, trees: current.trees.push(tree) })
}

/// What a step makes of the outlines.
pub open spec fn stepped(frames: Seq<Outline>, step: Step) -> Seq<Outline> {
    let current = frames.last();
    match step {
        Step::Token { kind, text } => grown(frames, Tree::Token { kind, text }),
        Step::StartNode { kind } => frames.push(Outline { kind: Some(kind), trees: Seq::empty() }),
        Step::StartNodeAt { index, kind } => frames.drop_last().push(
            Outline { kind: current.kind, trees: current.trees.take(index) },
        ).push(Outline { kind: Some(kind), trees: current.trees.skip(index) }),
        Step::FinishNode => grown(
            frames.drop_last(),
            Tree::Node { kind: current.kind->0, children: current.trees },
        ),
    }
}

/// The outlines after some steps of a builder that was not used before.
pub open spec fn built(steps: Seq<Step>) -> Seq<Outline>
    decreases steps.len(),
{
    if steps.len() == 0 {
        seq![Outline { kind: None, trees: Seq::empty() }]
    } else {
        stepped(built(steps.drop_last()), steps.last())
    }
}

/// The outlines of frames with one more child.
proof fn lemma_appended_outlines(frames: Seq<FrameState>, child: CachedElement)
    requires
        frames.len() > 0,
    ensures
        outlines(builder::appended(frames, child)) == grown(
            outlines(frames),
            element::element_tree(child.green),
        ),
{
    let tree = element::element_tree(child.green);
    let after = builder::appended(frames, child);
    let children = frames.last().children;
    assert(element::element_trees(node_cache::greens(children.push(child)))
        =~= element::element_trees(node_cache::greens(children)).push(tree));
    assert(outlines(after) =~= grown(outlines(frames), tree));
}

/// A successful call makes its step.
proof fn lemma_call_steps(identity: Identity, before: Moment, call: Call, after: Moment)
    requires
        before.frames.len() > 0,
        called(identity, before, call, after),
        call.succeeded(),
    ensures
        outlines(after.frames) == stepped(outlines(before.frames), steps(seq![call])[0]),
{
    let frames = before.frames;
    let step = steps(seq![call])[0];
    reveal_with_fuel(steps, 2);
    assert(seq![call].drop_last() =~= Seq::empty());
    match call {
        Call::Token { kind, text, added } => {
            let (hash, child) = choose|hash: u64, child: CachedElement|
                {
                    &&& node_cache::fx_hashed(hash, node_cache::token_writes(kind, text))
                    &&& #[trigger] node_cache::token_interned(
                        before.cache,
                        after.cache,
                        hash,
                        kind,
                        text,
                        Ok(child),
                    )
                    &&& after.frames == builder::appended(frames, child)
                };
            lemma_appended_outlines(frames, child);
        },
        Call::StartNode { kind } => {
            let identity = choose|identity: Identity|
                builder::is_new(identity, frames) && after.frames == frames.push(
                    #[trigger] builder::opened_frame(identity, kind, Seq::empty()),
                );
            let opened = builder::opened_frame(identity, kind, Seq::empty());
            assert(outline(opened).trees =~= Seq::empty());
            assert(outlines(after.frames) =~= stepped(outlines(frames), step));
        },
        Call::StartNodeAt { checkpoint, kind, started } => {
            let index = checkpoint.child_index() as int;
            let identity = choose|identity: Identity|
                builder::is_new(identity, frames) && after.frames == #[trigger] builder::opened_at(
                    frames,
                    index,
                    identity,
                    kind,
                );
            let children = frames.last().children;
            let trees = element::element_trees(node_cache::greens(children));
            assert(element::element_trees(node_cache::greens(children.take(index)))
                =~= trees.take(index));
            assert(element::element_trees(node_cache::greens(children.skip(index)))
                =~= trees.skip(index));
            assert(outlines(after.frames) =~= stepped(outlines(frames), step));
        },
        Call::FinishNode { finished } => {
            let (hash, child) = choose|hash: Option<u64>, child: CachedElement| #[trigger]
                builder::closed_with(
                    frames.last(),
                    before.cache,
                    after.cache,
                    hash,
                    Ok(child),
                ) && after.frames == builder::appended(frames.drop_last(), child);
            lemma_appended_outlines(frames.drop_last(), child);
            assert(outlines(frames.drop_last()) =~= outlines(frames).drop_last());
        },
    }
}

/// The kinds and trees that a run completes are those of its steps.
pub proof fn lemma_run_steps(identity: Identity, moments: Seq<Moment>, calls: Seq<Call>)
    requires
        runs(identity, moments, calls),
    ensures
        outlines(moments.last().frames) == built(steps(calls)),
    decreases calls.len(),
{
    if calls.len() == 0 {
        let frames = moments[0].frames;
        assert(outline(frames[0]).trees =~= Seq::empty());
        assert(outlines(frames) =~= built(Seq::empty()));
    } else {
        lemma_shorter_run(identity, moments, calls);
        lemma_run_frames(identity, moments.drop_last(), calls.drop_last());
        lemma_run_steps(identity, moments.drop_last(), calls.drop_last());
        let before = moments.drop_last().last();
        let call = calls.last();
        if call.succeeded() {
            lemma_call_steps(identity, before, call, moments.last());
            reveal_with_fuel(steps, 2);
            assert(seq![call].drop_last() =~= Seq::empty());
            assert(steps(calls).drop_last() =~= steps(calls.drop_last()));
            assert(steps(calls).last() == steps(seq![call])[0]);
        } else {
            lemma_failed_call(identity, before, call, moments.last());
        }
    }
}

/// The same successful calls give an equal root, on whatever builders and caches they are made
/// and whatever calls fail between them.
pub proof fn lemma_same_calls_same_root(
    left: Identity,
    left_moments: Seq<Moment>,
    left_calls: Seq<Call>,
    left_root: GreenNode,
    right: Identity,
    right_moments: Seq<Moment>,
    right_calls: Seq<Call>,
    right_root: GreenNode,
)
    requires
        runs(left, left_moments, left_calls),
        finishes_with(left_moments.last().frames, left_root),
        runs(right, right_moments, right_calls),
        finishes_with(right_moments.last().frames, right_root),
        steps(left_calls) == steps(right_calls),
    ensures
        left_root@ == right_root@,
{
    lemma_run_steps(left, left_moments, left_calls);
    lemma_run_steps(right, right_moments, right_calls);
    let frames = left_moments.last().frames;
    let others = right_moments.last().frames;
    assert(outlines(frames)[0].trees[0] == left_root@);
    assert(outlines(others)[0].trees[0] == right_root@);
}

/// A run on a cache that keeps its entries apart and under their hashes keeps it so, with all that
/// it held, and the cache holds every small child that is completed.
pub proof fn lemma_run_sound(identity: Identity, moments: Seq<Moment>, calls: Seq<Call>)
    requires
        runs(identity, moments, calls),
        moments[0].cache.unique(),
        moments[0].cache.keyed(),
    ensures
        builder::is_sound(moments.last().frames, moments.last().cache),
        moments.last().cache.holds_all(moments[0].cache),
    decreases calls.len(),
{
    if calls.len() > 0 {
        lemma_shorter_run(identity, moments, calls);
        lemma_run_frames(identity, moments.drop_last(), calls.drop_last());
        lemma_run_sound(identity, moments.drop_last(), calls.drop_last());
        let before = moments.drop_last().last();
        let after = moments.last();
        match calls.last() {
            Call::Token { kind, text, added } => {
                builder::lemma_token_keeps_sound(
                    before.frames,
                    before.cache,
                    after.frames,
                    after.cache,
                    kind,
                    text,
                    added,
                );
            },
            Call::StartNode { kind } => {
                builder::lemma_start_keeps_sound(
                    before.frames,
                    after.frames,
                    before.cache,
                    kind,
                );
            },
            Call::StartNodeAt { checkpoint, kind, started } => {
                builder::lemma_start_at_keeps_sound(
                    identity,
                    before.frames,
                    after.frames,
                    before.cache,
                    checkpoint,
                    kind,
                    started,
                );
            },
            Call::FinishNode { finished } => {
                builder::lemma_finish_keeps_sound(
                    before.frames,
                    before.cache,
                    after.frames,
                    after.cache,
                    finished,
                );
            },
        }
    }
}

/// Builders on one cache reuse a small root: the same successful calls, made later on a cache that
/// still holds what the first builder left in it, give the same root allocation.
pub proof fn lemma_same_calls_share_root(
    left: Identity,
    left_moments: Seq<Moment>,
    left_calls: Seq<Call>,
    left_root: GreenNode,
    right: Identity,
    right_moments: Seq<Moment>,
    right_calls: Seq<Call>,
    right_root: GreenNode,
)
    requires
        left_moments[0].cache.unique(),
        left_moments[0].cache.keyed(),
        runs(left, left_moments, left_calls),
        finishes_with(left_moments.last().frames, left_root),
        right_moments[0].cache.unique(),
        right_moments[0].cache.keyed(),
        right_moments[0].cache.holds_all(left_moments.last().cache),
        runs(right, right_moments, right_calls),
        finishes_with(right_moments.last().frames, right_root),
        steps(left_calls) == steps(right_calls),
        node_cache::small(left_root@),
    ensures
        left_root == right_root,
{
    lemma_same_calls_same_root(
        left,
        left_moments,
        left_calls,
        left_root,
        right,
        right_moments,
        right_calls,
        right_root,
    );
    lemma_run_sound(left, left_moments, left_calls);
    lemma_run_sound(right, right_moments, right_calls);
    let first = left_moments.last();
    let second = right_moments.last();
    let green = NodeOrToken::<GreenNode, GreenToken>::Node(left_root);
    assert(builder::children_settled(first.cache, first.frames[0].children));
    assert(builder::child_settled(first.cache, first.frames[0].children[0]));
    assert(builder::children_settled(second.cache, second.frames[0].children));
    assert(builder::child_settled(second.cache, second.frames[0].children[0]));
    assert(second.cache.holds_all(first.cache));
    node_cache::lemma_interned_stays(first.cache, second.cache, left_root@, green);
    node_cache::lemma_interned_once(
        second.cache,
        left_root@,
        green,
        NodeOrToken::<GreenNode, GreenToken>::Node(right_root),
    );
}

} // verus!
