//! Which nodes a cache shares, and which checkpoints a builder refuses.

use vstd::prelude::*;

use crate::cursor_laws;
use crate::green::builder;
use crate::green::builder::BuildError;
use crate::green::builder::Checkpoint;
use crate::green::builder::FrameState;
use crate::green::builder::Identity;
use crate::green::node_cache;
use crate::green::node_cache::CachedElement;
use crate::green::node_cache::NodeCache;
use crate::green::GreenError;
use crate::green::SyntaxKind;
use crate::model;
use crate::model::Tree;

verus! {

/// A tree is small exactly when no node in it has more than three children.
pub proof fn lemma_small(tree: Tree)
    ensures
        node_cache::small(tree) <==> forall|path: Seq<int>|
            model::path_exists(tree, path) ==> (#[trigger] model::tree_at(
                tree,
                path,
            )).children().len() <= 3,
    decreases tree,
{
    let few = forall|path: Seq<int>|
        model::path_exists(tree, path) ==> (#[trigger] model::tree_at(tree, path)).children().len()
            <= 3;
    if node_cache::small(tree) {
        assert forall|path: Seq<int>| model::path_exists(tree, path) implies (
        #[trigger] model::tree_at(tree, path)).children().len() <= 3 by {
            if path.len() > 0 {
                cursor_laws::lemma_path_front(tree, path);
                let child = tree.children()[path[0]];
                lemma_small(child);
                assert(model::tree_at(child, path.drop_first()).children().len() <= 3);
            }
        }
    }
    if few {
        let children = tree.children();
        assert(model::tree_at(tree, Seq::empty()).children().len() <= 3);
        assert forall|i: int| 0 <= i < children.len() implies node_cache::small(
            #[trigger] children[i],
        ) by {
            lemma_small(children[i]);
            assert forall|path: Seq<int>| model::path_exists(children[i], path) implies (
            #[trigger] model::tree_at(children[i], path)).children().len() <= 3 by {
                let longer = seq![i] + path;
                assert(longer.drop_first() =~= path);
                cursor_laws::lemma_path_front(tree, longer);
                assert(model::tree_at(tree, longer).children().len() <= 3);
            }
        }
    }
}

/// A node that is closed takes part in sharing exactly when it has at most three children and each
/// of them takes part.
pub proof fn lemma_sharing_bound(
    frame: FrameState,
    before: NodeCache,
    after: NodeCache,
    hash: Option<u64>,
    interned: Result<CachedElement, GreenError>,
)
    requires
        builder::closed_with(frame, before, after, hash, interned),
    ensures
        hash is Some <==> frame.children.len() <= 3 && forall|i: int|
            0 <= i < frame.children.len() ==> (#[trigger] frame.children[i]).hash is Some,
        interned matches Ok(element) ==> element.hash == hash,
{
}

/// A checkpoint of another builder is foreign; one of another frame is stale; one behind the last
/// child is out of bounds. In this order the first that holds is reported, and no frame changes.
pub proof fn lemma_checkpoint_errors(
    identity: Identity,
    frames: Seq<FrameState>,
    frames_after: Seq<FrameState>,
    checkpoint: Checkpoint,
    kind: SyntaxKind,
    started: Result<(), BuildError>,
)
    requires
        frames.len() > 0,
        frames.last().children.len() <= usize::MAX,
        builder::node_started_at(identity, frames, frames_after, checkpoint, kind, started),
    ensures
        checkpoint.builder() != identity ==> started == Err::<(), BuildError>(
            BuildError::ForeignCheckpoint,
        ),
        checkpoint.builder() == identity && checkpoint.frame() != frames.last().identity
            ==> started == Err::<(), BuildError>(BuildError::StaleCheckpoint),
        checkpoint.builder() == identity && checkpoint.frame() == frames.last().identity
            && checkpoint.child_index() > frames.last().children.len() ==> (started matches Err(
            BuildError::CheckpointOutOfBounds { index, child_count },
        ) && index == checkpoint.child_index() && child_count == frames.last().children.len()),
        checkpoint.builder() == identity && checkpoint.frame() == frames.last().identity
            && checkpoint.child_index() <= frames.last().children.len() ==> started is Ok,
        started is Err ==> frames_after == frames,
{
}

} // verus!
