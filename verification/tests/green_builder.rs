//! Protocol-checked construction of green trees.

use std::collections::HashSet;

use rowan::BuildError;
use rowan::GreenNodeBuilder;
use rowan::NodeCache;
use rowan::SyntaxKind;

/// What a failed expectation says.
type TestFailure = String;

fn ensure(condition: bool, message: &str) -> Result<(), TestFailure> {
    if condition {
        Ok(())
    } else {
        Err(message.to_owned())
    }
}

fn ensure_eq<Value: PartialEq + ?Sized>(left: &Value, right: &Value, message: &str) -> Result<(), TestFailure> {
    ensure(left == right, message)
}

fn ensure_ok<Value, Failure>(outcome: Result<Value, Failure>, message: &str) -> Result<Value, TestFailure> {
    match outcome {
        Ok(value) => Ok(value),
        Err(_) => Err(message.to_owned()),
    }
}

/// Append one token through the public builder protocol.
fn append(builder: &mut GreenNodeBuilder<'_>, text: &str) -> Result<(), TestFailure> {
    ensure_ok(builder.token(SyntaxKind(1), text), "the builder token must succeed")
}

/// Build the same one-token root against an optionally shared cache.
fn build_with_cache(cache: &mut NodeCache) -> Result<rowan::GreenNode, TestFailure> {
    let mut builder = GreenNodeBuilder::with_cache(cache);
    builder.start_node(SyntaxKind(0));
    append(&mut builder, "value")?;
    ensure_ok(builder.finish_node(), "the cached root frame must finish")?;
    ensure_ok(builder.finish(), "the cached root must complete")
}

#[test]
fn builder_constructs_balanced_trees_and_reuses_checkpoints() -> Result<(), TestFailure> {
    let mut builder = GreenNodeBuilder::new();
    builder.start_node(SyntaxKind(0));
    let checkpoint = builder.checkpoint();
    append(&mut builder, "a")?;
    builder.start_node(SyntaxKind(2));
    append(&mut builder, "b")?;
    ensure_ok(builder.finish_node(), "the balanced nested node must finish")?;
    ensure_ok(
        builder.start_node_at(&checkpoint, SyntaxKind(3)),
        "a checkpoint must remain valid after balanced nested work returns to its frame",
    )?;
    ensure_ok(builder.finish_node(), "the first checkpoint wrapper must finish")?;
    ensure_ok(
        builder.start_node_at(&checkpoint, SyntaxKind(4)),
        "the same checkpoint must be reusable in its still-open owning frame",
    )?;
    ensure_ok(builder.finish_node(), "the second checkpoint wrapper must finish")?;
    ensure_ok(builder.finish_node(), "the root frame must finish")?;
    let root = ensure_ok(builder.finish(), "the balanced builder must produce one root")?;
    ensure_eq(
        &root.to_string(),
        &"ab".to_owned(),
        "checkpoint wrapping must preserve lossless text",
    )?;

    let mut checkpoints = HashSet::new();
    ensure(checkpoints.insert(checkpoint.clone()), "a checkpoint must be hashable")?;
    ensure(!checkpoints.insert(checkpoint), "cloned checkpoints must compare equal")
}

#[test]
fn borrowed_cache_reuses_complete_green_allocations() -> Result<(), TestFailure> {
    let mut cache = NodeCache::default();
    let first = build_with_cache(&mut cache)?;
    let second = build_with_cache(&mut cache)?;
    ensure(
        first.ptr_eq(&second),
        "builders borrowing the same cache must reuse an equal small root allocation",
    )
}

#[test]
fn builder_debug_distinguishes_owned_and_borrowed_cache_state() -> Result<(), TestFailure> {
    let owned = GreenNodeBuilder::default();
    let owned_debug = owned.debug_string();
    ensure(
        owned_debug.contains("cache: Owned(NodeCache)"),
        "default construction must expose its private owned-cache mode in diagnostics",
    )?;
    ensure(
        owned.checkpoint().debug_string().contains("child_index: 0"),
        "checkpoint diagnostics must expose the stable child position without exposing identities",
    )?;

    let mut cache = NodeCache::default();
    let borrowed = GreenNodeBuilder::with_cache(&mut cache);
    ensure(
        borrowed.debug_string().contains("cache: Borrowed(NodeCache)"),
        "borrowed construction must expose its distinct cache ownership mode in diagnostics",
    )
}

#[test]
fn checkpoint_validation_is_ordered_and_rejected_calls_preserve_state() -> Result<(), TestFailure> {
    let foreign = GreenNodeBuilder::new().checkpoint();
    let mut builder = GreenNodeBuilder::new();
    builder.start_node(SyntaxKind(0));
    ensure(
        builder.start_node_at(&foreign, SyntaxKind(9)) == Err(BuildError::ForeignCheckpoint),
        "builder ownership must be validated before frame state",
    )?;

    let early = builder.checkpoint();
    append(&mut builder, "a")?;
    append(&mut builder, "b")?;
    append(&mut builder, "c")?;
    let late = builder.checkpoint();
    builder.start_node(SyntaxKind(2));
    ensure(
        builder.start_node_at(&early, SyntaxKind(9)) == Err(BuildError::StaleCheckpoint),
        "a checkpoint must be stale while a different frame is current",
    )?;
    ensure_ok(builder.finish_node(), "the unchanged nested frame must still finish")?;
    ensure_ok(
        builder.start_node_at(&early, SyntaxKind(3)),
        "the checkpoint must revive after balanced work returns to its frame",
    )?;
    ensure_ok(builder.finish_node(), "the shrinking wrapper must finish")?;
    ensure(
        builder.start_node_at(&late, SyntaxKind(9))
            == Err(BuildError::CheckpointOutOfBounds {
                index:       3,
                child_count: 1,
            }),
        "a same-frame checkpoint beyond the current child count must be rejected",
    )?;
    ensure_ok(builder.finish_node(), "a rejected checkpoint must leave the root finishable")?;
    let root = ensure_ok(builder.finish(), "the builder must remain usable after every rejection")?;
    ensure_eq(&root.to_string(), &"abc".to_owned(), "rejected calls must not alter completed text")?;
    ensure(
        GreenNodeBuilder::new().start_node_at(&late, SyntaxKind(9)) == Err(BuildError::ForeignCheckpoint),
        "a closed-frame checkpoint remains foreign to another builder",
    )
}

#[test]
fn finish_reports_protocol_failures_in_locked_precedence() -> Result<(), TestFailure> {
    let mut no_open = GreenNodeBuilder::new();
    ensure(
        no_open.finish_node() == Err(BuildError::NoOpenNode),
        "finishing the permanent root frame must be rejected",
    )?;
    no_open.start_node(SyntaxKind(0));
    ensure_ok(no_open.finish_node(), "the builder must remain usable after NoOpenNode")?;
    let _root = ensure_ok(no_open.finish(), "the recovered builder must finish")?;

    let mut unclosed = GreenNodeBuilder::new();
    unclosed.start_node(SyntaxKind(0));
    ensure(
        unclosed.finish()
            == Err(BuildError::UnclosedNodes {
                count: 1
            }),
        "unclosed frames must be reported before root arity",
    )?;
    ensure(
        GreenNodeBuilder::new().finish()
            == Err(BuildError::InvalidRootArity {
                count: 0
            }),
        "an empty completed builder must report zero root elements",
    )?;

    let mut multiple = GreenNodeBuilder::new();
    for kind in [SyntaxKind(1), SyntaxKind(2)] {
        multiple.start_node(kind);
        ensure_ok(multiple.finish_node(), "each independent root node must finish")?;
    }
    ensure(
        multiple.finish()
            == Err(BuildError::InvalidRootArity {
                count: 2
            }),
        "multiple completed roots must report their exact arity",
    )?;

    let mut token_root = GreenNodeBuilder::new();
    append(&mut token_root, "token")?;
    ensure(
        token_root.finish() == Err(BuildError::RootMustBeNode),
        "root kind validation must follow successful arity validation",
    )
}
