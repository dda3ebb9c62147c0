//! Interning of small green subtrees.

use rowan::GreenNode;
use rowan::GreenToken;
use rowan::NodeCache;
use rowan::SyntaxKind;
use rowan::green::node_cache::CachedElement;
use rowan::green::node_cache::CachedNode;
use rowan::green::node_cache::fold_node_hash;
use rowan::green::node_cache::node_matches;

/// What a failed expectation says.
type TestFailure = String;

fn ensure(condition: bool, message: &str) -> Result<(), TestFailure> {
    if condition {
        Ok(())
    } else {
        Err(message.to_owned())
    }
}

fn ensure_ok<Value, Failure>(outcome: Result<Value, Failure>, message: &str) -> Result<Value, TestFailure> {
    match outcome {
        Ok(value) => Ok(value),
        Err(_) => Err(message.to_owned()),
    }
}

fn ensure_some<Value>(value: Option<Value>, message: &str) -> Result<Value, TestFailure> {
    match value {
        Some(value) => Ok(value),
        None => Err(message.to_owned()),
    }
}

/// Intern one token through the production cache path.
fn cached_token(cache: &mut NodeCache, kind: u16, text: &str) -> Result<CachedElement, TestFailure> {
    ensure_ok(cache.token(SyntaxKind(kind), text), "the cached token must allocate")
}

/// Extract a cached element's node handle.
fn cached_node(element: CachedElement) -> Result<GreenNode, TestFailure> {
    ensure_some(element.green.into_node(), "the cache result must be a node")
}

/// Extract a cached element's token handle.
fn cached_token_handle(element: CachedElement) -> Result<GreenToken, TestFailure> {
    ensure_some(element.green.into_token(), "the cache result must be a token")
}

#[test]
fn token_cache_reuses_only_exact_kind_and_text() -> Result<(), TestFailure> {
    let mut cache = NodeCache::default();
    let first = cached_token(&mut cache, 1, "same")?;
    let matching = cached_token(&mut cache, 1, "same")?;
    let different_kind = cached_token(&mut cache, 2, "same")?;
    let different_text = cached_token(&mut cache, 1, "different")?;

    ensure(first.hash == matching.hash, "matching tokens must retain the same explicit hash")?;
    let first = cached_token_handle(first)?;
    ensure(
        first.ptr_eq(&cached_token_handle(matching)?),
        "matching tokens must reuse one allocation",
    )?;
    ensure(
        !first.ptr_eq(&cached_token_handle(different_kind)?),
        "a different token kind must not reuse the allocation",
    )?;
    ensure(
        !first.ptr_eq(&cached_token_handle(different_text)?),
        "different token text must not reuse the allocation",
    )
}

/// Build and then repeat one node shape with a shared cache.
fn repeated_node(cache: &mut NodeCache, kind: u16, children: &[CachedElement]) -> Result<(CachedElement, CachedElement), TestFailure> {
    let first = ensure_ok(cache.node(SyntaxKind(kind), children), "the first cached node must build")?;
    let second = ensure_ok(cache.node(SyntaxKind(kind), children), "the repeated cached node must build")?;
    Ok((first, second))
}

#[test]
fn cache_interns_zero_through_three_children_and_propagates_uncacheability() -> Result<(), TestFailure> {
    let mut cache = NodeCache::default();
    let a = cached_token(&mut cache, 1, "a")?;
    let b = cached_token(&mut cache, 1, "b")?;
    let c = cached_token(&mut cache, 1, "c")?;
    let d = cached_token(&mut cache, 1, "d")?;

    for children in [Vec::new(), vec![a.clone()], vec![a.clone(), b.clone()], vec![
        a.clone(),
        b.clone(),
        c.clone(),
    ]] {
        let (first, second) = repeated_node(&mut cache, 3, &children)?;
        ensure(first.hash.is_some(), "a node at the cache threshold must be cacheable")?;
        ensure(
            cached_node(first)?.ptr_eq(&cached_node(second)?),
            "equal nodes with at most three cacheable children must intern",
        )?;
    }

    let four = vec![a.clone(), b, c, d];
    let (large_first, large_second) = repeated_node(&mut cache, 4, &four)?;
    ensure(large_first.hash.is_none(), "a four-child node must be deliberately uncacheable")?;
    let large_first_node = cached_node(large_first.clone())?;
    ensure(
        !large_first_node.ptr_eq(&cached_node(large_second)?),
        "matching four-child nodes must bypass interning",
    )?;

    let uncacheable_child = CachedElement {
        hash:  None,
        green: large_first_node.into(),
    };
    let (parent_first, parent_second) = repeated_node(&mut cache, 5, &[uncacheable_child])?;
    ensure(parent_first.hash.is_none(), "an uncacheable child must make its parent uncacheable")?;
    ensure(
        !cached_node(parent_first)?.ptr_eq(&cached_node(parent_second)?),
        "parents of uncacheable children must bypass interning",
    )
}

#[test]
fn explicit_hash_state_distinguishes_zero_from_uncacheable() -> Result<(), TestFailure> {
    ensure(
        fold_node_hash(SyntaxKind(7), &[Some(0)]).is_some(),
        "a legitimate zero child hash must remain cacheable",
    )?;
    ensure(
        fold_node_hash(SyntaxKind(7), &[None]).is_none(),
        "only the explicit None state may propagate uncacheability",
    )
}

#[test]
fn node_boundary_matching_requires_kind_arity_and_child_identity() -> Result<(), TestFailure> {
    let mut cache = NodeCache::default();
    let child = cached_token(&mut cache, 1, "child")?;
    let cached_green = cached_node(ensure_ok(
        cache.node(SyntaxKind(2), std::slice::from_ref(&child)),
        "the boundary node must allocate",
    )?)?;
    let cached = CachedNode {
        hash:  0,
        green: cached_green,
    };
    ensure(
        node_matches(&cached, SyntaxKind(2), std::slice::from_ref(&child)),
        "matching kind, arity, and interned child identity must match the node boundary",
    )?;
    ensure(
        !node_matches(&cached, SyntaxKind(3), std::slice::from_ref(&child)),
        "a different node kind must reject the cache candidate",
    )?;
    ensure(
        !node_matches(&cached, SyntaxKind(2), &[]),
        "a different child count must reject the cache candidate",
    )?;

    let separate_token = ensure_ok(
        GreenToken::new(SyntaxKind(1), "child"),
        "the structurally equal separate token must allocate",
    )?;
    let separate_child = CachedElement {
        hash:  child.hash,
        green: separate_token.into(),
    };
    ensure(
        !node_matches(&cached, SyntaxKind(2), &[separate_child]),
        "structural token equality without interned child identity must not match a cached parent",
    )
}

#[test]
fn table_growth_retains_cached_allocations() -> Result<(), TestFailure> {
    let mut cache = NodeCache::default();
    let original = cached_token_handle(cached_token(&mut cache, 1, "stable")?)?;
    for index in 0..2_048 {
        let text = format!("token-{index}");
        let _entry = cached_token(&mut cache, 1, &text)?;
    }
    let repeated = cached_token_handle(cached_token(&mut cache, 1, "stable")?)?;
    ensure(
        original.ptr_eq(&repeated),
        "constant-time stored hashes must preserve entries across table growth",
    )
}
