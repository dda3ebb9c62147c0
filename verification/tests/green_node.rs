//! Thin, immutable green nodes.

use std::collections::hash_map::DefaultHasher;
use std::hash::Hash;
use std::hash::Hasher;
use std::mem;

use rowan::GreenElement;
use rowan::GreenError;
use rowan::GreenNode;
use rowan::GreenToken;
use rowan::SyntaxKind;
use rowan::TextSize;
use rowan::green::node::GreenChild;

/// What a failed expectation says.
type TestFailure = String;

fn ensure(condition: bool, message: &str) -> Result<(), TestFailure> {
    if condition {
        Ok(())
    } else {
        Err(message.to_owned())
    }
}

fn ensure_eq<Value: PartialEq + ?Sized>(left: &Value, right: &Value, message: &str) -> Result<(), TestFailure> {
    ensure(left == right, message)
}

fn ensure_ne<Value: PartialEq + ?Sized>(left: &Value, right: &Value, message: &str) -> Result<(), TestFailure> {
    ensure(left != right, message)
}

fn ensure_ok<Value, Failure>(outcome: Result<Value, Failure>, message: &str) -> Result<Value, TestFailure> {
    match outcome {
        Ok(value) => Ok(value),
        Err(_) => Err(message.to_owned()),
    }
}

fn ensure_some<Value>(value: Option<Value>, message: &str) -> Result<Value, TestFailure> {
    match value {
        Some(value) => Ok(value),
        None => Err(message.to_owned()),
    }
}

fn ensure_one_word<Value>(message: &str) -> Result<(), TestFailure> {
    ensure(std::mem::size_of::<Value>() == std::mem::size_of::<usize>(), message)
}

/// Construct a token fixture through the public fallible constructor.
fn token(kind: u16, text: &str) -> Result<GreenToken, TestFailure> {
    ensure_ok(GreenToken::new(SyntaxKind(kind), text), "the token fixture must allocate")
}

/// Construct a node fixture through the public fallible constructor.
fn node(kind: u16, children: impl IntoIterator<Item = GreenElement>) -> Result<GreenNode, TestFailure> {
    ensure_ok(GreenNode::new(SyntaxKind(kind), children.into_iter().collect()), "the node fixture must allocate")
}

#[test]
fn nodes_preserve_offsets_iteration_and_mixed_child_order() -> Result<(), TestFailure> {
    let empty = node(3, std::iter::empty())?;
    let first = token(1, "a")?;
    let unicode = token(2, "β")?;
    let root = node(0, [
        GreenElement::from(first.clone()),
        GreenElement::from(empty.clone()),
        GreenElement::from(unicode.clone()),
    ])?;

    ensure(root.kind() == SyntaxKind(0), "the root kind must remain exact")?;
    ensure(root.text_len() == TextSize::from(3), "node length must sum UTF-8 child bytes")?;
    ensure_eq(&root.to_string(), &"aβ".to_owned(), "node display must preserve source order")?;
    let offsets = root.child_records().iter().map(GreenChild::rel_offset).collect::<Vec<_>>();
    ensure(
        offsets == vec![TextSize::from(0), TextSize::from(1), TextSize::from(1)],
        "child records must retain exact relative offsets, including zero-width nodes",
    )?;

    let mut children = root.children();
    ensure_eq(&children.len(), &3, "the exact-size iterator must report all children")?;
    ensure(
        children.size_hint() == (3, Some(3)),
        "the child iterator must expose an exact initial size hint",
    )?;
    ensure_eq(
        &children.clone().count(),
        &3,
        "counting a cloned iterator must consume exactly its remaining children",
    )?;
    ensure(
        ensure_some(children.clone().nth(1), "the middle child must be addressable by nth")?.kind() == SyntaxKind(3),
        "nth must preserve source-order child selection",
    )?;
    ensure(
        ensure_some(children.clone().last(), "the final child must be addressable by last")?.kind() == SyntaxKind(2),
        "last must select the source-order final child",
    )?;
    ensure(
        ensure_some(children.clone().nth_back(1), "the middle child must be addressable from the back")?.kind() == SyntaxKind(3),
        "nth_back must preserve reverse source-order selection",
    )?;
    ensure(
        ensure_some(children.next(), "the first child must exist")?.kind() == SyntaxKind(1),
        "forward iteration must begin with the first token",
    )?;
    ensure(
        ensure_some(children.next_back(), "the final child must exist")?.kind() == SyntaxKind(2),
        "reverse iteration must begin with the final token",
    )?;
    ensure_eq(&children.len(), &1, "mixed-direction iteration must update the exact length")?;
    let _middle = ensure_some(children.next(), "the middle child must remain")?;
    ensure(children.next().is_none(), "an exhausted iterator must stay empty")?;
    ensure(children.next_back().is_none(), "a fused iterator must stay empty from either end")?;
    ensure_eq(
        &root.debug_string(),
        &"GreenNode { kind: SyntaxKind(0), text_len: 3, child_count: 3 }".to_owned(),
        "node debug output must expose kind, length, and arity",
    )
}

#[test]
fn functional_child_edits_validate_before_rebuilding() -> Result<(), TestFailure> {
    let a = token(1, "a")?;
    let b = token(1, "b")?;
    let c = token(1, "c")?;
    let root = node(0, [a.clone().into(), b.clone().into()])?;

    let replaced = ensure_ok(
        root.replace_child(1, GreenElement::from(c.clone())),
        "a same-kind replacement must succeed",
    )?;
    ensure_eq(&replaced.to_string(), &"ac".to_owned(), "replacement must preserve order")?;
    ensure(
        ensure_some(replaced.children().next(), "the unchanged first child must exist")?
            .to_owned()
            .ptr_eq(&GreenElement::from(a.clone())),
        "replacement must retain the unchanged child's allocation",
    )?;

    let inserted = ensure_ok(
        root.insert_child(2, GreenElement::from(c.clone())),
        "insertion at the child-count boundary must succeed",
    )?;
    ensure_eq(&inserted.to_string(), &"abc".to_owned(), "insertion must preserve caller order")?;
    let removed = ensure_ok(root.remove_child(0), "an existing child must be removable")?;
    ensure_eq(&removed.to_string(), &"b".to_owned(), "removal must retain the unaffected suffix")?;
    let spliced = ensure_ok(
        root.splice_children(0..2, vec![GreenElement::from(c.clone())]),
        "a complete range replacement must succeed",
    )?;
    ensure_eq(&spliced.to_string(), &"c".to_owned(), "splice must replace the complete range")?;
    ensure_eq(
        &root.to_string(),
        &"ab".to_owned(),
        "functional edits must leave the source reusable",
    )?;
    ensure(!root.ptr_eq(&replaced), "a changed node must receive a new allocation")?;

    ensure(
        root.replace_child(0, GreenElement::from(token(9, "x")?))
            == Err(GreenError::KindMismatch {
                expected: SyntaxKind(1),
                actual:   SyntaxKind(9),
            }),
        "replacement kind mismatch must be rejected before rebuilding",
    )?;
    ensure(
        root.replace_child(2, GreenElement::from(c.clone()))
            == Err(GreenError::ChildIndexOutOfBounds {
                index:       2,
                child_count: 2,
            }),
        "replacement must reject the end index",
    )?;
    ensure(
        root.insert_child(3, GreenElement::from(c.clone()))
            == Err(GreenError::ChildIndexOutOfBounds {
                index:       3,
                child_count: 2,
            }),
        "insertion must reject indices beyond the end",
    )?;
    ensure(
        root.remove_child(2)
            == Err(GreenError::ChildIndexOutOfBounds {
                index:       2,
                child_count: 2,
            }),
        "removal must reject the end index",
    )?;
    ensure(
        root.splice_children(
            std::ops::Range {
                start: 2, end: 1
            },
            Vec::new(),
        ) == Err(GreenError::InvalidChildRange {
            start:       2,
            end:         1,
            child_count: 2,
        }),
        "a reversed splice must be rejected first",
    )?;
    ensure(
        root.splice_children(0..3, Vec::new())
            == Err(GreenError::InvalidChildRange {
                start:       0,
                end:         3,
                child_count: 2,
            }),
        "an out-of-bounds splice must be rejected",
    )?;
    ensure_eq(
        &root.to_string(),
        &"ab".to_owned(),
        "all rejected edits must leave the source unchanged",
    )
}

/// Build a deeply nested tree without recursive fixture construction.
fn deep_tree(depth: usize) -> Result<GreenNode, TestFailure> {
    let mut current = node(4, [GreenElement::from(token(1, "x")?)])?;
    for _ in 0..depth {
        current = node(4, [GreenElement::from(current)])?;
    }
    Ok(current)
}

#[test]
fn structural_equality_hashing_and_display_are_iterative() -> Result<(), TestFailure> {
    let first = deep_tree(2_048)?;
    let second = deep_tree(2_048)?;
    ensure(
        !first.ptr_eq(&second),
        "independent deep trees must not share their root allocation",
    )?;
    ensure_eq(&first, &second, "independent equivalent deep trees must compare structurally")?;
    ensure_eq(&first.to_string(), &"x".to_owned(), "deep display must reach the leaf iteratively")?;
    let mut first_hash = DefaultHasher::new();
    first.hash(&mut first_hash);
    let mut second_hash = DefaultHasher::new();
    second.hash(&mut second_hash);
    ensure_eq(
        &first_hash.finish(),
        &second_hash.finish(),
        "equivalent deep trees must produce equal iterative structural hashes",
    )?;
    ensure_ne(
        &first,
        &node(4, [GreenElement::from(token(1, "y")?)])?,
        "different deep-tree text must compare unequal",
    )?;
    ensure_ne(
        &node(4, [GreenElement::from(token(1, "x")?)])?,
        &node(5, [GreenElement::from(token(1, "x")?)])?,
        "different node kinds must compare unequal before descending",
    )?;
    ensure_ne(
        &node(4, [GreenElement::from(token(1, "x")?)])?,
        &node(4, std::iter::empty())?,
        "different child counts must compare unequal before pairing children",
    )?;
    ensure_ne(
        &node(4, [GreenElement::from(token(1, "x")?)])?,
        &node(4, [GreenElement::from(node(1, std::iter::empty())?)])?,
        "a node and token at the same child position must compare unequal",
    )
}

#[test]
fn green_representation_stays_within_locked_word_sizes() -> Result<(), TestFailure> {
    ensure_one_word::<GreenNode>("a green node handle must remain one machine word")?;
    let two_words = ensure_some(mem::size_of::<usize>().checked_mul(2), "two machine words must be representable")?;
    ensure(
        mem::size_of::<GreenChild>() <= two_words,
        "an offset-bearing green child must fit within two machine words",
    )
}
