//! Typed AST wrappers and source pointers.

use std::collections::HashSet;
use std::collections::hash_map::DefaultHasher;
use std::hash::Hasher;

use rowan::AstError;
use rowan::GreenElement;
use rowan::GreenNode;
use rowan::GreenToken;
use rowan::Language;
use rowan::ResolveError;
use rowan::SyntaxKind;
use rowan::SyntaxNode;
use rowan::ast::AstNode;
use rowan::ast::AstPtr;
use rowan::ast::SyntaxNodePtr;
use rowan::ast::support;

/// What a failed expectation says.
type TestFailure = String;

fn ensure(condition: bool, message: &str) -> Result<(), TestFailure> {
    if condition {
        Ok(())
    } else {
        Err(message.to_owned())
    }
}

fn ensure_eq<Value: PartialEq + ?Sized>(left: &Value, right: &Value, message: &str) -> Result<(), TestFailure> {
    ensure(left == right, message)
}

fn ensure_ok<Value, Failure>(outcome: Result<Value, Failure>, message: &str) -> Result<Value, TestFailure> {
    match outcome {
        Ok(value) => Ok(value),
        Err(_) => Err(message.to_owned()),
    }
}

fn ensure_some<Value>(value: Option<Value>, message: &str) -> Result<Value, TestFailure> {
    match value {
        Some(value) => Ok(value),
        None => Err(message.to_owned()),
    }
}

fn ensure_same_hash<Value>(
    left: &Value,
    right: &Value,
    hash: impl Fn(&Value, &mut DefaultHasher),
    message: &str,
) -> Result<(), TestFailure> {
    let mut left_hash = DefaultHasher::new();
    hash(left, &mut left_hash);
    let mut right_hash = DefaultHasher::new();
    hash(right, &mut right_hash);
    ensure(left_hash.finish() == right_hash.finish(), message)
}

#[derive(Debug, Clone, Copy, PartialEq, Eq, PartialOrd, Ord, Hash)]
enum TestLanguage {}

impl Language for TestLanguage {
    type Kind = SyntaxKind;

    fn kind_from_raw(raw: SyntaxKind) -> SyntaxKind {
        raw
    }

    fn kind_to_raw(kind: SyntaxKind) -> SyntaxKind {
        kind
    }
}

fn typed_token_root(
    root_kind: SyntaxKind,
    token_kind: SyntaxKind,
    text: &str,
) -> Result<SyntaxNode<TestLanguage>, TestFailure> {
    let token = ensure_ok(GreenToken::new(token_kind, text), "the shared typed token must allocate")?;
    let root = ensure_ok(
        GreenNode::new(root_kind, vec![GreenElement::from(token)]),
        "the shared typed root must allocate",
    )?;
    Ok(SyntaxNode::new_root(root))
}

fn drain<Item>(mut next: impl FnMut() -> Option<Item>) -> Vec<Item> {
    let mut items = Vec::new();
    while let Some(item) = next() {
        items.push(item);
    }
    items
}

/// Consistent typed wrapper accepting one const-selected syntax kind.
#[derive(Clone, PartialEq, Eq)]
struct TestNode<const KIND: u16>(SyntaxNode<TestLanguage>);

impl<const KIND: u16> AstNode for TestNode<KIND> {
    type Language = TestLanguage;

    fn can_cast(kind: SyntaxKind) -> bool {
        kind == SyntaxKind(KIND)
    }

    fn cast(node: SyntaxNode<Self::Language>) -> Option<Self> {
        Self::can_cast(node.kind()).then_some(Self(node))
    }

    fn syntax(&self) -> &SyntaxNode<Self::Language> {
        &self.0
    }
}

/// Typed wrapper accepting kind one.
type GoodNode = TestNode<1>;

/// Wrapper accepting a different kind for pointer-cast rejection coverage.
type OtherNode = TestNode<9>;

/// Deliberately inconsistent wrapper used to validate typed clone failure.
struct FaultyNode(SyntaxNode<TestLanguage>);

impl AstNode for FaultyNode {
    type Language = TestLanguage;

    fn can_cast(kind: SyntaxKind) -> bool {
        kind == SyntaxKind(1)
    }

    fn cast(_node: SyntaxNode<Self::Language>) -> Option<Self> {
        None
    }

    fn syntax(&self) -> &SyntaxNode<Self::Language> {
        &self.0
    }
}

/// Build a typed root with one node child containing one token.
fn tree(child_kind: u16, text: &str) -> Result<SyntaxNode<TestLanguage>, TestFailure> {
    let token = ensure_ok(GreenToken::new(SyntaxKind(2), text), "the AST token fixture must allocate")?;
    let child = ensure_ok(
        GreenNode::new(SyntaxKind(child_kind), vec![GreenElement::from(token)]),
        "the AST child fixture must allocate",
    )?;
    let root = ensure_ok(
        GreenNode::new(SyntaxKind(0), vec![GreenElement::from(child)]),
        "the AST root fixture must allocate",
    )?;
    Ok(SyntaxNode::new_root(root))
}

#[test]
fn syntax_pointer_resolves_only_roots_with_equivalent_subtrees() -> Result<(), TestFailure> {
    let root = tree(1, "same")?;
    let child = ensure_some(root.first_child(), "the source child must exist")?;
    let pointer = SyntaxNodePtr::new(&child);
    let resolved = ensure_some(
        ensure_ok(pointer.resolve(&root), "the pointer must accept the correct root")?,
        "the source pointer must resolve",
    )?;
    ensure_eq(&resolved, &child, "resolution must return the original location")?;

    let equivalent = tree(1, "same")?;
    ensure(
        ensure_ok(pointer.resolve(&equivalent), "an equivalent root must be valid")?.is_some(),
        "a separately allocated equivalent tree must resolve",
    )?;
    let non_equivalent = tree(1, "else")?;
    ensure(
        ensure_ok(pointer.resolve(&non_equivalent), "a non-equivalent root remains a valid argument")?.is_none(),
        "same-kind and same-range but different content must not resolve",
    )?;
    let wrong_kind = tree(3, "same")?;
    ensure(
        ensure_ok(pointer.resolve(&wrong_kind), "a wrong-kind tree remains a valid argument")?.is_none(),
        "a wrong-kind location must not resolve",
    )?;
    let absent_range = tree(1, "")?;
    ensure(
        ensure_ok(pointer.resolve(&absent_range), "a shorter tree remains a valid argument")?.is_none(),
        "an absent source range must not resolve",
    )?;
    ensure(
        pointer.resolve(&child) == Err(ResolveError::RootHasParent),
        "a non-root argument must be rejected distinctly",
    )
}

#[test]
fn ast_pointer_and_clone_preserve_typed_success_and_failure() -> Result<(), TestFailure> {
    let root = tree(1, "value")?;
    let child = ensure_some(root.first_child(), "the typed child must exist")?;
    let good = ensure_some(GoodNode::cast(child.clone()), "the good wrapper must accept kind one")?;
    let pointer = AstPtr::new(&good);
    let resolved = ensure_some(
        ensure_ok(pointer.resolve(&root), "the typed pointer must accept the root")?,
        "the typed pointer must resolve",
    )?;
    ensure_eq(resolved.syntax(), good.syntax(), "typed resolution must retain the syntax location")?;
    let cloned = ensure_ok(good.clone_subtree(), "a consistent AST wrapper must clone")?;
    ensure(cloned.syntax().parent().is_none(), "an AST clone must be an independent root")?;
    ensure_eq(
        &cloned.syntax().to_string(),
        &"value".to_owned(),
        "an AST clone must preserve subtree text",
    )?;

    let faulty = FaultyNode(child);
    ensure(
        faulty.clone_subtree().map(|_| ())
            == Err(AstError::CloneCastRejected {
                kind: SyntaxKind(1)
            }),
        "a faulty cast implementation must return AstError instead of panicking",
    )?;
    let raw_pointer = pointer.syntax_node_ptr();
    ensure(
        raw_pointer.kind() == SyntaxKind(1),
        "typed pointers must expose their raw pointer kind",
    )?;
    ensure(
        raw_pointer.clone().cast::<GoodNode>().is_some(),
        "pointer casts must accept a compatible wrapper",
    )?;
    ensure(
        raw_pointer.cast::<FaultyNode>().is_some(),
        "pointer casting is governed by can_cast, independently of a faulty cast body",
    )
}

#[test]
fn ast_support_helpers_filter_nodes_and_tokens_by_contract() -> Result<(), TestFailure> {
    let root = tree(1, "value")?;
    ensure(
        support::child::<GoodNode>(&root).is_some(),
        "the child helper must return the first accepted node",
    )?;
    ensure_eq(
        &{
            let mut children = support::children::<GoodNode>(&root);
            drain(|| children.next()).len()
        },
        &1,
        "the children helper must iterate accepted direct nodes",
    )?;
    let child = ensure_some(root.first_child(), "the token parent must exist")?;
    ensure(
        support::token(&child, SyntaxKind(2)).is_some(),
        "the token helper must find a matching direct token",
    )?;
    ensure(
        support::token(&child, SyntaxKind(9)).is_none(),
        "the token helper must return None for an absent kind",
    )
}

#[test]
fn pointer_value_semantics_preserve_kind_range_structure_and_wrapper_type() -> Result<(), TestFailure> {
    let root = tree(1, "value")?;
    let child = ensure_some(root.first_child(), "the pointer source child must exist")?;
    let pointer = SyntaxNodePtr::new(&child);
    ensure(pointer.kind() == SyntaxKind(1), "the syntax pointer must retain its typed kind")?;
    ensure(
        pointer.text_range() == child.text_range(),
        "the syntax pointer must retain its exact source range",
    )?;
    ensure_eq(
        &pointer.debug_string(),
        &"SyntaxNodePtr { kind: SyntaxKind(1), range: 0..5 }".to_owned(),
        "syntax-pointer diagnostics must expose kind and range without exposing storage",
    )?;
    let pointer_clone = pointer.clone();
    ensure(
        pointer == pointer_clone,
        "cloning a syntax pointer must preserve complete value identity",
    )?;
    ensure_same_hash(
        &pointer,
        &pointer_clone,
        std::hash::Hash::hash,
        "equal syntax pointers must produce equal structural hashes",
    )?;
    ensure(
        pointer.clone().cast::<OtherNode>().is_none(),
        "a syntax pointer must reject an AST wrapper that does not accept its stored kind",
    )?;

    let good = ensure_some(GoodNode::cast(child), "the pointer source must cast to GoodNode")?;
    let typed = AstPtr::new(&good);
    let typed_clone = typed.clone();
    ensure(typed == typed_clone, "cloning an AST pointer must preserve wrapper-typed identity")?;
    ensure(
        typed.debug_string().contains("SyntaxNodePtr"),
        "AST-pointer diagnostics must expose the underlying syntax pointer",
    )?;
    let mut pointers = HashSet::new();
    ensure(pointers.insert(typed.clone()), "the first AST pointer must enter a hash set")?;
    ensure(
        !pointers.insert(typed_clone),
        "an equal cloned AST pointer must not create a second hash-set entry",
    )?;
    ensure(
        typed.clone().cast::<OtherNode>().is_none(),
        "an AST pointer must reject an incompatible wrapper cast",
    )?;
    let raw_from_typed: SyntaxNodePtr<TestLanguage> = typed.into();
    ensure(
        raw_from_typed == pointer,
        "converting an AST pointer back to a syntax pointer must preserve its complete value",
    )?;

    let alternate_root = typed_token_root(SyntaxKind(0), SyntaxKind(2), "value")?;
    ensure(
        ensure_ok(pointer.resolve(&alternate_root), "the alternate root must be a valid root")?.is_none(),
        "resolution must reject a token where the pointer requires a structurally equivalent node",
    )
}

#[test]
fn pointer_equality_distinguishes_kind_range_and_structural_content() -> Result<(), TestFailure> {
    let source_root = tree(1, "value")?;
    let source = ensure_some(source_root.first_child(), "the source pointer node must exist")?;
    let source_pointer = SyntaxNodePtr::new(&source);

    let different_kind_root = tree(9, "value")?;
    let different_kind = ensure_some(different_kind_root.first_child(), "the alternate-kind node must exist")?;
    let different_kind_pointer = SyntaxNodePtr::new(&different_kind);
    let other = ensure_some(
        OtherNode::cast(different_kind),
        "the alternate-kind AST wrapper must accept kind nine",
    )?;

    let different_range_root = tree(1, "longer")?;
    let different_range = ensure_some(different_range_root.first_child(), "the alternate-range node must exist")?;
    let different_range_pointer = SyntaxNodePtr::new(&different_range);

    let different_content_root = tree(1, "other")?;
    let different_content = ensure_some(different_content_root.first_child(), "the alternate-content node must exist")?;
    let different_content_pointer = SyntaxNodePtr::new(&different_content);

    let nested = ensure_ok(
        GreenNode::new(SyntaxKind(1), vec![GreenElement::from(ensure_ok(
            GreenToken::new(SyntaxKind(2), "value"),
            "the nested pointer token must allocate",
        )?)]),
        "the nested pointer node must allocate",
    )?;
    let nested_root = ensure_ok(
        GreenNode::new(SyntaxKind(0), vec![
            GreenElement::from(ensure_ok(
                GreenToken::new(SyntaxKind(2), "prefix"),
                "the nested pointer prefix must allocate",
            )?),
            GreenElement::from(nested),
        ]),
        "the nested pointer root must allocate",
    )?;
    let nested_root = SyntaxNode::<TestLanguage>::new_root(nested_root);
    let nested_source = ensure_some(nested_root.last_child(), "the nested pointer node must exist after the prefix")?;
    let nested_pointer = SyntaxNodePtr::new(&nested_source);
    let nested_resolution = ensure_some(
        ensure_ok(
            nested_pointer.resolve(&nested_root),
            "a pointer below a wider ancestor range must resolve",
        )?,
        "the nested pointer must descend through its ancestor",
    )?;

    ensure(
        (
            source_pointer == different_kind_pointer,
            source_pointer == different_range_pointer,
            source_pointer == different_content_pointer,
            other.syntax().kind(),
            nested_resolution.to_string(),
        ) == (false, false, false, SyntaxKind(9), "value".to_owned()),
        "syntax-pointer identity must independently include kind, range, structure, and typed wrapper access",
    )
}
