//! Rejected inputs and the messages of their errors.

use rowan::ast::AstNode;
use rowan::cursor::SyntaxEditor;
use rowan::cursor::SyntaxNode;
use rowan::green::text_size_from_usize;
use rowan::AstError;
use rowan::BuildError;
use rowan::ChunkError;
use rowan::EditError;
use rowan::EditorElementId;
use rowan::GreenElement;
use rowan::GreenError;
use rowan::GreenNode;
use rowan::GreenNodeBuilder;
use rowan::GreenToken;
use rowan::Language;
use rowan::RangeError;
use rowan::ResolveError;
use rowan::SyntaxKind;
use rowan::TextRange;
use rowan::TextSize;
use rowan::TraversalError;

/// One mebibyte of token text.
const MEBIBYTE: usize = 1_048_576;

/// A token of one mebibyte.
fn large_token() -> GreenToken {
    match GreenToken::new(SyntaxKind(1), &"x".repeat(MEBIBYTE)) {
        Ok(token) => token,
        Err(error) => panic!("{}", error.message()),
    }
}

/// Handles on one token.
fn copies(token: &GreenToken, count: usize) -> Vec<GreenElement> {
    (0..count).map(|_| GreenElement::from(token.clone())).collect()
}

/// A token of a kind and a text.
fn token(kind: u16, text: &str) -> GreenToken {
    match GreenToken::new(SyntaxKind(kind), text) {
        Ok(token) => token,
        Err(error) => panic!("{}", error.message()),
    }
}

/// A node of a kind and children.
fn node(kind: u16, children: Vec<GreenElement>) -> GreenNode {
    match GreenNode::new(SyntaxKind(kind), children) {
        Ok(node) => node,
        Err(error) => panic!("{}", error.message()),
    }
}

#[test]
fn children_that_leave_the_coordinate_space_are_rejected() {
    let large = large_token();
    let overflow = GreenError::TextLengthOverflow {
        accumulated: TextSize::from(4_293_918_720),
        next: TextSize::from(1_048_576),
    };
    assert!(GreenNode::new(SyntaxKind(0), copies(&large, 4_096)) == Err(overflow));
    let widest = node(0, copies(&large, 4_095));
    assert!(widest.text_len() == TextSize::from(4_293_918_720));
    assert!(widest.insert_child(0, GreenElement::from(large.clone())) == Err(GreenError::TextLengthOverflow {
        accumulated: TextSize::from(4_293_918_720),
        next: TextSize::from(1_048_576),
    }));
    assert_eq!(
        overflow.message(),
        "text length overflow while adding 1048576 to 4293918720"
    );
}

#[test]
fn a_builder_keeps_its_frame_when_a_node_is_too_long() {
    let text = "x".repeat(MEBIBYTE);
    let mut builder = GreenNodeBuilder::new();
    builder.start_node(SyntaxKind(0));
    for _ in 0..4_096 {
        assert!(builder.token(SyntaxKind(1), &text).is_ok());
    }
    let failure = BuildError::Green(GreenError::TextLengthOverflow {
        accumulated: TextSize::from(4_293_918_720),
        next: TextSize::from(1_048_576),
    });
    assert!(builder.finish_node() == Err(failure));
    assert!(builder.finish_node() == Err(failure));
    assert_eq!(failure.message(), "text length overflow while adding 1048576 to 4293918720");
    assert!(builder.finish() == Err(BuildError::UnclosedNodes { count: 1 }));
}

#[test]
fn an_editor_is_unchanged_when_a_splice_is_too_long() {
    let large = large_token();
    let half = node(2, copies(&large, 2_048));
    let source = SyntaxNode::new_root(node(0, vec![GreenElement::from(token(1, "a"))]));
    let mut editor = SyntaxEditor::new(&source);
    let root = editor.root_id();
    let before = editor.children(&root).unwrap();
    let first = editor.import_green(GreenElement::from(half.clone())).unwrap();
    let second = editor.import_green(GreenElement::from(half)).unwrap();
    let outcome = editor.splice_children(&root, 1..1, vec![first.clone(), second.clone()]);
    assert!(outcome.err() == Some(EditError::Green(GreenError::TextLengthOverflow {
        accumulated: TextSize::from(2_147_483_649),
        next: TextSize::from(2_147_483_648),
    })));
    assert!(editor.children(&root).unwrap() == before);
    assert!(editor.parent(&first).unwrap().is_none());
    assert!(editor.splice_children(&root, 1..1, vec![second]).is_ok());
    assert!(editor.text_len(&EditorElementId::Node(root)).unwrap() == TextSize::from(2_147_483_649));
}

#[test]
fn replacing_by_a_longer_element_checks_every_ancestor() {
    let large = large_token();
    let quarter = node(2, copies(&large, 1_024));
    let child = node(3, vec![GreenElement::from(token(1, "a"))]);
    let wide = node(
        0,
        vec![
            GreenElement::from(quarter.clone()),
            GreenElement::from(quarter.clone()),
            GreenElement::from(quarter.clone()),
            GreenElement::from(child),
        ],
    );
    let root = SyntaxNode::new_root(wide);
    let last = root.last_child().unwrap();
    let fits = last.replace_with(node(3, copies(&large, 1_023)));
    assert!(fits.is_ok());
    let outcome = last.replace_with(node(3, copies(&large, 1_024)));
    assert!(outcome == Err(GreenError::TextLengthOverflow {
        accumulated: TextSize::from(3_221_225_472),
        next: TextSize::from(1_073_741_824),
    }));
}

#[test]
fn green_error_messages_name_their_values() {
    let too_long = text_size_from_usize(5_000_000_000).err().unwrap();
    assert_eq!(too_long.message(), "token text length 5000000000 does not fit in TextSize");
    let index = GreenError::ChildIndexOutOfBounds { index: 7, child_count: 2 };
    assert_eq!(index.message(), "child index 7 is out of bounds for 2 children");
    let range = GreenError::InvalidChildRange { start: 3, end: 1, child_count: 10 };
    assert_eq!(range.message(), "child range 3..1 is invalid for 10 children");
    let kind = GreenError::KindMismatch { expected: SyntaxKind(4), actual: SyntaxKind(65_535) };
    assert_eq!(
        kind.message(),
        "replacement kind SyntaxKind(65535) does not match expected kind SyntaxKind(4)"
    );
    assert_eq!(GreenError::AllocationFailed.message(), "green-tree allocation failed");
}

#[test]
fn build_error_messages_name_their_values() {
    assert_eq!(BuildError::from(GreenError::AllocationFailed).message(), "green-tree allocation failed");
    assert_eq!(BuildError::NoOpenNode.message(), "no syntax node is open");
    assert_eq!(BuildError::ForeignCheckpoint.message(), "checkpoint belongs to another builder");
    assert_eq!(BuildError::StaleCheckpoint.message(), "checkpoint frame is stale");
    assert_eq!(
        BuildError::CheckpointOutOfBounds { index: 3, child_count: 1 }.message(),
        "checkpoint index 3 is out of bounds for 1 children"
    );
    assert_eq!(BuildError::UnclosedNodes { count: 12 }.message(), "builder has 12 unclosed nodes");
    assert_eq!(
        BuildError::InvalidRootArity { count: 0 }.message(),
        "builder produced 0 root elements instead of one"
    );
    assert_eq!(BuildError::RootMustBeNode.message(), "builder root must be a node");
}

#[test]
fn edit_error_messages_name_their_values() {
    assert_eq!(EditError::from(GreenError::AllocationFailed).message(), "green-tree allocation failed");
    assert_eq!(EditError::ForeignId.message(), "editor ID is foreign");
    assert_eq!(
        EditError::UnknownSourceElement.message(),
        "source element does not belong to this editor's original subtree"
    );
    assert_eq!(
        EditError::InvalidChildRange { start: 2, end: 1, child_count: 2 }.message(),
        "child range 2..1 is invalid for 2 children"
    );
    assert_eq!(
        EditError::DuplicateInsertion { first_position: 0, duplicate_position: 4 }.message(),
        "insertion at position 4 duplicates position 0"
    );
    assert_eq!(EditError::Cycle.message(), "edit would create a syntax-tree cycle");
    assert_eq!(EditError::RootStillAttached.message(), "syntax root is still attached");
}

#[test]
fn range_error_messages_name_their_values() {
    let valid = TextRange::up_to(TextSize::from(5));
    let offset = TextSize::from(6);
    assert_eq!(RangeError::OffsetOutOfBounds { offset, valid }.message(), "offset 6 is outside 0..5");
    let requested = TextRange::new(TextSize::from(2), offset);
    assert_eq!(RangeError::RangeOutOfBounds { requested, valid }.message(), "range 2..6 is outside 0..5");
    assert_eq!(
        RangeError::ReversedRange { start: offset, end: TextSize::from(1) }.message(),
        "range start 6 is after end 1"
    );
    assert_eq!(
        RangeError::NotCharBoundary { offset }.message(),
        "offset 6 is not a UTF-8 character boundary"
    );
    assert_eq!(
        RangeError::OffsetArithmeticOverflow { base: offset, delta: TextSize::from(9) }.message(),
        "offset arithmetic overflow while adding 9 to 6"
    );
    assert_eq!(
        ChunkError::<u8>::from(RangeError::NotCharBoundary { offset }).message(),
        "offset 6 is not a UTF-8 character boundary"
    );
    assert_eq!(ChunkError::Callback(3_u8).message(), "text chunk callback failed");
}

#[test]
fn traversal_and_pointer_error_messages_are_fixed() {
    assert_eq!(
        TraversalError::NoNodeSubtree.message(),
        "no entered node subtree is available to skip"
    );
    assert_eq!(
        TraversalError::SkipAlreadyRequested.message(),
        "the current node subtree is already marked for skipping"
    );
    assert_eq!(ResolveError::RootHasParent.message(), "pointer resolution requires a root node");
    assert_eq!(
        AstError::CloneCastRejected { kind: SyntaxKind(3) }.message(),
        "AST cast rejected cloned syntax kind SyntaxKind(3)"
    );
}

/// A language that shifts kinds by a hundred.
#[derive(Debug, Clone, Copy, PartialEq, Eq, PartialOrd, Ord, Hash)]
enum Shifted {}

impl Language for Shifted {
    type Kind = u32;

    fn kind_from_raw(raw: SyntaxKind) -> u32 {
        u32::from(raw.0) + 100
    }

    fn kind_to_raw(kind: u32) -> SyntaxKind {
        SyntaxKind((kind - 100) as u16)
    }
}

/// A wrapper that accepts nothing.
struct Nothing(rowan::SyntaxNode<Shifted>);

impl AstNode for Nothing {
    type Language = Shifted;

    fn can_cast(_kind: u32) -> bool {
        false
    }

    fn cast(_node: rowan::SyntaxNode<Shifted>) -> Option<Self> {
        None
    }

    fn syntax(&self) -> &rowan::SyntaxNode<Shifted> {
        &self.0
    }
}

#[test]
fn a_rejected_clone_reports_the_raw_kind() {
    let root = rowan::SyntaxNode::<Shifted>::new_root(node(7, Vec::new()));
    assert_eq!(root.kind(), 107);
    let wrapper = Nothing(root.clone());
    assert!(wrapper.clone_subtree().err() == Some(AstError::CloneCastRejected { kind: SyntaxKind(7) }));
    assert!(!Nothing::can_cast(107));
    assert!(root.children_with_tokens().into_vec().is_empty());
}
