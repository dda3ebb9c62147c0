//! Outlines of typed subtrees as values of a data format.

use rowan::outline::Outline;
use rowan::GreenNodeBuilder;
use rowan::Language;
use rowan::SyntaxKind;
use rowan::SyntaxNode;
use serde_json::Value;

#[derive(Clone, Copy, Debug, PartialEq, Eq, PartialOrd, Ord, Hash)]
enum TestKind {
    Root,
    Branch,
    Token,
    Empty,
    Error,
}

#[derive(Clone, Copy, Debug, PartialEq, Eq, PartialOrd, Ord, Hash)]
enum TestLanguage {}

impl Language for TestLanguage {
    type Kind = TestKind;

    fn kind_from_raw(raw: SyntaxKind) -> TestKind {
        match raw.0 {
            0 => TestKind::Root,
            1 => TestKind::Branch,
            2 => TestKind::Token,
            3 => TestKind::Empty,
            _ => TestKind::Error,
        }
    }

    fn kind_to_raw(kind: TestKind) -> SyntaxKind {
        SyntaxKind(match kind {
            TestKind::Root => 0,
            TestKind::Branch => 1,
            TestKind::Token => 2,
            TestKind::Empty => 3,
            TestKind::Error => 4,
        })
    }
}

/// Build the envelope of one element.
fn envelope(kind: &str, text_range: (u32, u32), payload_name: &str, payload: Value) -> Value {
    let mut map = serde_json::Map::new();
    map.insert("kind".to_owned(), Value::from(kind));
    map.insert("text_range".to_owned(), Value::from(vec![text_range.0, text_range.1]));
    map.insert(payload_name.to_owned(), payload);
    Value::Object(map)
}

/// Convert an outline.
fn to_value(outline: &Outline) -> Value {
    match outline {
        Outline::Node { kind, text_range, children } => {
            envelope(kind, *text_range, "children", Value::Array(children.iter().map(to_value).collect()))
        }
        Outline::Token { kind, text_range, text } => {
            envelope(kind, *text_range, "text", Value::from(text.as_str()))
        }
    }
}

#[test]
fn serde_feature_serializes_nested_nodes_tokens_and_empty_nodes() {
    let mut builder = GreenNodeBuilder::new();
    builder.start_node(TestLanguage::kind_to_raw(TestKind::Root));
    builder.token(TestLanguage::kind_to_raw(TestKind::Token), "a").unwrap();
    builder.start_node(TestLanguage::kind_to_raw(TestKind::Branch));
    builder.token(TestLanguage::kind_to_raw(TestKind::Token), "β").unwrap();
    builder.finish_node().unwrap();
    builder.start_node(TestLanguage::kind_to_raw(TestKind::Empty));
    builder.finish_node().unwrap();
    builder.finish_node().unwrap();
    let green = match builder.finish() {
        Ok(green) => green,
        Err(error) => panic!("{}", error.message()),
    };
    let root = SyntaxNode::<TestLanguage>::new_root(green);

    let actual = to_value(&root.outline());
    let expected: Value = serde_json::from_str(
        r#"{
            "kind": "Root",
            "text_range": [0, 3],
            "children": [
                { "kind": "Token", "text_range": [0, 1], "text": "a" },
                {
                    "kind": "Branch",
                    "text_range": [1, 3],
                    "children": [
                        { "kind": "Token", "text_range": [1, 3], "text": "β" }
                    ]
                },
                { "kind": "Empty", "text_range": [3, 3], "children": [] }
            ]
        }"#,
    )
    .unwrap();
    assert_eq!(actual, expected);
}

#[test]
fn a_token_alone_is_outlined_with_its_text() {
    let mut builder = GreenNodeBuilder::new();
    builder.start_node(TestLanguage::kind_to_raw(TestKind::Root));
    builder.token(TestLanguage::kind_to_raw(TestKind::Token), "a").unwrap();
    builder.token(TestLanguage::kind_to_raw(TestKind::Token), "β").unwrap();
    builder.finish_node().unwrap();
    let green = match builder.finish() {
        Ok(green) => green,
        Err(error) => panic!("{}", error.message()),
    };
    let root = SyntaxNode::<TestLanguage>::new_root(green);
    let last = root.last_token().unwrap();
    assert_eq!(to_value(&last.outline()), envelope("Token", (1, 3), "text", Value::from("β")));
}
