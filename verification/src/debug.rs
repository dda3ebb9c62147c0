//! Semantic debug text of immutable handles.

use vstd::prelude::*;
use vstd::string::StringExecFns;

use crate::cursor;
use crate::cursor_editor::EditorNodeId;
use crate::cursor_editor::EditorTokenId;
use crate::cursor_editor::SyntaxEditor;
use crate::green::element::GreenElement;
use crate::green::node::GreenNode;
use crate::green::token::GreenToken;
use crate::green::SyntaxKind;
use crate::model::Tree;
use crate::syntax_text::SyntaxText;
use crate::text::TextRange;
use crate::utility_types::NodeOrToken;

verus! {

/// The decimal digit of a number below ten.
pub open spec fn digit(value: nat) -> char {
    if value == 0 {
        '0'
    } else if value == 1 {
        '1'
    } else if value == 2 {
        '2'
    } else if value == 3 {
        '3'
    } else if value == 4 {
        '4'
    } else if value == 5 {
        '5'
    } else if value == 6 {
        '6'
    } else if value == 7 {
        '7'
    } else if value == 8 {
        '8'
    } else {
        '9'
    }
}

/// The decimal digits of a number.
pub open spec fn digits(value: nat) -> Seq<char>
    decreases value,
{
    if value < 10 {
        seq![digit(value)]
    } else {
        digits(value / 10).push(digit(value % 10))
    }
}

/// Return the decimal digit of a number below ten.
fn digit_text(value: u64) -> (text: &'static str)
    requires
        value < 10,
    ensures
        text@ == seq![digit(value as nat)],
{
    proof {
        reveal_strlit("0");
        reveal_strlit("1");
        reveal_strlit("2");
        reveal_strlit("3");
        reveal_strlit("4");
        reveal_strlit("5");
        reveal_strlit("6");
        reveal_strlit("7");
        reveal_strlit("8");
        reveal_strlit("9");
    }
    let text = if value == 0 {
        "0"
    } else if value == 1 {
        "1"
    } else if value == 2 {
        "2"
    } else if value == 3 {
        "3"
    } else if value == 4 {
        "4"
    } else if value == 5 {
        "5"
    } else if value == 6 {
        "6"
    } else if value == 7 {
        "7"
    } else if value == 8 {
        "8"
    } else {
        "9"
    };
    assert(text@ =~= seq![digit(value as nat)]);
    text
}

/// Write out a number in decimal.
pub fn decimal(value: u64) -> (text: String)
    ensures
        text@ == digits(value as nat),
    decreases value,
{
    if value < 10 {
        digit_text(value).to_owned()
    } else {
        let mut text = decimal(value / 10);
        let ghost front = text@;
        text.append(digit_text(value % 10));
        assert(text@ =~= front.push(digit((value % 10) as nat)));
        text
    }
}

/// A text in quotes with its special characters escaped.
pub uninterp spec fn quoted(text: Seq<char>) -> Seq<char>;

/// Formatting a `str` with `{:?}` puts it in quotes and escapes its special characters.
#[verifier::external_body]
pub(crate) fn quote(text: &str) -> (shown: String)
    ensures
        shown@ == quoted(text@),
{
    format!("{:?}", text)
}

/// The debug text of a raw kind.
pub open spec fn kind_shown(kind: SyntaxKind) -> Seq<char> {
    "SyntaxKind("@ + digits(kind.0 as nat) + ")"@
}

/// The debug text of a range.
pub open spec fn range_shown(start: nat, end: nat) -> Seq<char> {
    digits(start) + ".."@ + digits(end)
}

/// The debug text of a green node.
pub open spec fn green_node_shown(tree: Tree) -> Seq<char> {
    "GreenNode { kind: "@ + kind_shown(tree.kind()) + ", text_len: "@ + digits(tree.len())
        + ", child_count: "@ + digits(tree.children().len()) + " }"@
}

/// The debug text of a green token.
pub open spec fn green_token_shown(tree: Tree) -> Seq<char> {
    "GreenToken { kind: "@ + kind_shown(tree.kind()) + ", text: "@ + quoted(tree.text()) + " }"@
}

/// Write out a raw kind.
pub fn show_kind(kind: SyntaxKind) -> (text: String)
    ensures
        text@ == kind_shown(kind),
{
    let mut text = "SyntaxKind(".to_owned();
    text.append(decimal(kind.0 as u64).as_str());
    text.append(")");
    text
}

/// Write out a range.
pub fn show_range(range: TextRange) -> (text: String)
    ensures
        text@ == range_shown(range.lo()@, range.hi()@),
{
    let mut text = decimal(range.start().raw as u64);
    text.append("..");
    text.append(decimal(range.end().raw as u64).as_str());
    text
}

impl GreenNode {
    /// Write out the kind, the length and the number of children.
    pub fn debug_string(&self) -> (text: String)
        ensures
            text@ == green_node_shown(self@),
    {
        let mut text = "GreenNode { kind: ".to_owned();
        text.append(show_kind(self.kind()).as_str());
        text.append(", text_len: ");
        text.append(decimal(self.text_len().raw as u64).as_str());
        text.append(", child_count: ");
        let records = self.child_records();
        proof {
            self.lemma_valid();
        }
        text.append(decimal(records.len() as u64).as_str());
        text.append(" }");
        text
    }
}

impl GreenToken {
    /// Write out the kind and the text.
    pub fn debug_string(&self) -> (text: String)
        ensures
            text@ == green_token_shown(self@),
    {
        let mut text = "GreenToken { kind: ".to_owned();
        text.append(show_kind(self.kind()).as_str());
        text.append(", text: ");
        text.append(quote(self.text()).as_str());
        text.append(" }");
        text
    }
}

impl cursor::SyntaxNode {
    /// Write out the kind and the absolute range.
    pub fn debug_string(&self) -> (text: String)
        ensures
            text@ == "SyntaxNode { kind: "@ + kind_shown(self.place().tree().kind())
                + ", text_range: "@ + range_shown(self.place().start(), self.place().end())
                + " }"@,
    {
        let mut text = "SyntaxNode { kind: ".to_owned();
        text.append(show_kind(self.kind()).as_str());
        text.append(", text_range: ");
        text.append(show_range(self.text_range()).as_str());
        text.append(" }");
        text
    }
}

impl cursor::SyntaxToken {
    /// Write out the kind, the absolute range and the text.
    pub fn debug_string(&self) -> (text: String)
        ensures
            text@ == "SyntaxToken { kind: "@ + kind_shown(self.place().tree().kind())
                + ", text_range: "@ + range_shown(self.place().start(), self.place().end())
                + ", text: "@ + quoted(self.place().tree().text()) + " }"@,
    {
        let mut text = "SyntaxToken { kind: ".to_owned();
        text.append(show_kind(self.kind()).as_str());
        text.append(", text_range: ");
        text.append(show_range(self.text_range()).as_str());
        text.append(", text: ");
        text.append(quote(self.text()).as_str());
        text.append(" }");
        text
    }
}

impl SyntaxText {
    /// Write out the text of the view in quotes.
    pub fn debug_string(&self) -> (text: String)
        ensures
            text@ == quoted(self@),
    {
        quote(self.to_string().as_str())
    }
}

/// The debug text of an optional number.
pub open spec fn option_shown(value: Option<u64>) -> Seq<char> {
    match value {
        Some(value) => "Some("@ + digits(value as nat) + ")"@,
        None => "None"@,
    }
}

/// Write out an optional number.
pub fn show_option(value: Option<u64>) -> (text: String)
    ensures
        text@ == option_shown(value),
{
    match value {
        Some(value) => {
            let mut text = "Some(".to_owned();
            text.append(decimal(value).as_str());
            text.append(")");
            text
        },
        None => "None".to_owned(),
    }
}

/// The debug text of a green element.
pub open spec fn element_shown(element: GreenElement) -> Seq<char> {
    match element {
        NodeOrToken::Node(node) => "Node("@ + green_node_shown(node@) + ")"@,
        NodeOrToken::Token(token) => "Token("@ + green_token_shown(token@) + ")"@,
    }
}

/// Write out a green element.
pub fn show_element(element: &GreenElement) -> (text: String)
    ensures
        text@ == element_shown(*element),
{
    match element {
        NodeOrToken::Node(node) => {
            let mut text = "Node(".to_owned();
            text.append(node.debug_string().as_str());
            text.append(")");
            text
        },
        NodeOrToken::Token(token) => {
            let mut text = "Token(".to_owned();
            text.append(token.debug_string().as_str());
            text.append(")");
            text
        },
    }
}

/// The debug text of a node ID.
pub open spec fn node_id_shown(id: EditorNodeId) -> Seq<char> {
    "EditorNodeId { owner: EditorOwner, slot: "@ + digits(id.slot() as nat) + " }"@
}

impl EditorNodeId {
    /// Write out the slot of this ID.
    pub fn debug_string(&self) -> (text: String)
        ensures
            text@ == node_id_shown(*self),
    {
        let mut text = "EditorNodeId { owner: EditorOwner, slot: ".to_owned();
        text.append(decimal(self.slot_number() as u64).as_str());
        text.append(" }");
        text
    }
}

impl EditorTokenId {
    /// Write out the slot of this ID.
    pub fn debug_string(&self) -> (text: String)
        ensures
            text@ == "EditorTokenId { owner: EditorOwner, slot: "@ + digits(self.slot() as nat)
                + " }"@,
    {
        let mut text = "EditorTokenId { owner: EditorOwner, slot: ".to_owned();
        text.append(decimal(self.slot_number() as u64).as_str());
        text.append(" }");
        text
    }
}

/// The debug text of an editor.
pub open spec fn editor_shown(editor: SyntaxEditor) -> Seq<char> {
    "SyntaxEditor { record_count: "@ + digits(editor.slots() as nat) + ", root: "@ + node_id_shown(
        editor.root(),
    ) + " }"@
}

impl SyntaxEditor {
    /// Write out the number of records and the root ID.
    pub fn debug_string(&self) -> (text: String)
        ensures
            text@ == editor_shown(*self),
    {
        let mut text = "SyntaxEditor { record_count: ".to_owned();
        text.append(decimal(self.record_count() as u64).as_str());
        text.append(", root: ");
        text.append(self.root_id().debug_string().as_str());
        text.append(" }");
        text
    }
}

} // verus!
