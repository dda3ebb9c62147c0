//! Debug text of typed cursors, editors and pointers.

use vstd::prelude::*;
use vstd::string::StringExecFns;

use crate::api;
use crate::api::Language;
use crate::api::SyntaxEditor;
use crate::api::SyntaxNode;
use crate::api::SyntaxToken;
use crate::ast::AstNode;
use crate::ast::AstPtr;
use crate::ast::SyntaxNodePtr;
use crate::cursor_data::Place;
use crate::cursor_traversal;
use crate::debug;
use crate::green::SyntaxKind;
use crate::model;
use crate::syntax_text;
use crate::text::TextRange;
use crate::utility_types::NodeOrToken;
use crate::utility_types::WalkEvent;

verus! {

/// Formatting a value with `{:?}` gives what the `Debug` impl of its type writes.
#[verifier::external_body]
fn label<Value: std::fmt::Debug>(value: &Value) -> (text: String) {
    format!("{:?}", value)
}

/// A text is what formatting a value with `{:?}` gives.
pub closed spec fn labelled<Value: std::fmt::Debug>(value: Value, text: Seq<char>) -> bool {
    exists|shown: String| #[trigger]
        call_ensures(label::<Value>, (&value,), shown) && shown@ == text
}

/// A text is what formatting the typed kind of a raw kind with `{:?}` gives.
pub open spec fn kind_labelled<L: Language>(raw: SyntaxKind, text: Seq<char>) -> bool {
    exists|kind: L::Kind| #[trigger]
        api::typed_kind::<L>(raw, kind) && labelled::<L::Kind>(kind, text)
}

/// Write out a typed kind.
pub fn show_label<Value: std::fmt::Debug>(value: &Value) -> (text: String)
    ensures
        labelled::<Value>(*value, text@),
{
    let text = label(value);
    assert(call_ensures(label::<Value>, (value,), text));
    text
}

/// The debug text of an element with a kind label and a range.
pub open spec fn located(kind: Seq<char>, place: Place) -> Seq<char> {
    kind + "@"@ + debug::range_shown(place.start(), place.end())
}

/// Write out a kind label and a range.
pub fn show_located(kind: &str, range: TextRange) -> (text: String)
    ensures
        text@ == kind@ + "@"@ + debug::range_shown(range.lo()@, range.hi()@),
{
    let mut text = kind.to_owned();
    text.append("@");
    text.append(debug::show_range(range).as_str());
    text
}

/// A text is cut before the last character that begins within its first bytes.
pub open spec fn is_cut(whole: Seq<char>, count: int) -> bool {
    &&& 0 <= count < whole.len()
    &&& vstd::utf8::encode_utf8(whole.take(count)).len() <= 21
    &&& count + 1 < whole.len() ==> vstd::utf8::encode_utf8(whole.take(count + 1)).len() > 21
}

/// The debug text of a token text: all of it where it is short, else the part before the cut.
pub open spec fn text_shown(whole: Seq<char>, shown: Seq<char>) -> bool {
    if vstd::utf8::encode_utf8(whole).len() < 25 {
        shown == " "@ + debug::quoted(whole)
    } else {
        exists|count: int| #[trigger]
            is_cut(whole, count) && shown == " "@ + debug::quoted(whole.take(count)) + " ..."@
    }
}

/// A text ends at a character boundary of every text that goes on from it.
proof fn lemma_prefix_boundary(front: Seq<char>, later: Seq<char>)
    ensures
        vstd::utf8::is_char_boundary(
            vstd::utf8::encode_utf8(front + later),
            vstd::utf8::encode_utf8(front).len() as int,
        ),
{
    let left = vstd::utf8::encode_utf8(front);
    let right = vstd::utf8::encode_utf8(later);
    let whole = vstd::utf8::encode_utf8(front + later);
    model::lemma_encode_concat(front, later);
    vstd::utf8::encode_utf8_valid_utf8(later);
    vstd::utf8::encode_utf8_valid_utf8(front + later);
    vstd::utf8::is_char_boundary_start_end_of_seq(right);
    vstd::utf8::is_char_boundary_start_end_of_seq(whole);
    if right.len() > 0 {
        vstd::utf8::is_char_boundary_iff_not_is_continuation_byte(right, 0);
        vstd::utf8::is_char_boundary_iff_not_is_continuation_byte(whole, left.len() as int);
        assert(whole[left.len() as int] == right[0]);
    }
}

/// Return the part of a text before its cut.
fn cut_text(whole: &str) -> (prefix: &str)
    requires
        vstd::utf8::encode_utf8(whole@).len() >= 25,
    ensures
        exists|count: int| #[trigger] is_cut(whole@, count) && prefix@ == whole@.take(count),
{
    let mut characters = whole.chars();
    let mut boundary: usize = 0;
    let mut next_boundary: usize = 0;
    let ghost mut passed: int = 0;
    let ghost mut count: int = 0;
    proof {
        assert(whole@.skip(0) =~= whole@);
        assert(whole@.take(0) =~= Seq::empty());
        assert(whole@.len() > 0) by {
            if whole@.len() == 0 {
                assert(whole@ =~= Seq::empty());
            }
        }
    }
    while next_boundary <= 21
        invariant
            0 <= passed <= whole@.len(),
            whole@.len() > 0,
            vstd::utf8::encode_utf8(whole@).len() >= 25,
            whole@.skip(passed) == vstd::std_specs::iter::IteratorSpec::remaining(&characters),
            vstd::std_specs::iter::IteratorSpec::obeys_prophetic_iter_laws(&characters),
            vstd::std_specs::iter::IteratorSpec::decrease(&characters) is Some,
            next_boundary == vstd::utf8::encode_utf8(whole@.take(passed)).len(),
            next_boundary <= 25,
            boundary <= 21,
            boundary == vstd::utf8::encode_utf8(whole@.take(count)).len(),
            passed == 0 ==> count == 0,
            passed > 0 ==> count == passed - 1,
        decreases whole@.len() - passed,
    {
        match characters.next() {
            Some(next) => {
                boundary = next_boundary;
                let width: usize = syntax_text::utf8_width(next);
                next_boundary += width;
                proof {
                    assert(whole@.skip(passed)[0] == whole@[passed]);
                    assert(whole@.skip(passed).drop_first() =~= whole@.skip(passed + 1));
                    assert(whole@.take(passed + 1) =~= whole@.take(passed) + seq![next]);
                    model::lemma_encode_concat(whole@.take(passed), seq![next]);
                    count = passed;
                    passed = passed + 1;
                }
            },
            None => {
                proof {
                    assert(whole@.skip(passed).len() == 0);
                    assert(whole@.take(passed) =~= whole@);
                }
                return whole;
            },
        }
    }
    proof {
        assert(is_cut(whole@, count));
        assert(whole@ =~= whole@.take(count) + whole@.skip(count));
        lemma_prefix_boundary(whole@.take(count), whole@.skip(count));
        model::lemma_encode_concat(whole@.take(count), whole@.skip(count));
    }
    let prefix = whole.split_at(boundary).0;
    proof {
        vstd::utf8::encode_utf8_decode_utf8(prefix@);
        vstd::utf8::encode_utf8_decode_utf8(whole@.take(count));
        assert(vstd::utf8::encode_utf8(prefix@) =~= vstd::utf8::encode_utf8(whole@.take(count)));
    }
    prefix
}

/// Write out a token text, cut short where it is long.
pub fn show_text(whole: &str) -> (shown: String)
    ensures
        text_shown(whole@, shown@),
{
    let mut shown = " ".to_owned();
    if whole.as_bytes().len() < 25 {
        shown.append(debug::quote(whole).as_str());
    } else {
        shown.append(debug::quote(cut_text(whole)).as_str());
        shown.append(" ...");
    }
    shown
}

impl<L: Language> SyntaxNode<L> {
    /// Write out the kind and the absolute range.
    pub fn debug_string(&self) -> (text: String)
        ensures
            exists|kind: Seq<char>|
                kind_labelled::<L>(self.place().tree().kind(), kind) && text@
                    == #[trigger] located(kind, self.place()),
    {
        let typed = self.kind();
        let kind = show_label(&typed);
        let text = show_located(kind.as_str(), self.text_range());
        assert(api::typed_kind::<L>(self.place().tree().kind(), typed));
        assert(kind_labelled::<L>(self.place().tree().kind(), kind@));
        assert(text@ == located(kind@, self.place()));
        text
    }
}

/// The debug text of a token with a kind label.
pub open spec fn token_shown(kind: Seq<char>, place: Place, shown: Seq<char>) -> bool {
    exists|tail: Seq<char>| #[trigger]
        text_shown(place.tree().text(), tail) && shown == located(kind, place) + tail
}

impl<L: Language> SyntaxToken<L> {
    /// Write out the kind, the absolute range and the text, cut short where it is long.
    pub fn debug_string(&self) -> (text: String)
        ensures
            exists|kind: Seq<char>|
                kind_labelled::<L>(self.place().tree().kind(), kind) && #[trigger] token_shown(
                    kind,
                    self.place(),
                    text@,
                ),
    {
        let typed = self.kind();
        let kind = show_label(&typed);
        assert(api::typed_kind::<L>(self.place().tree().kind(), typed));
        assert(kind_labelled::<L>(self.place().tree().kind(), kind@));
        let mut text = show_located(kind.as_str(), self.text_range());
        let tail = show_text(self.text());
        text.append(tail.as_str());
        assert(text_shown(self.place().tree().text(), tail@));
        assert(token_shown(kind@, self.place(), text@));
        text
    }
}

/// The debug text of an element with a kind label.
pub open spec fn element_line(kind: Seq<char>, place: Place, line: Seq<char>) -> bool {
    if place.tree() is Token {
        token_shown(kind, place, line)
    } else {
        line == located(kind, place)
    }
}

/// Two spaces for each level.
pub open spec fn indentation(level: nat) -> Seq<char>
    decreases level,
{
    if level == 0 {
        ""@
    } else {
        indentation((level - 1) as nat) + "  "@
    }
}

/// The lines of a walk: one for each element entered, indented by the number of elements that are
/// entered and not yet left.
pub open spec fn dump(
    events: Seq<WalkEvent<Place>>,
    level: nat,
    lines: Seq<Seq<char>>,
) -> Seq<char>
    decreases events.len(),
{
    if events.len() == 0 {
        Seq::empty()
    } else {
        match events[0] {
            WalkEvent::Enter(_) => indentation(level) + lines[0] + "\n"@ + dump(
                events.drop_first(),
                level + 1,
                lines.drop_first(),
            ),
            WalkEvent::Leave(_) => dump(
                events.drop_first(),
                if level == 0 {
                    0
                } else {
                    (level - 1) as nat
                },
                lines,
            ),
        }
    }
}

/// Lines that show the places of a sequence.
pub open spec fn lines_show<L: Language>(places: Seq<Place>, lines: Seq<Seq<char>>) -> bool {
    &&& lines.len() == places.len()
    &&& forall|i: int|
        0 <= i < places.len() ==> line_shown::<L>(#[trigger] places[i], lines[i])
}

/// A line shows an element under the label of its typed kind.
pub open spec fn line_shown<L: Language>(place: Place, line: Seq<char>) -> bool {
    exists|kind: Seq<char>|
        kind_labelled::<L>(place.tree().kind(), kind) && #[trigger] element_line(kind, place, line)
}

/// Write one indentation.
fn show_indentation(level: usize) -> (text: String)
    ensures
        text@ == indentation(level as nat),
{
    let mut text = "".to_owned();
    let mut done: usize = 0;
    while done < level
        invariant
            done <= level,
            text@ == indentation(done as nat),
        decreases level - done,
    {
        text.append("  ");
        done += 1;
    }
    text
}

impl<L: Language> SyntaxNode<L> {
    /// Write out this node and everything below it, one indented line for each element.
    pub fn debug_tree(&self) -> (text: String)
        ensures
            exists|lines: Seq<Seq<char>>|
                lines_show::<L>(
                    cursor_traversal::subtree_places(self.place(), self.place().tree(), false),
                    lines,
                ) && text@ == #[trigger] dump(
                    cursor_traversal::walk(self.place(), self.place().tree(), false),
                    0,
                    lines,
                ),
    {
        let mut preorder = self.preorder_with_tokens();
        let mut text = String::new();
        let mut open: Vec<u8> = Vec::new();
        let ghost all = preorder.remaining();
        let ghost mut lines: Seq<Seq<char>> = Seq::empty();
        let ghost mut shown: Seq<Place> = Seq::empty();
        proof {
            cursor_traversal::lemma_walk_enters_subtree(self.place(), self.place().tree(), false);
            assert(shown + cursor_traversal::entered_places(all)
                =~= cursor_traversal::entered_places(all));
            assert forall|later: Seq<Seq<char>>| text@ + #[trigger] dump(all, 0, later) == dump(
                all,
                0,
                lines + later,
            ) by {
                assert(lines + later =~= later);
                assert(text@ + dump(all, 0, later) =~= dump(all, 0, later));
            }
        }
        loop
            invariant
                all == cursor_traversal::walk(self.place(), self.place().tree(), false),
                cursor_traversal::entered_places(all) == cursor_traversal::subtree_places(
                    self.place(),
                    self.place().tree(),
                    false,
                ),
                shown + cursor_traversal::entered_places(preorder.remaining())
                    == cursor_traversal::entered_places(all),
                lines_show::<L>(shown, lines),
                forall|later: Seq<Seq<char>>|
                    text@ + #[trigger] dump(preorder.remaining(), open@.len(), later) == dump(
                        all,
                        0,
                        lines + later,
                    ),
            decreases preorder.remaining().len(),
        {
            let ghost events = preorder.remaining();
            let ghost before = text@;
            let ghost level = open@.len();
            match preorder.next() {
                Some(event) => {
                    let ghost rest = preorder.remaining();
                    assert(events.drop_first() =~= rest);
                    match event {
                        WalkEvent::Enter(element) => {
                            let ghost place = api::element_place(element);
                            let line = match &element {
                                NodeOrToken::Node(node) => {
                                    proof {
                                        use_type_invariant(node);
                                    }
                                    node.debug_string()
                                },
                                NodeOrToken::Token(token) => {
                                    proof {
                                        use_type_invariant(token);
                                    }
                                    token.debug_string()
                                },
                            };
                            assert(line_shown::<L>(place, line@)) by {
                                if place.tree() is Token {
                                    let kind = choose|kind: Seq<char>|
                                        kind_labelled::<L>(place.tree().kind(), kind)
                                            && #[trigger] token_shown(kind, place, line@);
                                    assert(element_line(kind, place, line@));
                                } else {
                                    let kind = choose|kind: Seq<char>|
                                        kind_labelled::<L>(place.tree().kind(), kind) && line@
                                            == #[trigger] located(kind, place);
                                    assert(element_line(kind, place, line@));
                                }
                            }
                            text.append(show_indentation(open.len()).as_str());
                            text.append(line.as_str());
                            text.append("\n");
                            open.push(0);
                            proof {
                                let longer = lines.push(line@);
                                assert forall|later: Seq<Seq<char>>|
                                    text@ + #[trigger] dump(rest, open@.len(), later) == dump(
                                        all,
                                        0,
                                        longer + later,
                                    ) by {
                                    let with = seq![line@] + later;
                                    assert(with.drop_first() =~= later);
                                    assert(lines + with =~= longer + later);
                                    let head = indentation(level) + line@ + "\n"@;
                                    assert(dump(events, level, with) == head + dump(
                                        rest,
                                        level + 1,
                                        later,
                                    ));
                                    assert(before + (head + dump(rest, level + 1, later))
                                        =~= text@ + dump(rest, level + 1, later));
                                }
                                let entered = shown.push(place);
                                assert(entered + cursor_traversal::entered_places(rest) =~= shown
                                    + (seq![place] + cursor_traversal::entered_places(rest)));
                                assert forall|i: int|
                                    0 <= i < entered.len() implies line_shown::<L>(
                                    #[trigger] entered[i],
                                    longer[i],
                                ) by {
                                    if i < shown.len() {
                                        assert(entered[i] == shown[i]);
                                    }
                                }
                                lines = longer;
                                shown = entered;
                            }
                        },
                        WalkEvent::Leave(_) => {
                            let _ = open.pop();
                            proof {
                                assert forall|later: Seq<Seq<char>>|
                                    text@ + #[trigger] dump(rest, open@.len(), later) == dump(
                                        all,
                                        0,
                                        lines + later,
                                    ) by {
                                    assert(dump(events, level, later) == dump(
                                        rest,
                                        open@.len(),
                                        later,
                                    ));
                                }
                            }
                        },
                    }
                },
                None => {
                    proof {
                        let nothing = Seq::<Seq<char>>::empty();
                        assert(before + dump(events, level, nothing) =~= before);
                        assert(lines + nothing =~= lines);
                        assert(shown + cursor_traversal::entered_places(events) =~= shown);
                    }
                    return text;
                },
            }
        }
    }
}

impl<L: Language> SyntaxEditor<L> {
    /// Write out the raw editor in brackets.
    pub fn debug_string(&self) -> (text: String)
        ensures
            text@ == "SyntaxEditor("@ + debug::editor_shown(self.raw()) + ")"@,
    {
        let mut text = "SyntaxEditor(".to_owned();
        text.append(self.raw_debug().as_str());
        text.append(")");
        text
    }
}

/// The debug text of a pointer with a kind label.
pub open spec fn pointer_shown(kind: Seq<char>, range: TextRange) -> Seq<char> {
    "SyntaxNodePtr { kind: "@ + kind + ", range: "@ + debug::range_shown(range.lo()@, range.hi()@)
        + " }"@
}

impl<L: Language> SyntaxNodePtr<L> {
    /// Write out the kind and the range.
    pub fn debug_string(&self) -> (text: String)
        ensures
            exists|kind: Seq<char>|
                labelled::<L::Kind>(self.stored_kind(), kind) && text@ == #[trigger] pointer_shown(
                    kind,
                    self.stored_range(),
                ),
    {
        let kind = show_label(&self.kind());
        let mut text = "SyntaxNodePtr { kind: ".to_owned();
        text.append(kind.as_str());
        text.append(", range: ");
        text.append(debug::show_range(self.text_range()).as_str());
        text.append(" }");
        assert(text@ == pointer_shown(kind@, self.stored_range()));
        text
    }
}

impl<NodeType: AstNode> AstPtr<NodeType> {
    /// Write out the underlying pointer.
    pub fn debug_string(&self) -> (text: String)
        ensures
            exists|kind: Seq<char>|
                labelled::<<NodeType::Language as Language>::Kind>(
                    self.pointer().stored_kind(),
                    kind,
                ) && text@ == "AstPtr { raw: "@ + #[trigger] pointer_shown(
                    kind,
                    self.pointer().stored_range(),
                ) + " }"@,
    {
        let mut text = "AstPtr { raw: ".to_owned();
        text.append(self.syntax_node_ptr().debug_string().as_str());
        text.append(" }");
        text
    }
}

} // verus!
