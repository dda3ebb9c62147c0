//! Strongly typed language wrappers over the raw cursor API.

use std::marker::PhantomData;
use std::ops::Range;

use vstd::prelude::*;

use crate::cursor;
use crate::cursor::RangeError;
use crate::cursor_data::Place;
use crate::cursor_editor;
use crate::cursor_editor::EditError;
use crate::cursor_editor::EditorElementId;
use crate::cursor_editor::EditorNodeId;
use crate::cursor_editor::EditorTokenId;
use crate::cursor_editor::SpliceOutcome;
use crate::cursor_query;
use crate::cursor_replace;
use crate::cursor_siblings;
use crate::cursor_traversal;
use crate::cursor_traversal::TraversalError;
use crate::green::element::GreenElement;
use crate::green::node::GreenNode;
use crate::green::token::GreenToken;
use crate::green::GreenError;
use crate::green::SyntaxKind;
use crate::model::Tree;
use crate::syntax_text::SyntaxText;
use crate::text::TextRange;
use crate::text::TextSize;
use crate::utility_types::Direction;
use crate::utility_types::NodeOrToken;
use crate::utility_types::TokenAtOffset;
use crate::utility_types::WalkEvent;

verus! {

/// Language-specific conversion between raw and typed syntax kinds.
pub trait Language: Sized + Copy + std::fmt::Debug + Eq + Ord + std::hash::Hash {
    /// Language-specific syntax kind.
    type Kind: Sized + Copy + std::fmt::Debug + Eq + Ord + std::hash::Hash;

    /// Convert a raw kind into the language's kind.
    fn kind_from_raw(raw: SyntaxKind) -> (kind: Self::Kind);

    /// Convert the language's kind into a raw kind.
    fn kind_to_raw(kind: Self::Kind) -> (raw: SyntaxKind);
}

/// The language gives a kind for a raw kind.
pub open spec fn typed_kind<L: Language>(raw: SyntaxKind, kind: L::Kind) -> bool {
    call_ensures(L::kind_from_raw, (raw,), kind)
}

/// A matcher of typed kinds answers for a raw kind.
pub open spec fn answers<L: Language, Matcher: Fn(L::Kind) -> bool>(
    matcher: Matcher,
    raw: SyntaxKind,
    answer: bool,
) -> bool {
    exists|kind: L::Kind| #[trigger]
        typed_kind::<L>(raw, kind) && call_ensures(matcher, (kind,), answer)
}

/// `found` is the first child from `low` on that the search looks at and the matcher accepts; the
/// matcher rejected every child looked at before.
pub open spec fn first_typed_match<L: Language, Matcher: Fn(L::Kind) -> bool>(
    matcher: Matcher,
    trees: Seq<Tree>,
    low: int,
    nodes_only: bool,
    found: Option<int>,
) -> bool {
    let high = match found {
        Some(found) => found,
        None => trees.len() as int,
    };
    &&& found matches Some(found) ==> {
        &&& low <= found < trees.len()
        &&& cursor_siblings::looked_at(trees[found], nodes_only)
        &&& answers::<L, Matcher>(matcher, trees[found].kind(), true)
    }
    &&& forall|i: int|
        low <= i < high && cursor_siblings::looked_at(#[trigger] trees[i], nodes_only)
            ==> answers::<L, Matcher>(matcher, trees[i].kind(), false)
}

/// The places of the accepted kinds, in order; the matcher answered for every place.
pub open spec fn accepted<L: Language, Matcher: Fn(L::Kind) -> bool>(
    matcher: Matcher,
    places: Seq<Place>,
    kept: Seq<Place>,
) -> bool
    decreases places.len(),
{
    if places.len() == 0 {
        kept.len() == 0
    } else {
        let raw = places[0].tree().kind();
        ||| answers::<L, Matcher>(matcher, raw, true) && kept.len() > 0 && kept[0] == places[0]
            && accepted::<L, Matcher>(matcher, places.drop_first(), kept.drop_first())
        ||| answers::<L, Matcher>(matcher, raw, false) && accepted::<L, Matcher>(
            matcher,
            places.drop_first(),
            kept,
        )
    }
}

/// Typed immutable syntax-node cursor.
#[derive(Hash)]
pub struct SyntaxNode<L: Language> {
    /// Raw cursor carrying the storage and location identity.
    raw: cursor::SyntaxNode,
    /// Compile-time language marker.
    language: PhantomData<L>,
}

impl<L: Language> SyntaxNode<L> {
    /// The raw cursor.
    pub closed spec fn raw(self) -> cursor::SyntaxNode {
        self.raw
    }

    /// The cursor stands at an existing node.
    #[verifier::type_invariant]
    pub open spec fn valid(self) -> bool {
        self.place().valid() && self.place().tree() is Node
    }

    /// The place in the tree.
    pub open spec fn place(self) -> Place {
        self.raw().place()
    }

    /// Cursors with the same raw cursor are the same.
    pub proof fn lemma_raw(self, other: Self)
        requires
            self.raw() == other.raw(),
        ensures
            self == other,
    {
    }
}

impl<L: Language> Clone for SyntaxNode<L> {
    fn clone(&self) -> (cursor: Self)
        ensures
            cursor == *self,
    {
        typed_node(self.raw.clone())
    }
}

impl<L: Language> PartialEq for SyntaxNode<L> {
    fn eq(&self, other: &Self) -> (same: bool) {
        self.raw == other.raw
    }
}

impl<L: Language> vstd::std_specs::cmp::PartialEqSpecImpl for SyntaxNode<L> {
    open spec fn obeys_eq_spec() -> bool {
        true
    }

    open spec fn eq_spec(&self, other: &Self) -> bool {
        self.place().start() == other.place().start() && self.raw().handle()
            == other.raw().handle()
    }
}

impl<L: Language> Eq for SyntaxNode<L> {

}

impl<L: Language> From<cursor::SyntaxNode> for SyntaxNode<L> {
    fn from(raw: cursor::SyntaxNode) -> (typed: Self)
        ensures
            typed.raw() == raw,
    {
        typed_node(raw)
    }
}

impl<L: Language> vstd::std_specs::convert::FromSpecImpl<cursor::SyntaxNode> for SyntaxNode<L> {
    open spec fn obeys_from_spec() -> bool {
        false
    }

    open spec fn from_spec(raw: cursor::SyntaxNode) -> Self {
        arbitrary()
    }
}

impl<L: Language> From<SyntaxNode<L>> for cursor::SyntaxNode {
    fn from(typed: SyntaxNode<L>) -> (raw: Self) {
        typed.raw
    }
}

impl<L: Language> vstd::std_specs::convert::FromSpecImpl<SyntaxNode<L>> for cursor::SyntaxNode {
    open spec fn obeys_from_spec() -> bool {
        true
    }

    open spec fn from_spec(typed: SyntaxNode<L>) -> Self {
        typed.raw()
    }
}

/// Typed immutable syntax-token cursor.
#[derive(Hash)]
pub struct SyntaxToken<L: Language> {
    /// Raw cursor carrying the storage and location identity.
    raw: cursor::SyntaxToken,
    /// Compile-time language marker.
    language: PhantomData<L>,
}

impl<L: Language> SyntaxToken<L> {
    /// The raw cursor.
    pub closed spec fn raw(self) -> cursor::SyntaxToken {
        self.raw
    }

    /// The cursor stands at an existing token.
    #[verifier::type_invariant]
    pub open spec fn valid(self) -> bool {
        self.place().valid() && self.place().tree() is Token
    }

    /// The place in the tree.
    pub open spec fn place(self) -> Place {
        self.raw().place()
    }

    /// Cursors with the same raw cursor are the same.
    pub proof fn lemma_raw(self, other: Self)
        requires
            self.raw() == other.raw(),
        ensures
            self == other,
    {
    }
}

impl<L: Language> Clone for SyntaxToken<L> {
    fn clone(&self) -> (cursor: Self)
        ensures
            cursor == *self,
    {
        typed_token(self.raw.clone())
    }
}

impl<L: Language> PartialEq for SyntaxToken<L> {
    fn eq(&self, other: &Self) -> (same: bool) {
        self.raw == other.raw
    }
}

impl<L: Language> vstd::std_specs::cmp::PartialEqSpecImpl for SyntaxToken<L> {
    open spec fn obeys_eq_spec() -> bool {
        true
    }

    open spec fn eq_spec(&self, other: &Self) -> bool {
        self.place().start() == other.place().start() && self.raw().handle()
            == other.raw().handle()
    }
}

impl<L: Language> Eq for SyntaxToken<L> {

}

impl<L: Language> From<cursor::SyntaxToken> for SyntaxToken<L> {
    fn from(raw: cursor::SyntaxToken) -> (typed: Self)
        ensures
            typed.raw() == raw,
    {
        typed_token(raw)
    }
}

impl<L: Language> vstd::std_specs::convert::FromSpecImpl<cursor::SyntaxToken> for SyntaxToken<L> {
    open spec fn obeys_from_spec() -> bool {
        false
    }

    open spec fn from_spec(raw: cursor::SyntaxToken) -> Self {
        arbitrary()
    }
}

impl<L: Language> From<SyntaxToken<L>> for cursor::SyntaxToken {
    fn from(typed: SyntaxToken<L>) -> (raw: Self) {
        typed.raw
    }
}

impl<L: Language> vstd::std_specs::convert::FromSpecImpl<SyntaxToken<L>> for cursor::SyntaxToken {
    open spec fn obeys_from_spec() -> bool {
        true
    }

    open spec fn from_spec(typed: SyntaxToken<L>) -> Self {
        typed.raw()
    }
}

/// Typed syntax node or token.
pub type SyntaxElement<L> = NodeOrToken<SyntaxNode<L>, SyntaxToken<L>>;

/// The raw element behind a typed one.
pub open spec fn raw_element<L: Language>(element: SyntaxElement<L>) -> cursor::SyntaxElement {
    match element {
        NodeOrToken::Node(node) => NodeOrToken::Node(node.raw()),
        NodeOrToken::Token(token) => NodeOrToken::Token(token.raw()),
    }
}

/// The place of a typed element.
pub open spec fn element_place<L: Language>(element: SyntaxElement<L>) -> Place {
    cursor::element_place(raw_element(element))
}

/// The raw node behind a typed one, if any.
pub open spec fn some_raw_node<L: Language>(node: Option<SyntaxNode<L>>) -> Option<
    cursor::SyntaxNode,
> {
    match node {
        Some(node) => Some(node.raw()),
        None => None,
    }
}

/// The raw token behind a typed one, if any.
pub open spec fn some_raw_token<L: Language>(token: Option<SyntaxToken<L>>) -> Option<
    cursor::SyntaxToken,
> {
    match token {
        Some(token) => Some(token.raw()),
        None => None,
    }
}

/// The raw element behind a typed one, if any.
pub open spec fn some_raw_element<L: Language>(element: Option<SyntaxElement<L>>) -> Option<
    cursor::SyntaxElement,
> {
    match element {
        Some(element) => Some(raw_element(element)),
        None => None,
    }
}

/// The raw nodes behind typed ones.
pub open spec fn raw_nodes<L: Language>(nodes: Seq<SyntaxNode<L>>) -> Seq<cursor::SyntaxNode> {
    nodes.map_values(|node: SyntaxNode<L>| node.raw())
}

/// The raw elements behind typed ones.
pub open spec fn raw_elements<L: Language>(elements: Seq<SyntaxElement<L>>) -> Seq<
    cursor::SyntaxElement,
> {
    elements.map_values(|element: SyntaxElement<L>| raw_element(element))
}

/// The raw tokens behind typed ones.
pub open spec fn raw_tokens<L: Language>(tokens: Seq<SyntaxToken<L>>) -> Seq<cursor::SyntaxToken> {
    tokens.map_values(|token: SyntaxToken<L>| token.raw())
}

impl<L: Language> From<cursor::SyntaxElement> for SyntaxElement<L> {
    fn from(element: cursor::SyntaxElement) -> (typed: Self)
        ensures
            raw_element(typed) == element,
    {
        typed_element(element)
    }
}

impl<L: Language> vstd::std_specs::convert::FromSpecImpl<cursor::SyntaxElement> for SyntaxElement<L> {
    open spec fn obeys_from_spec() -> bool {
        false
    }

    open spec fn from_spec(element: cursor::SyntaxElement) -> Self {
        arbitrary()
    }
}

impl<L: Language> From<SyntaxElement<L>> for cursor::SyntaxElement {
    fn from(element: SyntaxElement<L>) -> (raw: Self) {
        match element {
            NodeOrToken::Node(node) => NodeOrToken::Node(node.raw),
            NodeOrToken::Token(token) => NodeOrToken::Token(token.raw),
        }
    }
}

impl<L: Language> vstd::std_specs::convert::FromSpecImpl<SyntaxElement<L>> for cursor::SyntaxElement {
    open spec fn obeys_from_spec() -> bool {
        true
    }

    open spec fn from_spec(element: SyntaxElement<L>) -> Self {
        raw_element(element)
    }
}

impl<L: Language> From<SyntaxNode<L>> for SyntaxElement<L> {
    fn from(node: SyntaxNode<L>) -> (element: Self) {
        NodeOrToken::Node(node)
    }
}

impl<L: Language> vstd::std_specs::convert::FromSpecImpl<SyntaxNode<L>> for SyntaxElement<L> {
    open spec fn obeys_from_spec() -> bool {
        true
    }

    open spec fn from_spec(node: SyntaxNode<L>) -> Self {
        NodeOrToken::Node(node)
    }
}

impl<L: Language> From<SyntaxToken<L>> for SyntaxElement<L> {
    fn from(token: SyntaxToken<L>) -> (element: Self) {
        NodeOrToken::Token(token)
    }
}

impl<L: Language> vstd::std_specs::convert::FromSpecImpl<SyntaxToken<L>> for SyntaxElement<L> {
    open spec fn obeys_from_spec() -> bool {
        true
    }

    open spec fn from_spec(token: SyntaxToken<L>) -> Self {
        NodeOrToken::Token(token)
    }
}

/// Give a raw node its language.
fn typed_node<L: Language>(raw: cursor::SyntaxNode) -> (typed: SyntaxNode<L>)
    ensures
        typed.raw() == raw,
{
    proof {
        use_type_invariant(&raw);
        raw.lemma_valid();
    }
    SyntaxNode { raw, language: PhantomData }
}

/// Give a raw token its language.
fn typed_token<L: Language>(raw: cursor::SyntaxToken) -> (typed: SyntaxToken<L>)
    ensures
        typed.raw() == raw,
{
    proof {
        use_type_invariant(&raw);
        raw.lemma_valid();
    }
    SyntaxToken { raw, language: PhantomData }
}

/// Give a raw element its language.
fn typed_element<L: Language>(element: cursor::SyntaxElement) -> (typed: SyntaxElement<L>)
    ensures
        raw_element(typed) == element,
{
    match element {
        NodeOrToken::Node(raw) => NodeOrToken::Node(typed_node(raw)),
        NodeOrToken::Token(raw) => NodeOrToken::Token(typed_token(raw)),
    }
}

/// Give a raw node, if any, its language.
fn some_node<L: Language>(node: Option<cursor::SyntaxNode>) -> (typed: Option<SyntaxNode<L>>)
    ensures
        some_raw_node(typed) == node,
{
    match node {
        Some(raw) => Some(typed_node(raw)),
        None => None,
    }
}

/// Give a raw token, if any, its language.
fn some_token<L: Language>(token: Option<cursor::SyntaxToken>) -> (typed: Option<SyntaxToken<L>>)
    ensures
        some_raw_token(typed) == token,
{
    match token {
        Some(raw) => Some(typed_token(raw)),
        None => None,
    }
}

/// Give a raw element, if any, its language.
fn some_element<L: Language>(element: Option<cursor::SyntaxElement>) -> (typed: Option<
    SyntaxElement<L>,
>)
    ensures
        some_raw_element(typed) == element,
{
    match element {
        Some(element) => Some(typed_element(element)),
        None => None,
    }
}

/// Give raw nodes their language.
fn typed_nodes<L: Language>(nodes: Vec<cursor::SyntaxNode>) -> (typed: Vec<SyntaxNode<L>>)
    ensures
        raw_nodes(typed@) == nodes@,
{
    let count: usize = nodes.len();
    let mut typed: Vec<SyntaxNode<L>> = Vec::with_capacity(count);
    let mut index: usize = 0;
    while index < count
        invariant
            index <= count,
            count == nodes@.len(),
            raw_nodes(typed@) == nodes@.take(index as int),
        decreases count - index,
    {
        let ghost before = typed@;
        typed.push(typed_node(nodes[index].clone()));
        assert(raw_nodes(typed@) =~= nodes@.take(index + 1)) by {
            assert(raw_nodes(typed@) =~= raw_nodes(before).push(nodes@[index as int]));
        }
        index += 1;
    }
    assert(nodes@.take(count as int) =~= nodes@);
    typed
}

/// Give raw elements their language.
fn typed_elements<L: Language>(elements: Vec<cursor::SyntaxElement>) -> (typed: Vec<
    SyntaxElement<L>,
>)
    ensures
        raw_elements(typed@) == elements@,
{
    let count: usize = elements.len();
    let mut typed: Vec<SyntaxElement<L>> = Vec::with_capacity(count);
    let mut index: usize = 0;
    while index < count
        invariant
            index <= count,
            count == elements@.len(),
            raw_elements(typed@) == elements@.take(index as int),
        decreases count - index,
    {
        let ghost before = typed@;
        typed.push(typed_element(elements[index].handle()));
        assert(raw_elements(typed@) =~= elements@.take(index + 1)) by {
            assert(raw_elements(typed@) =~= raw_elements(before).push(elements@[index as int]));
        }
        index += 1;
    }
    assert(elements@.take(count as int) =~= elements@);
    typed
}

impl<L: Language> SyntaxNode<L> {
    /// Create a typed root cursor at absolute offset zero.
    pub fn new_root(green: GreenNode) -> (node: Self)
        ensures
            node.place() == (Place { root: green, path: Seq::empty() }),
    {
        typed_node(cursor::SyntaxNode::new_root(green))
    }

    /// Functionally replace this node and rebuild its ancestor spine.
    pub fn replace_with(&self, replacement: GreenNode) -> (outcome: Result<GreenNode, GreenError>)
        ensures
            cursor_replace::replaced(self.place(), NodeOrToken::Node(replacement), outcome),
    {
        self.raw.replace_with(replacement)
    }

    /// Return this node's typed syntax kind.
    pub fn kind(&self) -> (kind: L::Kind)
        ensures
            typed_kind::<L>(self.place().tree().kind(), kind),
    {
        L::kind_from_raw(self.raw.kind())
    }

    /// Return this node's absolute source range.
    pub fn text_range(&self) -> (range: TextRange)
        ensures
            range.lo()@ == self.place().start(),
            range.hi()@ == self.place().end(),
    {
        self.raw.text_range()
    }

    /// Return this node's index in its parent, or zero for a root.
    pub fn index(&self) -> (index: usize)
        ensures
            index == if self.place().is_root() { 0 } else { self.place().index() },
    {
        self.raw.index()
    }

    /// Return a chunked text view over this subtree.
    pub fn text(&self) -> (view: SyntaxText)
        ensures
            view.place() == self.place(),
            view.low() == self.place().start(),
            view.high() == self.place().end(),
            view@ == self.place().tree().text(),
    {
        self.raw.text()
    }

    /// Write out the exact source text of this subtree.
    pub fn to_string(&self) -> (text: String)
        ensures
            text@ == self.place().tree().text(),
    {
        self.raw.to_string()
    }

    /// Borrow this cursor's immutable green node handle.
    pub fn green(&self) -> (green: &GreenNode)
        ensures
            *green == self.raw().handle(),
            self.place().handle() == NodeOrToken::<GreenNode, GreenToken>::Node(*green),
            green@ == self.place().tree(),
    {
        self.raw.green()
    }

    /// Return this node's parent.
    pub fn parent(&self) -> (parent: Option<Self>)
        ensures
            match parent {
                Some(parent) => !self.place().is_root() && parent.place() == self.place().parent(),
                None => self.place().is_root(),
            },
    {
        some_node(self.raw.parent())
    }

    /// Collect this node and all ancestors, from this node up.
    pub fn ancestors(&self) -> (nodes: Vec<Self>)
        ensures
            nodes@.len() == self.place().path.len() + 1,
            forall|i: int|
                0 <= i < nodes@.len() ==> (#[trigger] nodes@[i]).place() == cursor::ancestor(
                    self.place(),
                    i,
                ),
    {
        let raw = self.raw.ancestors();
        let ghost found = raw@;
        let nodes = typed_nodes(raw);
        proof {
            assert forall|i: int| 0 <= i < nodes@.len() implies (#[trigger] nodes@[i]).place()
                == cursor::ancestor(self.place(), i) by {
                assert(raw_nodes(nodes@)[i] == found[i]);
            }
            assert(raw_nodes(nodes@).len() == nodes@.len());
        }
        nodes
    }

    /// Iterate over direct child nodes.
    pub fn children(&self) -> (children: SyntaxNodeChildren<L>)
        ensures
            children.remaining() == cursor_traversal::child_places(
                self.place(),
                self.place().tree().children(),
                0,
                true,
            ),
    {
        SyntaxNodeChildren { raw: self.raw.children(), language: PhantomData }
    }

    /// Iterate over direct child nodes and tokens.
    pub fn children_with_tokens(&self) -> (children: SyntaxElementChildren<L>)
        ensures
            children.remaining() == cursor_traversal::child_places(
                self.place(),
                self.place().tree().children(),
                0,
                false,
            ),
    {
        SyntaxElementChildren { raw: self.raw.children_with_tokens(), language: PhantomData }
    }

    /// Return the first direct child node.
    pub fn first_child(&self) -> (child: Option<Self>)
        ensures
            cursor::is_child_node(self.place(), some_raw_node(child)),
            cursor::first_node(
                self.place().tree().children(),
                0,
                cursor::node_index(some_raw_node(child)),
            ),
    {
        some_node(self.raw.first_child())
    }

    /// Return the first direct child node whose kind satisfies `matcher`.
    pub fn first_child_by_kind<Matcher: Fn(L::Kind) -> bool>(
        &self, matcher: &Matcher) -> (found: Option<Self>)
        requires
            forall|kind: L::Kind| call_requires(*matcher, (kind,)),
        ensures
            cursor::is_child_node(self.place(), some_raw_node(found)),
            first_typed_match::<L, Matcher>(
                *matcher,
                self.place().tree().children(),
                0,
                true,
                cursor::node_index(some_raw_node(found)),
            ),
    {
        let by_raw_kind = |raw: SyntaxKind| -> (answer: bool)
            ensures
                answers::<L, Matcher>(*matcher, raw, answer),
        {
            let kind = L::kind_from_raw(raw);
            assert(typed_kind::<L>(raw, kind));
            matcher(kind)
        };
        some_node(self.raw.first_child_by_kind(&by_raw_kind))
    }

    /// Return the last direct child node.
    pub fn last_child(&self) -> (child: Option<Self>)
        ensures
            cursor::is_child_node(self.place(), some_raw_node(child)),
            cursor::last_node(
                self.place().tree().children(),
                self.place().tree().children().len() as int,
                cursor::node_index(some_raw_node(child)),
            ),
    {
        some_node(self.raw.last_child())
    }

    /// Return the first direct child element.
    pub fn first_child_or_token(&self) -> (child: Option<SyntaxElement<L>>)
        ensures
            match child {
                Some(child) => self.place().tree().children().len() > 0 && element_place(child)
                    == self.place().child(0),
                None => self.place().tree().children().len() == 0,
            },
    {
        some_element(self.raw.first_child_or_token())
    }

    /// Return the first direct child element whose kind satisfies `matcher`.
    pub fn first_child_or_token_by_kind<Matcher: Fn(L::Kind) -> bool>(
        &self, matcher: &Matcher) -> (found: Option<SyntaxElement<L>>)
        requires
            forall|kind: L::Kind| call_requires(*matcher, (kind,)),
        ensures
            cursor_siblings::is_child(self.place(), some_raw_element(found)),
            first_typed_match::<L, Matcher>(
                *matcher,
                self.place().tree().children(),
                0,
                false,
                cursor_siblings::element_index(some_raw_element(found)),
            ),
    {
        let by_raw_kind = |raw: SyntaxKind| -> (answer: bool)
            ensures
                answers::<L, Matcher>(*matcher, raw, answer),
        {
            let kind = L::kind_from_raw(raw);
            assert(typed_kind::<L>(raw, kind));
            matcher(kind)
        };
        some_element(self.raw.first_child_or_token_by_kind(&by_raw_kind))
    }

    /// Return the last direct child element.
    pub fn last_child_or_token(&self) -> (child: Option<SyntaxElement<L>>)
        ensures
            match child {
                Some(child) => self.place().tree().children().len() > 0 && element_place(child)
                    == self.place().child(self.place().tree().children().len() - 1),
                None => self.place().tree().children().len() == 0,
            },
    {
        some_element(self.raw.last_child_or_token())
    }

    /// Return the next sibling node, skipping tokens.
    pub fn next_sibling(&self) -> (sibling: Option<Self>)
        ensures
            cursor::is_sibling_node(self.place(), some_raw_node(sibling)),
            !self.place().is_root() ==> cursor::first_node(
                self.place().siblings(),
                self.place().index() + 1,
                cursor::node_index(some_raw_node(sibling)),
            ),
    {
        some_node(self.raw.next_sibling())
    }

    /// Return the next sibling node whose kind satisfies `matcher`.
    pub fn next_sibling_by_kind<Matcher: Fn(L::Kind) -> bool>(
        &self, matcher: &Matcher) -> (found: Option<Self>)
        requires
            forall|kind: L::Kind| call_requires(*matcher, (kind,)),
        ensures
            cursor::is_sibling_node(self.place(), some_raw_node(found)),
            !self.place().is_root() ==> first_typed_match::<L, Matcher>(
                *matcher,
                self.place().siblings(),
                self.place().index() + 1,
                true,
                cursor::node_index(some_raw_node(found)),
            ),
    {
        let by_raw_kind = |raw: SyntaxKind| -> (answer: bool)
            ensures
                answers::<L, Matcher>(*matcher, raw, answer),
        {
            let kind = L::kind_from_raw(raw);
            assert(typed_kind::<L>(raw, kind));
            matcher(kind)
        };
        some_node(self.raw.next_sibling_by_kind(&by_raw_kind))
    }

    /// Return the previous sibling node, skipping tokens.
    pub fn prev_sibling(&self) -> (sibling: Option<Self>)
        ensures
            cursor::is_sibling_node(self.place(), some_raw_node(sibling)),
            !self.place().is_root() ==> cursor::last_node(
                self.place().siblings(),
                self.place().index(),
                cursor::node_index(some_raw_node(sibling)),
            ),
    {
        some_node(self.raw.prev_sibling())
    }

    /// Return the next direct sibling element.
    pub fn next_sibling_or_token(&self) -> (sibling: Option<SyntaxElement<L>>)
        ensures
            cursor::is_adjacent(self.place(), Direction::Next, some_raw_element(sibling)),
    {
        some_element(self.raw.next_sibling_or_token())
    }

    /// Return the previous direct sibling element.
    pub fn prev_sibling_or_token(&self) -> (sibling: Option<SyntaxElement<L>>)
        ensures
            cursor::is_adjacent(self.place(), Direction::Prev, some_raw_element(sibling)),
    {
        some_element(self.raw.prev_sibling_or_token())
    }

    /// Return the next sibling element whose kind satisfies `matcher`.
    pub fn next_sibling_or_token_by_kind<Matcher: Fn(L::Kind) -> bool>(
        &self, matcher: &Matcher) -> (found: Option<SyntaxElement<L>>)
        requires
            forall|kind: L::Kind| call_requires(*matcher, (kind,)),
        ensures
            cursor_siblings::is_sibling(self.place(), some_raw_element(found)),
            !self.place().is_root() ==> first_typed_match::<L, Matcher>(
                *matcher,
                self.place().siblings(),
                self.place().index() + 1,
                false,
                cursor_siblings::element_index(some_raw_element(found)),
            ),
    {
        let by_raw_kind = |raw: SyntaxKind| -> (answer: bool)
            ensures
                answers::<L, Matcher>(*matcher, raw, answer),
        {
            let kind = L::kind_from_raw(raw);
            assert(typed_kind::<L>(raw, kind));
            matcher(kind)
        };
        some_element(self.raw.next_sibling_or_token_by_kind(&by_raw_kind))
    }

    /// Return the leftmost token in this subtree.
    pub fn first_token(&self) -> (token: Option<SyntaxToken<L>>)
        ensures
            cursor_query::is_edge_token(self.place(), Direction::Next, some_raw_token(token)),
    {
        some_token(self.raw.first_token())
    }

    /// Return the rightmost token in this subtree.
    pub fn last_token(&self) -> (token: Option<SyntaxToken<L>>)
        ensures
            cursor_query::is_edge_token(self.place(), Direction::Prev, some_raw_token(token)),
    {
        some_token(self.raw.last_token())
    }

    /// Collect this node and its sibling nodes in `direction`.
    pub fn siblings(&self, direction: Direction) -> (nodes: Vec<Self>)
        ensures
            cursor_siblings::are_sibling_nodes(self.place(), direction, raw_nodes(nodes@)),
    {
        typed_nodes(self.raw.siblings(direction))
    }

    /// Collect this element and its sibling elements in `direction`.
    pub fn siblings_with_tokens(&self, direction: Direction) -> (elements: Vec<SyntaxElement<L>>)
        ensures
            cursor_siblings::are_sibling_elements(self.place(), direction, raw_elements(elements@)),
    {
        typed_elements(self.raw.siblings_with_tokens(direction))
    }

    /// Collect this node and every descendant node in preorder.
    pub fn descendants(&self) -> (nodes: Vec<Self>)
        ensures
            nodes@.map_values(|node: SyntaxNode<L>| node.place())
                == cursor_traversal::subtree_places(self.place(), self.place().tree(), true),
    {
        let raw = self.raw.descendants();
        let ghost found = raw@;
        let nodes = typed_nodes(raw);
        proof {
            lemma_node_places(nodes@);
        }
        nodes
    }

    /// Collect this node and every descendant element in preorder.
    pub fn descendants_with_tokens(&self) -> (elements: Vec<SyntaxElement<L>>)
        ensures
            elements@.map_values(|element: SyntaxElement<L>| element_place(element))
                == cursor_traversal::subtree_places(self.place(), self.place().tree(), false),
    {
        let raw = self.raw.descendants_with_tokens();
        let elements = typed_elements(raw);
        proof {
            lemma_element_places(elements@);
        }
        elements
    }

    /// Traverse this subtree in node-only preorder.
    pub fn preorder(&self) -> (preorder: Preorder<L>)
        ensures
            preorder.remaining() == cursor_traversal::walk(self.place(), self.place().tree(), true),
            preorder.entered() is None,
            !preorder.skipping(),
    {
        Preorder { raw: self.raw.preorder(), language: PhantomData }
    }

    /// Traverse this subtree in preorder including tokens.
    pub fn preorder_with_tokens(&self) -> (preorder: PreorderWithTokens<L>)
        ensures
            preorder.remaining()
                == cursor_traversal::walk(self.place(), self.place().tree(), false),
            preorder.entered() is None,
            !preorder.skipping(),
    {
        PreorderWithTokens { raw: self.raw.preorder_with_tokens(), language: PhantomData }
    }

    /// Find the token or adjacent token pair touching an absolute offset.
    pub fn token_at_offset(&self, offset: TextSize) -> (found: Result<
        TokenAtOffset<SyntaxToken<L>>,
        RangeError,
    >)
        ensures
            match found {
                Ok(tokens) => {
                    &&& self.place().start() <= offset@ <= self.place().end()
                    &&& cursor_query::are_touching(
                        self.place(),
                        offset@,
                        raw_tokens(tokens.tokens()),
                    )
                },
                Err(error) => {
                    &&& !(self.place().start() <= offset@ <= self.place().end())
                    &&& error == (RangeError::OffsetOutOfBounds {
                        offset,
                        valid: cursor_query::range_at(self.place()),
                    })
                },
            },
            found matches Ok(tokens) ==> {
                &&& self.place().start() < self.place().end() ==> !(tokens is Empty)
                &&& forall|token: Place|
                    #![trigger token.valid()]
                    token.valid() && self.place().holds(token) && token.tree() is Token
                        && token.start() < token.end() ==> ((token.start() <= offset@
                        <= token.end()) <==> match tokens {
                        TokenAtOffset::Empty => false,
                        TokenAtOffset::Single(single) => single.place() == token,
                        TokenAtOffset::Between(left, right) => left.place() == token
                            || right.place() == token,
                    })
                &&& tokens matches TokenAtOffset::Between(left, right) ==> left.place().end()
                    == offset@ && right.place().start() == offset@
            },
    {
        match self.raw.token_at_offset(offset) {
            Ok(tokens) => {
                let typed = typed_tokens(tokens);
                proof {
                    let raws = raw_tokens::<L>(typed.tokens());
                    assert(raws == tokens.tokens());
                    assert(raws.len() == typed.tokens().len());
                    if typed.tokens().len() > 0 {
                        assert(raws[0] == typed.tokens()[0].raw());
                    }
                    if typed.tokens().len() > 1 {
                        assert(raws[1] == typed.tokens()[1].raw());
                    }
                }
                Ok(typed)
            },
            Err(error) => Err(error),
        }
    }

    /// Return the deepest descendant fully containing an absolute range.
    pub fn covering_element(&self, range: TextRange) -> (
        found: Result<SyntaxElement<L>, RangeError>)
        ensures
            match found {
                Ok(element) => {
                    &&& cursor_query::range_inside(self.place(), range)
                    &&& element_place(element) == self.place().below(
                        cursor_query::covering_path(
                            self.place().tree(),
                            self.place().start(),
                            range.lo()@,
                            range.hi()@,
                        ),
                    )
                },
                Err(error) => {
                    &&& !cursor_query::range_inside(self.place(), range)
                    &&& error == (RangeError::RangeOutOfBounds {
                        requested: range,
                        valid: cursor_query::range_at(self.place()),
                    })
                },
            },
            found matches Ok(element) ==> {
                let covering = element_place(element);
                &&& self.place().holds(covering)
                &&& covering.start() <= range.lo()@
                &&& range.hi()@ <= covering.end()
                &&& range.lo()@ < range.hi()@ ==> forall|other: Place|
                    #![trigger other.valid()]
                    other.valid() && self.place().holds(other) && other.start() <= range.lo()@
                        && range.hi()@ <= other.end() ==> other.holds(covering)
                &&& range.lo()@ == range.hi()@ ==> covering.tree().children().len() == 0
            },
    {
        match self.raw.covering_element(range) {
            Ok(element) => Ok(typed_element(element)),
            Err(error) => Err(error),
        }
    }

    /// Return the direct child fully containing an absolute range.
    pub fn child_or_token_at_range(&self, range: TextRange) -> (found: Result<
        Option<SyntaxElement<L>>,
        RangeError,
    >)
        ensures
            match found {
                Ok(child) => {
                    let index = cursor_query::picked_child(
                        self.place().tree(),
                        self.place().start(),
                        range.lo()@,
                        range.hi()@,
                    );
                    &&& cursor_query::range_inside(self.place(), range)
                    &&& child is Some <==> index is Some
                    &&& child matches Some(child) ==> {
                        &&& 0 <= index->0 < self.place().tree().children().len()
                        &&& element_place(child) == self.place().child(index->0)
                    }
                },
                Err(error) => {
                    &&& !cursor_query::range_inside(self.place(), range)
                    &&& error == (RangeError::RangeOutOfBounds {
                        requested: range,
                        valid: cursor_query::range_at(self.place()),
                    })
                },
            },
            found matches Ok(Some(child)) ==> {
                &&& element_place(child).parent() == self.place()
                &&& element_place(child).start() <= range.lo()@
                &&& range.hi()@ <= element_place(child).end()
            },
            range.lo()@ < range.hi()@ ==> forall|i: int|
                #![trigger self.place().child(i)]
                0 <= i < self.place().tree().children().len() && self.place().child(i).start()
                    <= range.lo()@ && range.hi()@ <= self.place().child(i).end() ==> (
                found matches Ok(Some(child)) && element_place(child) == self.place().child(i)),
            range.lo()@ == range.hi()@ && range.lo()@ == self.place().end()
                && self.place().tree().children().len() > 0 ==> (found matches Ok(Some(child))
                && element_place(child) == self.place().child(
                self.place().tree().children().len() - 1,
            )),
            range.lo()@ == range.hi()@ && self.place().start() <= range.lo()@
                < self.place().end() ==> (found matches Ok(Some(child)) && {
                let chosen = element_place(child);
                &&& chosen.start() == range.lo()@ || range.lo()@ < chosen.end()
                &&& forall|i: int|
                    #![trigger self.place().child(i)]
                    0 <= i < chosen.index() ==> self.place().child(i).start() < range.lo()@
                        && self.place().child(i).end() <= range.lo()@
            }),
    {
        match self.raw.child_or_token_at_range(range) {
            Ok(child) => Ok(some_element(child)),
            Err(error) => Err(error),
        }
    }

    /// Return an independent root cursor sharing this subtree's green allocation.
    pub fn clone_subtree(&self) -> (root: Self)
        ensures
            root.place() == (Place { root: self.raw().handle(), path: Seq::empty() }),
            root.place().tree() == self.place().tree(),
    {
        typed_node(self.raw.clone_subtree())
    }
}

impl<L: Language> SyntaxToken<L> {
    /// Functionally replace this token and rebuild its ancestor spine.
    pub fn replace_with(&self, replacement: GreenToken) -> (outcome: Result<GreenNode, GreenError>)
        ensures
            cursor_replace::replaced(self.place(), NodeOrToken::Token(replacement), outcome),
    {
        self.raw.replace_with(replacement)
    }

    /// Return this token's typed syntax kind.
    pub fn kind(&self) -> (kind: L::Kind)
        ensures
            typed_kind::<L>(self.place().tree().kind(), kind),
    {
        L::kind_from_raw(self.raw.kind())
    }

    /// Return this token's absolute source range.
    pub fn text_range(&self) -> (range: TextRange)
        ensures
            range.lo()@ == self.place().start(),
            range.hi()@ == self.place().end(),
    {
        self.raw.text_range()
    }

    /// Return this token's index in its parent.
    pub fn index(&self) -> (index: usize)
        ensures
            index == self.place().index(),
    {
        self.raw.index()
    }

    /// Borrow this token's exact UTF-8 text.
    pub fn text(&self) -> (text: &str)
        ensures
            text@ == self.place().tree().text(),
    {
        self.raw.text()
    }

    /// Write out the exact source text of this token.
    pub fn to_string(&self) -> (text: String)
        ensures
            text@ == self.place().tree().text(),
    {
        self.raw.to_string()
    }

    /// Borrow this cursor's immutable green token handle.
    pub fn green(&self) -> (green: &GreenToken)
        ensures
            *green == self.raw().handle(),
            self.place().handle() == NodeOrToken::<GreenNode, GreenToken>::Token(*green),
            green@ == self.place().tree(),
    {
        self.raw.green()
    }

    /// Return this token's parent node.
    pub fn parent(&self) -> (parent: Option<SyntaxNode<L>>)
        ensures
            parent matches Some(parent) && !self.place().is_root() && parent.place()
                == self.place().parent(),
    {
        some_node(self.raw.parent())
    }

    /// Collect this token's parent and all higher ancestors, from the parent up.
    pub fn parent_ancestors(&self) -> (nodes: Vec<SyntaxNode<L>>)
        ensures
            nodes@.len() == self.place().path.len(),
            forall|i: int|
                0 <= i < nodes@.len() ==> (#[trigger] nodes@[i]).place() == cursor::ancestor(
                    self.place(),
                    i + 1,
                ),
    {
        let raw = self.raw.ancestors();
        let ghost found = raw@;
        let nodes = typed_nodes(raw);
        proof {
            assert forall|i: int| 0 <= i < nodes@.len() implies (#[trigger] nodes@[i]).place()
                == cursor::ancestor(self.place(), i + 1) by {
                assert(raw_nodes(nodes@)[i] == found[i]);
            }
            assert(raw_nodes(nodes@).len() == nodes@.len());
        }
        nodes
    }

    /// Return the next direct sibling element.
    pub fn next_sibling_or_token(&self) -> (sibling: Option<SyntaxElement<L>>)
        ensures
            cursor::is_adjacent(self.place(), Direction::Next, some_raw_element(sibling)),
    {
        some_element(self.raw.next_sibling_or_token())
    }

    /// Return the previous direct sibling element.
    pub fn prev_sibling_or_token(&self) -> (sibling: Option<SyntaxElement<L>>)
        ensures
            cursor::is_adjacent(self.place(), Direction::Prev, some_raw_element(sibling)),
    {
        some_element(self.raw.prev_sibling_or_token())
    }

    /// Collect this token and its sibling elements in `direction`.
    pub fn siblings_with_tokens(&self, direction: Direction) -> (elements: Vec<SyntaxElement<L>>)
        ensures
            cursor_siblings::are_sibling_elements(self.place(), direction, raw_elements(elements@)),
    {
        typed_elements(self.raw.siblings_with_tokens(direction))
    }

    /// Return the next token in source order.
    pub fn next_token(&self) -> (token: Option<Self>)
        ensures
            cursor_query::is_next_token(self.place(), Direction::Next, some_raw_token(token)),
    {
        some_token(self.raw.next_token())
    }

    /// Return the previous token in source order.
    pub fn prev_token(&self) -> (token: Option<Self>)
        ensures
            cursor_query::is_next_token(self.place(), Direction::Prev, some_raw_token(token)),
    {
        some_token(self.raw.prev_token())
    }
}

impl<L: Language> SyntaxElement<L> {
    /// Clone the raw handle behind either typed element variant.
    fn raw_clone(&self) -> (raw: cursor::SyntaxElement)
        ensures
            raw == raw_element(*self),
    {
        match self {
            NodeOrToken::Node(node) => NodeOrToken::Node(node.raw.clone()),
            NodeOrToken::Token(token) => NodeOrToken::Token(token.raw.clone()),
        }
    }

    /// Return this element's absolute source range.
    pub fn text_range(&self) -> (range: TextRange)
        ensures
            range.lo()@ == element_place(*self).start(),
            range.hi()@ == element_place(*self).end(),
    {
        self.raw_clone().text_range()
    }

    /// Return this element's index in its parent, or zero for a root node.
    pub fn index(&self) -> (index: usize)
        ensures
            index == if element_place(*self).is_root() { 0 } else { element_place(*self).index() },
    {
        self.raw_clone().index()
    }

    /// Return this element's typed syntax kind.
    pub fn kind(&self) -> (kind: L::Kind)
        ensures
            typed_kind::<L>(element_place(*self).tree().kind(), kind),
    {
        L::kind_from_raw(self.raw_clone().kind())
    }

    /// Return this element's parent node.
    pub fn parent(&self) -> (parent: Option<SyntaxNode<L>>)
        ensures
            match parent {
                Some(parent) => !element_place(*self).is_root() && parent.place()
                    == element_place(*self).parent(),
                None => element_place(*self).is_root(),
            },
    {
        some_node(self.raw_clone().parent())
    }

    /// Collect this node and its ancestors, or a token's ancestors, from the lowest up.
    pub fn ancestors(&self) -> (nodes: Vec<SyntaxNode<L>>)
        ensures
            match *self {
                NodeOrToken::Node(node) => {
                    &&& nodes@.len() == node.place().path.len() + 1
                    &&& forall|i: int|
                        0 <= i < nodes@.len() ==> (#[trigger] nodes@[i]).place()
                            == cursor::ancestor(node.place(), i)
                },
                NodeOrToken::Token(token) => {
                    &&& nodes@.len() == token.place().path.len()
                    &&& forall|i: int|
                        0 <= i < nodes@.len() ==> (#[trigger] nodes@[i]).place()
                            == cursor::ancestor(token.place(), i + 1)
                },
            },
    {
        match self {
            NodeOrToken::Node(node) => node.ancestors(),
            NodeOrToken::Token(token) => token.parent_ancestors(),
        }
    }

    /// Return this element's leftmost token.
    pub fn first_token(&self) -> (token: Option<SyntaxToken<L>>)
        ensures
            cursor_query::is_edge_token(
                element_place(*self), Direction::Next, some_raw_token(token)),
    {
        some_token(self.raw_clone().first_token())
    }

    /// Return this element's rightmost token.
    pub fn last_token(&self) -> (token: Option<SyntaxToken<L>>)
        ensures
            cursor_query::is_edge_token(
                element_place(*self), Direction::Prev, some_raw_token(token)),
    {
        some_token(self.raw_clone().last_token())
    }

    /// Return the next direct sibling element.
    pub fn next_sibling_or_token(&self) -> (sibling: Option<Self>)
        ensures
            cursor::is_adjacent(element_place(*self), Direction::Next, some_raw_element(sibling)),
    {
        some_element(self.raw_clone().next_sibling_or_token())
    }

    /// Return the previous direct sibling element.
    pub fn prev_sibling_or_token(&self) -> (sibling: Option<Self>)
        ensures
            cursor::is_adjacent(element_place(*self), Direction::Prev, some_raw_element(sibling)),
    {
        some_element(self.raw_clone().prev_sibling_or_token())
    }

    /// Give another handle on the same element.
    pub fn handle(&self) -> (element: Self)
        ensures
            element == *self,
    {
        match self {
            NodeOrToken::Node(node) => NodeOrToken::Node(node.clone()),
            NodeOrToken::Token(token) => NodeOrToken::Token(token.clone()),
        }
    }
}

/// Give touching tokens their language.
fn typed_tokens<L: Language>(tokens: TokenAtOffset<cursor::SyntaxToken>) -> (typed: TokenAtOffset<
    SyntaxToken<L>,
>)
    ensures
        raw_tokens(typed.tokens()) == tokens.tokens(),
{
    match tokens {
        TokenAtOffset::Empty => {
            let typed = TokenAtOffset::Empty;
            assert(raw_tokens::<L>(typed.tokens()) =~= tokens.tokens());
            typed
        },
        TokenAtOffset::Single(raw) => {
            let typed = TokenAtOffset::Single(typed_token(raw));
            assert(raw_tokens::<L>(typed.tokens()) =~= tokens.tokens());
            typed
        },
        TokenAtOffset::Between(left, right) => {
            let typed = TokenAtOffset::Between(
                typed_token(left),
                typed_token(right),
            );
            assert(raw_tokens::<L>(typed.tokens()) =~= tokens.tokens());
            typed
        },
    }
}

/// Typed nodes stand where their raw nodes stand.
proof fn lemma_node_places<L: Language>(nodes: Seq<SyntaxNode<L>>)
    ensures
        nodes.map_values(|node: SyntaxNode<L>| node.place()) == raw_nodes(nodes).map_values(
            |node: cursor::SyntaxNode| node.place(),
        ),
{
    assert(nodes.map_values(|node: SyntaxNode<L>| node.place()) =~= raw_nodes(nodes).map_values(
        |node: cursor::SyntaxNode| node.place(),
    ));
}

/// Typed elements stand where their raw elements stand.
proof fn lemma_element_places<L: Language>(elements: Seq<SyntaxElement<L>>)
    ensures
        elements.map_values(|element: SyntaxElement<L>| element_place(element)) == raw_elements(
            elements,
        ).map_values(|element: cursor::SyntaxElement| cursor::element_place(element)),
{
    assert(elements.map_values(|element: SyntaxElement<L>| element_place(element))
        =~= raw_elements(elements).map_values(
        |element: cursor::SyntaxElement| cursor::element_place(element),
    ));
}

/// Typed direct child-node iterator.
pub struct SyntaxNodeChildren<L: Language> {
    /// Raw child iterator.
    raw: cursor_traversal::SyntaxNodeChildren,
    /// Compile-time language marker.
    language: PhantomData<L>,
}

impl<L: Language> SyntaxNodeChildren<L> {
    /// The places that are still to come.
    pub closed spec fn remaining(self) -> Seq<Place> {
        self.raw.remaining()
    }

    /// Yield the next child.
    pub fn next(&mut self) -> (child: Option<SyntaxNode<L>>)
        ensures
            match child {
                Some(node) => old(self).remaining() == seq![node.place()] + final(self).remaining(),
                None => old(self).remaining().len() == 0 && final(self).remaining().len() == 0,
            },
    {
        some_node(self.raw.next())
    }

    /// Collect the children that are still to come.
    pub fn into_vec(self) -> (children: Vec<SyntaxNode<L>>)
        ensures
            children@.map_values(|node: SyntaxNode<L>| node.place()) == self.remaining(),
    {
        let children = typed_nodes(self.raw.into_vec());
        proof {
            lemma_node_places(children@);
        }
        children
    }

    /// Collect the children whose typed kind satisfies `matcher`.
    pub fn by_kind<Matcher: Fn(L::Kind) -> bool>(self, matcher: Matcher) -> (
        kept: Vec<SyntaxNode<L>>)
        requires
            forall|kind: L::Kind| call_requires(matcher, (kind,)),
        ensures
            accepted::<L, Matcher>(
                matcher,
                self.remaining(),
                kept@.map_values(|node: SyntaxNode<L>| node.place()),
            ),
    {
        let mut children = self;
        let mut kept: Vec<SyntaxNode<L>> = Vec::new();
        let ghost all = self.remaining();
        assert(kept@.map_values(|node: SyntaxNode<L>| node.place()) =~= Seq::empty());
        assert forall|rest: Seq<Place>| #[trigger] accepted::<L, Matcher>(
            matcher,
            children.remaining(),
            rest,
        ) implies accepted::<L, Matcher>(
            matcher,
            all,
            kept@.map_values(|node: SyntaxNode<L>| node.place()) + rest,
        ) by {
            assert(kept@.map_values(|node: SyntaxNode<L>| node.place()) + rest =~= rest);
        }
        loop
            invariant
                all == self.remaining(),
                forall|kind: L::Kind| call_requires(matcher, (kind,)),
                forall|rest: Seq<Place>| #[trigger]
                    accepted::<L, Matcher>(matcher, children.remaining(), rest)
                        ==> accepted::<L, Matcher>(
                        matcher,
                        all,
                        kept@.map_values(|node: SyntaxNode<L>| node.place()) + rest,
                    ),
            decreases children.remaining().len(),
        {
            let ghost before = kept@.map_values(|node: SyntaxNode<L>| node.place());
            let ghost open = children.remaining();
            match children.next() {
                Some(node) => {
                    let ghost place = node.place();
                    let ghost later = children.remaining();
                    let kind = node.kind();
                    let answer = matcher(kind);
                    proof {
                        assert(open.drop_first() =~= later);
                        assert(answers::<L, Matcher>(matcher, place.tree().kind(), answer));
                    }
                    if answer {
                        kept.push(node);
                        proof {
                            let longer = kept@.map_values(|node: SyntaxNode<L>| node.place());
                            assert(longer =~= before.push(place));
                            assert forall|rest: Seq<Place>| #[trigger] accepted::<L, Matcher>(
                                matcher,
                                later,
                                rest,
                            ) implies accepted::<L, Matcher>(matcher, all, longer + rest) by {
                                let with = seq![place] + rest;
                                assert(with.drop_first() =~= rest);
                                assert(accepted::<L, Matcher>(matcher, open, with));
                                assert(before + with =~= longer + rest);
                            }
                        }
                    } else {
                        proof {
                            assert forall|rest: Seq<Place>| #[trigger] accepted::<L, Matcher>(
                                matcher,
                                later,
                                rest,
                            ) implies accepted::<L, Matcher>(matcher, all, before + rest) by {
                                assert(accepted::<L, Matcher>(matcher, open, rest));
                            }
                        }
                    }
                },
                None => {
                    proof {
                        assert(accepted::<L, Matcher>(matcher, open, Seq::<Place>::empty()));
                        assert(before + Seq::<Place>::empty() =~= before);
                    }
                    return kept;
                },
            }
        }
    }
}

/// Typed direct child-element iterator.
pub struct SyntaxElementChildren<L: Language> {
    /// Raw child iterator.
    raw: cursor_traversal::SyntaxElementChildren,
    /// Compile-time language marker.
    language: PhantomData<L>,
}

impl<L: Language> SyntaxElementChildren<L> {
    /// The places that are still to come.
    pub closed spec fn remaining(self) -> Seq<Place> {
        self.raw.remaining()
    }

    /// Yield the next child.
    pub fn next(&mut self) -> (child: Option<SyntaxElement<L>>)
        ensures
            match child {
                Some(element) => old(self).remaining() == seq![element_place(element)]
                    + final(self).remaining(),
                None => old(self).remaining().len() == 0 && final(self).remaining().len() == 0,
            },
    {
        some_element(self.raw.next())
    }

    /// Collect the children that are still to come.
    pub fn into_vec(self) -> (children: Vec<SyntaxElement<L>>)
        ensures
            children@.map_values(|element: SyntaxElement<L>| element_place(element))
                == self.remaining(),
    {
        let children = typed_elements(self.raw.into_vec());
        proof {
            lemma_element_places(children@);
        }
        children
    }

    /// Collect the children whose typed kind satisfies `matcher`.
    pub fn by_kind<Matcher: Fn(L::Kind) -> bool>(self, matcher: Matcher) -> (
        kept: Vec<SyntaxElement<L>>)
        requires
            forall|kind: L::Kind| call_requires(matcher, (kind,)),
        ensures
            accepted::<L, Matcher>(
                matcher,
                self.remaining(),
                kept@.map_values(|element: SyntaxElement<L>| element_place(element)),
            ),
    {
        let mut children = self;
        let mut kept: Vec<SyntaxElement<L>> = Vec::new();
        let ghost all = self.remaining();
        assert(kept@.map_values(|element: SyntaxElement<L>| element_place(element))
            =~= Seq::empty());
        assert forall|rest: Seq<Place>| #[trigger] accepted::<L, Matcher>(
            matcher,
            children.remaining(),
            rest,
        ) implies accepted::<L, Matcher>(
            matcher,
            all,
            kept@.map_values(|element: SyntaxElement<L>| element_place(element)) + rest,
        ) by {
            assert(kept@.map_values(|element: SyntaxElement<L>| element_place(element)) + rest
                =~= rest);
        }
        loop
            invariant
                all == self.remaining(),
                forall|kind: L::Kind| call_requires(matcher, (kind,)),
                forall|rest: Seq<Place>| #[trigger]
                    accepted::<L, Matcher>(matcher, children.remaining(), rest)
                        ==> accepted::<L, Matcher>(
                        matcher,
                        all,
                        kept@.map_values(|element: SyntaxElement<L>| element_place(element)) + rest,
                    ),
            decreases children.remaining().len(),
        {
            let ghost before = kept@.map_values(|element: SyntaxElement<L>| element_place(element));
            let ghost open = children.remaining();
            match children.next() {
                Some(element) => {
                    let ghost place = element_place(element);
                    let ghost later = children.remaining();
                    let kind = element.kind();
                    let answer = matcher(kind);
                    proof {
                        assert(open.drop_first() =~= later);
                        assert(answers::<L, Matcher>(matcher, place.tree().kind(), answer));
                    }
                    if answer {
                        kept.push(element);
                        proof {
                            let longer = kept@.map_values(
                                |element: SyntaxElement<L>| element_place(element));
                            assert(longer =~= before.push(place));
                            assert forall|rest: Seq<Place>| #[trigger] accepted::<L, Matcher>(
                                matcher,
                                later,
                                rest,
                            ) implies accepted::<L, Matcher>(matcher, all, longer + rest) by {
                                let with = seq![place] + rest;
                                assert(with.drop_first() =~= rest);
                                assert(accepted::<L, Matcher>(matcher, open, with));
                                assert(before + with =~= longer + rest);
                            }
                        }
                    } else {
                        proof {
                            assert forall|rest: Seq<Place>| #[trigger] accepted::<L, Matcher>(
                                matcher,
                                later,
                                rest,
                            ) implies accepted::<L, Matcher>(matcher, all, before + rest) by {
                                assert(accepted::<L, Matcher>(matcher, open, rest));
                            }
                        }
                    }
                },
                None => {
                    proof {
                        assert(accepted::<L, Matcher>(matcher, open, Seq::<Place>::empty()));
                        assert(before + Seq::<Place>::empty() =~= before);
                    }
                    return kept;
                },
            }
        }
    }
}

/// The place that an event is about.
pub open spec fn node_event<L: Language>(event: WalkEvent<SyntaxNode<L>>) -> WalkEvent<Place> {
    match event {
        WalkEvent::Enter(item) => WalkEvent::Enter(item.place()),
        WalkEvent::Leave(item) => WalkEvent::Leave(item.place()),
    }
}

/// Typed node-only preorder traversal.
pub struct Preorder<L: Language> {
    /// Raw preorder iterator.
    raw: cursor_traversal::Preorder,
    /// Compile-time language marker.
    language: PhantomData<L>,
}

impl<L: Language> Preorder<L> {
    /// The events that are still to come.
    pub closed spec fn remaining(self) -> Seq<WalkEvent<Place>> {
        self.raw.remaining()
    }

    /// The place of the node that the last event entered.
    pub closed spec fn entered(self) -> Option<Place> {
        self.raw.entered()
    }

    /// Whether the descendants of the entered node are to be skipped.
    pub closed spec fn skipping(self) -> bool {
        self.raw.skipping()
    }

    /// Where the walk stands.
    pub open spec fn status(self) -> cursor_traversal::WalkStatus {
        cursor_traversal::WalkStatus {
            remaining: self.remaining(),
            entered: self.entered(),
            skipping: self.skipping(),
        }
    }

    /// Yield the next event.
    pub fn next(&mut self) -> (event: Option<WalkEvent<SyntaxNode<L>>>)
        ensures
            cursor_traversal::yields(old(self).status(), final(self).status(), some_node_event(event)),
            event is None ==> *final(self) == *old(self),
    {
        match self.raw.next() {
            Some(WalkEvent::Enter(raw)) => Some(WalkEvent::Enter(typed_node(raw))),
            Some(WalkEvent::Leave(raw)) => Some(WalkEvent::Leave(typed_node(raw))),
            None => None,
        }
    }

    /// Skip descendants of the node most recently entered.
    pub fn skip_subtree(&mut self) -> (checked: Result<(), TraversalError>)
        ensures
            cursor_traversal::skips(old(self).status(), final(self).status(), true, checked),
            checked is Err ==> *final(self) == *old(self),
    {
        self.raw.skip_subtree()
    }
}

/// The place that an event is about, if there is one.
pub open spec fn some_node_event<L: Language>(event: Option<WalkEvent<SyntaxNode<L>>>) -> Option<
    WalkEvent<Place>,
> {
    match event {
        Some(event) => Some(node_event(event)),
        None => None,
    }
}

/// The place that an event is about, if there is one.
pub open spec fn some_element_event<L: Language>(
    event: Option<WalkEvent<SyntaxElement<L>>>) -> Option<WalkEvent<Place>> {
    match event {
        Some(event) => Some(element_event(event)),
        None => None,
    }
}

/// The place that an event is about.
pub open spec fn element_event<L: Language>(
    event: WalkEvent<SyntaxElement<L>>) -> WalkEvent<Place> {
    match event {
        WalkEvent::Enter(item) => WalkEvent::Enter(element_place(item)),
        WalkEvent::Leave(item) => WalkEvent::Leave(element_place(item)),
    }
}

/// Typed preorder traversal including tokens.
pub struct PreorderWithTokens<L: Language> {
    /// Raw preorder iterator.
    raw: cursor_traversal::PreorderWithTokens,
    /// Compile-time language marker.
    language: PhantomData<L>,
}

impl<L: Language> PreorderWithTokens<L> {
    /// The events that are still to come.
    pub closed spec fn remaining(self) -> Seq<WalkEvent<Place>> {
        self.raw.remaining()
    }

    /// The place of the node that the last event entered.
    pub closed spec fn entered(self) -> Option<Place> {
        self.raw.entered()
    }

    /// Whether the descendants of the entered node are to be skipped.
    pub closed spec fn skipping(self) -> bool {
        self.raw.skipping()
    }

    /// Where the walk stands.
    pub open spec fn status(self) -> cursor_traversal::WalkStatus {
        cursor_traversal::WalkStatus {
            remaining: self.remaining(),
            entered: self.entered(),
            skipping: self.skipping(),
        }
    }

    /// Yield the next event.
    pub fn next(&mut self) -> (event: Option<WalkEvent<SyntaxElement<L>>>)
        ensures
            cursor_traversal::yields(old(self).status(), final(self).status(), some_element_event(event)),
            event is None ==> *final(self) == *old(self),
    {
        match self.raw.next() {
            Some(WalkEvent::Enter(raw)) => Some(WalkEvent::Enter(typed_element(raw))),
            Some(WalkEvent::Leave(raw)) => Some(WalkEvent::Leave(typed_element(raw))),
            None => None,
        }
    }

    /// Skip descendants of the node most recently entered.
    pub fn skip_subtree(&mut self) -> (checked: Result<(), TraversalError>)
        ensures
            cursor_traversal::skips(old(self).status(), final(self).status(), false, checked),
            checked is Err ==> *final(self) == *old(self),
    {
        self.raw.skip_subtree()
    }
}

/// Typed transactional syntax editor.
pub struct SyntaxEditor<L: Language> {
    /// Raw editor containing all transactional state.
    raw: cursor_editor::SyntaxEditor,
    /// Compile-time language marker.
    language: PhantomData<L>,
}

impl<L: Language> SyntaxEditor<L> {
    /// The raw editor.
    pub closed spec fn raw(self) -> cursor_editor::SyntaxEditor {
        self.raw
    }

    /// The arena is well-formed.
    pub open spec fn valid(self) -> bool {
        self.raw().valid()
    }

    /// Write out the raw editor.
    pub(crate) fn raw_debug(&self) -> (text: String)
        ensures
            text@ == crate::debug::editor_shown(self.raw()),
    {
        self.raw.debug_string()
    }

    /// Materialize an immutable source subtree into a new editor.
    pub fn new(root: &SyntaxNode<L>) -> (editor: Self)
        ensures
            editor.valid(),
            editor.raw().source() == root.place(),
            editor.raw().root().slot() == editor.raw().source_slot(Seq::empty()),
            editor.raw().parent_at(editor.raw().root().slot()) is None,
            forall|s: int| 0 <= s < editor.raw().slots() ==> !(#[trigger] editor.raw().dirty_at(s)),
            forall|path: Seq<int>|
                #[trigger] crate::model::path_exists(root.place().tree(), path)
                    ==> cursor_editor::materialization::mirrors_source(editor.raw(), path),
    {
        SyntaxEditor { raw: cursor_editor::SyntaxEditor::new(&root.raw), language: PhantomData }
    }

    /// Return the original source subtree root ID.
    pub fn root_id(&self) -> (id: EditorNodeId)
        ensures
            id == self.raw().root(),
            self.valid() ==> self.raw().owns(NodeOrToken::Node(id)),
    {
        self.raw.root_id()
    }

    /// Resolve an original source node to its stable editor ID.
    pub fn node_id(&self, source: &SyntaxNode<L>) -> (id: Result<EditorNodeId, EditError>)
        requires
            self.valid(),
        ensures
            match id {
                Ok(id) => {
                    &&& self.raw().source().holds(source.place())
                    &&& id.owner() == self.raw().owner()
                    &&& id.slot()
                        == self.raw().source_slot(self.raw().source().way_to(source.place()))
                    &&& self.raw().owns(NodeOrToken::Node(id))
                },
                Err(error) => !self.raw().source().holds(source.place()) && error
                    == EditError::UnknownSourceElement,
            },
    {
        self.raw.node_id(&source.raw)
    }

    /// Resolve an original source token to its stable editor ID.
    pub fn token_id(&self, source: &SyntaxToken<L>) -> (id: Result<EditorTokenId, EditError>)
        requires
            self.valid(),
        ensures
            match id {
                Ok(id) => {
                    &&& self.raw().source().holds(source.place())
                    &&& id.owner() == self.raw().owner()
                    &&& id.slot()
                        == self.raw().source_slot(self.raw().source().way_to(source.place()))
                    &&& self.raw().owns(NodeOrToken::Token(id))
                },
                Err(error) => !self.raw().source().holds(source.place()) && error
                    == EditError::UnknownSourceElement,
            },
    {
        self.raw.token_id(&source.raw)
    }

    /// Import an immutable cursor subtree as a detached editor component.
    pub fn import(&mut self, element: SyntaxElement<L>) -> (id: Result<EditorElementId, EditError>)
        requires
            old(self).valid(),
        ensures
            final(self).valid(),
            id matches Ok(id) && cursor_editor::materialization::component_added(
                old(self).raw(),
                final(self).raw(),
                id,
                element_place(element).handle(),
                element_place(element).tree(),
            ),
    {
        self.raw.import(cursor::SyntaxElement::from(element))
    }

    /// Import an immutable green subtree as a detached editor component.
    pub fn import_green(&mut self, element: GreenElement) -> (
        id: Result<EditorElementId, EditError>)
        requires
            old(self).valid(),
        ensures
            final(self).valid(),
            id matches Ok(id) && cursor_editor::materialization::component_added(
                old(self).raw(),
                final(self).raw(),
                id,
                element,
                crate::green::element::element_tree(element),
            ),
    {
        self.raw.import_green(element)
    }

    /// Return an editor element's typed syntax kind.
    pub fn kind(&self, element: &EditorElementId) -> (kind: Result<L::Kind, EditError>)
        requires
            self.valid(),
        ensures
            match kind {
                Ok(kind) => self.raw().owns(*element) && typed_kind::<L>(
                    self.raw().tree(cursor_editor::slot_of(*element)).kind(),
                    kind,
                ),
                Err(error) => !self.raw().owns(*element) && error == EditError::ForeignId,
            },
    {
        match self.raw.kind(element) {
            Ok(raw) => Ok(L::kind_from_raw(raw)),
            Err(error) => Err(error),
        }
    }

    /// Return an editor element's current parent.
    pub fn parent(&self, element: &EditorElementId) -> (parent: Result<
        Option<EditorNodeId>,
        EditError,
    >)
        ensures
            match parent {
                Ok(parent) => self.raw().owns(*element) && parent
                    == self.raw().parent_at(cursor_editor::slot_of(*element)),
                Err(error) => !self.raw().owns(*element) && error == EditError::ForeignId,
            },
    {
        self.raw.parent(element)
    }

    /// Return an editor element's current index, or `None` for a component root.
    pub fn index(&self, element: &EditorElementId) -> (index: Result<Option<usize>, EditError>)
        ensures
            match index {
                Ok(index) => self.raw().owns(*element) && index
                    == self.raw().index_at(cursor_editor::slot_of(*element)),
                Err(error) => !self.raw().owns(*element) && error == EditError::ForeignId,
            },
    {
        self.raw.index(element)
    }

    /// Clone a node's current child IDs in source order.
    pub fn children(&self, node: &EditorNodeId) -> (children: Result<
        Vec<EditorElementId>,
        EditError,
    >)
        ensures
            match children {
                Ok(children) => self.raw().owns(NodeOrToken::Node(*node)) && children@
                    == self.raw().children_at(node.slot()),
                Err(error) => !self.raw().owns(NodeOrToken::Node(*node)) && error
                    == EditError::ForeignId,
            },
    {
        self.raw.children(node)
    }

    /// Return an editor element's current UTF-8 byte length.
    pub fn text_len(&self, element: &EditorElementId) -> (len: Result<TextSize, EditError>)
        requires
            self.valid(),
        ensures
            match len {
                Ok(len) => self.raw().owns(*element) && len@
                    == self.raw().tree(cursor_editor::slot_of(*element)).len(),
                Err(error) => !self.raw().owns(*element) && error == EditError::ForeignId,
            },
    {
        self.raw.text_len(element)
    }

    /// Return an editor element's component-relative text range.
    pub fn text_range(&self, element: &EditorElementId) -> (range: Result<TextRange, EditError>)
        requires
            self.valid(),
        ensures
            match range {
                Ok(range) => {
                    &&& self.raw().owns(*element)
                    &&& range.lo()@ == self.raw().offset_at(cursor_editor::slot_of(*element))
                    &&& range.hi()@ == self.raw().offset_at(cursor_editor::slot_of(*element))
                        + self.raw().tree(
                        cursor_editor::slot_of(*element),
                    ).len()
                },
                Err(error) => !self.raw().owns(*element) && error == EditError::ForeignId,
            },
    {
        self.raw.text_range(element)
    }

    /// Borrow an editor token's exact text.
    pub fn token_text(&self, token: &EditorTokenId) -> (text: Result<&str, EditError>)
        requires
            self.valid(),
        ensures
            match text {
                Ok(text) => self.raw().owns(NodeOrToken::Token(*token)) && text@ == self.raw().tree(
                    token.slot(),
                ).text(),
                Err(error) => !self.raw().owns(NodeOrToken::Token(*token)) && error
                    == EditError::ForeignId,
            },
    {
        self.raw.token_text(token)
    }

    /// Detach an attached element from its parent.
    pub fn detach(&mut self, element: &EditorElementId) -> (detached: Result<bool, EditError>)
        requires
            old(self).valid(),
        ensures
            final(self).valid(),
            match detached {
                Ok(true) => {
                    &&& old(self).raw().owns(*element)
                    &&& old(self).raw().parent_at(
                        cursor_editor::slot_of(*element)) matches Some(parent)
                        && old(self).raw().index_at(
                            cursor_editor::slot_of(*element)) matches Some(index)
                        && cursor_editor::splicing::spliced(
                        old(self).raw(),
                        final(self).raw(),
                        parent.slot(),
                        index as int,
                        index + 1,
                        Seq::empty(),
                    )
                    &&& final(self).raw().parent_at(cursor_editor::slot_of(*element)) is None
                },
                Ok(false) => {
                    &&& old(self).raw().owns(*element)
                    &&& old(self).raw().parent_at(cursor_editor::slot_of(*element)) is None
                    &&& final(self).raw() == old(self).raw()
                },
                Err(error) => {
                    &&& !old(self).raw().owns(*element)
                    &&& error == EditError::ForeignId
                    &&& final(self).raw() == old(self).raw()
                },
            },
    {
        self.raw.detach(element)
    }

    /// Transactionally splice a node's original child sequence.
    ///
    /// The committed sequence is the original prefix excluding insertion IDs, followed by insertion
    /// IDs in caller order, followed by the original suffix excluding insertion IDs.
    pub fn splice_children(
        &mut self,
        target: &EditorNodeId,
        range: Range<usize>,
        insertions: Vec<EditorElementId>,
    ) -> (outcome: Result<SpliceOutcome, EditError>)
        requires
            old(self).valid(),
        ensures
            final(self).valid(),
            cursor_editor::splicing::splice_done(
                old(self).raw(),
                final(self).raw(),
                *target,
                range.start,
                range.end,
                insertions@,
                outcome,
            ),
    {
        self.raw.splice_children(target, range, insertions)
    }

    /// Consume the editor and materialize one detached node component.
    ///
    /// Whether the changed nodes can be allocated rests on the allocator.
    pub fn into_syntax(self, root: &EditorNodeId) -> (syntax: Result<SyntaxNode<L>, EditError>)
        requires
            self.valid(),
        ensures
            match syntax {
                Ok(node) => {
                    &&& self.raw().owns(NodeOrToken::Node(*root))
                    &&& self.raw().parent_at(root.slot()) is None
                    &&& node.place().is_root()
                    &&& node.place().tree() == self.raw().tree(root.slot())
                    &&& cursor_editor::completion::completed(
                        self.raw(),
                        root.slot(),
                        NodeOrToken::Node(node.place().root),
                    )
                },
                Err(EditError::ForeignId) => !self.raw().owns(NodeOrToken::Node(*root)),
                Err(EditError::RootStillAttached) => self.raw().owns(NodeOrToken::Node(*root))
                    && self.raw().parent_at(root.slot()) is Some,
                Err(error) => {
                    &&& error == EditError::Green(GreenError::AllocationFailed)
                    &&& self.raw().owns(NodeOrToken::Node(*root))
                    &&& self.raw().parent_at(root.slot()) is None
                    &&& self.raw().dirty_at(root.slot())
                },
            },
    {
        match self.raw.into_syntax(root) {
            Ok(raw) => Ok(typed_node(raw)),
            Err(error) => Err(error),
        }
    }
}

impl<L: Language> Clone for SyntaxNodeChildren<L> {
    fn clone(&self) -> (copy: Self)
        ensures
            copy == *self,
    {
        SyntaxNodeChildren { raw: self.raw.clone(), language: PhantomData }
    }
}

impl<L: Language> Clone for SyntaxElementChildren<L> {
    fn clone(&self) -> (copy: Self)
        ensures
            copy == *self,
    {
        SyntaxElementChildren { raw: self.raw.clone(), language: PhantomData }
    }
}

impl<L: Language> Clone for Preorder<L> {
    fn clone(&self) -> (copy: Self)
        ensures
            copy == *self,
    {
        Preorder { raw: self.raw.clone(), language: PhantomData }
    }
}

impl<L: Language> Clone for PreorderWithTokens<L> {
    fn clone(&self) -> (copy: Self)
        ensures
            copy == *self,
    {
        PreorderWithTokens { raw: self.raw.clone(), language: PhantomData }
    }
}

} // verus!
