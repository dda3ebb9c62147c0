//! Small enums shared by the green, cursor and typed interfaces.

use vstd::prelude::*;

verus! {

/// A value that is either a syntax node or a syntax token.
#[derive(Debug, Clone, Copy, PartialEq, Eq, PartialOrd, Ord, Hash)]
pub enum NodeOrToken<Node, Token> {
    /// Node variant.
    Node(Node),
    /// Token variant.
    Token(Token),
}

impl<Node, Token> NodeOrToken<Node, Token> {
    /// Extract the node variant.
    pub fn into_node(self) -> (node: Option<Node>)
        ensures
            node == match self {
                NodeOrToken::Node(node) => Some(node),
                NodeOrToken::Token(_) => None,
            },
    {
        match self {
            NodeOrToken::Node(node) => Some(node),
            NodeOrToken::Token(_) => None,
        }
    }

    /// Extract the token variant.
    pub fn into_token(self) -> (token: Option<Token>)
        ensures
            token == match self {
                NodeOrToken::Node(_) => None,
                NodeOrToken::Token(token) => Some(token),
            },
    {
        match self {
            NodeOrToken::Node(_) => None,
            NodeOrToken::Token(token) => Some(token),
        }
    }

    /// Borrow the node variant.
    pub fn as_node(&self) -> (node: Option<&Node>)
        ensures
            node == match *self {
                NodeOrToken::Node(node) => Some(&node),
                NodeOrToken::Token(_) => None,
            },
    {
        match self {
            NodeOrToken::Node(node) => Some(node),
            NodeOrToken::Token(_) => None,
        }
    }

    /// Borrow the token variant.
    pub fn as_token(&self) -> (token: Option<&Token>)
        ensures
            token == match *self {
                NodeOrToken::Node(_) => None,
                NodeOrToken::Token(token) => Some(&token),
            },
    {
        match self {
            NodeOrToken::Node(_) => None,
            NodeOrToken::Token(token) => Some(token),
        }
    }

    /// Borrow either contained value while preserving its variant.
    pub fn as_ref(&self) -> (borrowed: NodeOrToken<&Node, &Token>)
        ensures
            borrowed == match *self {
                NodeOrToken::Node(node) => NodeOrToken::<&Node, &Token>::Node(&node),
                NodeOrToken::Token(token) => NodeOrToken::<&Node, &Token>::Token(&token),
            },
    {
        match self {
            NodeOrToken::Node(node) => NodeOrToken::Node(node),
            NodeOrToken::Token(token) => NodeOrToken::Token(token),
        }
    }

    /// Map both variants independently.
    pub fn map<NewNode, NewToken, MapNode, MapToken>(
        self,
        map_node: MapNode,
        map_token: MapToken,
    ) -> (mapped: NodeOrToken<NewNode, NewToken>) where
        MapNode: FnOnce(Node) -> NewNode,
        MapToken: FnOnce(Token) -> NewToken,

        requires
            self matches NodeOrToken::Node(node) ==> map_node.requires((node,)),
            self matches NodeOrToken::Token(token) ==> map_token.requires((token,)),
        ensures
            match self {
                NodeOrToken::Node(node) => mapped matches NodeOrToken::Node(new_node)
                    && map_node.ensures((node,), new_node),
                NodeOrToken::Token(token) => mapped matches NodeOrToken::Token(new_token)
                    && map_token.ensures((token,), new_token),
            },
    {
        match self {
            NodeOrToken::Node(node) => NodeOrToken::Node(map_node(node)),
            NodeOrToken::Token(token) => NodeOrToken::Token(map_token(token)),
        }
    }

    /// Dispatch borrowed variants into one common output type.
    pub fn either<Output, OnNode, OnToken>(&self, node: OnNode, token: OnToken) -> (output:
        Output) where OnNode: FnOnce(&Node) -> Output, OnToken: FnOnce(&Token) -> Output
        requires
            *self matches NodeOrToken::Node(value) ==> node.requires((&value,)),
            *self matches NodeOrToken::Token(value) ==> token.requires((&value,)),
        ensures
            match *self {
                NodeOrToken::Node(value) => node.ensures((&value,), output),
                NodeOrToken::Token(value) => token.ensures((&value,), output),
            },
    {
        match self {
            NodeOrToken::Node(value) => node(value),
            NodeOrToken::Token(value) => token(value),
        }
    }
}

impl<Node: std::fmt::Display, Token: std::fmt::Display> NodeOrToken<Node, Token> {
    /// Write out the contained node or token.
    pub fn to_string(&self) -> (text: String)
        ensures
            match *self {
                NodeOrToken::Node(node) => vstd::string::to_string_from_display_ensures::<Node>(
                    &node,
                    text,
                ),
                NodeOrToken::Token(token) => vstd::string::to_string_from_display_ensures::<Token>(
                    &token,
                    text,
                ),
            },
    {
        match self {
            NodeOrToken::Node(node) => node.to_string(),
            NodeOrToken::Token(token) => token.to_string(),
        }
    }
}

/// Direction used by sibling iteration.
#[derive(Debug, Clone, Copy, PartialEq, Eq, PartialOrd, Ord, Hash, Structural)]
pub enum Direction {
    /// Move toward later siblings.
    Next,
    /// Move toward earlier siblings.
    Prev,
}

/// An event emitted while walking a tree.
#[derive(Debug, Clone, Copy, PartialEq, Eq)]
pub enum WalkEvent<Element> {
    /// Emitted before traversing an element's descendants.
    Enter(Element),
    /// Emitted after traversing an element's descendants.
    Leave(Element),
}

impl<Element> WalkEvent<Element> {
    /// Map the event's element without changing enter/leave polarity.
    pub fn map<Mapped, MapElement>(self, map_element: MapElement) -> (mapped: WalkEvent<
        Mapped,
    >) where MapElement: FnOnce(Element) -> Mapped
        requires
            match self {
                WalkEvent::Enter(element) => map_element.requires((element,)),
                WalkEvent::Leave(element) => map_element.requires((element,)),
            },
        ensures
            match self {
                WalkEvent::Enter(element) => mapped matches WalkEvent::Enter(new_element)
                    && map_element.ensures((element,), new_element),
                WalkEvent::Leave(element) => mapped matches WalkEvent::Leave(new_element)
                    && map_element.ensures((element,), new_element),
            },
    {
        match self {
            WalkEvent::Enter(element) => WalkEvent::Enter(map_element(element)),
            WalkEvent::Leave(element) => WalkEvent::Leave(map_element(element)),
        }
    }
}

/// Zero, one, or two tokens touching a source offset.
#[derive(Clone, Debug, PartialEq, Eq)]
pub enum TokenAtOffset<Token> {
    /// No token touches the offset, as in an empty tree.
    Empty,
    /// Exactly one token touches the offset.
    Single(Token),
    /// The offset is a boundary between a left and right token.
    Between(Token, Token),
}

impl<Token> TokenAtOffset<Token> {
    /// The contained tokens from left to right.
    pub open spec fn tokens(self) -> Seq<Token> {
        match self {
            TokenAtOffset::Empty => Seq::empty(),
            TokenAtOffset::Single(token) => seq![token],
            TokenAtOffset::Between(left, right) => seq![left, right],
        }
    }

    /// Map every contained token.
    pub fn map<Mapped, MapToken>(self, map_token: MapToken) -> (mapped: TokenAtOffset<
        Mapped,
    >) where MapToken: Fn(Token) -> Mapped
        requires
            forall|i: int|
                0 <= i < self.tokens().len() ==> map_token.requires((#[trigger] self.tokens()[i],)),
        ensures
            mapped is Empty <==> self is Empty,
            mapped is Single <==> self is Single,
            mapped.tokens().len() == self.tokens().len(),
            forall|i: int|
                0 <= i < self.tokens().len() ==> map_token.ensures(
                    (self.tokens()[i],),
                    #[trigger] mapped.tokens()[i],
                ),
            match self {
                TokenAtOffset::Empty => mapped is Empty,
                TokenAtOffset::Single(token) => mapped matches TokenAtOffset::Single(new_token)
                    && map_token.ensures((token,), new_token),
                TokenAtOffset::Between(left, right) => mapped matches TokenAtOffset::Between(
                    new_left,
                    new_right,
                ) && map_token.ensures((left,), new_left) && map_token.ensures(
                    (right,),
                    new_right,
                ),
            },
    {
        match self {
            TokenAtOffset::Empty => TokenAtOffset::Empty,
            TokenAtOffset::Single(token) => {
                assert(self.tokens()[0] == token);
                TokenAtOffset::Single(map_token(token))
            },
            TokenAtOffset::Between(left, right) => {
                assert(self.tokens()[0] == left);
                assert(self.tokens()[1] == right);
                TokenAtOffset::Between(map_token(left), map_token(right))
            },
        }
    }

    /// Convert to an option, preferring the right token at a boundary.
    pub fn right_biased(self) -> (token: Option<Token>)
        ensures
            token == if self.tokens().len() == 0 {
                None
            } else {
                Some(self.tokens().last())
            },
            match self {
                TokenAtOffset::Empty => token is None,
                TokenAtOffset::Single(only) => token == Some(only),
                TokenAtOffset::Between(_, right) => token == Some(right),
            },
    {
        match self {
            TokenAtOffset::Empty => None,
            TokenAtOffset::Single(token) => Some(token),
            TokenAtOffset::Between(_, token) => Some(token),
        }
    }

    /// Convert to an option, preferring the left token at a boundary.
    pub fn left_biased(self) -> (token: Option<Token>)
        ensures
            token == if self.tokens().len() == 0 {
                None
            } else {
                Some(self.tokens().first())
            },
            match self {
                TokenAtOffset::Empty => token is None,
                TokenAtOffset::Single(only) => token == Some(only),
                TokenAtOffset::Between(left, _) => token == Some(left),
            },
    {
        match self {
            TokenAtOffset::Empty => None,
            TokenAtOffset::Single(token) => Some(token),
            TokenAtOffset::Between(token, _) => Some(token),
        }
    }

    /// Take the leftmost remaining token.
    pub fn next(&mut self) -> (token: Option<Token>)
        ensures
            match token {
                Some(token) => old(self).tokens() == seq![token] + final(self).tokens(),
                None => old(self).tokens().len() == 0 && final(self).tokens().len() == 0,
            },
            match *old(self) {
                TokenAtOffset::Empty => token is None && *final(self) is Empty,
                TokenAtOffset::Single(only) => token == Some(only) && *final(self) is Empty,
                TokenAtOffset::Between(left, right) => token == Some(left) && *final(self)
                    == TokenAtOffset::Single(right),
            },
    {
        let mut taken = TokenAtOffset::Empty;
        std::mem::swap(self, &mut taken);
        match taken {
            TokenAtOffset::Empty => None,
            TokenAtOffset::Single(token) => Some(token),
            TokenAtOffset::Between(left, right) => {
                *self = TokenAtOffset::Single(right);
                Some(left)
            },
        }
    }

    /// The number of remaining tokens.
    pub fn len(&self) -> (count: usize)
        ensures
            count == self.tokens().len(),
            match *self {
                TokenAtOffset::Empty => count == 0,
                TokenAtOffset::Single(_) => count == 1,
                TokenAtOffset::Between(_, _) => count == 2,
            },
    {
        match self {
            TokenAtOffset::Empty => 0,
            TokenAtOffset::Single(_) => 1,
            TokenAtOffset::Between(_, _) => 2,
        }
    }

    /// The exact bounds on the number of remaining tokens.
    pub fn size_hint(&self) -> (bounds: (usize, Option<usize>))
        ensures
            bounds.0 == self.tokens().len(),
            bounds.1 == Some(bounds.0),
    {
        let count: usize = self.len();
        (count, Some(count))
    }
}

} // verus!
