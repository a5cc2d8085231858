use vstd::prelude::*;

verus! {

/// A literal value: a boolean, a signed 32-bit integer or a quoted string.
#[derive(Debug, Clone, PartialEq)]
pub enum PrimitiveType {
    Boolean(bool),
    String(String),
    Number(i32),
}

/// The mathematical value of a literal.
pub enum PrimitiveView {
    Boolean(bool),
    Str(Seq<char>),
    Number(i32),
}

impl View for PrimitiveType {
    type V = PrimitiveView;

    open spec fn view(&self) -> PrimitiveView {
        match self {
            PrimitiveType::Boolean(b) => PrimitiveView::Boolean(*b),
            PrimitiveType::String(s) => PrimitiveView::Str(s@),
            PrimitiveType::Number(n) => PrimitiveView::Number(*n),
        }
    }
}

impl PrimitiveType {
    /// A copy of the literal with the same value.
    pub fn duplicate(&self) -> (r: PrimitiveType)
        ensures
            r@ == self@,
    {
        match self {
            PrimitiveType::Boolean(b) => PrimitiveType::Boolean(*b),
            PrimitiveType::String(s) => PrimitiveType::String(s.clone()),
            PrimitiveType::Number(n) => PrimitiveType::Number(*n),
        }
    }
}

/// A token emitted by the lexer.
#[derive(Debug, Clone, PartialEq)]
pub enum Token {
    Lpar,
    Rpar,
    Semicolumn,
    Column,
    Equal,
    Literal(PrimitiveType),
}

/// The mathematical value of a token.
pub enum TokenView {
    Lpar,
    Rpar,
    Semicolumn,
    Column,
    Equal,
    Literal(PrimitiveView),
}

impl View for Token {
    type V = TokenView;

    open spec fn view(&self) -> TokenView {
        match self {
            Token::Lpar => TokenView::Lpar,
            Token::Rpar => TokenView::Rpar,
            Token::Semicolumn => TokenView::Semicolumn,
            Token::Column => TokenView::Column,
            Token::Equal => TokenView::Equal,
            Token::Literal(p) => TokenView::Literal(p@),
        }
    }
}

/// The views of a sequence of tokens.
pub open spec fn tokens_view(t: Seq<Token>) -> Seq<TokenView> {
    t.map_values(|x: Token| x@)
}

impl Token {
    /// The boolean literal token `val`.
    pub fn boolean(val: bool) -> (r: Token)
        ensures
            r@ == TokenView::Literal(PrimitiveView::Boolean(val)),
    {
        Token::Literal(PrimitiveType::Boolean(val))
    }

    /// The integer literal token `val`.
    pub fn number(val: i32) -> (r: Token)
        ensures
            r@ == TokenView::Literal(PrimitiveView::Number(val)),
    {
        Token::Literal(PrimitiveType::Number(val))
    }

    /// The string literal token holding `val`.
    pub fn string(val: String) -> (r: Token)
        ensures
            r@ == TokenView::Literal(PrimitiveView::Str(val@)),
    {
        Token::Literal(PrimitiveType::String(val))
    }
}

} // verus!
