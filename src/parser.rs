use crate::token::{tokens_view, PrimitiveType, PrimitiveView, Token, TokenView};
use crate::lexer::{lex, lex_result_view, tokenize, LexError};
use vstd::prelude::*;

verus! {

/// A node of the parsed tree.
#[allow(non_camel_case_types)]
#[derive(Debug, PartialEq)]
pub enum Element {
    /// A parenthesised block of elements, in source order.
    BLOC(Vec<Element>),
    /// A bare literal.
    PRIMITIVE_TYPE(PrimitiveType),
    /// A quoted key and its value.
    KEY_VALUE(String, Box<Element>),
}

/// The mathematical value of a tree node.
pub enum ElementView {
    Bloc(Seq<ElementView>),
    Primitive(PrimitiveView),
    KeyValue(Seq<char>, Box<ElementView>),
}

/// The view of a tree node, child by child.
pub open spec fn element_view(e: &Element) -> ElementView
    decreases e,
{
    match e {
        Element::BLOC(v) => ElementView::Bloc(
            Seq::new(
                v.len() as nat,
                |k: int|
                    if 0 <= k < v.len() {
                        element_view(&v[k])
                    } else {
                        ElementView::Bloc(seq![])
                    },
            ),
        ),
        Element::PRIMITIVE_TYPE(p) => ElementView::Primitive(p@),
        Element::KEY_VALUE(k, b) => ElementView::KeyValue(k@, Box::new(element_view(&**b))),
    }
}

impl View for Element {
    type V = ElementView;

    open spec fn view(&self) -> ElementView {
        element_view(self)
    }
}

/// The views of a sequence of elements.
pub open spec fn elements_view(v: Seq<Element>) -> Seq<ElementView> {
    Seq::new(v.len(), |k: int| v[k]@)
}

/// A block's view is the sequence of its children's views.
pub proof fn lemma_bloc_view(v: Vec<Element>)
    ensures
        Element::BLOC(v)@ == ElementView::Bloc(elements_view(v@)),
{
    assert(Element::BLOC(v)@->Bloc_0 =~= elements_view(v@));
}

/// The result of a rule: the node and the position just past it.
pub open spec fn parsed_view(r: Option<(Element, usize)>) -> Option<(ElementView, int)> {
    match r {
        Some((e, j)) => Some((e@, j as int)),
        None => None,
    }
}

/// Primitive := a literal token.
pub open spec fn spec_primitive(t: Seq<TokenView>, i: int) -> Option<(ElementView, int)> {
    if 0 <= i < t.len() && t[i] is Literal {
        Some((ElementView::Primitive(t[i]->Literal_0), i + 1))
    } else {
        None
    }
}

/// Element := Block | KeyValue | Primitive, tried in that order.
pub open spec fn spec_element(t: Seq<TokenView>, i: int) -> Option<(ElementView, int)>
    decreases t.len() - i, 3int,
{
    if i < 0 || i >= t.len() {
        None
    } else if let Some(r) = spec_bloc(t, i) {
        Some(r)
    } else if let Some(r) = spec_key_value(t, i) {
        Some(r)
    } else {
        spec_primitive(t, i)
    }
}

/// KeyValue := a string literal, `=`, then a Primitive or else a Block.
pub open spec fn spec_key_value(t: Seq<TokenView>, i: int) -> Option<(ElementView, int)>
    decreases t.len() - i, 2int,
{
    if 0 <= i && i + 1 < t.len() && t[i] is Literal && t[i]->Literal_0 is Str && t[i + 1] is Equal {
        let value = if let Some(r) = spec_primitive(t, i + 2) {
            Some(r)
        } else {
            spec_bloc(t, i + 2)
        };
        match value {
            Some((v, j)) => Some(
                (ElementView::KeyValue(t[i]->Literal_0->Str_0, Box::new(v)), j),
            ),
            None => None,
        }
    } else {
        None
    }
}

/// Block := `(` `)`, or `(` Element (`;` Element)* `)`.
pub open spec fn spec_bloc(t: Seq<TokenView>, i: int) -> Option<(ElementView, int)>
    decreases t.len() - i, 2int,
{
    if 0 <= i < t.len() && t[i] is Lpar {
        if i + 1 < t.len() && t[i + 1] is Rpar {
            Some((ElementView::Bloc(seq![]), i + 2))
        } else {
            spec_items(t, i + 1, seq![])
        }
    } else {
        None
    }
}

/// The rest of a non-empty block from the element at `i`, `acc` holding
/// the elements already read.
pub open spec fn spec_items(t: Seq<TokenView>, i: int, acc: Seq<ElementView>) -> Option<
    (ElementView, int),
>
    decreases t.len() - i, 4int,
{
    if 0 <= i <= t.len() {
        match spec_element(t, i) {
            Some((e, j)) => if j <= i || j >= t.len() {
                None
            } else if t[j] is Semicolumn {
                spec_items(t, j + 1, acc.push(e))
            } else if t[j] is Rpar {
                Some((ElementView::Bloc(acc.push(e)), j + 1))
            } else {
                None
            },
            None => None,
        }
    } else {
        None
    }
}

/// Parses a literal token at `pos`.
pub fn parse_primitive_type(tokens: &[Token], pos: usize) -> (r: Option<(Element, usize)>)
    ensures
        parsed_view(r) == spec_primitive(tokens_view(tokens@), pos as int),
        r matches Some((e, j)) ==> pos < j <= tokens.len(),
{
    if pos >= tokens.len() {
        return None;
    }
    match &tokens[pos] {
        Token::Literal(lit) => Some((Element::PRIMITIVE_TYPE(lit.duplicate()), pos + 1)),
        _ => None,
    }
}

/// Parses `'key' = value` at `pos`, the value being a literal or else a block.
pub fn parse_key_value(tokens: &[Token], pos: usize) -> (r: Option<(Element, usize)>)
    ensures
        parsed_view(r) == spec_key_value(tokens_view(tokens@), pos as int),
        r matches Some((e, j)) ==> pos < j <= tokens.len(),
    decreases tokens.len() - pos, 2int,
{
    if pos >= tokens.len() || tokens.len() - pos < 2 {
        return None;
    }
    let key = match &tokens[pos] {
        Token::Literal(PrimitiveType::String(k)) => k,
        _ => {
            return None;
        },
    };
    match &tokens[pos + 1] {
        Token::Equal => {},
        _ => {
            return None;
        },
    }
    let value = match parse_primitive_type(tokens, pos + 2) {
        Some(r) => Some(r),
        None => parse_bloc(tokens, pos + 2),
    };
    match value {
        Some((v, j)) => Some((Element::KEY_VALUE(key.clone(), Box::new(v)), j)),
        None => None,
    }
}

/// Parses a block at `pos`: `(`, then elements separated by `;`, then `)`.
pub fn parse_bloc(tokens: &[Token], pos: usize) -> (r: Option<(Element, usize)>)
    ensures
        parsed_view(r) == spec_bloc(tokens_view(tokens@), pos as int),
        r matches Some((e, j)) ==> pos < j <= tokens.len(),
    decreases tokens.len() - pos, 2int,
{
    let ghost t = tokens_view(tokens@);
    let n = tokens.len();
    if pos >= n {
        return None;
    }
    match &tokens[pos] {
        Token::Lpar => {},
        _ => {
            return None;
        },
    }
    let mut elts: Vec<Element> = Vec::new();
    if pos + 1 < n {
        if let Token::Rpar = &tokens[pos + 1] {
            assert(elements_view(elts@) =~= seq![]);
            proof {
                lemma_bloc_view(elts);
            }
            return Some((Element::BLOC(elts), pos + 2));
        }
    }
    let mut i: usize = pos + 1;
    assert(elements_view(elts@) =~= seq![]);
    loop
        invariant
            t == tokens_view(tokens@),
            n == tokens.len(),
            pos < i <= n,
            spec_bloc(t, pos as int) == spec_items(t, i as int, elements_view(elts@)),
        decreases n - i,
    {
        match parse_element(tokens, i) {
            None => {
                return None;
            },
            Some((e, j)) => {
                if j >= n {
                    return None;
                }
                let ghost acc = elements_view(elts@);
                let ghost ev = e@;
                elts.push(e);
                assert(elements_view(elts@) =~= acc.push(ev));
                match &tokens[j] {
                    Token::Semicolumn => {
                        i = j + 1;
                    },
                    Token::Rpar => {
                        proof {
                            lemma_bloc_view(elts);
                        }
                        return Some((Element::BLOC(elts), j + 1));
                    },
                    _ => {
                        return None;
                    },
                }
            },
        }
    }
}

/// Parses one element at `pos`: a block, else a key-value pair, else a literal.
pub fn parse_element(tokens: &[Token], pos: usize) -> (r: Option<(Element, usize)>)
    ensures
        parsed_view(r) == spec_element(tokens_view(tokens@), pos as int),
        r matches Some((e, j)) ==> pos < j <= tokens.len(),
    decreases tokens.len() - pos, 3int,
{
    if pos >= tokens.len() {
        return None;
    }
    if let Some(r) = parse_bloc(tokens, pos) {
        return Some(r);
    }
    if let Some(r) = parse_key_value(tokens, pos) {
        return Some(r);
    }
    parse_primitive_type(tokens, pos)
}

/// Why a token sequence is not one document.
#[derive(Debug, Clone, Copy, PartialEq, Eq, Structural)]
pub enum ParseError {
    /// No rule of the grammar matches at the start.
    NoMatchingRule,
    /// One element was read, and tokens are left after it.
    TrailingTokens,
}

/// Why a text is not a document.
#[derive(Debug, Clone, Copy, PartialEq, Eq, Structural)]
pub enum CgxError {
    Lex(LexError),
    Parse(ParseError),
}

/// A document: exactly one element that spans all the tokens.
pub open spec fn spec_document(t: Seq<TokenView>) -> Result<ElementView, ParseError> {
    match spec_element(t, 0) {
        Some((e, j)) => if j == t.len() {
            Ok(e)
        } else {
            Err(ParseError::TrailingTokens)
        },
        None => Err(ParseError::NoMatchingRule),
    }
}

pub open spec fn document_view<E>(r: Result<Element, E>) -> Result<ElementView, E> {
    match r {
        Ok(e) => Ok(e@),
        Err(x) => Err(x),
    }
}

/// The document of a whole text: its tokens, then one element over all of them.
pub open spec fn spec_text(s: Seq<u8>) -> Result<ElementView, CgxError> {
    match lex(s) {
        Ok(t) => match spec_document(t) {
            Ok(e) => Ok(e),
            Err(x) => Err(CgxError::Parse(x)),
        },
        Err(x) => Err(CgxError::Lex(x)),
    }
}

/// Parses the whole token sequence as one element.
pub fn parse_document(tokens: &[Token]) -> (r: Result<Element, ParseError>)
    ensures
        document_view(r) == spec_document(tokens_view(tokens@)),
{
    match parse_element(tokens, 0) {
        Some((e, j)) => if j == tokens.len() {
            Ok(e)
        } else {
            Err(ParseError::TrailingTokens)
        },
        None => Err(ParseError::NoMatchingRule),
    }
}

/// Tokenizes `cgxcode` and parses the tokens as one document.
pub fn parse_cgxcode(cgxcode: &[u8]) -> (r: Result<Element, CgxError>)
    ensures
        document_view(r) == spec_text(cgxcode@),
{
    match tokenize(cgxcode) {
        Ok(tokens) => match parse_document(tokens.as_slice()) {
            Ok(e) => Ok(e),
            Err(x) => Err(CgxError::Parse(x)),
        },
        Err(x) => Err(CgxError::Lex(x)),
    }
}

} // verus!
