use crate::token::{tokens_view, PrimitiveType, PrimitiveView, Token, TokenView};
use vstd::prelude::*;
use vstd::utf8::{decode_utf8, valid_utf8};

verus! {

/// The byte `(`.
pub const LPAR: u8 = 40;

/// The byte `)`.
pub const RPAR: u8 = 41;

/// The byte `;`.
pub const SEMICOLON: u8 = 59;

/// The byte `:`.
pub const COLON: u8 = 58;

/// The byte `=`.
pub const EQUAL: u8 = 61;

/// The quote byte `'`.
pub const QUOTE: u8 = 39;

/// The byte `0`.
pub const DIGIT_ZERO: u8 = 48;

/// The byte `9`.
pub const DIGIT_NINE: u8 = 57;

/// The byte `t`.
pub const LOWER_T: u8 = 116;

/// The byte `r`.
pub const LOWER_R: u8 = 114;

/// The byte `u`.
pub const LOWER_U: u8 = 117;

/// The byte `e`.
pub const LOWER_E: u8 = 101;

/// The byte `f`.
pub const LOWER_F: u8 = 102;

/// The byte `a`.
pub const LOWER_A: u8 = 97;

/// The byte `l`.
pub const LOWER_L: u8 = 108;

/// The byte `s`.
pub const LOWER_S: u8 = 115;

/// Why a byte buffer is not a sequence of tokens.
#[derive(Debug, Clone, Copy, PartialEq, Eq, Structural)]
pub enum LexError {
    /// An opening quote has no closing quote.
    UnterminatedString,
    /// A byte outside quotes starts neither a symbol nor a literal.
    UnrecognizedCharacter,
    /// A run of digits does not fit a signed 32-bit integer.
    InvalidNumber,
    /// The bytes between two quotes are not UTF-8.
    InvalidUtf8,
}

/// Whether the scanner is between quotes.
#[derive(Debug, Clone, Copy, PartialEq, Eq, Structural)]
pub enum LexerState {
    InQuotes,
    OutQuotes,
}

/// The other scanner state.
pub fn flip_state(state: LexerState) -> (r: LexerState)
    ensures
        r == (if state == LexerState::InQuotes {
            LexerState::OutQuotes
        } else {
            LexerState::InQuotes
        }),
{
    if state == LexerState::InQuotes {
        LexerState::OutQuotes
    } else {
        LexerState::InQuotes
    }
}

pub open spec fn is_digit(b: u8) -> bool {
    DIGIT_ZERO <= b <= DIGIT_NINE
}

/// `p` occurs in `s` at position `i`.
pub open spec fn has_prefix_at(s: Seq<u8>, i: int, p: Seq<u8>) -> bool {
    0 <= i && i + p.len() <= s.len() && forall|k: int| 0 <= k < p.len() ==> s[i + k] == p[k]
}

pub open spec fn true_word() -> Seq<u8> {
    seq![LOWER_T, LOWER_R, LOWER_U, LOWER_E]
}

pub open spec fn false_word() -> Seq<u8> {
    seq![LOWER_F, LOWER_A, LOWER_L, LOWER_S, LOWER_E]
}

/// The length of the run of digits that starts at `i`.
pub open spec fn digit_run(s: Seq<u8>, i: int) -> nat
    decreases s.len() - i,
{
    if 0 <= i < s.len() && is_digit(s[i]) {
        1 + digit_run(s, i + 1)
    } else {
        0
    }
}

/// The decimal value of a sequence of digits.
pub open spec fn digits_value(d: Seq<u8>) -> int
    decreases d.len(),
{
    if d.len() == 0 {
        0
    } else {
        digits_value(d.drop_last()) * 10 + (d.last() - DIGIT_ZERO)
    }
}

/// The literal that starts at `i`, tried as `true`, then `false`, then a
/// maximal run of digits, with the number of bytes it spans.
pub open spec fn literal_at(s: Seq<u8>, i: int) -> Result<(PrimitiveView, nat), LexError> {
    if has_prefix_at(s, i, true_word()) {
        Ok((PrimitiveView::Boolean(true), 4))
    } else if has_prefix_at(s, i, false_word()) {
        Ok((PrimitiveView::Boolean(false), 5))
    } else {
        let n = digit_run(s, i);
        if n == 0 {
            Err(LexError::UnrecognizedCharacter)
        } else if digits_value(s.subrange(i, i + n)) <= i32::MAX {
            Ok((PrimitiveView::Number(digits_value(s.subrange(i, i + n)) as i32), n))
        } else {
            Err(LexError::InvalidNumber)
        }
    }
}

/// The number of bytes from `i` up to the next quote or the end.
pub open spec fn quote_len(s: Seq<u8>, i: int) -> nat
    decreases s.len() - i,
{
    if 0 <= i < s.len() && s[i] != QUOTE {
        1 + quote_len(s, i + 1)
    } else {
        0
    }
}

pub open spec fn prepend(t: TokenView, r: Result<Seq<TokenView>, LexError>) -> Result<
    Seq<TokenView>,
    LexError,
> {
    match r {
        Ok(ts) => Ok(seq![t] + ts),
        Err(e) => Err(e),
    }
}

pub open spec fn append_ok(p: Seq<TokenView>, r: Result<Seq<TokenView>, LexError>) -> Result<
    Seq<TokenView>,
    LexError,
> {
    match r {
        Ok(ts) => Ok(p + ts),
        Err(e) => Err(e),
    }
}

/// The tokens of `s` from position `i` on, the scanner being in `state`.
pub open spec fn lex_from(s: Seq<u8>, i: int, state: LexerState) -> Result<
    Seq<TokenView>,
    LexError,
>
    decreases s.len() - i,
{
    if i < 0 || i >= s.len() {
        if state == LexerState::InQuotes {
            Err(LexError::UnterminatedString)
        } else {
            Ok(seq![])
        }
    } else if state == LexerState::InQuotes {
        let q = i + quote_len(s, i);
        if q >= s.len() {
            Err(LexError::UnterminatedString)
        } else if !valid_utf8(s.subrange(i, q)) {
            Err(LexError::InvalidUtf8)
        } else {
            prepend(
                TokenView::Literal(PrimitiveView::Str(decode_utf8(s.subrange(i, q)))),
                lex_from(s, q + 1, LexerState::OutQuotes),
            )
        }
    } else if s[i] == LPAR {
        prepend(TokenView::Lpar, lex_from(s, i + 1, state))
    } else if s[i] == RPAR {
        prepend(TokenView::Rpar, lex_from(s, i + 1, state))
    } else if s[i] == SEMICOLON {
        prepend(TokenView::Semicolumn, lex_from(s, i + 1, state))
    } else if s[i] == COLON {
        prepend(TokenView::Column, lex_from(s, i + 1, state))
    } else if s[i] == EQUAL {
        prepend(TokenView::Equal, lex_from(s, i + 1, state))
    } else if s[i] == QUOTE {
        lex_from(s, i + 1, LexerState::InQuotes)
    } else {
        match literal_at(s, i) {
            Ok((p, n)) => {
                proof {
                    lemma_literal_len(s, i);
                }
                prepend(TokenView::Literal(p), lex_from(s, i + n, state))
            },
            Err(e) => Err(e),
        }
    }
}

/// A literal spans at least one byte and ends within the sequence.
pub proof fn lemma_literal_len(s: Seq<u8>, i: int)
    requires
        0 <= i <= s.len(),
    ensures
        literal_at(s, i) matches Ok((p, n)) ==> n > 0 && i + n <= s.len(),
{
    lemma_run_bound(s, i);
}

/// The tokens of a whole buffer.
pub open spec fn lex(s: Seq<u8>) -> Result<Seq<TokenView>, LexError> {
    lex_from(s, 0, LexerState::OutQuotes)
}

pub open spec fn lex_result_view(r: Result<Vec<Token>, LexError>) -> Result<
    Seq<TokenView>,
    LexError,
> {
    match r {
        Ok(ts) => Ok(tokens_view(ts@)),
        Err(e) => Err(e),
    }
}

/// A literal found by the scanner and the position just past it.
pub struct LiteralTokenMatch {
    pub end: usize,
    pub token: Token,
}

/// Matching of the literal patterns.
pub struct LiteralParsing {}

proof fn lemma_digits_step(s: Seq<u8>, i: int, j: int)
    requires
        0 <= i <= j < s.len(),
    ensures
        digits_value(s.subrange(i, j + 1)) == digits_value(s.subrange(i, j)) * 10 + (s[j]
            - DIGIT_ZERO),
{
    assert(s.subrange(i, j + 1).drop_last() =~= s.subrange(i, j));
}

proof fn lemma_digits_nonneg(s: Seq<u8>, i: int, b: int)
    requires
        0 <= i <= b <= s.len(),
        forall|k: int| i <= k < b ==> is_digit(#[trigger] s[k]),
    ensures
        0 <= digits_value(s.subrange(i, b)),
    decreases b - i,
{
    if b > i {
        lemma_digits_nonneg(s, i, b - 1);
        lemma_digits_step(s, i, b - 1);
    }
}

proof fn lemma_digits_monotone(s: Seq<u8>, i: int, a: int, b: int)
    requires
        0 <= i <= a <= b <= s.len(),
        forall|k: int| i <= k < b ==> is_digit(#[trigger] s[k]),
    ensures
        digits_value(s.subrange(i, a)) <= digits_value(s.subrange(i, b)),
    decreases b - a,
{
    if a < b {
        lemma_digits_monotone(s, i, a, b - 1);
        lemma_digits_nonneg(s, i, b - 1);
        lemma_digits_step(s, i, b - 1);
    }
}

impl LiteralParsing {
    /// The literal at `start` of `text`: `true`, `false` or a maximal run of
    /// decimal digits, tried in that order.
    pub fn find(text: &[u8], start: usize) -> (r: Result<LiteralTokenMatch, LexError>)
        ensures
            match literal_at(text@, start as int) {
                Ok((p, n)) => r matches Ok(m) && m.end == start + n && m.token@
                    == TokenView::Literal(p),
                Err(e) => r == Err::<LiteralTokenMatch, LexError>(e),
            },
            r matches Ok(m) ==> start < m.end <= text.len(),
    {
        let n = text.len();
        let s = Ghost(text@);
        if start >= n {
            return Err(LexError::UnrecognizedCharacter);
        }
        if n - start >= 4 && text[start] == LOWER_T && text[start + 1] == LOWER_R && text[start + 2]
            == LOWER_U && text[start + 3] == LOWER_E {
            assert(has_prefix_at(s@, start as int, true_word()));
            return Ok(LiteralTokenMatch { end: start + 4, token: Token::boolean(true) });
        }
        assert(!has_prefix_at(s@, start as int, true_word())) by {
            if has_prefix_at(s@, start as int, true_word()) {
                assert(s@[start + 0] == true_word()[0]);
                assert(s@[start + 1] == true_word()[1]);
                assert(s@[start + 2] == true_word()[2]);
                assert(s@[start + 3] == true_word()[3]);
            }
        }
        if n - start >= 5 && text[start] == LOWER_F && text[start + 1] == LOWER_A && text[start + 2]
            == LOWER_L && text[start + 3] == LOWER_S && text[start + 4] == LOWER_E {
            assert(has_prefix_at(s@, start as int, false_word()));
            return Ok(LiteralTokenMatch { end: start + 5, token: Token::boolean(false) });
        }
        assert(!has_prefix_at(s@, start as int, false_word())) by {
            if has_prefix_at(s@, start as int, false_word()) {
                assert(s@[start + 0] == false_word()[0]);
                assert(s@[start + 1] == false_word()[1]);
                assert(s@[start + 2] == false_word()[2]);
                assert(s@[start + 3] == false_word()[3]);
                assert(s@[start + 4] == false_word()[4]);
            }
        }
        let mut j: usize = start;
        let mut v: i64 = 0;
        while j < n && DIGIT_ZERO <= text[j] && text[j] <= DIGIT_NINE
            invariant
                s@ == text@,
                n == text.len(),
                start <= j <= n,
                forall|k: int| start <= k < j ==> is_digit(#[trigger] s@[k]),
                v == digits_value(s@.subrange(start as int, j as int)),
                0 <= v <= i32::MAX,
                digit_run(s@, start as int) == (j - start) + digit_run(s@, j as int),
            decreases n - j,
        {
            proof {
                lemma_digits_step(s@, start as int, j as int);
            }
            v = v * 10 + (text[j] - DIGIT_ZERO) as i64;
            if v > i32::MAX as i64 {
                proof {
                    lemma_run_bound(s@, start as int);
                    assert(digit_run(s@, j as int) == 1 + digit_run(s@, j + 1));
                    let e = start + digit_run(s@, start as int);
                    assert forall|k: int| start <= k < e implies is_digit(#[trigger] s@[k]) by {
                        if k > j {
                            lemma_run_digits(s@, j + 1, k);
                        }
                    }
                    lemma_digits_monotone(s@, start as int, j + 1, e);
                }
                return Err(LexError::InvalidNumber);
            }
            j = j + 1;
        }
        if j == start {
            return Err(LexError::UnrecognizedCharacter);
        }
        proof {
            lemma_run_bound(s@, start as int);
        }
        Ok(LiteralTokenMatch { end: j, token: Token::number(v as i32) })
    }
}

/// A run of digits ends within the sequence.
pub proof fn lemma_run_bound(s: Seq<u8>, i: int)
    requires
        0 <= i <= s.len(),
    ensures
        i + digit_run(s, i) <= s.len(),
    decreases s.len() - i,
{
    if i < s.len() {
        lemma_run_bound(s, i + 1);
    }
}

/// Every byte inside a run of digits is a digit.
proof fn lemma_run_digits(s: Seq<u8>, i: int, k: int)
    requires
        0 <= i <= k < i + digit_run(s, i),
    ensures
        is_digit(s[k]),
    decreases k - i,
{
    if k > i {
        lemma_run_digits(s, i + 1, k);
    }
}

proof fn lemma_append_prepend(p: Seq<TokenView>, t: TokenView, r: Result<Seq<TokenView>, LexError>)
    ensures
        append_ok(p, prepend(t, r)) == append_ok(p.push(t), r),
{
    if let Ok(ts) = r {
        assert(p + (seq![t] + ts) =~= p.push(t) + ts);
    }
}

/// The position of the next quote at or after `i`, or the length of `s`.
fn find_quote(s: &[u8], i: usize) -> (r: usize)
    requires
        i <= s.len(),
    ensures
        r == i + quote_len(s@, i as int),
        r <= s.len(),
{
    let mut j: usize = i;
    while j < s.len() && s[j] != QUOTE
        invariant
            i <= j <= s.len(),
            quote_len(s@, i as int) == (j - i) + quote_len(s@, j as int),
        decreases s.len() - j,
    {
        j = j + 1;
    }
    j
}

/// Relies on String::from_utf8: it succeeds exactly on valid UTF-8, and the
/// string then holds the characters that the bytes encode.
#[verifier::external_body]
fn utf8_string(b: Vec<u8>) -> (r: Option<String>)
    ensures
        r is Some <==> valid_utf8(b@),
        r matches Some(st) ==> st@ == decode_utf8(b@),
{
    String::from_utf8(b).ok()
}

/// Splits `cgxcode` into tokens: the symbols `(`, `)`, `;`, `:`, `=`,
/// quoted strings, and the literals `true`, `false` and digit runs.
pub fn tokenize(cgxcode: &[u8]) -> (r: Result<Vec<Token>, LexError>)
    ensures
        lex_result_view(r) == lex(cgxcode@),
{
    let mut tokens: Vec<Token> = Vec::new();
    let mut state = LexerState::OutQuotes;
    let mut pos: usize = 0;
    let n = cgxcode.len();
    let s = Ghost(cgxcode@);
    while pos < n
        invariant
            s@ == cgxcode@,
            n == cgxcode.len(),
            pos <= n,
            lex(s@) == append_ok(tokens_view(tokens@), lex_from(s@, pos as int, state)),
        decreases 2 * (n - pos) + (if state == LexerState::OutQuotes {
            1int
        } else {
            0int
        }),
    {
        let ghost old_tokens = tokens@;
        let tok: Token;
        match state {
            LexerState::InQuotes => {
                let q = find_quote(cgxcode, pos);
                if q >= n {
                    return Err(LexError::UnterminatedString);
                }
                let mut word: Vec<u8> = Vec::new();
                let mut k: usize = pos;
                while k < q
                    invariant
                        pos <= k <= q < n,
                        n == cgxcode.len(),
                        word@ == cgxcode@.subrange(pos as int, k as int),
                    decreases q - k,
                {
                    word.push(cgxcode[k]);
                    k = k + 1;
                }
                match utf8_string(word) {
                    Some(st) => {
                        tok = Token::string(st);
                    },
                    None => {
                        return Err(LexError::InvalidUtf8);
                    },
                }
                pos = q + 1;
                state = flip_state(state);
            },
            LexerState::OutQuotes => {
                let b = cgxcode[pos];
                if b == LPAR {
                    tok = Token::Lpar;
                    pos = pos + 1;
                } else if b == RPAR {
                    tok = Token::Rpar;
                    pos = pos + 1;
                } else if b == SEMICOLON {
                    tok = Token::Semicolumn;
                    pos = pos + 1;
                } else if b == COLON {
                    tok = Token::Column;
                    pos = pos + 1;
                } else if b == EQUAL {
                    tok = Token::Equal;
                    pos = pos + 1;
                } else if b == QUOTE {
                    pos = pos + 1;
                    state = flip_state(state);
                    continue ;
                } else {
                    match LiteralParsing::find(cgxcode, pos) {
                        Ok(m) => {
                            tok = m.token;
                            pos = m.end;
                        },
                        Err(e) => {
                            return Err(e);
                        },
                    }
                }
            },
        }
        proof {
            lemma_append_prepend(tokens_view(old_tokens), tok@, lex_from(s@, pos as int, state));
        }
        tokens.push(tok);
        assert(tokens_view(tokens@) =~= tokens_view(old_tokens).push(tok@));
    }
    if state == LexerState::InQuotes {
        return Err(LexError::UnterminatedString);
    }
    assert(tokens_view(tokens@) + seq![] =~= tokens_view(tokens@));
    Ok(tokens)
}

} // verus!
