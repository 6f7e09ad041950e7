//! From text to tokens.

use crate::decimal::Decimal;
use crate::decimal::Scaled;
use crate::decode::binary_int;
use crate::decode::decimal_int;
use crate::decode::float_number;
use crate::decode::from_binary;
use crate::decode::from_decimal;
use crate::decode::from_float;
use crate::decode::from_hex;
use crate::decode::from_octal;
use crate::decode::from_si;
use crate::decode::from_string;
use crate::decode::hex_int;
use crate::decode::octal_int;
use crate::decode::si_int;
use crate::decode::string_body;
use crate::decode::DecodeError;
use crate::grammar::m_binary;
use crate::grammar::m_comment;
use crate::grammar::m_decimal;
use crate::grammar::m_double_quoted;
use crate::grammar::m_float_exponent;
use crate::grammar::m_float_fraction;
use crate::grammar::m_float_point;
use crate::grammar::m_hex;
use crate::grammar::m_ident;
use crate::grammar::m_line_end;
use crate::grammar::m_octal;
use crate::grammar::m_si_fraction;
use crate::grammar::m_si_whole;
use crate::grammar::m_single_quoted;
use crate::grammar::m_zero;
use crate::grammar::scan_comment;
use crate::grammar::scan_decimal;
use crate::grammar::scan_double_quoted;
use crate::grammar::scan_float_exponent;
use crate::grammar::scan_float_fraction;
use crate::grammar::scan_float_point;
use crate::grammar::scan_ident;
use crate::grammar::scan_line_end;
use crate::grammar::scan_radix;
use crate::grammar::scan_si_fraction;
use crate::grammar::scan_si_whole;
use crate::grammar::scan_single_quoted;
use crate::grammar::scan_zero;
use crate::grammar::CharClass;
use crate::integer::Integer;
use crate::text::chars_of;
use crate::text::text_of;
use vstd::prelude::*;

verus! {

/// A token of the language.
#[derive(Clone, Debug, PartialEq, Eq)]
pub enum Token {
    /// `:`
    Colon,
    /// `{`
    OpenBrace,
    /// `}`
    CloseBrace,
    /// `[`
    OpenBracket,
    /// `]`
    CloseBracket,
    /// `,`
    Comma,
    /// `.`
    Period,
    /// `null`
    Null,
    /// `true` or `false`
    Bool(bool),
    /// A whole number: decimal, with a magnitude suffix, or with a base
    /// prefix.
    Int(Integer),
    /// A decimal number with a point, an exponent or both.
    Float(Decimal),
    /// What stands between the quotes of a string literal.
    String(String),
    /// An identifier.
    Ident(String),
    /// A line end, or a comment up to and with its line end.
    Newline,
}

/// What a token is, apart from how it is stored.
pub ghost enum Lexeme {
    Colon,
    OpenBrace,
    CloseBrace,
    OpenBracket,
    CloseBracket,
    Comma,
    Period,
    Null,
    Bool(bool),
    Int(int),
    Float(Scaled),
    String(Seq<char>),
    Ident(Seq<char>),
    Newline,
}

impl View for Token {
    type V = Lexeme;

    open spec fn view(&self) -> Lexeme {
        match self {
            Token::Colon => Lexeme::Colon,
            Token::OpenBrace => Lexeme::OpenBrace,
            Token::CloseBrace => Lexeme::CloseBrace,
            Token::OpenBracket => Lexeme::OpenBracket,
            Token::CloseBracket => Lexeme::CloseBracket,
            Token::Comma => Lexeme::Comma,
            Token::Period => Lexeme::Period,
            Token::Null => Lexeme::Null,
            Token::Bool(b) => Lexeme::Bool(*b),
            Token::Int(n) => Lexeme::Int(n@),
            Token::Float(d) => Lexeme::Float(d@),
            Token::String(t) => Lexeme::String(t@),
            Token::Ident(t) => Lexeme::Ident(t@),
            Token::Newline => Lexeme::Newline,
        }
    }
}

/// What the tokens are, in order.
pub open spec fn lexemes(ts: Seq<Token>) -> Seq<Lexeme> {
    Seq::new(ts.len(), |i: int| ts[i]@)
}

/// The kinds of token that the text is cut into, before the literals are
/// decoded.
#[derive(Clone, Copy, Debug)]
pub enum Kind {
    Colon,
    OpenBrace,
    CloseBrace,
    OpenBracket,
    CloseBracket,
    Comma,
    Period,
    /// An identifier, `null`, `true` or `false`.
    Word,
    Decimal,
    Si,
    Binary,
    Octal,
    Hex,
    Float,
    Quoted,
    Newline,
}

/// The kind of token that a punctuation character is.
pub open spec fn punctuation(c: char) -> Option<Kind> {
    if c == ':' {
        Some(Kind::Colon)
    } else if c == '{' {
        Some(Kind::OpenBrace)
    } else if c == '}' {
        Some(Kind::CloseBrace)
    } else if c == '[' {
        Some(Kind::OpenBracket)
    } else if c == ']' {
        Some(Kind::CloseBracket)
    } else if c == ',' {
        Some(Kind::Comma)
    } else if c == '.' {
        Some(Kind::Period)
    } else {
        None
    }
}

/// The better of the best match so far and one more: the new one only where
/// it is longer.
pub open spec fn longer(best: Option<(Kind, int)>, kind: Kind, m: Option<int>) -> Option<
    (Kind, int),
> {
    match m {
        Some(e) => match best {
            Some(b) => if e > b.1 {
                Some((kind, e))
            } else {
                best
            },
            None => Some((kind, e)),
        },
        None => best,
    }
}

/// The token that begins at `p`: of all the patterns that match there, the
/// one with the longest match, and its end. Where two match equally far, the
/// one named first here wins.
pub open spec fn token_at(s: Seq<char>, p: int) -> Option<(Kind, int)> {
    let b = if 0 <= p < s.len() && punctuation(s[p]) is Some {
        Some((punctuation(s[p])->0, p + 1))
    } else {
        None
    };
    let b = longer(b, Kind::Word, m_ident(s, p));
    let b = longer(b, Kind::Decimal, m_zero(s, p));
    let b = longer(b, Kind::Decimal, m_decimal(s, p));
    let b = longer(b, Kind::Si, m_si_whole(s, p));
    let b = longer(b, Kind::Si, m_si_fraction(s, p));
    let b = longer(b, Kind::Binary, m_binary(s, p));
    let b = longer(b, Kind::Octal, m_octal(s, p));
    let b = longer(b, Kind::Hex, m_hex(s, p));
    let b = longer(b, Kind::Float, m_float_point(s, p));
    let b = longer(b, Kind::Float, m_float_exponent(s, p));
    let b = longer(b, Kind::Float, m_float_fraction(s, p));
    let b = longer(b, Kind::Quoted, m_double_quoted(s, p));
    let b = longer(b, Kind::Quoted, m_single_quoted(s, p));
    let b = longer(b, Kind::Newline, m_line_end(s, p));
    longer(b, Kind::Newline, m_comment(s, p))
}

/// The better of the best match so far and one more.
fn pick(best: Option<(Kind, usize)>, kind: Kind, m: Option<usize>) -> (r: Option<(Kind, usize)>)
    ensures
        best_as_int(r) == longer(best_as_int(best), kind, as_int(m)),
        r matches Some(x) ==> (m == Some(x.1) || best == Some(x)),
{
    match m {
        Some(e) => match best {
            Some(b) => if e > b.1 {
                Some((kind, e))
            } else {
                best
            },
            None => Some((kind, e)),
        },
        None => best,
    }
}

/// The view of a match as the specification has it.
pub open spec fn as_int(m: Option<usize>) -> Option<int> {
    match m {
        Some(e) => Some(e as int),
        None => None,
    }
}

/// The view of a best match as the specification has it.
pub open spec fn best_as_int(b: Option<(Kind, usize)>) -> Option<(Kind, int)> {
    match b {
        Some(x) => Some((x.0, x.1 as int)),
        None => None,
    }
}

/// The kind of the token that begins at `p`, and where it ends.
fn scan_token(s: &Vec<char>, p: usize) -> (r: Option<(Kind, usize)>)
    requires
        p < s.len(),
    ensures
        best_as_int(r) == token_at(s@, p as int),
        r matches Some(x) ==> p < x.1 <= s.len(),
{
    let c = s[p];
    let b: Option<(Kind, usize)> = if c == ':' {
        Some((Kind::Colon, p + 1))
    } else if c == '{' {
        Some((Kind::OpenBrace, p + 1))
    } else if c == '}' {
        Some((Kind::CloseBrace, p + 1))
    } else if c == '[' {
        Some((Kind::OpenBracket, p + 1))
    } else if c == ']' {
        Some((Kind::CloseBracket, p + 1))
    } else if c == ',' {
        Some((Kind::Comma, p + 1))
    } else if c == '.' {
        Some((Kind::Period, p + 1))
    } else {
        None
    };
    let m = scan_ident(s, p);
    assert(as_int(m) == m_ident(s@, p as int));
    let b = pick(b, Kind::Word, m);
    let m = scan_zero(s, p);
    assert(as_int(m) == m_zero(s@, p as int));
    let b = pick(b, Kind::Decimal, m);
    let m = scan_decimal(s, p);
    assert(as_int(m) == m_decimal(s@, p as int));
    let b = pick(b, Kind::Decimal, m);
    let m = scan_si_whole(s, p);
    assert(as_int(m) == m_si_whole(s@, p as int));
    let b = pick(b, Kind::Si, m);
    let m = scan_si_fraction(s, p);
    assert(as_int(m) == m_si_fraction(s@, p as int));
    let b = pick(b, Kind::Si, m);
    let m = scan_radix(s, p, 'b', 'b', CharClass::Binary, CharClass::BinaryOrUnderscore);
    assert(as_int(m) == m_binary(s@, p as int));
    let b = pick(b, Kind::Binary, m);
    let m = scan_radix(s, p, 'o', 'o', CharClass::Octal, CharClass::OctalOrUnderscore);
    assert(as_int(m) == m_octal(s@, p as int));
    let b = pick(b, Kind::Octal, m);
    let m = scan_radix(s, p, 'x', 'X', CharClass::Hex, CharClass::HexOrUnderscore);
    assert(as_int(m) == m_hex(s@, p as int));
    let b = pick(b, Kind::Hex, m);
    let m = scan_float_point(s, p);
    assert(as_int(m) == m_float_point(s@, p as int));
    let b = pick(b, Kind::Float, m);
    let m = scan_float_exponent(s, p);
    assert(as_int(m) == m_float_exponent(s@, p as int));
    let b = pick(b, Kind::Float, m);
    let m = scan_float_fraction(s, p);
    assert(as_int(m) == m_float_fraction(s@, p as int));
    let b = pick(b, Kind::Float, m);
    let m = scan_double_quoted(s, p);
    assert(as_int(m) == m_double_quoted(s@, p as int));
    let b = pick(b, Kind::Quoted, m);
    let m = scan_single_quoted(s, p);
    assert(as_int(m) == m_single_quoted(s@, p as int));
    let b = pick(b, Kind::Quoted, m);
    let m = scan_line_end(s, p);
    assert(as_int(m) == m_line_end(s@, p as int));
    let b = pick(b, Kind::Newline, m);
    let m = scan_comment(s, p);
    assert(as_int(m) == m_comment(s@, p as int));
    pick(b, Kind::Newline, m)
}

/// What the word `w` is: one of the three keywords, or an identifier.
pub open spec fn word_lexeme(w: Seq<char>) -> Lexeme {
    if w == seq!['n', 'u', 'l', 'l'] {
        Lexeme::Null
    } else if w == seq!['t', 'r', 'u', 'e'] {
        Lexeme::Bool(true)
    } else if w == seq!['f', 'a', 'l', 's', 'e'] {
        Lexeme::Bool(false)
    } else {
        Lexeme::Ident(w)
    }
}

/// A whole number as a token, or the reason why there is none.
pub open spec fn int_lexeme(r: Result<int, DecodeError>) -> Result<Lexeme, DecodeError> {
    match r {
        Ok(v) => Ok(Lexeme::Int(v)),
        Err(e) => Err(e),
    }
}

/// The token that the slice `w` of kind `kind` stands for, or why it stands
/// for none.
pub open spec fn lexeme_of(kind: Kind, w: Seq<char>) -> Result<Lexeme, DecodeError> {
    match kind {
        Kind::Colon => Ok(Lexeme::Colon),
        Kind::OpenBrace => Ok(Lexeme::OpenBrace),
        Kind::CloseBrace => Ok(Lexeme::CloseBrace),
        Kind::OpenBracket => Ok(Lexeme::OpenBracket),
        Kind::CloseBracket => Ok(Lexeme::CloseBracket),
        Kind::Comma => Ok(Lexeme::Comma),
        Kind::Period => Ok(Lexeme::Period),
        Kind::Word => Ok(word_lexeme(w)),
        Kind::Decimal => int_lexeme(decimal_int(w)),
        Kind::Si => int_lexeme(si_int(w)),
        Kind::Binary => int_lexeme(binary_int(w)),
        Kind::Octal => int_lexeme(octal_int(w)),
        Kind::Hex => int_lexeme(hex_int(w)),
        Kind::Float => match float_number(w) {
            Ok(v) => Ok(Lexeme::Float(v)),
            Err(e) => Err(e),
        },
        Kind::Quoted => match string_body(w) {
            Ok(v) => Ok(Lexeme::String(v)),
            Err(e) => Err(e),
        },
        Kind::Newline => Ok(Lexeme::Newline),
    }
}

/// A decoded whole number as a token.
fn int_token(r: Result<Integer, DecodeError>) -> (t: Result<Token, DecodeError>)
    ensures
        t matches Ok(x) ==> r matches Ok(n) && x == Token::Int(n),
        t matches Err(e) ==> r == Err::<Integer, DecodeError>(e),
{
    match r {
        Ok(n) => Ok(Token::Int(n)),
        Err(e) => Err(e),
    }
}

/// The token that the word `s[p..e]` is.
fn word_token(s: &Vec<char>, p: usize, e: usize) -> (t: Token)
    requires
        p < e <= s.len(),
    ensures
        t@ == word_lexeme(s@.subrange(p as int, e as int)),
{
    let ghost w = s@.subrange(p as int, e as int);
    let n = e - p;
    if n == 4 && s[p] == 'n' && s[p + 1] == 'u' && s[p + 2] == 'l' && s[p + 3] == 'l' {
        assert(w =~= seq!['n', 'u', 'l', 'l']);
        Token::Null
    } else if n == 4 && s[p] == 't' && s[p + 1] == 'r' && s[p + 2] == 'u' && s[p + 3] == 'e' {
        assert(w =~= seq!['t', 'r', 'u', 'e']);
        Token::Bool(true)
    } else if n == 5 && s[p] == 'f' && s[p + 1] == 'a' && s[p + 2] == 'l' && s[p + 3] == 's' && s[p
        + 4] == 'e' {
        assert(w =~= seq!['f', 'a', 'l', 's', 'e']);
        Token::Bool(false)
    } else {
        proof {
            let null = seq!['n', 'u', 'l', 'l'];
            let yes = seq!['t', 'r', 'u', 'e'];
            let no = seq!['f', 'a', 'l', 's', 'e'];
            if w == null {
                assert(w[0] == null[0] && w[1] == null[1] && w[2] == null[2] && w[3] == null[3]);
            }
            if w == yes {
                assert(w[0] == yes[0] && w[1] == yes[1] && w[2] == yes[2] && w[3] == yes[3]);
            }
            if w == no {
                assert(w[0] == no[0] && w[1] == no[1] && w[2] == no[2] && w[3] == no[3] && w[4]
                    == no[4]);
            }
        }
        Token::Ident(text_of(s, p, e))
    }
}

/// Whether a kind of token is a literal that is decoded.
spec fn is_literal(kind: Kind) -> bool {
    kind is Decimal || kind is Si || kind is Binary || kind is Octal || kind is Hex || kind is Float
        || kind is Quoted
}

/// The token that the literal `text` of kind `kind` stands for.
fn literal_token(kind: Kind, text: &str) -> (r: Result<Token, DecodeError>)
    requires
        is_literal(kind),
    ensures
        match lexeme_of(kind, text@) {
            Ok(x) => r matches Ok(t) && t@ == x,
            Err(d) => r == Err::<Token, DecodeError>(d),
        },
{
    match kind {
        Kind::Decimal => int_token(from_decimal(text)),
        Kind::Si => int_token(from_si(text)),
        Kind::Binary => int_token(from_binary(text)),
        Kind::Octal => int_token(from_octal(text)),
        Kind::Hex => int_token(from_hex(text)),
        Kind::Float => match from_float(text) {
            Ok(d) => Ok(Token::Float(d)),
            Err(x) => Err(x),
        },
        _ => match from_string(text) {
            Ok(t) => Ok(Token::String(t)),
            Err(x) => Err(x),
        },
    }
}

/// The token that the slice `s[p..e]` of kind `kind` stands for.
fn make_token(kind: Kind, s: &Vec<char>, p: usize, e: usize) -> (r: Result<Token, DecodeError>)
    requires
        p < e <= s.len(),
    ensures
        match lexeme_of(kind, s@.subrange(p as int, e as int)) {
            Ok(x) => r matches Ok(t) && t@ == x,
            Err(d) => r == Err::<Token, DecodeError>(d),
        },
{
    match kind {
        Kind::Colon => Ok(Token::Colon),
        Kind::OpenBrace => Ok(Token::OpenBrace),
        Kind::CloseBrace => Ok(Token::CloseBrace),
        Kind::OpenBracket => Ok(Token::OpenBracket),
        Kind::CloseBracket => Ok(Token::CloseBracket),
        Kind::Comma => Ok(Token::Comma),
        Kind::Period => Ok(Token::Period),
        Kind::Word => Ok(word_token(s, p, e)),
        Kind::Newline => Ok(Token::Newline),
        _ => literal_token(kind, text_of(s, p, e).as_str()),
    }
}

/// Why the text could not be cut into tokens.
#[derive(Clone, Copy, Debug, PartialEq, Eq)]
pub enum LexReason {
    /// No token begins with the character at that place.
    Unrecognized,
    /// The literal there could not be decoded.
    Literal(DecodeError),
}

/// A failure of the lexer: where, on which slice of the text, and why.
#[derive(Clone, Debug, PartialEq, Eq)]
pub struct LexError {
    /// How many characters stand before the slice.
    pub offset: usize,
    /// The slice: the literal that could not be decoded, or the character
    /// that begins no token.
    pub slice: String,
    /// Why.
    pub reason: LexReason,
}

/// A failure of the lexer, as the specification has it.
pub ghost struct LexFault {
    pub offset: int,
    pub slice: Seq<char>,
    pub reason: LexReason,
}

impl View for LexError {
    type V = LexFault;

    open spec fn view(&self) -> LexFault {
        LexFault { offset: self.offset as int, slice: self.slice@, reason: self.reason }
    }
}

/// The tokens `head` before what `rest` came to.
pub open spec fn after(head: Seq<Lexeme>, rest: Result<Seq<Lexeme>, LexFault>) -> Result<
    Seq<Lexeme>,
    LexFault,
> {
    match rest {
        Ok(tail) => Ok(head + tail),
        Err(f) => Err(f),
    }
}

/// The tokens `a` before the tokens `b` before what `rest` came to.
pub proof fn lemma_after_after(a: Seq<Lexeme>, b: Seq<Lexeme>, rest: Result<Seq<Lexeme>, LexFault>)
    ensures
        after(a, after(b, rest)) == after(a + b, rest),
{
    match rest {
        Ok(tail) => {
            assert(a + (b + tail) =~= (a + b) + tail);
        },
        Err(_) => {},
    }
}

/// The token that begins at `p`, decoded, and where it ends; or the failure
/// where no token begins there, or the literal there cannot be decoded.
pub open spec fn token_from(s: Seq<char>, p: int) -> Result<(Lexeme, int), LexFault> {
    match token_at(s, p) {
        Some((kind, e)) => if p < e <= s.len() {
            match lexeme_of(kind, s.subrange(p, e)) {
                Ok(x) => Ok((x, e)),
                Err(d) => Err(
                    LexFault { offset: p, slice: s.subrange(p, e), reason: LexReason::Literal(d) },
                ),
            }
        } else {
            Err(LexFault { offset: p, slice: s.subrange(p, p + 1), reason: LexReason::Unrecognized })
        },
        None => Err(
            LexFault { offset: p, slice: s.subrange(p, p + 1), reason: LexReason::Unrecognized },
        ),
    }
}

/// The tokens of `s` from `p` on: blanks are skipped, and each token is the
/// longest that begins where the one before it ended. The first place where no
/// token begins, or where a literal cannot be decoded, fails the whole.
#[verifier::opaque]
pub open spec fn lex_from(s: Seq<char>, p: int) -> Result<Seq<Lexeme>, LexFault>
    decreases s.len() - p,
{
    if p < 0 || p >= s.len() {
        Ok(Seq::empty())
    } else if CharClass::Blank.has(s[p]) {
        lex_from(s, p + 1)
    } else {
        match token_from(s, p) {
            Ok((x, e)) => after(seq![x], lex_from(s, e)),
            Err(f) => Err(f),
        }
    }
}

/// The token that begins at `p`, and where it ends.
fn next_token(s: &Vec<char>, p: usize) -> (r: Result<(Token, usize), LexError>)
    requires
        p < s.len(),
    ensures
        match token_from(s@, p as int) {
            Ok((x, e)) => r matches Ok((t, end)) && t@ == x && end == e && p < e <= s.len(),
            Err(f) => r matches Err(e) && e@ == f,
        },
{
    match scan_token(s, p) {
        None => Err(
            LexError { offset: p, slice: text_of(s, p, p + 1), reason: LexReason::Unrecognized },
        ),
        Some((kind, e)) => match make_token(kind, s, p, e) {
            Err(d) => Err(
                LexError { offset: p, slice: text_of(s, p, e), reason: LexReason::Literal(d) },
            ),
            Ok(t) => Ok((t, e)),
        },
    }
}

/// The tokens of a text.
pub open spec fn lex_spec(s: Seq<char>) -> Result<Seq<Lexeme>, LexFault> {
    lex_from(s, 0)
}

/// The tokens of `s` from `p` on that come before the first failure: all of
/// them where there is none.
#[verifier::opaque]
pub open spec fn lexed_before(s: Seq<char>, p: int) -> Seq<Lexeme>
    decreases s.len() - p,
{
    if p < 0 || p >= s.len() {
        Seq::empty()
    } else if CharClass::Blank.has(s[p]) {
        lexed_before(s, p + 1)
    } else {
        match token_from(s, p) {
            Ok((x, e)) => seq![x] + lexed_before(s, e),
            Err(_) => Seq::empty(),
        }
    }
}

/// Cuts a text into its tokens as far as that goes: the tokens before the
/// first failure, and the failure if there is one.
pub fn lex_partial(source: &str) -> (r: (Vec<Token>, Option<LexError>))
    ensures
        lexemes(r.0@) == lexed_before(source@, 0),
        match lex_spec(source@) {
            Ok(ls) => r.1 is None && lexemes(r.0@) == ls,
            Err(f) => r.1 matches Some(e) && e@ == f,
        },
{
    let s = chars_of(source);
    let n = s.len();
    let mut tokens: Vec<Token> = Vec::new();
    let mut p: usize = 0;
    proof {
        reveal(lex_from);
        reveal(lexed_before);
    }
    assert(lexemes(tokens@) =~= Seq::empty());
    assert(Seq::<Lexeme>::empty() + lexed_before(s@, 0) =~= lexed_before(s@, 0));
    assert(after(Seq::empty(), lex_from(s@, 0)) == lex_from(s@, 0)) by {
        match lex_from(s@, 0) {
            Ok(tail) => {
                assert(Seq::<Lexeme>::empty() + tail =~= tail);
            },
            Err(_) => {},
        }
    }
    while p < n
        invariant
            p <= n,
            n == s.len(),
            s@ == source@,
            lex_from(s@, 0) == after(lexemes(tokens@), lex_from(s@, p as int)),
            lexed_before(s@, 0) == lexemes(tokens@) + lexed_before(s@, p as int),
        decreases n - p,
    {
        proof {
            reveal(lex_from);
            reveal(lexed_before);
        }
        let c = s[p];
        if c == ' ' || c == '\t' {
            p += 1;
        } else {
            match next_token(&s, p) {
                Err(e) => {
                    assert(lexemes(tokens@) + Seq::<Lexeme>::empty() =~= lexemes(tokens@));
                    return (tokens, Some(e));
                },
                Ok((t, e)) => {
                    let ghost before = lexemes(tokens@);
                    tokens.push(t);
                    proof {
                        assert(lexemes(tokens@) =~= before + seq![t@]);
                        lemma_after_after(before, seq![t@], lex_from(s@, e as int));
                        assert(before + (seq![t@] + lexed_before(s@, e as int)) =~= (before + seq![
                            t@,
                        ]) + lexed_before(s@, e as int));
                    }
                    p = e;
                },
            }
        }
    }
    proof {
        reveal(lex_from);
        reveal(lexed_before);
        assert(lexemes(tokens@) + Seq::<Lexeme>::empty() =~= lexemes(tokens@));
    }
    (tokens, None)
}

/// Cuts a text into its tokens.
pub fn lex(source: &str) -> (r: Result<Vec<Token>, LexError>)
    ensures
        match lex_spec(source@) {
            Ok(ls) => r matches Ok(ts) && lexemes(ts@) == ls,
            Err(f) => r matches Err(e) && e@ == f,
        },
{
    match lex_partial(source) {
        (tokens, None) => Ok(tokens),
        (_, Some(e)) => Err(e),
    }
}

} // verus!
