//! Lexing the compact text of a JSON document gives the tokens of the
//! document.

use crate::decimal::decimal_literal;
use crate::decimal::decimal_value;
use crate::decimal::literal_exponent_start;
use crate::decimal::literal_has_point;
use crate::decimal::literal_mantissa_end;
use crate::decimal::literal_whole_end;
use crate::decode::decimal_int;
use crate::decode::decimal_shape;
use crate::decode::float_number;
use crate::decode::float_shape;
use crate::decode::full;
use crate::decode::string_body;
use crate::decode::DecodeError;
use crate::grammar::after_sign;
use crate::grammar::at;
use crate::grammar::at_class;
use crate::grammar::is_decimal_digit;
use crate::grammar::lemma_run;
use crate::grammar::lemma_run_is;
use crate::grammar::m_binary;
use crate::grammar::m_comment;
use crate::grammar::m_decimal;
use crate::grammar::m_digits;
use crate::grammar::m_double_quoted;
use crate::grammar::m_exponent;
use crate::grammar::m_float_exponent;
use crate::grammar::m_float_fraction;
use crate::grammar::m_float_point;
use crate::grammar::m_hex;
use crate::grammar::m_ident;
use crate::grammar::m_line_end;
use crate::grammar::m_octal;
use crate::grammar::m_si_fraction;
use crate::grammar::m_si_whole;
use crate::grammar::m_single_quoted;
use crate::grammar::m_zero;
use crate::grammar::quoted_end;
use crate::grammar::run_end;
use crate::grammar::CharClass;
use crate::integer::radix_literal_value;
use crate::json::JsonTree;
use crate::json_tree::item_lexemes;
use crate::json_tree::items_text;
use crate::json_tree::json_integer;
use crate::json_tree::json_number;
use crate::json_tree::json_text;
use crate::json_tree::leaf_lexeme;
use crate::json_tree::leaf_text;
use crate::json_tree::lexemes_of;
use crate::json_tree::member_lexemes;
use crate::json_tree::members_text;
use crate::json_tree::plain;
use crate::json_tree::plain_json;
use crate::lex::after;
use crate::lex::lemma_after_after;
use crate::lex::lex_from;
use crate::lex::lex_spec;
use crate::lex::lexeme_of;
use crate::lex::punctuation;
use crate::lex::token_at;
use crate::lex::Kind;
use crate::lex::LexFault;
use crate::lex::Lexeme;
use crate::text::quoted;
use vstd::prelude::*;

verus! {

/// Whether a value of a compact JSON text may end before this character: it
/// is `,`, `]` or `}`.
pub open spec fn stops(c: char) -> bool {
    c == ',' || c == ']' || c == '}'
}

/// Whether a value may end at `e`: the text ends there, or a character
/// stands there before which a value may end.
pub open spec fn ends(s: Seq<char>, e: int) -> bool {
    e == s.len() || (0 <= e < s.len() && stops(s[e]))
}

/// One token that begins at `p` and is decoded comes before the tokens
/// from its end on.
pub proof fn lemma_lex_token(s: Seq<char>, p: int, kind: Kind, e: int, x: Lexeme)
    requires
        0 <= p < e <= s.len(),
        !CharClass::Blank.has(s[p]),
        token_at(s, p) == Some((kind, e)),
        lexeme_of(kind, s.subrange(p, e)) == Ok::<Lexeme, DecodeError>(x),
    ensures
        lex_from(s, p) == after(seq![x], lex_from(s, e)),
{
    reveal(lex_from);
}

/// A bracket, a brace, a comma or a colon is a token by itself.
pub proof fn lemma_lex_punctuation(s: Seq<char>, p: int, x: Lexeme)
    requires
        0 <= p < s.len(),
        (s[p] == '[' && x == Lexeme::OpenBracket) || (s[p] == ']' && x == Lexeme::CloseBracket) || (
        s[p] == '{' && x == Lexeme::OpenBrace) || (s[p] == '}' && x == Lexeme::CloseBrace) || (s[p]
            == ',' && x == Lexeme::Comma) || (s[p] == ':' && x == Lexeme::Colon),
    ensures
        lex_from(s, p) == after(seq![x], lex_from(s, p + 1)),
{
    let kind = punctuation(s[p])->0;
    assert(m_ident(s, p) is None);
    assert(m_zero(s, p) is None);
    assert(m_decimal(s, p) is None);
    assert(m_si_whole(s, p) is None);
    assert(m_si_fraction(s, p) is None);
    assert(m_binary(s, p) is None);
    assert(m_octal(s, p) is None);
    assert(m_hex(s, p) is None);
    assert(m_float_point(s, p) is None);
    assert(m_float_exponent(s, p) is None);
    assert(m_float_fraction(s, p) is None);
    assert(m_double_quoted(s, p) is None);
    assert(m_single_quoted(s, p) is None);
    assert(m_line_end(s, p) is None);
    assert(m_comment(s, p) is None);
    assert(token_at(s, p) == Some((kind, p + 1)));
    lemma_lex_token(s, p, kind, p + 1, x);
}

/// Whether `word` stands in `s` at `p`.
pub open spec fn stands(s: Seq<char>, p: int, word: Seq<char>) -> bool {
    0 <= p && p + word.len() <= s.len() && s.subrange(p, p + word.len()) == word
}

/// `null`, `true` or `false` before the end of a value is a token.
pub proof fn lemma_lex_word(s: Seq<char>, p: int, word: Seq<char>, x: Lexeme)
    requires
        stands(s, p, word),
        ends(s, p + word.len()),
        (word == seq!['n', 'u', 'l', 'l'] && x == Lexeme::Null) || (word == seq!['t', 'r', 'u', 'e']
            && x == Lexeme::Bool(true)) || (word == seq!['f', 'a', 'l', 's', 'e'] && x
            == Lexeme::Bool(false)),
    ensures
        lex_from(s, p) == after(seq![x], lex_from(s, p + word.len())),
{
    let e = p + word.len();
    let sub = s.subrange(p, e);
    assert forall|i: int| p <= i < e implies s[i] == word[i - p] by {
        assert(sub[i - p] == s[i]);
    }
    assert(s[p] == word[0]);
    assert forall|i: int| p + 1 <= i < e implies CharClass::IdentRest.has(#[trigger] s[i]) by {
        assert(s[i] == word[i - p]);
    }
    lemma_run_is(s, p + 1, e, CharClass::IdentRest);
    assert(m_ident(s, p) == Some(e));
    assert(m_zero(s, p) is None);
    assert(m_decimal(s, p) is None);
    assert(m_si_whole(s, p) is None);
    assert(m_si_fraction(s, p) is None);
    assert(m_binary(s, p) is None);
    assert(m_octal(s, p) is None);
    assert(m_hex(s, p) is None);
    assert(m_float_point(s, p) is None);
    assert(m_float_exponent(s, p) is None);
    assert(m_float_fraction(s, p) is None);
    assert(m_double_quoted(s, p) is None);
    assert(m_single_quoted(s, p) is None);
    assert(m_line_end(s, p) is None);
    assert(m_comment(s, p) is None);
    assert(punctuation(s[p]) is None);
    assert(token_at(s, p) == Some((Kind::Word, e)));
    lemma_lex_token(s, p, Kind::Word, e, x);
}

/// A stretch without a double quote or a backslash, and then a double quote,
/// ends a string.
pub proof fn lemma_quoted_end(s: Seq<char>, q: int, e: int)
    requires
        0 <= q <= e < s.len(),
        forall|i: int| q <= i < e ==> #[trigger] s[i] != '"' && s[i] != '\\',
        s[e] == '"',
    ensures
        quoted_end(s, q) == Some(e + 1),
    decreases e - q,
{
    if q < e {
        assert(s[q] != '"' && s[q] != '\\');
        lemma_quoted_end(s, q + 1, e);
    }
}

/// A plain text between double quotes is a string token.
pub proof fn lemma_lex_string(s: Seq<char>, p: int, body: Seq<char>)
    requires
        plain(body),
        stands(s, p, quoted(body)),
    ensures
        lex_from(s, p) == after(seq![Lexeme::String(body)], lex_from(s, p + body.len() + 2)),
{
    let word = quoted(body);
    let e = p + body.len() + 2;
    let sub = s.subrange(p, e);
    assert(word.len() == body.len() + 2);
    assert forall|i: int| p <= i < e implies s[i] == word[i - p] by {
        assert(sub[i - p] == s[i]);
    }
    assert(word[0] == '"');
    assert(word[body.len() as int + 1] == '"');
    assert forall|i: int| p + 1 <= i < e - 1 implies #[trigger] s[i] != '"' && s[i] != '\\' by {
        assert(s[i] == word[i - p]);
        assert(word[i - p] == body[i - p - 1]);
    }
    lemma_quoted_end(s, p + 1, e - 1);
    assert forall|i: int| 1 <= i < sub.len() - 1 implies #[trigger] sub[i] != '"' && sub[i]
        != '\\' by {
        assert(sub[i] == body[i - 1]);
    }
    lemma_quoted_end(sub, 1, sub.len() - 1);
    assert(m_double_quoted(s, p) == Some(e));
    assert(full(m_double_quoted(sub, 0), sub));
    assert(sub.subrange(1, sub.len() - 1) =~= body);
    assert(string_body(sub) == Ok::<Seq<char>, DecodeError>(body));
    assert(m_ident(s, p) is None);
    assert(m_zero(s, p) is None);
    assert(m_decimal(s, p) is None);
    assert(m_si_whole(s, p) is None);
    assert(m_si_fraction(s, p) is None);
    assert(m_binary(s, p) is None);
    assert(m_octal(s, p) is None);
    assert(m_hex(s, p) is None);
    assert(m_float_point(s, p) is None);
    assert(m_float_exponent(s, p) is None);
    assert(m_float_fraction(s, p) is None);
    assert(m_single_quoted(s, p) is None);
    assert(m_line_end(s, p) is None);
    assert(m_comment(s, p) is None);
    assert(punctuation(s[p]) is None);
    assert(token_at(s, p) == Some((Kind::Quoted, e)));
    lemma_lex_token(s, p, Kind::Quoted, e, Lexeme::String(body));
}

/// Whether every character from `a` up to `b` is a decimal digit.
pub open spec fn digits(s: Seq<char>, a: int, b: int) -> bool {
    forall|i: int| a <= i < b ==> is_decimal_digit(#[trigger] s[i])
}

/// Whether a number cannot go on with this character: it is no digit, no
/// underscore, no point, no letter that an exponent or a suffix begins with.
pub open spec fn breaks(c: char) -> bool {
    !CharClass::DigitOrUnderscore.has(c) && c != '.' && c != 'e' && c != 'E'
        && !crate::grammar::is_si_letter(c) && c != 'b' && c != 'o' && c != 'x' && c != 'X'
}

/// Where the digits of the exponent begin, the mantissa ending at `f`.
pub open spec fn exponent_start(s: Seq<char>, f: int) -> int {
    if at(s, f + 1, '+') || at(s, f + 1, '-') {
        f + 2
    } else {
        f + 1
    }
}

/// Whether a JSON number stands in `s` from `p` up to `e`, the digits before
/// its point ending at `w` and its mantissa at `f`, and cannot go on at `e`.
pub open spec fn number_at(s: Seq<char>, p: int, w: int, f: int, e: int) -> bool {
    let q = after_sign(s, p);
    let x = exponent_start(s, f);
    &&& 0 <= p <= q < w <= f <= e <= s.len()
    &&& digits(s, q, w)
    &&& s[q] == '0' ==> w == q + 1
    &&& f > w ==> s[w] == '.' && w + 1 < f && digits(s, w + 1, f)
    &&& f == w ==> !at(s, w, '.')
    &&& e > f ==> (s[f] == 'e' || s[f] == 'E') && x < e && digits(s, x, e)
    &&& e == f ==> !(at(s, f, 'e') || at(s, f, 'E'))
    &&& e == s.len() || breaks(s[e])
}

/// A stretch of digits that cannot go on is a run of digits, with or
/// without underscores allowed in it.
pub proof fn lemma_digits_run(s: Seq<char>, a: int, b: int)
    requires
        0 <= a <= b <= s.len(),
        digits(s, a, b),
        b == s.len() || !CharClass::DigitOrUnderscore.has(s[b]),
    ensures
        run_end(s, a, CharClass::Digit) == b,
        run_end(s, a, CharClass::DigitOrUnderscore) == b,
{
    assert forall|i: int| a <= i < b implies CharClass::Digit.has(#[trigger] s[i]) by {
        assert(is_decimal_digit(s[i]));
    }
    assert forall|i: int| a <= i < b implies CharClass::DigitOrUnderscore.has(#[trigger] s[i]) by {
        assert(is_decimal_digit(s[i]));
    }
    lemma_run_is(s, a, b, CharClass::Digit);
    lemma_run_is(s, a, b, CharClass::DigitOrUnderscore);
}

/// A JSON number stands in its own text.
pub proof fn lemma_number_itself(text: Seq<char>)
    requires
        json_number(text),
    ensures
        number_at(
            text,
            0,
            literal_whole_end(text),
            literal_mantissa_end(text),
            text.len() as int,
        ),
{
    let q = after_sign(text, 0);
    let w = literal_whole_end(text);
    let f = literal_mantissa_end(text);
    let e = text.len() as int;
    lemma_run(text, q, CharClass::Digit);
    if literal_has_point(text) {
        lemma_run(text, w + 1, CharClass::Digit);
    }
    if f < e {
        let x = literal_exponent_start(text);
        lemma_run(text, x, CharClass::Digit);
        assert(x == exponent_start(text, f));
    }
    assert(digits(text, q, w)) by {
        assert forall|i: int| q <= i < w implies is_decimal_digit(#[trigger] text[i]) by {
            assert(CharClass::Digit.has(text[i]));
        }
    }
    if f > w {
        assert(digits(text, w + 1, f)) by {
            assert forall|i: int| w + 1 <= i < f implies is_decimal_digit(#[trigger] text[i]) by {
                assert(CharClass::Digit.has(text[i]));
            }
        }
    }
    if e > f {
        let x = exponent_start(text, f);
        assert(digits(text, x, e)) by {
            assert forall|i: int| x <= i < e implies is_decimal_digit(#[trigger] text[i]) by {
                assert(CharClass::Digit.has(text[i]));
            }
        }
    }
}

/// A JSON number that stands in its own text stands wherever its text does,
/// before the end of a value.
pub proof fn lemma_number_moved(s: Seq<char>, p: int, text: Seq<char>, w: int, f: int)
    requires
        number_at(text, 0, w, f, text.len() as int),
        stands(s, p, text),
        p + text.len() == s.len() || breaks(s[p + text.len()]),
    ensures
        number_at(s, p, p + w, p + f, p + text.len()),
{
    let e = text.len() as int;
    let sub = s.subrange(p, p + e);
    assert forall|i: int| 0 <= i < e implies s[p + i] == #[trigger] text[i] by {
        assert(sub[i] == s[p + i]);
    }
    let q = after_sign(text, 0);
    assert(s[p] == text[0]);
    assert(after_sign(s, p) == p + q);
    assert(digits(s, p + q, p + w)) by {
        assert forall|i: int| p + q <= i < p + w implies is_decimal_digit(#[trigger] s[i]) by {
            assert(s[i] == text[i - p]);
            assert(is_decimal_digit(text[i - p]));
        }
    }
    assert(s[p + q] == text[q]);
    if f > w {
        assert(s[p + w] == text[w]);
        assert(digits(s, p + w + 1, p + f)) by {
            assert forall|i: int| p + w + 1 <= i < p + f implies is_decimal_digit(
                #[trigger] s[i],
            ) by {
                assert(s[i] == text[i - p]);
                assert(is_decimal_digit(text[i - p]));
            }
        }
    } else {
        if w < e {
            assert(s[p + w] == text[w]);
        }
    }
    if e > f {
        assert(s[p + f] == text[f]);
        if f + 1 < e {
            assert(s[p + f + 1] == text[f + 1]);
        }
        let x = exponent_start(text, f);
        assert(exponent_start(s, p + f) == p + x);
        assert(digits(s, p + x, p + e)) by {
            assert forall|i: int| p + x <= i < p + e implies is_decimal_digit(#[trigger] s[i]) by {
                assert(s[i] == text[i - p]);
                assert(is_decimal_digit(text[i - p]));
            }
        }
    }
}

/// Where each pattern ends on a JSON number.
pub proof fn lemma_number_matches(s: Seq<char>, p: int, w: int, f: int, e: int)
    requires
        number_at(s, p, w, f, e),
    ensures
        punctuation(s[p]) is None,
        !CharClass::Blank.has(s[p]),
        m_ident(s, p) is None,
        m_zero(s, p) matches Some(z) ==> z <= w,
        m_decimal(s, p) matches Some(z) ==> z == w,
        m_zero(s, p) is Some || m_decimal(s, p) == Some(w),
        s[after_sign(s, p)] == '0' ==> m_zero(s, p) == Some(w),
        m_si_whole(s, p) is None,
        m_si_fraction(s, p) is None,
        m_binary(s, p) is None,
        m_octal(s, p) is None,
        m_hex(s, p) is None,
        m_float_point(s, p) == if f > w {
            Some(e)
        } else {
            None
        },
        m_float_exponent(s, p) == if f == w && e > f {
            Some(e)
        } else {
            None
        },
        m_float_fraction(s, p) is None,
        m_double_quoted(s, p) is None,
        m_single_quoted(s, p) is None,
        m_line_end(s, p) is None,
        m_comment(s, p) is None,
{
    let q = after_sign(s, p);
    let x = exponent_start(s, f);
    assert(is_decimal_digit(s[q]));
    if w < s.len() {
        assert(!CharClass::DigitOrUnderscore.has(s[w])) by {
            if f > w {
            } else if e > f {
            } else {
                assert(breaks(s[e]));
            }
        }
    }
    lemma_digits_run(s, q + 1, w);
    assert(m_digits(s, q) == Some(w));
    if f > w {
        if f < s.len() {
            assert(!CharClass::DigitOrUnderscore.has(s[f])) by {
                if e > f {
                } else {
                    assert(breaks(s[e]));
                }
            }
        }
        assert(is_decimal_digit(s[w + 1]));
        lemma_digits_run(s, w + 2, f);
        assert(m_digits(s, w + 1) == Some(f));
    }
    if e > f {
        assert(is_decimal_digit(s[x]));
        lemma_digits_run(s, x + 1, e);
        assert(m_digits(s, x) == Some(e));
        assert(m_exponent(s, f) == Some(e));
    } else {
        assert(m_exponent(s, f) is None);
    }
    if f == w {
        assert(!at(s, w, '.'));
        assert(m_float_point(s, p) is None);
    }
    assert(crate::grammar::m_suffix(s, f) is None) by {
        if e > f {
        } else if f < s.len() {
            assert(breaks(s[f]));
        }
    }
    assert(m_si_whole(s, p) is None);
    assert(m_binary(s, p) is None && m_octal(s, p) is None && m_hex(s, p) is None) by {
        if at(s, p, '0') {
            assert(q == p);
            assert(w == p + 1);
            if p + 1 < s.len() {
                if f > w {
                } else if e > f {
                } else {
                    assert(breaks(s[p + 1]));
                }
            }
        }
    }
}

/// A JSON number before the end of a value is a number token.
pub proof fn lemma_lex_number(s: Seq<char>, p: int, text: Seq<char>)
    requires
        json_number(text),
        stands(s, p, text),
        ends(s, p + text.len()),
    ensures
        lex_from(s, p) == after(
            seq![leaf_lexeme(JsonTree::Number(text))],
            lex_from(s, p + text.len()),
        ),
{
    let w = literal_whole_end(text);
    let f = literal_mantissa_end(text);
    let n = text.len() as int;
    let e = p + n;
    lemma_number_itself(text);
    lemma_number_moved(s, p, text, w, f);
    lemma_number_matches(s, p, p + w, p + f, e);
    lemma_number_matches(text, 0, w, f, n);
    assert(s.subrange(p, e) == text);
    if json_integer(text) {
        assert(w == n && f == n);
        assert(decimal_shape(text));
        assert(decimal_int(text) == Ok::<int, DecodeError>(radix_literal_value(text, 10)));
        assert(token_at(s, p) == Some((Kind::Decimal, e)));
        lemma_lex_token(s, p, Kind::Decimal, e, leaf_lexeme(JsonTree::Number(text)));
    } else {
        assert(w < n);
        assert(float_shape(text));
        assert(decimal_value(text) is Some);
        assert(float_number(text) == Ok::<crate::decimal::Scaled, DecodeError>(
            decimal_value(text)->0,
        ));
        assert(token_at(s, p) == Some((Kind::Float, e)));
        lemma_lex_token(s, p, Kind::Float, e, leaf_lexeme(JsonTree::Number(text)));
    }
}

/// The text of a JSON document is never empty.
pub proof fn lemma_text_nonempty(j: JsonTree)
    requires
        plain_json(j),
    ensures
        json_text(j).len() > 0,
{
    match j {
        JsonTree::Number(s) => {
            lemma_number_itself(s);
        },
        _ => {},
    }
}

/// A part of a text that stands in `s` stands in `s` too.
pub proof fn lemma_stands_part(s: Seq<char>, p: int, text: Seq<char>, a: int, part: Seq<char>)
    requires
        stands(s, p, text),
        0 <= a,
        a + part.len() <= text.len(),
        text.subrange(a, a + part.len()) == part,
    ensures
        stands(s, p + a, part),
{
    assert(s.subrange(p + a, p + a + part.len()) =~= part) by {
        assert forall|i: int| 0 <= i < part.len() implies s[p + a + i] == part[i] by {
            assert(s.subrange(p, p + text.len())[a + i] == s[p + a + i]);
            assert(text.subrange(a, a + part.len())[i] == text[a + i]);
        }
    }
}

/// A character of a text that stands in `s` stands in `s` too.
pub proof fn lemma_stands_char(s: Seq<char>, p: int, text: Seq<char>, i: int)
    requires
        stands(s, p, text),
        0 <= i < text.len(),
    ensures
        s[p + i] == text[i],
{
    assert(s.subrange(p, p + text.len())[i] == s[p + i]);
}

/// No tokens before what the rest came to is what the rest came to.
pub proof fn lemma_after_empty(rest: Result<Seq<Lexeme>, LexFault>)
    ensures
        after(Seq::empty(), rest) == rest,
{
    match rest {
        Ok(tail) => {
            assert(Seq::<Lexeme>::empty() + tail =~= tail);
        },
        Err(_) => {},
    }
}

/// What stands between two brackets is lexed between the tokens of the
/// brackets.
pub proof fn lemma_lex_between(
    s: Seq<char>,
    p: int,
    inner: Seq<char>,
    tokens: Seq<Lexeme>,
    opening: Lexeme,
    closing: Lexeme,
)
    requires
        0 <= p,
        p + inner.len() + 2 <= s.len(),
        (s[p] == '[' && opening == Lexeme::OpenBracket && s[p + inner.len() + 1] == ']' && closing
            == Lexeme::CloseBracket) || (s[p] == '{' && opening == Lexeme::OpenBrace && s[p
            + inner.len() + 1] == '}' && closing == Lexeme::CloseBrace),
        lex_from(s, p + 1) == after(tokens, lex_from(s, p + 1 + inner.len())),
    ensures
        lex_from(s, p) == after(
            seq![opening] + tokens + seq![closing],
            lex_from(s, p + inner.len() + 2),
        ),
{
    let e = p + inner.len() + 2;
    lemma_lex_punctuation(s, p, opening);
    lemma_lex_punctuation(s, e - 1, closing);
    lemma_after_after(tokens, seq![closing], lex_from(s, e));
    lemma_after_after(seq![opening], tokens + seq![closing], lex_from(s, e));
    assert(seq![opening] + (tokens + seq![closing]) =~= seq![opening] + tokens + seq![closing]);
}

/// Lexing the text of a plain JSON document, wherever it stands before the
/// end of a value, gives the tokens of the document and goes on behind it.
pub proof fn lemma_lex_value(s: Seq<char>, p: int, j: JsonTree)
    requires
        plain_json(j),
        stands(s, p, json_text(j)),
        ends(s, p + json_text(j).len()),
    ensures
        lex_from(s, p) == after(lexemes_of(j), lex_from(s, p + json_text(j).len())),
    decreases j, 1nat,
{
    let text = json_text(j);
    match j {
        JsonTree::Array(items) => {
            let inner = items_text(items, items.len());
            assert(text.len() == inner.len() + 2);
            lemma_stands_char(s, p, text, 0);
            lemma_stands_char(s, p, text, inner.len() as int + 1);
            assert(text.subrange(1, 1 + inner.len() as int) =~= inner);
            lemma_stands_part(s, p, text, 1, inner);
            if items.len() > 0 {
                lemma_lex_items(s, p + 1, items, items.len());
            } else {
                lemma_after_empty(lex_from(s, p + 1));
            }
            lemma_lex_between(
                s,
                p,
                inner,
                item_lexemes(items, items.len()),
                Lexeme::OpenBracket,
                Lexeme::CloseBracket,
            );
        },
        JsonTree::Object(members) => {
            let inner = members_text(members, members.len());
            assert(text.len() == inner.len() + 2);
            lemma_stands_char(s, p, text, 0);
            lemma_stands_char(s, p, text, inner.len() as int + 1);
            assert(text.subrange(1, 1 + inner.len() as int) =~= inner);
            lemma_stands_part(s, p, text, 1, inner);
            if members.len() > 0 {
                lemma_lex_members(s, p + 1, members, members.len());
            } else {
                lemma_after_empty(lex_from(s, p + 1));
            }
            lemma_lex_between(
                s,
                p,
                inner,
                member_lexemes(members, members.len()),
                Lexeme::OpenBrace,
                Lexeme::CloseBrace,
            );
        },
        JsonTree::Number(text) => {
            lemma_lex_number(s, p, text);
        },
        JsonTree::String(body) => {
            lemma_lex_string(s, p, body);
        },
        JsonTree::Bool(b) => {
            lemma_lex_word(s, p, leaf_text(j), leaf_lexeme(j));
        },
        JsonTree::Null => {
            lemma_lex_word(s, p, leaf_text(j), leaf_lexeme(j));
        },
    }
}

/// What stands after a comma is lexed after what stands before it.
pub proof fn lemma_lex_after_comma(
    s: Seq<char>,
    p: int,
    comma: int,
    e: int,
    head: Seq<Lexeme>,
    tail: Seq<Lexeme>,
)
    requires
        0 <= p <= comma < e <= s.len(),
        s[comma] == ',',
        lex_from(s, p) == after(head, lex_from(s, comma)),
        lex_from(s, comma + 1) == after(tail, lex_from(s, e)),
    ensures
        lex_from(s, p) == after(head.push(Lexeme::Comma) + tail, lex_from(s, e)),
{
    let rest = lex_from(s, e);
    lemma_lex_punctuation(s, comma, Lexeme::Comma);
    lemma_after_after(seq![Lexeme::Comma], tail, rest);
    lemma_after_after(head, seq![Lexeme::Comma] + tail, rest);
    assert(head + (seq![Lexeme::Comma] + tail) =~= head.push(Lexeme::Comma) + tail);
}

/// Lexing the text of the first `n` items of an array, wherever it stands
/// before the end of a value, gives their tokens and goes on behind it.
pub proof fn lemma_lex_items(s: Seq<char>, p: int, items: Seq<JsonTree>, n: nat)
    requires
        0 < n <= items.len(),
        forall|i: int| 0 <= i < items.len() ==> plain_json(#[trigger] items[i]),
        stands(s, p, items_text(items, n)),
        ends(s, p + items_text(items, n).len()),
    ensures
        lex_from(s, p) == after(
            item_lexemes(items, n),
            lex_from(s, p + items_text(items, n).len()),
        ),
    decreases items, n,
{
    let text = items_text(items, n);
    let e = p + text.len();
    if n == 1 {
        lemma_lex_value(s, p, items[0]);
    } else {
        let last = (n - 1) as nat;
        let head = items_text(items, last);
        let tail = json_text(items[last as int]);
        let comma = p + head.len();
        assert(text =~= head + seq![','] + tail);
        assert(text.subrange(0, head.len() as int) =~= head);
        assert(text.subrange(head.len() as int + 1, head.len() as int + 1 + tail.len() as int) =~= tail);
        lemma_stands_part(s, p, text, 0, head);
        lemma_stands_char(s, p, text, head.len() as int);
        lemma_stands_part(s, p, text, head.len() as int + 1, tail);
        lemma_text_nonempty(items[last as int]);
        lemma_lex_items(s, p, items, last);
        lemma_lex_value(s, comma + 1, items[last as int]);
        lemma_lex_after_comma(
            s,
            p,
            comma,
            e,
            item_lexemes(items, last),
            lexemes_of(items[last as int]),
        );
    }
}

/// The text of a member of a JSON object: its key between double quotes,
/// `:`, its value.
pub open spec fn keyed_text(members: Seq<(Seq<char>, JsonTree)>, k: int) -> Seq<char> {
    quoted(members[k].0).push(':') + json_text(members[k].1)
}

/// The tokens of a member of a JSON object: its key, `:`, its value.
pub open spec fn keyed_tokens(members: Seq<(Seq<char>, JsonTree)>, k: int) -> Seq<Lexeme> {
    seq![Lexeme::String(members[k].0), Lexeme::Colon] + lexemes_of(members[k].1)
}

/// Lexing the key of a member, `:` and its value, wherever they stand
/// before the end of a value, gives their tokens and goes on behind them.
pub proof fn lemma_lex_member(s: Seq<char>, p: int, members: Seq<(Seq<char>, JsonTree)>, k: int)
    requires
        0 <= k < members.len(),
        plain(members[k].0),
        plain_json(members[k].1),
        stands(s, p, keyed_text(members, k)),
        ends(s, p + keyed_text(members, k).len()),
    ensures
        lex_from(s, p) == after(
            keyed_tokens(members, k),
            lex_from(s, p + keyed_text(members, k).len()),
        ),
    decreases members, 0nat, 0nat,
{
    let key = quoted(members[k].0);
    let value = json_text(members[k].1);
    let text = keyed_text(members, k);
    let e = p + text.len();
    let colon = p + key.len();
    assert(text.subrange(0, key.len() as int) =~= key);
    assert(text.subrange(key.len() as int + 1, key.len() as int + 1 + value.len() as int) =~= value);
    lemma_stands_part(s, p, text, 0, key);
    lemma_stands_char(s, p, text, key.len() as int);
    lemma_stands_part(s, p, text, key.len() as int + 1, value);
    lemma_lex_string(s, p, members[k].0);
    lemma_lex_value(s, colon + 1, members[k].1);
    lemma_lex_after_colon(s, p, colon, e, members[k].0, lexemes_of(members[k].1));
}

/// What stands after a colon is lexed after the key that stands before it.
pub proof fn lemma_lex_after_colon(
    s: Seq<char>,
    p: int,
    colon: int,
    e: int,
    key: Seq<char>,
    tail: Seq<Lexeme>,
)
    requires
        0 <= p <= colon < e <= s.len(),
        s[colon] == ':',
        lex_from(s, p) == after(seq![Lexeme::String(key)], lex_from(s, colon)),
        lex_from(s, colon + 1) == after(tail, lex_from(s, e)),
    ensures
        lex_from(s, p) == after(seq![Lexeme::String(key), Lexeme::Colon] + tail, lex_from(s, e)),
{
    let rest = lex_from(s, e);
    lemma_lex_punctuation(s, colon, Lexeme::Colon);
    lemma_after_after(seq![Lexeme::Colon], tail, rest);
    lemma_after_after(seq![Lexeme::String(key)], seq![Lexeme::Colon] + tail, rest);
    assert(seq![Lexeme::String(key)] + (seq![Lexeme::Colon] + tail) =~= seq![
        Lexeme::String(key),
        Lexeme::Colon,
    ] + tail);
}

/// Lexing the text of the first `n` members of an object, wherever it
/// stands before the end of a value, gives their tokens and goes on behind
/// it.
pub proof fn lemma_lex_members(s: Seq<char>, p: int, members: Seq<(Seq<char>, JsonTree)>, n: nat)
    requires
        0 < n <= members.len(),
        forall|i: int|
            0 <= i < members.len() ==> plain((#[trigger] members[i]).0) && plain_json(
                members[i].1,
            ),
        stands(s, p, members_text(members, n)),
        ends(s, p + members_text(members, n).len()),
    ensures
        lex_from(s, p) == after(
            member_lexemes(members, n),
            lex_from(s, p + members_text(members, n).len()),
        ),
    decreases members, n, 1nat,
{
    let text = members_text(members, n);
    let e = p + text.len();
    let last = (n - 1) as nat;
    let member = keyed_text(members, last as int);
    let tokens = keyed_tokens(members, last as int);
    if n == 1 {
        lemma_lex_member(s, p, members, 0);
    } else {
        let head = members_text(members, last);
        let comma = p + head.len();
        assert(text =~= head + seq![','] + member);
        assert(text.subrange(0, head.len() as int) =~= head);
        assert(text.subrange(head.len() as int + 1, head.len() as int + 1 + member.len() as int) =~= member);
        lemma_stands_part(s, p, text, 0, head);
        lemma_stands_char(s, p, text, head.len() as int);
        lemma_stands_part(s, p, text, head.len() as int + 1, member);
        lemma_lex_members(s, p, members, last);
        lemma_lex_member(s, comma + 1, members, last as int);
        lemma_lex_after_comma(s, p, comma, e, member_lexemes(members, last), tokens);
        assert(member_lexemes(members, last).push(Lexeme::Comma) + tokens =~= member_lexemes(
            members,
            n,
        ));
    }
}

/// Lexing the compact text of a plain JSON document gives the tokens of the
/// document.
pub proof fn lemma_lex_json(j: JsonTree)
    requires
        plain_json(j),
    ensures
        lex_spec(json_text(j)) == Ok::<Seq<Lexeme>, LexFault>(lexemes_of(j)),
{
    let s = json_text(j);
    assert(s.subrange(0, s.len() as int) =~= s);
    assert(lex_from(s, s.len() as int) == Ok::<Seq<Lexeme>, LexFault>(Seq::empty())) by {
        reveal(lex_from);
    }
    lemma_lex_value(s, 0, j);
    assert(lexemes_of(j) + Seq::<Lexeme>::empty() =~= lexemes_of(j));
}

} // verus!
