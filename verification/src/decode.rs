//! What each kind of literal stands for, one decoder per kind.

use crate::decimal::decimal_value;
use crate::decimal::Decimal;
use crate::decimal::Scaled;
use crate::grammar::after_sign;
use crate::grammar::at;
use crate::grammar::holds;
use crate::grammar::lemma_run;
use crate::grammar::m_binary;
use crate::grammar::m_decimal;
use crate::grammar::m_double_quoted;
use crate::grammar::m_float_exponent;
use crate::grammar::m_float_fraction;
use crate::grammar::m_float_point;
use crate::grammar::m_hex;
use crate::grammar::m_octal;
use crate::grammar::m_radix;
use crate::grammar::m_si_fraction;
use crate::grammar::m_si_whole;
use crate::grammar::m_single_quoted;
use crate::grammar::m_zero;
use crate::grammar::run_end;
use crate::grammar::scan_decimal;
use crate::grammar::scan_double_quoted;
use crate::grammar::scan_float_exponent;
use crate::grammar::scan_float_fraction;
use crate::grammar::scan_float_point;
use crate::grammar::scan_radix;
use crate::grammar::scan_run;
use crate::grammar::scan_si_fraction;
use crate::grammar::scan_si_whole;
use crate::grammar::scan_single_quoted;
use crate::grammar::scan_zero;
use crate::grammar::skip_sign;
use crate::grammar::CharClass;
use crate::integer::digit_of;
use crate::integer::digits_number;
use crate::integer::radix_literal;
use crate::integer::radix_literal_value;
use crate::integer::Integer;
use crate::text::chars_of;
use crate::text::push_chars;
use crate::text::text_of;
use vstd::arithmetic::power::pow;
use vstd::prelude::*;

verus! {

/// Why a literal could not be decoded.
#[derive(Clone, Copy, Debug, PartialEq, Eq)]
pub enum DecodeError {
    /// The text is no literal of the kind asked for.
    Malformed,
    /// The mantissa times the scale of its suffix is no whole number.
    NotIntegral,
    /// The number is written with an underscore where none is read, in a
    /// float or before a magnitude suffix, or it is too long or its exponent
    /// too large.
    Unreadable,
}

/// Whether a match takes the whole text.
pub open spec fn full(m: Option<int>, s: Seq<char>) -> bool {
    m == Some(s.len() as int)
}

/// Whether a match takes the whole of a text of `n` characters.
pub fn is_full(m: Option<usize>, n: usize) -> (r: bool)
    ensures
        r == (m == Some(n)),
{
    match m {
        Some(e) => e == n,
        None => false,
    }
}

/// `-?0` or `-?[1-9][0-9_]*`
pub open spec fn decimal_shape(s: Seq<char>) -> bool {
    full(m_zero(s, 0), s) || full(m_decimal(s, 0), s)
}

/// What a decimal integer literal stands for.
pub open spec fn decimal_int(s: Seq<char>) -> Result<int, DecodeError> {
    if decimal_shape(s) {
        Ok(radix_literal_value(s, 10))
    } else {
        Err(DecodeError::Malformed)
    }
}

/// Decodes a decimal integer literal: an optional `-`, then `0` alone or a
/// digit from 1 to 9 followed by digits and underscores. The underscores
/// count for nothing.
pub fn from_decimal(text: &str) -> (r: Result<Integer, DecodeError>)
    ensures
        match decimal_int(text@) {
            Ok(v) => r matches Ok(n) && n@ == v,
            Err(e) => r == Err::<Integer, DecodeError>(e),
        },
{
    let s = chars_of(text);
    let n = s.len();
    if !(is_full(scan_zero(&s, 0), n) || is_full(scan_decimal(&s, 0), n)) {
        return Err(DecodeError::Malformed);
    }
    proof {
        let q = after_sign(s@, 0);
        let body = if s@.len() > 0 && s@[0] == '-' {
            s@.skip(1)
        } else {
            s@
        };
        assert(body =~= s@.subrange(q, n as int));
        if full(m_decimal(s@, 0), s@) {
            lemma_run(s@, q + 1, CharClass::DigitOrUnderscore);
        }
        assert forall|i: int| 0 <= i < body.len() implies body[i] == '_' || digit_of(
            #[trigger] body[i],
        ) < 10 by {
            assert(body[i] == s@[q + i]);
            if i > 0 {
                assert(CharClass::DigitOrUnderscore.has(s@[q + i]));
            }
        }
    }
    match Integer::parse(text, 10) {
        Some(v) => Ok(v),
        None => Err(DecodeError::Malformed),
    }
}

/// Whether every character that begins such a literal's digits is a digit of
/// the base, and every character that may follow is one or an underscore.
pub open spec fn classes_fit(first: CharClass, rest: CharClass, radix: int) -> bool {
    &&& forall|c: char| first.has(c) ==> digit_of(c) < radix
    &&& forall|c: char| rest.has(c) ==> c == '_' || digit_of(c) < radix
}

/// What a literal with a base prefix stands for: the number that the digits
/// behind the two characters of the prefix write.
pub open spec fn prefixed_int(
    s: Seq<char>,
    lower: char,
    upper: char,
    first: CharClass,
    rest: CharClass,
    radix: int,
) -> Result<int, DecodeError> {
    if full(m_radix(s, 0, lower, upper, first, rest), s) {
        Ok(digits_number(s.skip(2), radix))
    } else {
        Err(DecodeError::Malformed)
    }
}

fn from_prefixed(
    text: &str,
    lower: char,
    upper: char,
    first: CharClass,
    rest: CharClass,
    radix: u32,
) -> (r: Result<Integer, DecodeError>)
    requires
        2 <= radix <= 36,
        classes_fit(first, rest, radix as int),
    ensures
        match prefixed_int(text@, lower, upper, first, rest, radix as int) {
            Ok(v) => r matches Ok(n) && n@ == v,
            Err(e) => r == Err::<Integer, DecodeError>(e),
        },
{
    let s = chars_of(text);
    let n = s.len();
    if !is_full(scan_radix(&s, 0, lower, upper, first, rest), n) {
        return Err(DecodeError::Malformed);
    }
    let digits = text_of(&s, 2, n);
    proof {
        let body = s@.skip(2);
        assert(body =~= s@.subrange(2, n as int));
        lemma_run(s@, 3, rest);
        assert(first.has(body[0]));
        assert(digit_of(body[0]) < radix);
        assert(body[0] != '-');
        assert forall|i: int| 0 <= i < body.len() implies body[i] == '_' || digit_of(
            #[trigger] body[i],
        ) < radix by {
            assert(body[i] == s@[2 + i]);
            if i > 0 {
                assert(rest.has(s@[2 + i]));
            }
        }
        assert(radix_literal(body, radix as int));
    }
    match Integer::parse(digits.as_str(), radix) {
        Some(v) => Ok(v),
        None => Err(DecodeError::Malformed),
    }
}

/// What a binary literal stands for.
pub open spec fn binary_int(s: Seq<char>) -> Result<int, DecodeError> {
    if full(m_binary(s, 0), s) {
        Ok(digits_number(s.skip(2), 2))
    } else {
        Err(DecodeError::Malformed)
    }
}

/// What an octal literal stands for.
pub open spec fn octal_int(s: Seq<char>) -> Result<int, DecodeError> {
    if full(m_octal(s, 0), s) {
        Ok(digits_number(s.skip(2), 8))
    } else {
        Err(DecodeError::Malformed)
    }
}

/// What a hexadecimal literal stands for.
pub open spec fn hex_int(s: Seq<char>) -> Result<int, DecodeError> {
    if full(m_hex(s, 0), s) {
        Ok(digits_number(s.skip(2), 16))
    } else {
        Err(DecodeError::Malformed)
    }
}

/// Decodes `0b` followed by binary digits and underscores. It takes no sign.
pub fn from_binary(text: &str) -> (r: Result<Integer, DecodeError>)
    ensures
        match binary_int(text@) {
            Ok(v) => r matches Ok(n) && n@ == v,
            Err(e) => r == Err::<Integer, DecodeError>(e),
        },
{
    from_prefixed(text, 'b', 'b', CharClass::Binary, CharClass::BinaryOrUnderscore, 2)
}

/// Decodes `0o` followed by octal digits and underscores. It takes no sign.
pub fn from_octal(text: &str) -> (r: Result<Integer, DecodeError>)
    ensures
        match octal_int(text@) {
            Ok(v) => r matches Ok(n) && n@ == v,
            Err(e) => r == Err::<Integer, DecodeError>(e),
        },
{
    from_prefixed(text, 'o', 'o', CharClass::Octal, CharClass::OctalOrUnderscore, 8)
}

/// Decodes `0x` or `0X` followed by hexadecimal digits and underscores. It
/// takes no sign.
pub fn from_hex(text: &str) -> (r: Result<Integer, DecodeError>)
    ensures
        match hex_int(text@) {
            Ok(v) => r matches Ok(n) && n@ == v,
            Err(e) => r == Err::<Integer, DecodeError>(e),
        },
{
    from_prefixed(text, 'x', 'X', CharClass::Hex, CharClass::HexOrUnderscore, 16)
}

/// The factor that a suffix stands for: a power of 1000 for the letter alone,
/// the same power of 1024 where `i` follows it.
pub open spec fn si_scale(suffix: Seq<char>) -> int {
    let binary = suffix.len() == 2;
    let letter = suffix[0];
    if letter == 'K' {
        if binary {
            1024
        } else {
            1000
        }
    } else if letter == 'M' {
        if binary {
            1048576
        } else {
            1000000
        }
    } else if letter == 'G' {
        if binary {
            1073741824
        } else {
            1000000000
        }
    } else if letter == 'T' {
        if binary {
            1099511627776
        } else {
            1000000000000
        }
    } else {
        if binary {
            1125899906842624
        } else {
            1000000000000000
        }
    }
}

/// One of the two shapes of a literal with a magnitude suffix.
pub open spec fn si_shape(s: Seq<char>) -> bool {
    full(m_si_whole(s, 0), s) || full(m_si_fraction(s, 0), s)
}

/// Where the digits before the point of such a literal end.
pub open spec fn si_whole_end(s: Seq<char>) -> int {
    run_end(s, after_sign(s, 0), CharClass::DigitOrUnderscore)
}

/// Where its mantissa ends and its suffix begins.
pub open spec fn si_mantissa_end(s: Seq<char>) -> int {
    let w = si_whole_end(s);
    if at(s, w, '.') {
        run_end(s, w + 1, CharClass::DigitOrUnderscore)
    } else {
        w
    }
}

/// The digits after its point, underscores among them.
pub open spec fn si_fraction(s: Seq<char>) -> Seq<char> {
    let w = si_whole_end(s);
    if at(s, w, '.') {
        s.subrange(w + 1, si_mantissa_end(s))
    } else {
        Seq::empty()
    }
}

/// Whether the mantissa of such a literal holds digits only: no underscore
/// stands among them.
pub open spec fn si_plain(s: Seq<char>) -> bool {
    let w = si_whole_end(s);
    &&& run_end(s, after_sign(s, 0), CharClass::Digit) == w
    &&& at(s, w, '.') ==> run_end(s, w + 1, CharClass::Digit) == si_mantissa_end(s)
}

/// What a literal with a magnitude suffix stands for: its mantissa times the
/// scale of its suffix, where that is a whole number. A mantissa with an
/// underscore in it is not decoded.
pub open spec fn si_int(s: Seq<char>) -> Result<int, DecodeError> {
    let digits = s.subrange(after_sign(s, 0), si_whole_end(s)) + si_fraction(s);
    let product = digits_number(digits, 10) * si_scale(
        s.subrange(si_mantissa_end(s), s.len() as int),
    );
    let unit = pow(10, si_fraction(s).len());
    if !si_shape(s) {
        Err(DecodeError::Malformed)
    } else if !si_plain(s) {
        Err(DecodeError::Unreadable)
    } else if product % unit != 0 {
        Err(DecodeError::NotIntegral)
    } else if at(s, 0, '-') {
        Ok(-(product / unit))
    } else {
        Ok(product / unit)
    }
}

/// The factor that the suffix from `f` on stands for.
fn scale_of(s: &Vec<char>, f: usize) -> (r: u64)
    requires
        f < s.len(),
    ensures
        r == si_scale(s@.subrange(f as int, s.len() as int)),
{
    let binary = s.len() - f == 2;
    let letter = s[f];
    assert(s@.subrange(f as int, s.len() as int)[0] == letter);
    if letter == 'K' {
        if binary {
            1024
        } else {
            1000
        }
    } else if letter == 'M' {
        if binary {
            1048576
        } else {
            1000000
        }
    } else if letter == 'G' {
        if binary {
            1073741824
        } else {
            1000000000
        }
    } else if letter == 'T' {
        if binary {
            1099511627776
        } else {
            1000000000000
        }
    } else {
        if binary {
            1125899906842624
        } else {
            1000000000000000
        }
    }
}

/// Decodes a literal with a magnitude suffix: a decimal mantissa, whole or
/// with a point, then one of `K`, `M`, `G`, `T`, `P` for the powers of 1000,
/// or the same followed by `i` for the powers of 1024. A mantissa with an
/// underscore in it is not decoded.
pub fn from_si(text: &str) -> (r: Result<Integer, DecodeError>)
    ensures
        match si_int(text@) {
            Ok(v) => r matches Ok(n) && n@ == v,
            Err(e) => r == Err::<Integer, DecodeError>(e),
        },
{
    let s = chars_of(text);
    let n = s.len();
    if !(is_full(scan_si_whole(&s, 0), n) || is_full(scan_si_fraction(&s, 0), n)) {
        return Err(DecodeError::Malformed);
    }
    let q = skip_sign(&s, 0);
    let w = scan_run(&s, q, CharClass::DigitOrUnderscore);
    let point = holds(&s, w, '.');
    let f = if point {
        scan_run(&s, w + 1, CharClass::DigitOrUnderscore)
    } else {
        w
    };
    if scan_run(&s, q, CharClass::Digit) != w || (point && scan_run(&s, w + 1, CharClass::Digit)
        != f) {
        return Err(DecodeError::Unreadable);
    }
    let mut mantissa = text_of(&s, q, w);
    let mut places: usize = 0;
    if point {
        push_chars(&mut mantissa, &s, w + 1, f);
        places = f - w - 1;
    }
    let ghost digits = s@.subrange(q as int, w as int) + si_fraction(s@);
    proof {
        lemma_run(s@, q as int, CharClass::DigitOrUnderscore);
        lemma_run(s@, w + 1, CharClass::DigitOrUnderscore);
        assert(mantissa@ =~= digits);
        if full(m_si_whole(s@, 0), s@) {
            assert(CharClass::Digit.has(s@[q as int]));
            assert(digits[0] == s@[q as int]);
        } else {
            assert(s@[q as int] == '.');
            assert(w == q);
            assert(CharClass::Digit.has(s@[q + 1]));
            assert(digits[0] == s@[q + 1]);
        }
        assert forall|i: int| 0 <= i < digits.len() implies digits[i] == '_' || digit_of(
            #[trigger] digits[i],
        ) < 10 by {
            if i < w - q {
                assert(digits[i] == s@[q + i]);
                assert(CharClass::DigitOrUnderscore.has(s@[q + i]));
            } else {
                assert(digits[i] == s@[w + 1 + (i - (w - q))]);
                assert(CharClass::DigitOrUnderscore.has(s@[w + 1 + (i - (w - q))]));
            }
        }
        assert(radix_literal(digits, 10));
    }
    assert(f < n);
    let scale = scale_of(&s, f);
    let number = match Integer::parse(mantissa.as_str(), 10) {
        Some(v) => v,
        None => {
            return Err(DecodeError::Malformed);
        },
    };
    let product = match number.times(scale) {
        Some(v) => v,
        None => {
            return Err(DecodeError::Malformed);
        },
    };
    match product.div_pow10_exact(places) {
        Some(v) => {
            if holds(&s, 0, '-') {
                Ok(v.negate())
            } else {
                Ok(v)
            }
        },
        None => Err(DecodeError::NotIntegral),
    }
}

/// One of the three shapes of a float literal.
pub open spec fn float_shape(s: Seq<char>) -> bool {
    full(m_float_point(s, 0), s) || full(m_float_exponent(s, 0), s) || full(
        m_float_fraction(s, 0),
        s,
    )
}

/// What a float literal stands for.
pub open spec fn float_number(s: Seq<char>) -> Result<Scaled, DecodeError> {
    if !float_shape(s) {
        Err(DecodeError::Malformed)
    } else {
        match decimal_value(s) {
            Some(v) => Ok(v),
            None => Err(DecodeError::Unreadable),
        }
    }
}

/// Decodes a float literal: a decimal with a point, an exponent or both, and
/// an optional `-` before it. A literal with an underscore in it is not
/// decoded, nor one beyond the limit.
pub fn from_float(text: &str) -> (r: Result<Decimal, DecodeError>)
    ensures
        match float_number(text@) {
            Ok(v) => r matches Ok(d) && d@ == v,
            Err(e) => r == Err::<Decimal, DecodeError>(e),
        },
{
    let s = chars_of(text);
    let n = s.len();
    if !(is_full(scan_float_point(&s, 0), n) || is_full(scan_float_exponent(&s, 0), n) || is_full(
        scan_float_fraction(&s, 0),
        n,
    )) {
        return Err(DecodeError::Malformed);
    }
    match Decimal::parse(text) {
        Some(d) => Ok(d),
        None => Err(DecodeError::Unreadable),
    }
}

/// A string literal in double or in single quotes.
pub open spec fn string_shape(s: Seq<char>) -> bool {
    full(m_double_quoted(s, 0), s) || full(m_single_quoted(s, 0), s)
}

/// What a string literal stands for: the characters between its quotes, as
/// they are.
pub open spec fn string_body(s: Seq<char>) -> Result<Seq<char>, DecodeError> {
    if string_shape(s) {
        Ok(s.subrange(1, s.len() - 1))
    } else {
        Err(DecodeError::Malformed)
    }
}

/// Decodes a string literal. No escape is interpreted: a backslash stays a
/// backslash.
pub fn from_string(text: &str) -> (r: Result<String, DecodeError>)
    ensures
        match string_body(text@) {
            Ok(v) => r matches Ok(t) && t@ == v,
            Err(e) => r == Err::<String, DecodeError>(e),
        },
{
    let s = chars_of(text);
    let n = s.len();
    if !(is_full(scan_double_quoted(&s, 0), n) || is_full(scan_single_quoted(&s, 0), n)) {
        return Err(DecodeError::Malformed);
    }
    Ok(text_of(&s, 1, n - 1))
}

} // verus!
