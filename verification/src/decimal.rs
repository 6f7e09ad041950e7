//! Decimal numbers of any size: a whole mantissa and a power of ten.

use crate::grammar::after_sign;
use crate::grammar::at;
use crate::grammar::holds;
use crate::grammar::run_end;
use crate::grammar::scan_run;
use crate::grammar::skip_sign;
use crate::grammar::CharClass;
use crate::integer::canonical;
use crate::integer::digits_number;
use crate::integer::digits_value;
use crate::integer::lemma_canonical_unique;
use crate::integer::lemma_single_digit;
use crate::integer::same_digits;
use crate::integer::copy_digits;
use crate::text::chars_of;
use scientific::Scientific;
use std::str::FromStr;
use vstd::prelude::*;

verus! {

/// The number `mantissa` times ten to the `exponent`.
pub ghost struct Scaled {
    pub mantissa: int,
    pub exponent: int,
}

/// The one way of writing a decimal number that this library keeps: the
/// mantissa ends in no zero, and zero is zero times ten to the first.
pub open spec fn normalize(mantissa: int, exponent: int) -> Scaled
    decreases
            (if mantissa < 0 {
                -mantissa
            } else {
                mantissa
            }),
{
    if mantissa == 0 {
        Scaled { mantissa: 0, exponent: 1 }
    } else if mantissa % 10 == 0 {
        normalize(mantissa / 10, exponent + 1)
    } else {
        Scaled { mantissa, exponent }
    }
}

/// The largest count of characters, and the largest exponent either way, that
/// a decimal number is read or kept with.
pub open spec fn decimal_limit() -> int {
    (usize::MAX / 32) as int
}

/// Where the digits before the point of a decimal literal end.
pub open spec fn literal_whole_end(s: Seq<char>) -> int {
    run_end(s, after_sign(s, 0), CharClass::Digit)
}

/// Whether a decimal literal has a point.
pub open spec fn literal_has_point(s: Seq<char>) -> bool {
    at(s, literal_whole_end(s), '.')
}

/// Where the mantissa of a decimal literal ends.
pub open spec fn literal_mantissa_end(s: Seq<char>) -> int {
    if literal_has_point(s) {
        run_end(s, literal_whole_end(s) + 1, CharClass::Digit)
    } else {
        literal_whole_end(s)
    }
}

/// The digits after the point.
pub open spec fn literal_fraction(s: Seq<char>) -> Seq<char> {
    if literal_has_point(s) {
        s.subrange(literal_whole_end(s) + 1, literal_mantissa_end(s))
    } else {
        Seq::empty()
    }
}

/// The digits of the mantissa, those before the point and those after it.
pub open spec fn literal_digits(s: Seq<char>) -> Seq<char> {
    s.subrange(after_sign(s, 0), literal_whole_end(s)) + literal_fraction(s)
}

/// Where the digits of the exponent begin, if there is one.
pub open spec fn literal_exponent_start(s: Seq<char>) -> int {
    let f = literal_mantissa_end(s);
    if at(s, f + 1, '+') || at(s, f + 1, '-') {
        f + 2
    } else {
        f + 1
    }
}

/// A plain decimal literal: an optional `-`, digits with an optional point
/// among them, at least one digit in all, and then nothing, or `e` or `E`, an
/// optional sign and at least one digit. No underscores.
pub open spec fn decimal_literal(s: Seq<char>) -> bool {
    let f = literal_mantissa_end(s);
    let x = literal_exponent_start(s);
    &&& literal_digits(s).len() >= 1
    &&& f < s.len() ==> {
        &&& s[f] == 'e' || s[f] == 'E'
        &&& x < s.len()
        &&& run_end(s, x, CharClass::Digit) == s.len()
    }
}

/// The number that the digits of the exponent write, without its sign.
pub open spec fn literal_exponent_magnitude(s: Seq<char>) -> int {
    if literal_mantissa_end(s) < s.len() {
        digits_number(s.subrange(literal_exponent_start(s), s.len() as int), 10)
    } else {
        0
    }
}

/// The mantissa that a decimal literal writes: all its digits as one whole
/// number, with its sign.
pub open spec fn literal_mantissa(s: Seq<char>) -> int {
    if at(s, 0, '-') {
        -digits_number(literal_digits(s), 10)
    } else {
        digits_number(literal_digits(s), 10)
    }
}

/// The power of ten that goes with that mantissa: the written exponent less
/// the count of digits after the point.
pub open spec fn literal_exponent(s: Seq<char>) -> int {
    let written = if at(s, literal_mantissa_end(s) + 1, '-') {
        -literal_exponent_magnitude(s)
    } else {
        literal_exponent_magnitude(s)
    };
    written - literal_fraction(s).len()
}

/// The number that `s` writes, where `s` is a plain decimal literal within the
/// limit.
pub open spec fn decimal_value(s: Seq<char>) -> Option<Scaled> {
    if decimal_literal(s) && s.len() + literal_exponent_magnitude(s) <= decimal_limit() {
        Some(normalize(literal_mantissa(s), literal_exponent(s)))
    } else {
        None
    }
}

/// What `Scientific`'s `Display` writes for the number `mantissa` times ten to
/// the `exponent`, the mantissa ending in no zero.
pub uninterp spec fn scientific_text(mantissa: int, exponent: int) -> Seq<char>;

/// How a decimal number is shown: as `Scientific` writes it, and with `.0`
/// behind it where it has no digit after the point, so that it does not read
/// as a whole number.
pub open spec fn float_text(v: Scaled) -> Seq<char> {
    if v.exponent >= 0 {
        scientific_text(v.mantissa, v.exponent) + seq!['.', '0']
    } else {
        scientific_text(v.mantissa, v.exponent)
    }
}

/// A decimal number of any size. It holds the decimal digits of its mantissa,
/// most significant first, whether it is below zero, and the power of ten.
#[derive(Debug, PartialEq, Eq)]
pub struct Decimal {
    negative: bool,
    digits: Vec<u8>,
    exponent: isize,
}

impl Clone for Decimal {
    fn clone(&self) -> (r: Decimal)
        ensures
            r@ == self@,
    {
        self.duplicate()
    }
}

impl View for Decimal {
    type V = Scaled;

    closed spec fn view(&self) -> Scaled {
        Scaled {
            mantissa: if self.negative {
                -(digits_value(self.digits@) as int)
            } else {
                digits_value(self.digits@) as int
            },
            exponent: self.exponent as int,
        }
    }
}

/// `Scientific::from_str` of scientific: on a plain decimal literal within the
/// limit it succeeds, takes all the digits as the mantissa and the written
/// exponent less the count of digits after the point as the power of ten, and
/// drops the zeros at either end of the mantissa, raising the power by one for
/// each zero dropped at the end. The number comes back as
/// `Scientific::is_sign_negative`, `as_raw_mantissa` and `exponent` give it:
/// zero as the single digit zero with the power one.
#[verifier::external_body]
pub(crate) fn scientific_from_str(text: &str) -> (r: Option<Decimal>)
    requires
        decimal_literal(text@),
        text@.len() + literal_exponent_magnitude(text@) <= decimal_limit(),
    ensures
        r is Some,
        r->0.wf(),
        r->0@ == normalize(literal_mantissa(text@), literal_exponent(text@)),
{
    match Scientific::from_str(text) {
        Ok(x) => Some(
            Decimal {
                negative: x.is_sign_negative(),
                digits: x.as_raw_mantissa().to_vec(),
                exponent: x.exponent(),
            },
        ),
        Err(_) => None,
    }
}

/// `Scientific::from_raw_parts` and `Scientific`'s `Display`, of scientific:
/// the text that it writes for a number handed over as its sign, its digits
/// and its power of ten.
#[verifier::external_body]
pub(crate) fn scientific_to_string(d: &Decimal) -> (r: Option<String>)
    requires
        d.wf(),
    ensures
        r is Some,
        r->0@ == scientific_text(d@.mantissa, d@.exponent),
{
    match Scientific::from_raw_parts(d.negative, d.digits.clone(), d.exponent) {
        Ok(x) => Some(x.to_string()),
        Err(_) => None,
    }
}

impl Decimal {
    /// What every `Decimal` satisfies: canonical digits that end in no zero,
    /// zero kept as the digit zero with the power one and no sign, and digits
    /// and power within the limit.
    #[verifier::type_invariant]
    pub closed spec fn wf(&self) -> bool {
        let zero = self.digits@.len() == 1 && self.digits@[0] == 0;
        &&& canonical(self.digits@)
        &&& zero ==> !self.negative && self.exponent == 1
        &&& !zero ==> self.digits@.last() != 0
        &&& self.digits@.len() <= decimal_limit()
        &&& -decimal_limit() <= self.exponent <= decimal_limit()
    }

    /// Whether two numbers are the same number.
    pub fn equals(&self, other: &Decimal) -> (r: bool)
        ensures
            r == (self@ == other@),
    {
        proof {
            use_type_invariant(self);
            use_type_invariant(other);
            if self@ == other@ {
                if digits_value(self.digits@) == 0 {
                    let zero = seq![0u8];
                    lemma_single_digit(zero);
                    lemma_canonical_unique(self.digits@, zero);
                    lemma_canonical_unique(other.digits@, zero);
                }
                lemma_canonical_unique(self.digits@, other.digits@);
            }
        }
        self.negative == other.negative && self.exponent == other.exponent && same_digits(
            &self.digits,
            &other.digits,
        )
    }

    /// A copy of the number.
    pub fn duplicate(&self) -> (r: Decimal)
        ensures
            r@ == self@,
    {
        proof {
            use_type_invariant(self);
        }
        Decimal {
            negative: self.negative,
            digits: copy_digits(&self.digits),
            exponent: self.exponent,
        }
    }

    /// The number as it is shown. The `.0` of a number without a digit after
    /// the point goes behind all that is written of it, an exponent too.
    pub fn to_text(&self) -> (r: String)
        ensures
            r@ == float_text(self@),
    {
        proof {
            use_type_invariant(self);
        }
        let mut out = match scientific_to_string(self) {
            Some(s) => s,
            None => String::new(),
        };
        if self.exponent >= 0 {
            out.push('.');
            out.push('0');
            assert(out@ =~= float_text(self@));
        }
        out
    }

    /// Reads a plain decimal literal.
    pub fn parse(text: &str) -> (r: Option<Decimal>)
        ensures
            match decimal_value(text@) {
                Some(v) => r matches Some(d) && d@ == v,
                None => r is None,
            },
    {
        let s = chars_of(text);
        let n = s.len();
        let limit: usize = usize::MAX / 32;
        let q = skip_sign(&s, 0);
        let w = scan_run(&s, q, CharClass::Digit);
        let point = holds(&s, w, '.');
        let f = if point {
            scan_run(&s, w + 1, CharClass::Digit)
        } else {
            w
        };
        let fraction = if point {
            f - w - 1
        } else {
            0
        };
        assert(literal_digits(s@).len() == (w - q) + fraction);
        if (w - q) + fraction == 0 {
            return None;
        }
        if n > limit {
            proof {
                if decimal_literal(s@) && f < n {
                    let x = literal_exponent_start(s@);
                    let tail = s@.subrange(x, n as int);
                    crate::grammar::lemma_run(s@, x, CharClass::Digit);
                    assert forall|i: int| 0 <= i < tail.len() implies CharClass::Digit.has(
                        #[trigger] tail[i],
                    ) by {
                        assert(tail[i] == s@[x + i]);
                    }
                    lemma_number_nonnegative(tail);
                }
            }
            return None;
        }
        if f < n {
            if !(s[f] == 'e' || s[f] == 'E') {
                return None;
            }
            let x = if holds(&s, f + 1, '+') || holds(&s, f + 1, '-') {
                f + 2
            } else {
                f + 1
            };
            if x >= n {
                return None;
            }
            if scan_run(&s, x, CharClass::Digit) != n {
                return None;
            }
            let ghost tail = s@.subrange(x as int, n as int);
            proof {
                crate::grammar::lemma_run(s@, x as int, CharClass::Digit);
                assert forall|i: int| 0 <= i < tail.len() implies CharClass::Digit.has(
                    #[trigger] tail[i],
                ) by {
                    assert(tail[i] == s@[x + i]);
                }
            }
            assert(literal_exponent_magnitude(text@) == digits_number(tail, 10));
            let mut acc: usize = 0;
            let mut i: usize = x;
            while i < n
                invariant
                    x <= i <= n,
                    literal_exponent_magnitude(text@) == digits_number(tail, 10),
                    text@.len() == n,
                    n == s.len(),
                    n <= limit,
                    limit == usize::MAX / 32,
                    tail == s@.subrange(x as int, n as int),
                    forall|i: int| 0 <= i < tail.len() ==> CharClass::Digit.has(#[trigger] tail[i]),
                    acc == digits_number(tail.take(i - x), 10),
                    acc + n <= limit,
                decreases n - i,
            {
                let c = s[i];
                assert(c == tail[i - x]);
                let d = ((c as u32) - 48) as usize;
                let next = acc * 10 + d;
                proof {
                    let t = tail.take(i - x + 1);
                    assert(t.drop_last() =~= tail.take(i - x));
                    assert(t.last() == c);
                    assert(digits_number(t, 10) == next);
                    lemma_number_prefix(tail, i - x + 1);
                }
                if next > limit - n {
                    return None;
                }
                acc = next;
                i += 1;
            }
            assert(tail.take(n - x) =~= tail);
        }
        scientific_from_str(text)
    }
}

/// What the first digits of a number write is no more than what all of them
/// write.
pub proof fn lemma_number_prefix(s: Seq<char>, k: int)
    requires
        0 <= k <= s.len(),
        forall|i: int| 0 <= i < s.len() ==> CharClass::Digit.has(#[trigger] s[i]),
    ensures
        0 <= digits_number(s.take(k), 10) <= digits_number(s, 10),
    decreases s.len() - k,
{
    if k == s.len() {
        assert(s.take(k) =~= s);
        lemma_number_nonnegative(s);
    } else {
        let init = s.drop_last();
        assert(init.take(k) =~= s.take(k));
        lemma_number_prefix(init, k);
        assert(CharClass::Digit.has(s.last()));
    }
}

/// Digits write no number below zero.
pub proof fn lemma_number_nonnegative(s: Seq<char>)
    requires
        forall|i: int| 0 <= i < s.len() ==> CharClass::Digit.has(#[trigger] s[i]),
    ensures
        0 <= digits_number(s, 10),
    decreases s.len(),
{
    if s.len() > 0 {
        lemma_number_nonnegative(s.drop_last());
        assert(CharClass::Digit.has(s.last()));
    }
}

} // verus!
