//! Whole numbers of any size, kept as their decimal digits.

use num_bigint::BigInt;
use num_bigint::BigUint;
use num_bigint::Sign;
use num_traits::Num;
use vstd::arithmetic::div_mod::lemma_fundamental_div_mod_converse_div;
use vstd::arithmetic::div_mod::lemma_fundamental_div_mod_converse_mod;
use vstd::arithmetic::power::lemma_pow_positive;
use vstd::arithmetic::power::pow;
use vstd::prelude::*;

verus! {

/// What a character is worth as a digit: `0` to `9`, then the letters from 10
/// on, in either case; 36 for every other character.
pub open spec fn digit_of(c: char) -> int {
    if '0' <= c <= '9' {
        c as int - 48
    } else if 'a' <= c <= 'z' {
        c as int - 87
    } else if 'A' <= c <= 'Z' {
        c as int - 55
    } else {
        36
    }
}

/// The number that the digits of `s` write in base `radix`, most significant
/// first. Underscores separate digits and count for nothing.
pub open spec fn digits_number(s: Seq<char>, radix: int) -> int
    decreases s.len(),
{
    if s.len() == 0 {
        0
    } else if s.last() == '_' {
        digits_number(s.drop_last(), radix)
    } else {
        digits_number(s.drop_last(), radix) * radix + digit_of(s.last())
    }
}

/// An optional `-`, a digit of the base, then digits of the base and
/// underscores.
pub open spec fn radix_literal(s: Seq<char>, radix: int) -> bool {
    let body = if s.len() > 0 && s[0] == '-' {
        s.skip(1)
    } else {
        s
    };
    &&& body.len() > 0
    &&& digit_of(body[0]) < radix
    &&& forall|i: int| 0 <= i < body.len() ==> body[i] == '_' || digit_of(#[trigger] body[i]) < radix
}

/// The number that a literal of that shape writes.
pub open spec fn radix_literal_value(s: Seq<char>, radix: int) -> int {
    if s.len() > 0 && s[0] == '-' {
        -digits_number(s.skip(1), radix)
    } else {
        digits_number(s, radix)
    }
}

/// The number that decimal digits write, most significant first.
pub open spec fn digits_value(ds: Seq<u8>) -> nat
    decreases ds.len(),
{
    if ds.len() == 0 {
        0
    } else {
        digits_value(ds.drop_last()) * 10 + ds.last() as nat
    }
}

/// Decimal digits with no needless leading zero: at least one digit, and a
/// leading zero only where it is the only digit.
pub open spec fn canonical(ds: Seq<u8>) -> bool {
    &&& ds.len() >= 1
    &&& forall|i: int| 0 <= i < ds.len() ==> #[trigger] ds[i] <= 9
    &&& ds.len() > 1 ==> ds[0] != 0
}

/// The character that writes the digit `d`.
pub open spec fn digit_char(d: int) -> char {
    (d + 48) as char
}

/// A natural number in decimal.
pub open spec fn nat_text(n: nat) -> Seq<char>
    decreases n,
{
    if n < 10 {
        seq![digit_char(n as int)]
    } else {
        nat_text(n / 10).push(digit_char((n % 10) as int))
    }
}

/// A whole number in decimal, with `-` before a negative one.
pub open spec fn int_text(n: int) -> Seq<char> {
    if n < 0 {
        seq!['-'] + nat_text((-n) as nat)
    } else {
        nat_text(n as nat)
    }
}

/// The characters that write the digits `ds`.
pub open spec fn digits_text(ds: Seq<u8>) -> Seq<char> {
    Seq::new(ds.len(), |i: int| digit_char(ds[i] as int))
}

/// One digit writes itself.
pub proof fn lemma_single_digit(ds: Seq<u8>)
    requires
        ds.len() == 1,
    ensures
        digits_value(ds) == ds[0],
{
    reveal_with_fuel(digits_value, 2);
}

/// Digits that begin with no zero write a number above zero.
pub proof fn lemma_digits_positive(ds: Seq<u8>)
    requires
        ds.len() >= 1,
        ds[0] != 0,
    ensures
        digits_value(ds) >= 1,
    decreases ds.len(),
{
    if ds.len() > 1 {
        lemma_digits_positive(ds.drop_last());
    } else {
        lemma_single_digit(ds);
    }
}

/// The decimal text of the number that canonical digits write is those
/// digits.
pub proof fn lemma_digits_text(ds: Seq<u8>)
    requires
        canonical(ds),
    ensures
        nat_text(digits_value(ds)) == digits_text(ds),
    decreases ds.len(),
{
    let init = ds.drop_last();
    if ds.len() == 1 {
        lemma_single_digit(ds);
        assert(nat_text(digits_value(ds)) =~= digits_text(ds));
    } else {
        assert(canonical(init));
        lemma_digits_positive(init);
        lemma_digits_text(init);
        let v = digits_value(ds);
        assert(v / 10 == digits_value(init));
        assert(v % 10 == ds.last());
        assert(nat_text(v) == nat_text(v / 10).push(digit_char((v % 10) as int)));
        assert(digits_text(init).push(digit_char(ds.last() as int)) =~= digits_text(ds));
    }
}

/// Canonical digits that write the same number are the same digits.
pub proof fn lemma_canonical_unique(a: Seq<u8>, b: Seq<u8>)
    requires
        canonical(a),
        canonical(b),
        digits_value(a) == digits_value(b),
    ensures
        a == b,
{
    lemma_digits_text(a);
    lemma_digits_text(b);
    assert(digits_text(a).len() == digits_text(b).len());
    assert forall|i: int| 0 <= i < a.len() implies a[i] == b[i] by {
        assert(digits_text(a)[i] == digits_text(b)[i]);
    }
    assert(a =~= b);
}

/// The number written by two stretches of digits, one after the other.
pub proof fn lemma_digits_split(a: Seq<u8>, b: Seq<u8>)
    ensures
        digits_value(a + b) == digits_value(a) * pow(10, b.len()) + digits_value(b),
    decreases b.len(),
{
    reveal(pow);
    if b.len() == 0 {
        assert(a + b =~= a);
    } else {
        assert((a + b).drop_last() =~= a + b.drop_last());
        assert((a + b).last() == b.last());
        lemma_digits_split(a, b.drop_last());
        let p = pow(10, b.drop_last().len());
        assert(pow(10, b.len()) == 10 * p);
        assert(digits_value(a) * (10 * p) == (digits_value(a) * p) * 10) by (nonlinear_arith);
    }
}

/// Digits write a number below the power of ten of their count, and write
/// zero exactly where all of them are zero.
pub proof fn lemma_digits_bound(b: Seq<u8>)
    requires
        forall|i: int| 0 <= i < b.len() ==> #[trigger] b[i] <= 9,
    ensures
        digits_value(b) < pow(10, b.len()),
        digits_value(b) == 0 <==> forall|i: int| 0 <= i < b.len() ==> #[trigger] b[i] == 0,
    decreases b.len(),
{
    reveal(pow);
    if b.len() > 0 {
        let init = b.drop_last();
        lemma_digits_bound(init);
        assert(pow(10, b.len()) == 10 * pow(10, init.len()));
        if digits_value(b) == 0 {
            assert forall|i: int| 0 <= i < b.len() implies #[trigger] b[i] == 0 by {
                if i < init.len() {
                    assert(init[i] == 0);
                }
            }
        }
        if forall|i: int| 0 <= i < b.len() ==> #[trigger] b[i] == 0 {
            assert forall|i: int| 0 <= i < init.len() implies #[trigger] init[i] == 0 by {
                assert(b[i] == 0);
            }
        }
    }
}

/// A whole number of any size. It holds the decimal digits of its magnitude,
/// most significant first and canonical, and whether it is below zero.
#[derive(Debug, PartialEq, Eq)]
pub struct Integer {
    negative: bool,
    digits: Vec<u8>,
}

impl Clone for Integer {
    fn clone(&self) -> (r: Integer)
        ensures
            r@ == self@,
    {
        self.duplicate()
    }
}

impl View for Integer {
    type V = int;

    closed spec fn view(&self) -> int {
        if self.negative {
            -(digits_value(self.digits@) as int)
        } else {
            digits_value(self.digits@) as int
        }
    }
}

/// Copies a vector of digits.
pub fn copy_digits(ds: &Vec<u8>) -> (r: Vec<u8>)
    ensures
        r@ == ds@,
{
    let mut out: Vec<u8> = Vec::new();
    let mut i: usize = 0;
    while i < ds.len()
        invariant
            i <= ds.len(),
            out@ == ds@.take(i as int),
        decreases ds.len() - i,
    {
        out.push(ds[i]);
        assert(ds@.take(i + 1) == ds@.take(i as int).push(ds@[i as int]));
        i += 1;
    }
    assert(ds@.take(ds.len() as int) == ds@);
    out
}

/// Whether two vectors of digits hold the same digits.
pub fn same_digits(a: &Vec<u8>, b: &Vec<u8>) -> (r: bool)
    ensures
        r == (a@ == b@),
{
    if a.len() != b.len() {
        return false;
    }
    let mut i: usize = 0;
    while i < a.len()
        invariant
            i <= a.len(),
            a.len() == b.len(),
            a@.take(i as int) == b@.take(i as int),
        decreases a.len() - i,
    {
        if a[i] != b[i] {
            return false;
        }
        assert(a@.take(i + 1) == a@.take(i as int).push(a@[i as int]));
        assert(b@.take(i + 1) == b@.take(i as int).push(b@[i as int]));
        i += 1;
    }
    assert(a@.take(a.len() as int) == a@);
    assert(b@.take(b.len() as int) == b@);
    true
}

/// Appends the characters that write the digits `ds` to `out`.
pub fn push_digits(out: &mut String, ds: &Vec<u8>)
    requires
        forall|i: int| 0 <= i < ds.len() ==> #[trigger] ds[i] <= 9,
    ensures
        final(out)@ == old(out)@ + digits_text(ds@),
{
    let mut i: usize = 0;
    while i < ds.len()
        invariant
            i <= ds.len(),
            forall|i: int| 0 <= i < ds.len() ==> #[trigger] ds[i] <= 9,
            out@ == old(out)@ + digits_text(ds@.take(i as int)),
        decreases ds.len() - i,
    {
        let c = (ds[i] + 48) as char;
        out.push(c);
        assert(digits_text(ds@.take(i + 1)) =~= digits_text(ds@.take(i as int)).push(c));
        i += 1;
    }
    assert(ds@.take(ds.len() as int) == ds@);
}

/// Appends the decimal text of `n` to `out`.
pub fn push_nat(out: &mut String, n: usize)
    ensures
        final(out)@ == old(out)@ + nat_text(n as nat),
    decreases n,
{
    if n >= 10 {
        push_nat(out, n / 10);
    }
    let d = (n % 10) as u8;
    out.push((d + 48) as char);
    assert(out@ =~= old(out)@ + nat_text(n as nat));
}

impl Integer {
    /// What every `Integer` satisfies: canonical digits, and no negative zero.
    #[verifier::type_invariant]
    pub closed spec fn wf(&self) -> bool {
        &&& canonical(self.digits@)
        &&& self.negative ==> digits_value(self.digits@) != 0
    }

    /// Zero.
    pub fn zero() -> (r: Integer)
        ensures
            r@ == 0,
    {
        let mut digits: Vec<u8> = Vec::new();
        digits.push(0);
        proof {
            lemma_single_digit(digits@);
        }
        Integer { negative: false, digits }
    }

    /// Whether two numbers are the same number.
    pub fn equals(&self, other: &Integer) -> (r: bool)
        ensures
            r == (self@ == other@),
    {
        proof {
            use_type_invariant(self);
            use_type_invariant(other);
            if self@ == other@ {
                lemma_canonical_unique(self.digits@, other.digits@);
            }
        }
        self.negative == other.negative && same_digits(&self.digits, &other.digits)
    }

    /// The number with the other sign.
    pub fn negate(self) -> (r: Integer)
        ensures
            r@ == -self@,
    {
        proof {
            use_type_invariant(&self);
        }
        let zero = self.digits.len() == 1 && self.digits[0] == 0;
        proof {
            if zero {
                lemma_single_digit(self.digits@);
            } else {
                lemma_digits_positive(self.digits@);
            }
        }
        Integer { negative: !self.negative && !zero, digits: self.digits }
    }

    /// A copy of the number.
    pub fn duplicate(&self) -> (r: Integer)
        ensures
            r@ == self@,
    {
        proof {
            use_type_invariant(self);
        }
        Integer { negative: self.negative, digits: copy_digits(&self.digits) }
    }

    /// The number in decimal.
    pub fn to_text(&self) -> (r: String)
        ensures
            r@ == int_text(self@),
    {
        proof {
            use_type_invariant(self);
        }
        let mut out = String::new();
        if self.negative {
            out.push('-');
        }
        push_digits(&mut out, &self.digits);
        proof {
            lemma_digits_text(self.digits@);
            assert(out@ =~= int_text(self@));
        }
        out
    }

    /// The number divided by the `d`th power of ten, where that leaves no
    /// remainder.
    pub fn div_pow10_exact(&self, d: usize) -> (r: Option<Integer>)
        ensures
            self@ % pow(10, d as nat) == 0 ==> (r matches Some(q) && q@ == self@ / pow(
                10,
                d as nat,
            )),
            self@ % pow(10, d as nat) != 0 ==> r is None,
    {
        proof {
            use_type_invariant(self);
        }
        let n = self.digits.len();
        let ghost unit = pow(10, d as nat);
        let ghost v = digits_value(self.digits@) as int;
        proof {
            lemma_pow_positive(10, d as nat);
        }
        if n == 1 && self.digits[0] == 0 {
            proof {
                lemma_single_digit(self.digits@);
                assert(v == 0);
                lemma_fundamental_div_mod_converse_mod(0, unit, 0, 0);
                lemma_fundamental_div_mod_converse_div(0, unit, 0, 0);
            }
            return Some(Integer::zero());
        }
        proof {
            lemma_digits_positive(self.digits@);
        }
        if d >= n {
            proof {
                lemma_digits_bound(self.digits@);
                vstd::arithmetic::power::lemma_pow_increases(10, n as nat, d as nat);
                lemma_fundamental_div_mod_converse_mod(v, unit, 0, v);
                lemma_negated_remainder(v, unit);
            }
            return None;
        }
        let keep = n - d;
        let ghost head = self.digits@.subrange(0, keep as int);
        let ghost tail = self.digits@.subrange(keep as int, n as int);
        proof {
            assert(self.digits@ =~= head + tail);
            lemma_digits_split(head, tail);
            lemma_digits_bound(tail);
            lemma_fundamental_div_mod_converse_mod(v, unit, digits_value(head) as int, digits_value(tail) as int);
            lemma_fundamental_div_mod_converse_div(v, unit, digits_value(head) as int, digits_value(tail) as int);
            lemma_negated_remainder(v, unit);
            assert((self@ % unit == 0) <==> (v % unit == 0));
        }
        let ghost divides = self@ % unit == 0;
        let mut i: usize = keep;
        while i < n
            invariant
                keep <= i <= n,
                n == self.digits.len(),
                tail == self.digits@.subrange(keep as int, n as int),
                unit == pow(10, d as nat),
                divides == (self@ % unit == 0),
                divides <==> forall|j: int| 0 <= j < tail.len() ==> #[trigger] tail[j] == 0,
                forall|j: int| 0 <= j < i - keep ==> #[trigger] tail[j] == 0,
            decreases n - i,
        {
            if self.digits[i] != 0 {
                assert(tail[i - keep] != 0);
                return None;
            }
            i += 1;
        }
        assert(divides);
        let mut digits: Vec<u8> = Vec::new();
        let mut k: usize = 0;
        while k < keep
            invariant
                k <= keep <= self.digits.len(),
                digits@ == self.digits@.take(k as int),
            decreases keep - k,
        {
            digits.push(self.digits[k]);
            assert(self.digits@.take(k + 1) == self.digits@.take(k as int).push(self.digits@[k as int]));
            k += 1;
        }
        proof {
            assert(digits@ =~= head);
            assert(canonical(digits@));
            lemma_digits_positive(head);
            lemma_negated_quotient(v, unit);
        }
        Some(Integer { negative: self.negative, digits })
    }
}

/// A number and its negation leave no remainder together.
proof fn lemma_negated_remainder(v: int, unit: int)
    requires
        unit > 0,
    ensures
        ((-v) % unit == 0) <==> (v % unit == 0),
{
    vstd::arithmetic::div_mod::lemma_fundamental_div_mod(v, unit);
    vstd::arithmetic::div_mod::lemma_fundamental_div_mod(-v, unit);
    if v % unit == 0 {
        assert(-v == (-(v / unit)) * unit + 0) by (nonlinear_arith)
            requires
                v == unit * (v / unit) + (v % unit),
                v % unit == 0,
        ;
        lemma_fundamental_div_mod_converse_mod(-v, unit, -(v / unit), 0);
    }
    if (-v) % unit == 0 {
        assert(v == (-((-v) / unit)) * unit + 0) by (nonlinear_arith)
            requires
                -v == unit * ((-v) / unit) + ((-v) % unit),
                (-v) % unit == 0,
        ;
        lemma_fundamental_div_mod_converse_mod(v, unit, -((-v) / unit), 0);
    }
}

/// Where the division leaves no remainder, the quotient of the negation is
/// the negation of the quotient.
proof fn lemma_negated_quotient(v: int, unit: int)
    requires
        unit > 0,
        v % unit == 0,
    ensures
        (-v) / unit == -(v / unit),
{
    vstd::arithmetic::div_mod::lemma_fundamental_div_mod(v, unit);
    assert(-v == (-(v / unit)) * unit + 0) by (nonlinear_arith)
        requires
            v == unit * (v / unit) + (v % unit),
            v % unit == 0,
    ;
    lemma_fundamental_div_mod_converse_div(-v, unit, -(v / unit), 0);
}

/// `BigInt::from_str_radix` of num-bigint, the method of num-traits' `Num`:
/// on an optional `-`, a digit of the base, then digits of the base and
/// underscores, it succeeds and gives the number that the digits write in that
/// base, the underscores skipped. The number comes back as the decimal digits
/// that `BigInt::to_radix_be` hands out: most significant first, a single
/// zero for zero.
#[verifier::external_body]
pub(crate) fn bigint_from_str_radix(text: &str, radix: u32) -> (r: Option<Integer>)
    requires
        2 <= radix <= 36,
        radix_literal(text@, radix as int),
    ensures
        r is Some,
        r->0.wf(),
        r->0@ == radix_literal_value(text@, radix as int),
{
    match BigInt::from_str_radix(text, radix) {
        Ok(x) => {
            let (sign, digits) = x.to_radix_be(10);
            let negative = match sign {
                Sign::Minus => true,
                Sign::NoSign => false,
                Sign::Plus => false,
            };
            Some(Integer { negative, digits })
        },
        Err(_) => None,
    }
}

/// `BigUint::from_radix_be`, the multiplication of a `BigUint` by a `u64`, and
/// `BigUint::to_radix_be`, all of num-bigint: decimal digits in, the decimal
/// digits of the product out, canonical.
#[verifier::external_body]
pub(crate) fn biguint_mul_u64(digits: &Vec<u8>, factor: u64) -> (r: Option<Vec<u8>>)
    requires
        canonical(digits@),
    ensures
        r is Some,
        canonical(r->0@),
        digits_value(r->0@) == digits_value(digits@) * factor,
{
    match BigUint::from_radix_be(digits, 10) {
        Some(x) => Some((x * factor).to_radix_be(10)),
        None => None,
    }
}

impl Integer {
    /// The number that `text` writes in base `radix`.
    pub(crate) fn parse(text: &str, radix: u32) -> (r: Option<Integer>)
        requires
            2 <= radix <= 36,
            radix_literal(text@, radix as int),
        ensures
            r matches Some(n) && n@ == radix_literal_value(text@, radix as int),
    {
        bigint_from_str_radix(text, radix)
    }

    /// The number times `factor`.
    pub(crate) fn times(&self, factor: u64) -> (r: Option<Integer>)
        ensures
            r matches Some(n) && n@ == self@ * factor,
    {
        proof {
            use_type_invariant(self);
        }
        match biguint_mul_u64(&self.digits, factor) {
            Some(digits) => {
                let ghost m = digits_value(self.digits@) as int;
                assert(self@ * factor == if self.negative {
                    -(m * factor)
                } else {
                    m * factor
                }) by (nonlinear_arith)
                    requires
                        self@ == if self.negative {
                            -m
                        } else {
                            m
                        },
                ;
                let zero = digits.len() == 1 && digits[0] == 0;
                proof {
                    if zero {
                        lemma_single_digit(digits@);
                    } else {
                        lemma_digits_positive(digits@);
                    }
                }
                Some(Integer { negative: self.negative && !zero, digits })
            },
            None => None,
        }
    }
}

} // verus!
