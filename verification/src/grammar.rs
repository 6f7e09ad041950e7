//! The shapes of the tokens: for each pattern, where its longest match from a
//! given position ends.

use vstd::prelude::*;

verus! {

/// A set of characters that a run of a pattern is drawn from.
#[derive(Clone, Copy, Debug)]
pub enum CharClass {
    /// `0` to `9`.
    Digit,
    /// `0` to `9` and `_`.
    DigitOrUnderscore,
    /// `0` and `1`.
    Binary,
    /// `0`, `1` and `_`.
    BinaryOrUnderscore,
    /// `0` to `7`.
    Octal,
    /// `0` to `7` and `_`.
    OctalOrUnderscore,
    /// `0` to `9`, `a` to `f`, `A` to `F`.
    Hex,
    /// The hexadecimal digits and `_`.
    HexOrUnderscore,
    /// A letter, `_` or `$`.
    IdentStart,
    /// A letter, a digit, `_` or `$`.
    IdentRest,
    /// Anything but a line end.
    LineBody,
    /// Anything but `'`.
    NotApostrophe,
    /// Space and tab.
    Blank,
}

/// Line feed, carriage return or form feed.
pub open spec fn is_line_end(c: char) -> bool {
    c == '\n' || c == '\r' || c == '\x0c'
}

/// A letter of the Latin alphabet, in either case.
pub open spec fn is_letter(c: char) -> bool {
    ('a' <= c <= 'z') || ('A' <= c <= 'Z')
}

/// `0` to `9`.
pub open spec fn is_decimal_digit(c: char) -> bool {
    '0' <= c <= '9'
}

/// `0` to `9`, `a` to `f` or `A` to `F`.
pub open spec fn is_hex_digit(c: char) -> bool {
    ('0' <= c <= '9') || ('a' <= c <= 'f') || ('A' <= c <= 'F')
}

impl CharClass {
    /// Whether `c` is of the class.
    pub open spec fn has(self, c: char) -> bool {
        match self {
            CharClass::Digit => is_decimal_digit(c),
            CharClass::DigitOrUnderscore => is_decimal_digit(c) || c == '_',
            CharClass::Binary => c == '0' || c == '1',
            CharClass::BinaryOrUnderscore => c == '0' || c == '1' || c == '_',
            CharClass::Octal => '0' <= c <= '7',
            CharClass::OctalOrUnderscore => ('0' <= c <= '7') || c == '_',
            CharClass::Hex => is_hex_digit(c),
            CharClass::HexOrUnderscore => is_hex_digit(c) || c == '_',
            CharClass::IdentStart => is_letter(c) || c == '_' || c == '$',
            CharClass::IdentRest => is_letter(c) || is_decimal_digit(c) || c == '_' || c == '$',
            CharClass::LineBody => !is_line_end(c),
            CharClass::NotApostrophe => c != '\'',
            CharClass::Blank => c == ' ' || c == '\t',
        }
    }

    /// Whether `c` is of the class.
    pub fn contains(self, c: char) -> (r: bool)
        ensures
            r == self.has(c),
    {
        let letter = (c >= 'a' && c <= 'z') || (c >= 'A' && c <= 'Z');
        let digit = c >= '0' && c <= '9';
        let hex = digit || (c >= 'a' && c <= 'f') || (c >= 'A' && c <= 'F');
        match self {
            CharClass::Digit => digit,
            CharClass::DigitOrUnderscore => digit || c == '_',
            CharClass::Binary => c == '0' || c == '1',
            CharClass::BinaryOrUnderscore => c == '0' || c == '1' || c == '_',
            CharClass::Octal => c >= '0' && c <= '7',
            CharClass::OctalOrUnderscore => (c >= '0' && c <= '7') || c == '_',
            CharClass::Hex => hex,
            CharClass::HexOrUnderscore => hex || c == '_',
            CharClass::IdentStart => letter || c == '_' || c == '$',
            CharClass::IdentRest => letter || digit || c == '_' || c == '$',
            CharClass::LineBody => !(c == '\n' || c == '\r' || c == '\x0c'),
            CharClass::NotApostrophe => c != '\'',
            CharClass::Blank => c == ' ' || c == '\t',
        }
    }
}

/// Whether `s` holds `c` at position `p`.
pub open spec fn at(s: Seq<char>, p: int, c: char) -> bool {
    0 <= p < s.len() && s[p] == c
}

/// Whether `s` holds a character of `class` at position `p`.
pub open spec fn at_class(s: Seq<char>, p: int, class: CharClass) -> bool {
    0 <= p < s.len() && class.has(s[p])
}

/// Where the longest run of characters of `class` that starts at `p` ends.
pub open spec fn run_end(s: Seq<char>, p: int, class: CharClass) -> int
    decreases s.len() - p,
{
    if at_class(s, p, class) {
        run_end(s, p + 1, class)
    } else {
        p
    }
}

/// A run ends inside the text, holds only characters of its class, and stops
/// at the first character that is not of the class.
pub proof fn lemma_run(s: Seq<char>, p: int, class: CharClass)
    requires
        0 <= p <= s.len(),
    ensures
        p <= run_end(s, p, class) <= s.len(),
        forall|i: int| p <= i < run_end(s, p, class) ==> class.has(#[trigger] s[i]),
        !at_class(s, run_end(s, p, class), class),
    decreases s.len() - p,
{
    if at_class(s, p, class) {
        lemma_run(s, p + 1, class);
    }
}

/// A stretch of characters of the class that is followed by none of it is the
/// run.
pub proof fn lemma_run_is(s: Seq<char>, p: int, e: int, class: CharClass)
    requires
        0 <= p <= e <= s.len(),
        forall|i: int| p <= i < e ==> class.has(#[trigger] s[i]),
        !at_class(s, e, class),
    ensures
        run_end(s, p, class) == e,
    decreases e - p,
{
    if p < e {
        assert(class.has(s[p]));
        lemma_run_is(s, p + 1, e, class);
    }
}

/// Where the longest run of characters of `class` that starts at `p` ends.
pub fn scan_run(s: &Vec<char>, p: usize, class: CharClass) -> (r: usize)
    requires
        p <= s.len(),
    ensures
        r == run_end(s@, p as int, class),
        p <= r <= s.len(),
{
    let mut q: usize = p;
    while q < s.len() && class.contains(s[q])
        invariant
            p <= q <= s.len(),
            run_end(s@, p as int, class) == run_end(s@, q as int, class),
        decreases s.len() - q,
    {
        q += 1;
    }
    q
}

/// Whether `s` holds `c` at position `p`.
pub fn holds(s: &Vec<char>, p: usize, c: char) -> (r: bool)
    ensures
        r == at(s@, p as int, c),
{
    p < s.len() && s[p] == c
}

/// Whether `s` holds a character of `class` at position `p`.
pub fn holds_class(s: &Vec<char>, p: usize, class: CharClass) -> (r: bool)
    ensures
        r == at_class(s@, p as int, class),
{
    p < s.len() && class.contains(s[p])
}

/// One character of `first`, then the longest run of `rest`.
pub open spec fn run1(s: Seq<char>, p: int, first: CharClass, rest: CharClass) -> Option<int> {
    if at_class(s, p, first) {
        Some(run_end(s, p + 1, rest))
    } else {
        None
    }
}

/// Where one character of `first` and then the longest run of `rest` end.
pub fn scan_run1(s: &Vec<char>, p: usize, first: CharClass, rest: CharClass) -> (r: Option<usize>)
    requires
        p <= s.len(),
    ensures
        r matches Some(e) ==> run1(s@, p as int, first, rest) == Some(e as int) && p < e <= s.len(),
        r is None ==> run1(s@, p as int, first, rest) is None,
{
    if holds_class(s, p, first) {
        Some(scan_run(s, p + 1, rest))
    } else {
        None
    }
}

/// The position after an optional `-`.
pub open spec fn after_sign(s: Seq<char>, p: int) -> int {
    if at(s, p, '-') {
        p + 1
    } else {
        p
    }
}

/// The position after an optional `-`.
pub fn skip_sign(s: &Vec<char>, p: usize) -> (r: usize)
    requires
        p <= s.len(),
    ensures
        r == after_sign(s@, p as int),
        p <= r <= s.len(),
{
    if holds(s, p, '-') {
        p + 1
    } else {
        p
    }
}

/// The end of an optional part: where it ends if it is there, else where it
/// would have begun.
pub open spec fn or_stay(r: Option<int>, p: int) -> int {
    match r {
        Some(e) => e,
        None => p,
    }
}

/// `-?0`
pub open spec fn m_zero(s: Seq<char>, p: int) -> Option<int> {
    let q = after_sign(s, p);
    if at(s, q, '0') {
        Some(q + 1)
    } else {
        None
    }
}

/// `-?[1-9][0-9_]*`
pub open spec fn m_decimal(s: Seq<char>, p: int) -> Option<int> {
    let q = after_sign(s, p);
    if at_class(s, q, CharClass::Digit) && s[q] != '0' {
        Some(run_end(s, q + 1, CharClass::DigitOrUnderscore))
    } else {
        None
    }
}

/// `[0-9][0-9_]*`
pub open spec fn m_digits(s: Seq<char>, p: int) -> Option<int> {
    run1(s, p, CharClass::Digit, CharClass::DigitOrUnderscore)
}

/// `[eE][+-]?[0-9][0-9_]*`
pub open spec fn m_exponent(s: Seq<char>, p: int) -> Option<int> {
    if at(s, p, 'e') || at(s, p, 'E') {
        let q = if at(s, p + 1, '+') || at(s, p + 1, '-') {
            p + 2
        } else {
            p + 1
        };
        m_digits(s, q)
    } else {
        None
    }
}

/// `-?[0-9][0-9_]*\.([0-9][0-9_]*)?([eE][+-]?[0-9][0-9_]*)?`
pub open spec fn m_float_point(s: Seq<char>, p: int) -> Option<int> {
    match m_digits(s, after_sign(s, p)) {
        Some(q) => if at(s, q, '.') {
            let f = or_stay(m_digits(s, q + 1), q + 1);
            Some(or_stay(m_exponent(s, f), f))
        } else {
            None
        },
        None => None,
    }
}

/// `-?[0-9][0-9_]*[eE][+-]?[0-9][0-9_]*`
pub open spec fn m_float_exponent(s: Seq<char>, p: int) -> Option<int> {
    match m_digits(s, after_sign(s, p)) {
        Some(q) => m_exponent(s, q),
        None => None,
    }
}

/// `-?\.[0-9][0-9_]*([eE][+-]?[0-9][0-9_]*)?`
pub open spec fn m_float_fraction(s: Seq<char>, p: int) -> Option<int> {
    let q = after_sign(s, p);
    if at(s, q, '.') {
        match m_digits(s, q + 1) {
            Some(f) => Some(or_stay(m_exponent(s, f), f)),
            None => None,
        }
    } else {
        None
    }
}

/// One of the letters that begin a magnitude suffix.
pub open spec fn is_si_letter(c: char) -> bool {
    c == 'K' || c == 'M' || c == 'G' || c == 'T' || c == 'P'
}

/// `[KMGTP]i?`
pub open spec fn m_suffix(s: Seq<char>, p: int) -> Option<int> {
    if 0 <= p < s.len() && is_si_letter(s[p]) {
        Some(if at(s, p + 1, 'i') {
            p + 2
        } else {
            p + 1
        })
    } else {
        None
    }
}

/// `-?[0-9][0-9_]*(\.[0-9][0-9_]*)?[KMGTP]i?`
pub open spec fn m_si_whole(s: Seq<char>, p: int) -> Option<int> {
    match m_digits(s, after_sign(s, p)) {
        Some(q) => {
            let f = if at(s, q, '.') {
                or_stay(m_digits(s, q + 1), q)
            } else {
                q
            };
            m_suffix(s, f)
        },
        None => None,
    }
}

/// `-?\.[0-9][0-9][0-9_]*[KMGTP]i?`
pub open spec fn m_si_fraction(s: Seq<char>, p: int) -> Option<int> {
    let q = after_sign(s, p);
    if at(s, q, '.') && at_class(s, q + 1, CharClass::Digit) && at_class(
        s,
        q + 2,
        CharClass::Digit,
    ) {
        m_suffix(s, run_end(s, q + 3, CharClass::DigitOrUnderscore))
    } else {
        None
    }
}

/// `0`, one of two letters, a digit of `first`, then a run of `rest`: the
/// shape of `0b..`, `0o..` and `0x..`.
pub open spec fn m_radix(
    s: Seq<char>,
    p: int,
    lower: char,
    upper: char,
    first: CharClass,
    rest: CharClass,
) -> Option<int> {
    if at(s, p, '0') && (at(s, p + 1, lower) || at(s, p + 1, upper)) {
        run1(s, p + 2, first, rest)
    } else {
        None
    }
}

/// `0b[01][01_]*`
pub open spec fn m_binary(s: Seq<char>, p: int) -> Option<int> {
    m_radix(s, p, 'b', 'b', CharClass::Binary, CharClass::BinaryOrUnderscore)
}

/// `0o[0-7][0-7_]*`
pub open spec fn m_octal(s: Seq<char>, p: int) -> Option<int> {
    m_radix(s, p, 'o', 'o', CharClass::Octal, CharClass::OctalOrUnderscore)
}

/// `0[xX][0-9a-fA-F][0-9a-fA-F_]*`
pub open spec fn m_hex(s: Seq<char>, p: int) -> Option<int> {
    m_radix(s, p, 'x', 'X', CharClass::Hex, CharClass::HexOrUnderscore)
}

/// `[a-zA-Z_$][a-zA-Z_$0-9]*`
pub open spec fn m_name(s: Seq<char>, p: int) -> Option<int> {
    run1(s, p, CharClass::IdentStart, CharClass::IdentRest)
}

/// `(_?#)?[a-zA-Z_$][a-zA-Z_$0-9]*`
pub open spec fn m_ident(s: Seq<char>, p: int) -> Option<int> {
    if at(s, p, '#') {
        m_name(s, p + 1)
    } else if at(s, p, '_') && at(s, p + 1, '#') && m_name(s, p + 2) is Some {
        m_name(s, p + 2)
    } else {
        m_name(s, p)
    }
}

/// Where a double-quoted string whose body is read from `q` on ends: at the
/// first `"` that no backslash stands before. A backslash takes the next
/// character with it, which may not be a line feed.
pub open spec fn quoted_end(s: Seq<char>, q: int) -> Option<int>
    decreases s.len() - q,
{
    if q < 0 || q >= s.len() {
        None
    } else if s[q] == '"' {
        Some(q + 1)
    } else if s[q] == '\\' {
        if q + 1 < s.len() && s[q + 1] != '\n' {
            quoted_end(s, q + 2)
        } else {
            None
        }
    } else {
        quoted_end(s, q + 1)
    }
}

/// `"([^"\\]|\\.)*"`
pub open spec fn m_double_quoted(s: Seq<char>, p: int) -> Option<int> {
    if at(s, p, '"') {
        quoted_end(s, p + 1)
    } else {
        None
    }
}

/// `'[^']*'`
pub open spec fn m_single_quoted(s: Seq<char>, p: int) -> Option<int> {
    if at(s, p, '\'') {
        let q = run_end(s, p + 1, CharClass::NotApostrophe);
        if at(s, q, '\'') {
            Some(q + 1)
        } else {
            None
        }
    } else {
        None
    }
}

/// `[\n\r\f]`
pub open spec fn m_line_end(s: Seq<char>, p: int) -> Option<int> {
    if 0 <= p < s.len() && is_line_end(s[p]) {
        Some(p + 1)
    } else {
        None
    }
}

/// `//[^\n\r\f]*[\n\r\f]`
pub open spec fn m_comment(s: Seq<char>, p: int) -> Option<int> {
    if at(s, p, '/') && at(s, p + 1, '/') {
        let q = run_end(s, p + 2, CharClass::LineBody);
        if q < s.len() {
            Some(q + 1)
        } else {
            None
        }
    } else {
        None
    }
}

/// Where `-?0` ends.
pub fn scan_zero(s: &Vec<char>, p: usize) -> (r: Option<usize>)
    requires
        p <= s.len(),
    ensures
        r matches Some(e) ==> m_zero(s@, p as int) == Some(e as int) && p < e <= s.len(),
        r is None ==> m_zero(s@, p as int) is None,
{
    let q = skip_sign(s, p);
    if holds(s, q, '0') {
        Some(q + 1)
    } else {
        None
    }
}

/// Where `-?[1-9][0-9_]*` ends.
pub fn scan_decimal(s: &Vec<char>, p: usize) -> (r: Option<usize>)
    requires
        p <= s.len(),
    ensures
        r matches Some(e) ==> m_decimal(s@, p as int) == Some(e as int) && p < e <= s.len(),
        r is None ==> m_decimal(s@, p as int) is None,
{
    let q = skip_sign(s, p);
    if holds_class(s, q, CharClass::Digit) && s[q] != '0' {
        Some(scan_run(s, q + 1, CharClass::DigitOrUnderscore))
    } else {
        None
    }
}

/// Where `[0-9][0-9_]*` ends.
pub fn scan_digits(s: &Vec<char>, p: usize) -> (r: Option<usize>)
    requires
        p <= s.len(),
    ensures
        r matches Some(e) ==> m_digits(s@, p as int) == Some(e as int) && p < e <= s.len(),
        r is None ==> m_digits(s@, p as int) is None,
{
    scan_run1(s, p, CharClass::Digit, CharClass::DigitOrUnderscore)
}

/// Where `[eE][+-]?[0-9][0-9_]*` ends.
pub fn scan_exponent(s: &Vec<char>, p: usize) -> (r: Option<usize>)
    requires
        p <= s.len(),
    ensures
        r matches Some(e) ==> m_exponent(s@, p as int) == Some(e as int) && p < e <= s.len(),
        r is None ==> m_exponent(s@, p as int) is None,
{
    if holds(s, p, 'e') || holds(s, p, 'E') {
        let q = if holds(s, p + 1, '+') || holds(s, p + 1, '-') {
            p + 2
        } else {
            p + 1
        };
        scan_digits(s, q)
    } else {
        None
    }
}

/// The end of an optional exponent that would begin at `f`.
fn scan_exponent_or_stay(s: &Vec<char>, f: usize) -> (r: usize)
    requires
        f <= s.len(),
    ensures
        r == or_stay(m_exponent(s@, f as int), f as int),
        f <= r <= s.len(),
{
    match scan_exponent(s, f) {
        Some(e) => e,
        None => f,
    }
}

/// Where a float with a point ends.
pub fn scan_float_point(s: &Vec<char>, p: usize) -> (r: Option<usize>)
    requires
        p <= s.len(),
    ensures
        r matches Some(e) ==> m_float_point(s@, p as int) == Some(e as int) && p < e <= s.len(),
        r is None ==> m_float_point(s@, p as int) is None,
{
    match scan_digits(s, skip_sign(s, p)) {
        Some(q) => {
            if holds(s, q, '.') {
                let f = match scan_digits(s, q + 1) {
                    Some(e) => e,
                    None => q + 1,
                };
                Some(scan_exponent_or_stay(s, f))
            } else {
                None
            }
        },
        None => None,
    }
}

/// Where a float with an exponent and no point ends.
pub fn scan_float_exponent(s: &Vec<char>, p: usize) -> (r: Option<usize>)
    requires
        p <= s.len(),
    ensures
        r matches Some(e) ==> m_float_exponent(s@, p as int) == Some(e as int) && p < e
            <= s.len(),
        r is None ==> m_float_exponent(s@, p as int) is None,
{
    match scan_digits(s, skip_sign(s, p)) {
        Some(q) => scan_exponent(s, q),
        None => None,
    }
}

/// Where a float that begins with its point ends.
pub fn scan_float_fraction(s: &Vec<char>, p: usize) -> (r: Option<usize>)
    requires
        p <= s.len(),
    ensures
        r matches Some(e) ==> m_float_fraction(s@, p as int) == Some(e as int) && p < e
            <= s.len(),
        r is None ==> m_float_fraction(s@, p as int) is None,
{
    let q = skip_sign(s, p);
    if holds(s, q, '.') {
        match scan_digits(s, q + 1) {
            Some(f) => Some(scan_exponent_or_stay(s, f)),
            None => None,
        }
    } else {
        None
    }
}

/// Where `[KMGTP]i?` ends.
pub fn scan_suffix(s: &Vec<char>, p: usize) -> (r: Option<usize>)
    requires
        p <= s.len(),
    ensures
        r matches Some(e) ==> m_suffix(s@, p as int) == Some(e as int) && p < e <= s.len(),
        r is None ==> m_suffix(s@, p as int) is None,
{
    if p < s.len() && (s[p] == 'K' || s[p] == 'M' || s[p] == 'G' || s[p] == 'T' || s[p] == 'P') {
        if holds(s, p + 1, 'i') {
            Some(p + 2)
        } else {
            Some(p + 1)
        }
    } else {
        None
    }
}

/// Where a literal with a magnitude suffix that begins with a digit ends.
pub fn scan_si_whole(s: &Vec<char>, p: usize) -> (r: Option<usize>)
    requires
        p <= s.len(),
    ensures
        r matches Some(e) ==> m_si_whole(s@, p as int) == Some(e as int) && p < e <= s.len(),
        r is None ==> m_si_whole(s@, p as int) is None,
{
    match scan_digits(s, skip_sign(s, p)) {
        Some(q) => {
            let f = if holds(s, q, '.') {
                match scan_digits(s, q + 1) {
                    Some(e) => e,
                    None => q,
                }
            } else {
                q
            };
            scan_suffix(s, f)
        },
        None => None,
    }
}

/// Where a literal with a magnitude suffix that begins with its point ends.
pub fn scan_si_fraction(s: &Vec<char>, p: usize) -> (r: Option<usize>)
    requires
        p <= s.len(),
    ensures
        r matches Some(e) ==> m_si_fraction(s@, p as int) == Some(e as int) && p < e <= s.len(),
        r is None ==> m_si_fraction(s@, p as int) is None,
{
    let q = skip_sign(s, p);
    if holds(s, q, '.') && holds_class(s, q + 1, CharClass::Digit) && holds_class(
        s,
        q + 2,
        CharClass::Digit,
    ) {
        scan_suffix(s, scan_run(s, q + 3, CharClass::DigitOrUnderscore))
    } else {
        None
    }
}

/// Where a literal with a base prefix ends.
pub fn scan_radix(
    s: &Vec<char>,
    p: usize,
    lower: char,
    upper: char,
    first: CharClass,
    rest: CharClass,
) -> (r: Option<usize>)
    requires
        p <= s.len(),
    ensures
        r matches Some(e) ==> m_radix(s@, p as int, lower, upper, first, rest) == Some(e as int)
            && p < e <= s.len(),
        r is None ==> m_radix(s@, p as int, lower, upper, first, rest) is None,
{
    if holds(s, p, '0') && (holds(s, p + 1, lower) || holds(s, p + 1, upper)) {
        scan_run1(s, p + 2, first, rest)
    } else {
        None
    }
}

/// Where `[a-zA-Z_$][a-zA-Z_$0-9]*` ends.
pub fn scan_name(s: &Vec<char>, p: usize) -> (r: Option<usize>)
    requires
        p <= s.len(),
    ensures
        r matches Some(e) ==> m_name(s@, p as int) == Some(e as int) && p < e <= s.len(),
        r is None ==> m_name(s@, p as int) is None,
{
    scan_run1(s, p, CharClass::IdentStart, CharClass::IdentRest)
}

/// Where an identifier ends.
pub fn scan_ident(s: &Vec<char>, p: usize) -> (r: Option<usize>)
    requires
        p <= s.len(),
    ensures
        r matches Some(e) ==> m_ident(s@, p as int) == Some(e as int) && p < e <= s.len(),
        r is None ==> m_ident(s@, p as int) is None,
{
    if holds(s, p, '#') {
        scan_name(s, p + 1)
    } else if holds(s, p, '_') && holds(s, p + 1, '#') {
        match scan_name(s, p + 2) {
            Some(e) => Some(e),
            None => scan_name(s, p),
        }
    } else {
        scan_name(s, p)
    }
}

/// Where a string in double quotes ends.
pub fn scan_double_quoted(s: &Vec<char>, p: usize) -> (r: Option<usize>)
    requires
        p <= s.len(),
    ensures
        r matches Some(e) ==> m_double_quoted(s@, p as int) == Some(e as int) && p + 2 <= e
            <= s.len(),
        r is None ==> m_double_quoted(s@, p as int) is None,
{
    if !holds(s, p, '"') {
        return None;
    }
    let mut q: usize = p + 1;
    while q < s.len()
        invariant
            p < q <= s.len(),
            at(s@, p as int, '"'),
            quoted_end(s@, p + 1) == quoted_end(s@, q as int),
        decreases s.len() - q,
    {
        if s[q] == '"' {
            return Some(q + 1);
        } else if s[q] == '\\' {
            if q + 1 < s.len() && s[q + 1] != '\n' {
                q += 2;
            } else {
                return None;
            }
        } else {
            q += 1;
        }
    }
    None
}

/// Where a string in single quotes ends.
pub fn scan_single_quoted(s: &Vec<char>, p: usize) -> (r: Option<usize>)
    requires
        p <= s.len(),
    ensures
        r matches Some(e) ==> m_single_quoted(s@, p as int) == Some(e as int) && p + 2 <= e
            <= s.len(),
        r is None ==> m_single_quoted(s@, p as int) is None,
{
    if holds(s, p, '\'') {
        let q = scan_run(s, p + 1, CharClass::NotApostrophe);
        if holds(s, q, '\'') {
            Some(q + 1)
        } else {
            None
        }
    } else {
        None
    }
}

/// Where a line end ends.
pub fn scan_line_end(s: &Vec<char>, p: usize) -> (r: Option<usize>)
    requires
        p <= s.len(),
    ensures
        r matches Some(e) ==> m_line_end(s@, p as int) == Some(e as int) && p < e <= s.len(),
        r is None ==> m_line_end(s@, p as int) is None,
{
    if p < s.len() && (s[p] == '\n' || s[p] == '\r' || s[p] == '\x0c') {
        Some(p + 1)
    } else {
        None
    }
}

/// Where a comment ends, its line end included.
pub fn scan_comment(s: &Vec<char>, p: usize) -> (r: Option<usize>)
    requires
        p <= s.len(),
    ensures
        r matches Some(e) ==> m_comment(s@, p as int) == Some(e as int) && p < e <= s.len(),
        r is None ==> m_comment(s@, p as int) is None,
{
    if holds(s, p, '/') && holds(s, p + 1, '/') {
        let q = scan_run(s, p + 2, CharClass::LineBody);
        if q < s.len() {
            Some(q + 1)
        } else {
            None
        }
    } else {
        None
    }
}

} // verus!
