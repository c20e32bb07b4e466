//! The literal lexer: identifiers, numbers, quoted strings and keyword
//! literals, as byte spans of an input buffer.
use vstd::prelude::*;

verus! {

pub const PLUS: u8 = 43;
pub const MINUS: u8 = 45;
pub const DOT: u8 = 46;
pub const ZERO: u8 = 48;
pub const NINE: u8 = 57;
pub const UPPER_A: u8 = 65;
pub const UPPER_Z: u8 = 90;
pub const LOWER_A: u8 = 97;
pub const LOWER_Z: u8 = 122;
pub const UNDERSCORE: u8 = 95;
pub const DOLLAR: u8 = 36;
pub const LOWER_E: u8 = 101;
pub const UPPER_E: u8 = 69;
pub const BACKSLASH: u8 = 92;
pub const LOWER_N: u8 = 110;
pub const DOUBLE_QUOTE: u8 = 34;
pub const SINGLE_QUOTE: u8 = 39;
pub const COMMA: u8 = 44;
pub const UPPER_N: u8 = 78;
pub const LOWER_T: u8 = 116;
pub const LOWER_F: u8 = 102;
pub const LOWER_U: u8 = 117;
pub const OPEN_PAREN: u8 = 40;
pub const CLOSE_PAREN: u8 = 41;
pub const OPEN_BRACE: u8 = 123;
pub const CLOSE_BRACE: u8 = 125;
pub const OPEN_BRACKET: u8 = 91;
pub const CLOSE_BRACKET: u8 = 93;
pub const COLON: u8 = 58;
pub const SPACE: u8 = 32;
pub const TAB: u8 = 9;
pub const CR: u8 = 13;
pub const LF: u8 = 10;

pub open spec fn is_digit(c: u8) -> bool {
    ZERO <= c && c <= NINE
}

pub open spec fn is_alpha(c: u8) -> bool {
    (LOWER_A <= c && c <= LOWER_Z) || (UPPER_A <= c && c <= UPPER_Z)
}

/// A byte that may continue an identifier.
pub open spec fn ident_byte(c: u8) -> bool {
    is_alpha(c) || is_digit(c) || c == UNDERSCORE || c == DOLLAR
}

/// A byte that may start an identifier.
pub open spec fn ident_start(c: u8) -> bool {
    is_alpha(c) || c == UNDERSCORE || c == DOLLAR
}

/// `kw` stands in `s` at `i`.
pub open spec fn keyword_at(s: Seq<u8>, i: int, kw: Seq<u8>) -> bool {
    0 <= i && i + kw.len() <= s.len() && s.subrange(i, i + kw.len()) == kw
}

pub open spec fn kw_nan() -> Seq<u8> {
    seq![78u8, 97, 78]
}

pub open spec fn kw_null() -> Seq<u8> {
    seq![110u8, 117, 108, 108]
}

pub open spec fn kw_true() -> Seq<u8> {
    seq![116u8, 114, 117, 101]
}

pub open spec fn kw_false() -> Seq<u8> {
    seq![102u8, 97, 108, 115, 101]
}

pub open spec fn kw_undefined() -> Seq<u8> {
    seq![117u8, 110, 100, 101, 102, 105, 110, 101, 100]
}

/// The end of the run of identifier bytes that starts at `j`.
pub open spec fn ident_end(s: Seq<u8>, j: int) -> int
    decreases s.len() - j,
{
    if 0 <= j < s.len() && ident_byte(s[j]) {
        ident_end(s, j + 1)
    } else {
        j
    }
}

/// The end of the run of decimal digits that starts at `j`.
pub open spec fn digits_end(s: Seq<u8>, j: int) -> int
    decreases s.len() - j,
{
    if 0 <= j < s.len() && is_digit(s[j]) {
        digits_end(s, j + 1)
    } else {
        j
    }
}

/// Past an optional sign at `i`.
pub open spec fn sign_end(s: Seq<u8>, i: int) -> int {
    if 0 <= i < s.len() && (s[i] == PLUS || s[i] == MINUS) {
        i + 1
    } else {
        i
    }
}

/// Past an optional fractional part (`.` and at least one digit) at `j`.
pub open spec fn fraction_end(s: Seq<u8>, j: int) -> int {
    if 0 <= j && j + 1 < s.len() && s[j] == DOT && is_digit(s[j + 1]) {
        digits_end(s, j + 1)
    } else {
        j
    }
}

/// Past an optional exponent (`e` or `E`, an optional sign, digits) at `j`.
pub open spec fn exponent_end(s: Seq<u8>, j: int) -> int {
    if 0 <= j < s.len() && (s[j] == LOWER_E || s[j] == UPPER_E) && 0 <= sign_end(s, j + 1) < s.len()
        && is_digit(s[sign_end(s, j + 1)]) {
        digits_end(s, sign_end(s, j + 1))
    } else {
        j
    }
}

/// Past the digits of a number that starts at `a` (its sign already read): a
/// single `0` or a digit run, each with an optional fraction, or a fraction
/// that starts with `.`.
pub open spec fn mantissa_end(s: Seq<u8>, a: int) -> Option<int> {
    if 0 <= a < s.len() && s[a] == ZERO {
        Some(fraction_end(s, a + 1))
    } else if 0 <= a < s.len() && is_digit(s[a]) {
        Some(fraction_end(s, digits_end(s, a)))
    } else if 0 <= a && a + 1 < s.len() && s[a] == DOT && is_digit(s[a + 1]) {
        Some(digits_end(s, a + 1))
    } else {
        None
    }
}

/// The end of the number literal that starts at `i`.
pub open spec fn number_end(s: Seq<u8>, i: int) -> Option<int> {
    match mantissa_end(s, sign_end(s, i)) {
        Some(m) => Some(exponent_end(s, m)),
        None => None,
    }
}

/// The bytes that may follow a backslash in a string quoted by `q`.
pub open spec fn escapable(c: u8, q: u8) -> bool {
    c == q || c == LOWER_N || c == BACKSLASH
}

/// The end of a string quoted by `q` whose contents continue at `j`: just past
/// the first quote that is not escaped.
pub open spec fn string_body_end(s: Seq<u8>, j: int, q: u8) -> Option<int>
    decreases s.len() - j,
{
    if j < 0 || j >= s.len() {
        None
    } else if s[j] == q {
        Some(j + 1)
    } else if s[j] == BACKSLASH {
        if j + 1 < s.len() && escapable(s[j + 1], q) {
            string_body_end(s, j + 2, q)
        } else {
            None
        }
    } else {
        string_body_end(s, j + 1, q)
    }
}

/// The end of the string literal quoted by `q` that starts at `i`.
pub open spec fn string_end(s: Seq<u8>, i: int, q: u8) -> Option<int> {
    if 0 <= i < s.len() && s[i] == q {
        string_body_end(s, i + 1, q)
    } else {
        None
    }
}

pub open spec fn keyword_end(s: Seq<u8>, i: int, kw: Seq<u8>) -> Option<int> {
    if keyword_at(s, i, kw) {
        Some(i + kw.len())
    } else {
        None
    }
}

/// The end of the literal that starts at `i`, chosen by its first byte;
/// `NaN` is a literal only where `nan` holds.
pub open spec fn literal_end(s: Seq<u8>, i: int, nan: bool) -> Option<int> {
    if i < 0 || i >= s.len() {
        None
    } else {
        let c = s[i];
        if c == UPPER_N {
            if nan {
                keyword_end(s, i, kw_nan())
            } else {
                None
            }
        } else if c == LOWER_N {
            keyword_end(s, i, kw_null())
        } else if c == LOWER_T {
            keyword_end(s, i, kw_true())
        } else if c == LOWER_F {
            keyword_end(s, i, kw_false())
        } else if c == LOWER_U {
            keyword_end(s, i, kw_undefined())
        } else if c == DOUBLE_QUOTE || c == SINGLE_QUOTE {
            string_end(s, i, c)
        } else if is_digit(c) || c == PLUS || c == MINUS || c == DOT {
            number_end(s, i)
        } else {
            None
        }
    }
}

/// Past one optional `,` at `j`.
pub open spec fn comma_end(s: Seq<u8>, j: int) -> int {
    if 0 <= j < s.len() && s[j] == COMMA {
        j + 1
    } else {
        j
    }
}

/// Whether `ch` may continue an identifier.
pub fn is_ident(ch: u8) -> (r: bool)
    ensures
        r == ident_byte(ch),
{
    (LOWER_A <= ch && ch <= LOWER_Z) || (UPPER_A <= ch && ch <= UPPER_Z) || (ZERO <= ch && ch <= NINE)
        || ch == UNDERSCORE || ch == DOLLAR
}

/// Whether `ch` may start an identifier.
pub fn is_ident_pfx(ch: u8) -> (r: bool)
    ensures
        r == ident_start(ch),
{
    (LOWER_A <= ch && ch <= LOWER_Z) || (UPPER_A <= ch && ch <= UPPER_Z) || ch == UNDERSCORE || ch == DOLLAR
}

fn is_digit_byte(ch: u8) -> (r: bool)
    ensures
        r == is_digit(ch),
{
    ZERO <= ch && ch <= NINE
}

/// The end of the identifier run that starts at `j`.
pub fn scan_ident(s: &[u8], j: usize) -> (r: usize)
    requires
        j <= s@.len(),
    ensures
        r == ident_end(s@, j as int),
        j <= r <= s@.len(),
{
    let mut k = j;
    while k < s.len() && is_ident(s[k])
        invariant
            j <= k <= s@.len(),
            ident_end(s@, j as int) == ident_end(s@, k as int),
        decreases s@.len() - k,
    {
        k = k + 1;
    }
    k
}

fn scan_digits(s: &[u8], j: usize) -> (r: usize)
    requires
        j <= s@.len(),
    ensures
        r == digits_end(s@, j as int),
        j <= r <= s@.len(),
        j < s@.len() && is_digit(s@[j as int]) ==> j < r,
{
    let mut k = j;
    while k < s.len() && is_digit_byte(s[k])
        invariant
            j <= k <= s@.len(),
            digits_end(s@, j as int) == digits_end(s@, k as int),
        decreases s@.len() - k,
    {
        k = k + 1;
    }
    k
}

fn scan_sign(s: &[u8], i: usize) -> (r: usize)
    requires
        i <= s@.len(),
    ensures
        r == sign_end(s@, i as int),
        r <= s@.len(),
{
    if i < s.len() && (s[i] == PLUS || s[i] == MINUS) {
        i + 1
    } else {
        i
    }
}

fn scan_fraction(s: &[u8], j: usize) -> (r: usize)
    requires
        j <= s@.len(),
    ensures
        r == fraction_end(s@, j as int),
        j <= r <= s@.len(),
{
    if j < s.len() && s[j] == DOT && j + 1 < s.len() && is_digit_byte(s[j + 1]) {
        scan_digits(s, j + 1)
    } else {
        j
    }
}

fn scan_exponent(s: &[u8], j: usize) -> (r: usize)
    requires
        j <= s@.len(),
    ensures
        r == exponent_end(s@, j as int),
        j <= r <= s@.len(),
{
    if j < s.len() && (s[j] == LOWER_E || s[j] == UPPER_E) {
        let k = scan_sign(s, j + 1);
        if k < s.len() && is_digit_byte(s[k]) {
            return scan_digits(s, k);
        }
    }
    j
}

/// The end of the number literal that starts at `i`.
pub fn scan_number(s: &[u8], i: usize) -> (r: Option<usize>)
    requires
        i <= s@.len(),
    ensures
        match r {
            Some(e) => number_end(s@, i as int) == Some(e as int) && i < e <= s@.len(),
            None => number_end(s@, i as int) is None,
        },
{
    let a = scan_sign(s, i);
    let m = if a < s.len() && s[a] == ZERO {
        scan_fraction(s, a + 1)
    } else if a < s.len() && is_digit_byte(s[a]) {
        let d = scan_digits(s, a);
        scan_fraction(s, d)
    } else if a < s.len() && s[a] == DOT && a + 1 < s.len() && is_digit_byte(s[a + 1]) {
        scan_digits(s, a + 1)
    } else {
        return None;
    };
    Some(scan_exponent(s, m))
}

/// The end of the string literal quoted by `q` that starts at `i`.
pub fn scan_string(s: &[u8], i: usize, q: u8) -> (r: Option<usize>)
    requires
        i <= s@.len(),
    ensures
        match r {
            Some(e) => string_end(s@, i as int, q) == Some(e as int) && i < e <= s@.len(),
            None => string_end(s@, i as int, q) is None,
        },
{
    if i >= s.len() || s[i] != q {
        return None;
    }
    let mut j = i + 1;
    while j < s.len()
        invariant
            i < j <= s@.len(),
            string_end(s@, i as int, q) == string_body_end(s@, j as int, q),
        decreases s@.len() - j,
    {
        let c = s[j];
        if c == q {
            return Some(j + 1);
        } else if c == BACKSLASH {
            if j + 1 < s.len() && (s[j + 1] == q || s[j + 1] == LOWER_N || s[j + 1] == BACKSLASH) {
                j = j + 2;
            } else {
                return None;
            }
        } else {
            j = j + 1;
        }
    }
    None
}

/// Whether `kw` stands in `s` at `i`.
pub fn has_keyword(s: &[u8], i: usize, kw: &[u8]) -> (r: bool)
    ensures
        r == keyword_at(s@, i as int, kw@),
{
    if kw.len() > s.len() || i > s.len() - kw.len() {
        return false;
    }
    let n = s.len();
    let mut k: usize = 0;
    while k < kw.len()
        invariant
            i + kw@.len() <= n,
            n == s@.len(),
            k <= kw@.len(),
            forall|m: int| 0 <= m < k ==> s@[i + m] == kw@[m],
        decreases kw@.len() - k,
    {
        let at: usize = i + k;
        if s[at] != kw[k] {
            proof {
                assert(s@.subrange(i as int, i + kw@.len())[k as int] != kw@[k as int]);
            }
            return false;
        }
        k = k + 1;
    }
    assert(s@.subrange(i as int, i + kw@.len()) =~= kw@);
    true
}

fn scan_keyword(s: &[u8], i: usize, kw: Vec<u8>) -> (r: Option<usize>)
    requires
        i <= s@.len(),
        kw@.len() > 0,
    ensures
        match r {
            Some(e) => keyword_end(s@, i as int, kw@) == Some(e as int) && i < e <= s@.len(),
            None => keyword_end(s@, i as int, kw@) is None,
        },
{
    let n = s.len();
    if has_keyword(s, i, kw.as_slice()) {
        assert(i + kw@.len() <= n);
        Some(i + kw.len())
    } else {
        None
    }
}

/// The end of the literal that starts at `i`; `NaN` is accepted where `nan`
/// holds.
pub fn scan_literal(s: &[u8], i: usize, nan: bool) -> (r: Option<usize>)
    requires
        i <= s@.len(),
    ensures
        match r {
            Some(e) => literal_end(s@, i as int, nan) == Some(e as int) && i < e <= s@.len(),
            None => literal_end(s@, i as int, nan) is None,
        },
{
    if i >= s.len() {
        return None;
    }
    let c = s[i];
    if c == UPPER_N {
        if nan {
            scan_keyword(s, i, vec![78u8, 97, 78])
        } else {
            None
        }
    } else if c == LOWER_N {
        scan_keyword(s, i, vec![110u8, 117, 108, 108])
    } else if c == LOWER_T {
        scan_keyword(s, i, vec![116u8, 114, 117, 101])
    } else if c == LOWER_F {
        scan_keyword(s, i, vec![102u8, 97, 108, 115, 101])
    } else if c == LOWER_U {
        scan_keyword(s, i, vec![117u8, 110, 100, 101, 102, 105, 110, 101, 100])
    } else if c == DOUBLE_QUOTE || c == SINGLE_QUOTE {
        scan_string(s, i, c)
    } else if is_digit_byte(c) || c == PLUS || c == MINUS || c == DOT {
        scan_number(s, i)
    } else {
        None
    }
}

/// Splits `input` at `e`: what follows, then what precedes.
fn split_rest(input: &[u8], e: usize) -> (r: (&[u8], &[u8]))
    requires
        e <= input@.len(),
    ensures
        r.0@ == input@.subrange(e as int, input@.len() as int),
        r.1@ == input@.subrange(0, e as int),
{
    (&input[e..input.len()], &input[0..e])
}

/// Reads a number literal at the start of `input`: `Some((rest, literal))`.
pub fn float(input: &[u8]) -> (r: Option<(&[u8], &[u8])>)
    ensures
        match number_end(input@, 0) {
            Some(e) => r matches Some(p) && p.0@ == input@.subrange(e, input@.len() as int)
                && p.1@ == input@.subrange(0, e),
            None => r is None,
        },
{
    match scan_number(input, 0) {
        Some(e) => Some(split_rest(input, e)),
        None => None,
    }
}

/// Reads a double-quoted string literal, quotes included, at the start of
/// `input`: `Some((rest, literal))`.
pub fn string_literal(input: &[u8]) -> (r: Option<(&[u8], &[u8])>)
    ensures
        match string_end(input@, 0, DOUBLE_QUOTE) {
            Some(e) => r matches Some(p) && p.0@ == input@.subrange(e, input@.len() as int)
                && p.1@ == input@.subrange(0, e),
            None => r is None,
        },
{
    match scan_string(input, 0, DOUBLE_QUOTE) {
        Some(e) => Some(split_rest(input, e)),
        None => None,
    }
}

/// Reads a single-quoted string literal, quotes included, at the start of
/// `input`: `Some((rest, literal))`.
pub fn string_literal_sq(input: &[u8]) -> (r: Option<(&[u8], &[u8])>)
    ensures
        match string_end(input@, 0, SINGLE_QUOTE) {
            Some(e) => r matches Some(p) && p.0@ == input@.subrange(e, input@.len() as int)
                && p.1@ == input@.subrange(0, e),
            None => r is None,
        },
{
    match scan_string(input, 0, SINGLE_QUOTE) {
        Some(e) => Some(split_rest(input, e)),
        None => None,
    }
}

/// Reads one literal (`NaN` included) at the start of `input`, and one `,`
/// after it if there is one: `Some((rest, literal))`.
pub fn parse_lit(input: &[u8]) -> (r: Option<(&[u8], &[u8])>)
    ensures
        match literal_end(input@, 0, true) {
            Some(e) => r matches Some(p) && p.0@ == input@.subrange(
                comma_end(input@, e),
                input@.len() as int,
            ) && p.1@ == input@.subrange(0, e),
            None => r is None,
        },
{
    match scan_literal(input, 0, true) {
        Some(e) => {
            let next = if e < input.len() && input[e] == COMMA {
                e + 1
            } else {
                e
            };
            Some((&input[next..input.len()], &input[0..e]))
        },
        None => None,
    }
}

/// An identifier run ends at or after where it starts.
pub proof fn lemma_ident_end(s: Seq<u8>, j: int)
    ensures
        ident_end(s, j) >= j,
        j <= s.len() ==> ident_end(s, j) <= s.len(),
    decreases s.len() - j,
{
    if 0 <= j < s.len() && ident_byte(s[j]) {
        lemma_ident_end(s, j + 1);
    }
}

proof fn lemma_digits_end(s: Seq<u8>, j: int)
    ensures
        digits_end(s, j) >= j,
        j <= s.len() ==> digits_end(s, j) <= s.len(),
    decreases s.len() - j,
{
    if 0 <= j < s.len() && is_digit(s[j]) {
        lemma_digits_end(s, j + 1);
    }
}

proof fn lemma_string_body_end(s: Seq<u8>, j: int, q: u8)
    ensures
        string_body_end(s, j, q) matches Some(e) ==> j < e <= s.len(),
    decreases s.len() - j,
{
    if 0 <= j < s.len() && s[j] != q {
        if s[j] == BACKSLASH {
            if j + 1 < s.len() {
                lemma_string_body_end(s, j + 2, q);
            }
        } else {
            lemma_string_body_end(s, j + 1, q);
        }
    }
}

/// A literal is never empty.
pub proof fn lemma_literal_end(s: Seq<u8>, i: int, nan: bool)
    ensures
        literal_end(s, i, nan) matches Some(e) ==> i < e <= s.len(),
{
    lemma_string_body_end(s, i + 1, DOUBLE_QUOTE);
    lemma_string_body_end(s, i + 1, SINGLE_QUOTE);
    let a = sign_end(s, i);
    lemma_digits_end(s, a);
    lemma_digits_end(s, a + 1);
    lemma_digits_end(s, a + 2);
    let d = digits_end(s, a);
    lemma_digits_end(s, d + 1);
    if let Some(m) = mantissa_end(s, a) {
        lemma_digits_end(s, m + 1);
        lemma_digits_end(s, m + 2);
        if 0 <= a < s.len() && is_digit(s[a]) && s[a] != ZERO {
            lemma_digits_end(s, a + 1);
        }
    }
}

} // verus!
