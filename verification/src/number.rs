//! Numbers of markdownlang: IEEE-754 binary64 values, held by their bit pattern.
//!
//! Comparison, negation, integrality and the integer part of a value are decided
//! here from the bits; rounding arithmetic, decimal conversion and the printing of
//! non-integral values are done by `rustc_apfloat`'s software binary64.
use vstd::prelude::*;
use vstd::arithmetic::power2::*;
use rustc_apfloat::Float;
use rustc_apfloat::ieee::Double;
use crate::text::{push_char, chars_of, is_digit};

verus! {

/// A binary64 floating-point number, stored as its bit pattern.
#[derive(Clone, Copy, Debug)]
pub struct Number {
    pub bits: u64,
}

pub const SIGN_BIT: u64 = 0x8000_0000_0000_0000;

pub const INFINITY_BITS: u64 = 0x7FF0_0000_0000_0000;

/// The bits of `f64::NAN`.
pub const NAN_BITS: u64 = 0x7FF8_0000_0000_0000;

/// The bits of `1e15`.
pub const E15_BITS: u64 = 0x430C_6BF5_2634_0000;

/// The bits of `f64::EPSILON` (2^-52).
pub const EPSILON_BITS: u64 = 0x3CB0_0000_0000_0000;

/// The bits of `0.0`.
pub const ZERO_BITS: u64 = 0;

/// Magnitude: the bits without the sign.
pub open spec fn magnitude(b: u64) -> int {
    (b % SIGN_BIT) as int
}

pub open spec fn sign_set(b: u64) -> bool {
    b >= SIGN_BIT
}

pub open spec fn exponent_field(b: u64) -> int {
    magnitude(b) / 0x10_0000_0000_0000
}

pub open spec fn fraction_field(b: u64) -> int {
    magnitude(b) % 0x10_0000_0000_0000
}

pub open spec fn is_nan(b: u64) -> bool {
    magnitude(b) > INFINITY_BITS
}

pub open spec fn is_finite(b: u64) -> bool {
    magnitude(b) < INFINITY_BITS
}

/// For values that are not NaN, the order of binary64 values is the order of this key:
/// the magnitude bits grow with the absolute value, and the sign bit negates.
pub open spec fn order_key(b: u64) -> int {
    if sign_set(b) {
        -magnitude(b)
    } else {
        magnitude(b)
    }
}

/// IEEE equality: NaN equals nothing, and the two zeros are equal.
pub open spec fn num_eq_spec(a: u64, b: u64) -> bool {
    !is_nan(a) && !is_nan(b) && order_key(a) == order_key(b)
}

pub open spec fn num_lt_spec(a: u64, b: u64) -> bool {
    !is_nan(a) && !is_nan(b) && order_key(a) < order_key(b)
}

pub open spec fn num_le_spec(a: u64, b: u64) -> bool {
    !is_nan(a) && !is_nan(b) && order_key(a) <= order_key(b)
}

/// Negation flips the sign bit.
pub open spec fn neg_bits(b: u64) -> u64 {
    if sign_set(b) {
        (b - SIGN_BIT) as u64
    } else {
        (b + SIGN_BIT) as u64
    }
}

/// A finite value with no fractional part.
pub open spec fn is_integral(b: u64) -> bool {
    let e = exponent_field(b);
    is_finite(b) && (magnitude(b) == 0 || e >= 1075 || (e >= 1023 && fraction_field(b) % (pow2(
        (1075 - e) as nat,
    ) as int) == 0))
}

/// The value of a finite double whose exponent field is below 1076, rounded toward zero.
pub open spec fn truncated_magnitude(b: u64) -> int {
    let e = exponent_field(b);
    if e < 1023 {
        0
    } else {
        (0x10_0000_0000_0000 + fraction_field(b)) / (pow2((1075 - e) as nat) as int)
    }
}

/// The integer a small integral value stands for.
pub open spec fn small_integer_value(b: u64) -> int {
    if sign_set(b) {
        -truncated_magnitude(b)
    } else {
        truncated_magnitude(b)
    }
}

/// Rust's `x as usize` on a double: NaN and negatives give 0, the value is truncated
/// toward zero, and what does not fit saturates.
pub open spec fn as_usize_spec(b: u64) -> int {
    let e = exponent_field(b);
    if is_nan(b) || sign_set(b) {
        0
    } else if e >= 1075 + 64 {
        usize::MAX as int
    } else {
        let t = if e <= 1075 {
            truncated_magnitude(b)
        } else {
            (0x10_0000_0000_0000 + fraction_field(b)) * (pow2((e - 1075) as nat) as int)
        };
        if t > usize::MAX {
            usize::MAX as int
        } else {
            t
        }
    }
}

/// The decimal digit characters of a natural number.
pub open spec fn nat_text(n: nat) -> Seq<char>
    decreases n,
{
    if n < 10 {
        seq![digit_char(n)]
    } else {
        nat_text(n / 10).push(digit_char(n % 10))
    }
}

pub open spec fn digit_char(d: nat) -> char {
    ((d % 10) + 48) as char
}

/// The decimal text of an integer, with a leading `-` when negative.
pub open spec fn int_text(i: int) -> Seq<char> {
    if i < 0 {
        seq!['-'] + nat_text((-i) as nat)
    } else {
        nat_text(i as nat)
    }
}

// ---------------------------------------------------------------------------
// Names for what the software binary64 computes
// ---------------------------------------------------------------------------

/// The correctly rounded sum of two doubles.
pub uninterp spec fn double_sum(a: u64, b: u64) -> u64;

/// The correctly rounded difference of two doubles.
pub uninterp spec fn double_difference(a: u64, b: u64) -> u64;

/// The correctly rounded product of two doubles.
pub uninterp spec fn double_product(a: u64, b: u64) -> u64;

/// The correctly rounded quotient of two doubles.
pub uninterp spec fn double_quotient(a: u64, b: u64) -> u64;

/// The remainder of two doubles with the sign of the dividend (C `fmod`, Rust's `%`).
pub uninterp spec fn double_remainder(a: u64, b: u64) -> u64;

/// The double nearest to a decimal numeral, or `None` where the converter refuses it.
pub uninterp spec fn decimal_double(s: Seq<char>) -> Option<u64>;

/// The decimal text that the software binary64 prints for a double, rounded to the given
/// number of significant digits.
pub uninterp spec fn double_text_digits(b: u64, digits: nat) -> Seq<char>;

/// Calls `rustc_apfloat`'s `Double` addition (round to nearest, ties to even).
#[verifier::external_body]
fn add_doubles(a: u64, b: u64) -> (r: u64)
    ensures
        r == double_sum(a, b),
{
    (Double::from_bits(a as u128) + Double::from_bits(b as u128)).value.to_bits() as u64
}

/// Calls `rustc_apfloat`'s `Double` subtraction.
#[verifier::external_body]
fn sub_doubles(a: u64, b: u64) -> (r: u64)
    ensures
        r == double_difference(a, b),
{
    (Double::from_bits(a as u128) - Double::from_bits(b as u128)).value.to_bits() as u64
}

/// Calls `rustc_apfloat`'s `Double` multiplication.
#[verifier::external_body]
fn mul_doubles(a: u64, b: u64) -> (r: u64)
    ensures
        r == double_product(a, b),
{
    (Double::from_bits(a as u128) * Double::from_bits(b as u128)).value.to_bits() as u64
}

/// Calls `rustc_apfloat`'s `Double` division.
#[verifier::external_body]
fn div_doubles(a: u64, b: u64) -> (r: u64)
    ensures
        r == double_quotient(a, b),
{
    (Double::from_bits(a as u128) / Double::from_bits(b as u128)).value.to_bits() as u64
}

/// Calls `rustc_apfloat`'s `Double` remainder, which is `c_fmod`.
#[verifier::external_body]
fn rem_doubles(a: u64, b: u64) -> (r: u64)
    ensures
        r == double_remainder(a, b),
{
    (Double::from_bits(a as u128) % Double::from_bits(b as u128)).value.to_bits() as u64
}

/// Calls `rustc_apfloat`'s decimal reader (`Double::from_str`), rounding to nearest.
#[verifier::external_body]
pub(crate) fn read_decimal(s: &str) -> (r: Option<u64>)
    ensures
        r == decimal_double(s@),
{
    match s.parse::<Double>() {
        Ok(d) => Some(d.to_bits() as u64),
        Err(_) => None,
    }
}

/// Calls `rustc_apfloat`'s `Display` for `Double` with a precision: the double rounded to
/// that many significant digits, in positional or scientific (`E`) notation. The
/// precision stays small: the formatter sizes its buffer from it with unchecked
/// arithmetic.
#[verifier::external_body]
pub(crate) fn write_double_digits(b: u64, digits: usize) -> (r: String)
    requires
        digits <= 800,
    ensures
        r@ == double_text_digits(b, digits as nat),
{
    format!("{:.1$}", Double::from_bits(b as u128), digits)
}

// ---------------------------------------------------------------------------
// Operations
// ---------------------------------------------------------------------------

impl Number {
    pub fn from_bits(bits: u64) -> (n: Number)
        ensures
            n.bits == bits,
    {
        Number { bits }
    }

    pub fn zero() -> (n: Number)
        ensures
            n.bits == ZERO_BITS,
    {
        Number { bits: ZERO_BITS }
    }

    pub fn add(self, other: Number) -> (r: Number)
        ensures
            r.bits == double_sum(self.bits, other.bits),
    {
        Number { bits: add_doubles(self.bits, other.bits) }
    }

    pub fn sub(self, other: Number) -> (r: Number)
        ensures
            r.bits == double_difference(self.bits, other.bits),
    {
        Number { bits: sub_doubles(self.bits, other.bits) }
    }

    pub fn mul(self, other: Number) -> (r: Number)
        ensures
            r.bits == double_product(self.bits, other.bits),
    {
        Number { bits: mul_doubles(self.bits, other.bits) }
    }

    pub fn div(self, other: Number) -> (r: Number)
        ensures
            r.bits == double_quotient(self.bits, other.bits),
    {
        Number { bits: div_doubles(self.bits, other.bits) }
    }

    pub fn rem(self, other: Number) -> (r: Number)
        ensures
            r.bits == double_remainder(self.bits, other.bits),
    {
        Number { bits: rem_doubles(self.bits, other.bits) }
    }

    pub fn neg(self) -> (r: Number)
        ensures
            r.bits == neg_bits(self.bits),
    {
        if self.bits >= SIGN_BIT {
            Number { bits: self.bits - SIGN_BIT }
        } else {
            Number { bits: self.bits + SIGN_BIT }
        }
    }

    /// The absolute value: the sign bit cleared.
    pub fn abs(self) -> (r: Number)
        ensures
            r.bits == magnitude(self.bits),
    {
        Number { bits: self.bits % SIGN_BIT }
    }

    pub fn is_nan(self) -> (r: bool)
        ensures
            r == is_nan(self.bits),
    {
        self.bits % SIGN_BIT > INFINITY_BITS
    }

    pub fn is_zero(self) -> (r: bool)
        ensures
            r == num_eq_spec(self.bits, ZERO_BITS),
    {
        self.bits % SIGN_BIT == 0
    }

    pub fn num_eq(self, other: Number) -> (r: bool)
        ensures
            r == num_eq_spec(self.bits, other.bits),
    {
        if self.is_nan() || other.is_nan() {
            false
        } else {
            let ka = self.bits % SIGN_BIT;
            let kb = other.bits % SIGN_BIT;
            if ka == 0 && kb == 0 {
                true
            } else {
                self.bits == other.bits
            }
        }
    }

    pub fn num_lt(self, other: Number) -> (r: bool)
        ensures
            r == num_lt_spec(self.bits, other.bits),
    {
        if self.is_nan() || other.is_nan() {
            return false;
        }
        let ma = self.bits % SIGN_BIT;
        let mb = other.bits % SIGN_BIT;
        let na = self.bits >= SIGN_BIT;
        let nb = other.bits >= SIGN_BIT;
        if !na && !nb {
            ma < mb
        } else if na && nb {
            mb < ma
        } else if na {
            ma != 0 || mb != 0
        } else {
            false
        }
    }

    pub fn num_le(self, other: Number) -> (r: bool)
        ensures
            r == num_le_spec(self.bits, other.bits),
    {
        self.num_lt(other) || self.num_eq(other)
    }

    pub fn num_gt(self, other: Number) -> (r: bool)
        ensures
            r == num_lt_spec(other.bits, self.bits),
    {
        other.num_lt(self)
    }

    pub fn num_ge(self, other: Number) -> (r: bool)
        ensures
            r == num_le_spec(other.bits, self.bits),
    {
        other.num_le(self)
    }
}

/// `2^k` for `k <= 63`.
fn pow2_u64(k: u64) -> (p: u64)
    requires
        k <= 63,
    ensures
        p as nat == pow2(k as nat),
        0 < p <= 0x8000_0000_0000_0000,
{
    proof {
        lemma2_to64();
        lemma2_to64_rest();
    }
    let mut p: u64 = 1;
    let mut i: u64 = 0;
    while i < k
        invariant
            i <= k <= 63,
            p as nat == pow2(i as nat),
        decreases k - i,
    {
        proof {
            lemma_pow2_unfold((i + 1) as nat);
            lemma_pow2_strictly_increases((i + 1) as nat, 64);
            lemma2_to64();
            lemma2_to64_rest();
        }
        p = p * 2;
        i += 1;
    }
    proof {
        lemma_pow2_pos(k as nat);
        if k < 63 {
            lemma_pow2_strictly_increases(k as nat, 63);
        }
    }
    p
}

/// Whether a double is finite and has no fractional part.
pub fn number_is_integral(n: Number) -> (r: bool)
    ensures
        r == is_integral(n.bits),
{
    let m = n.bits % SIGN_BIT;
    if m >= INFINITY_BITS {
        return false;
    }
    if m == 0 {
        return true;
    }
    let e = m / 0x10_0000_0000_0000;
    let f = m % 0x10_0000_0000_0000;
    if e >= 1075 {
        true
    } else if e >= 1023 {
        let p = pow2_u64(1075 - e);
        f % p == 0
    } else {
        false
    }
}

/// The integer value of an integral double whose magnitude is below `1e15`.
fn small_integer(n: Number) -> (v: i64)
    requires
        is_integral(n.bits),
        magnitude(n.bits) < E15_BITS,
    ensures
        v as int == small_integer_value(n.bits),
{
    let m = n.bits % SIGN_BIT;
    let e = m / 0x10_0000_0000_0000;
    let f = m % 0x10_0000_0000_0000;
    let t: u64 = if e < 1023 {
        0
    } else {
        let p = pow2_u64(1075 - e);
        proof {
            lemma_pow2_pos((1075 - e) as nat);
        }
        (0x10_0000_0000_0000 + f) / p
    };
    proof {
        if e >= 1023 {
            lemma_pow2_pos((1075 - e) as nat);
            assert(t <= 0x20_0000_0000_0000) by (nonlinear_arith)
                requires
                    t == (0x10_0000_0000_0000 + f) / (pow2((1075 - e) as nat) as int),
                    f < 0x10_0000_0000_0000,
                    pow2((1075 - e) as nat) > 0,
            ;
        }
    }
    if n.bits >= SIGN_BIT {
        -(t as i64)
    } else {
        t as i64
    }
}

/// Rust's `x as usize` for a double.
pub fn number_as_usize(n: Number) -> (r: usize)
    ensures
        r as int == as_usize_spec(n.bits),
{
    if n.is_nan() || n.bits >= SIGN_BIT {
        return 0;
    }
    let m = n.bits % SIGN_BIT;
    let e = m / 0x10_0000_0000_0000;
    let f = m % 0x10_0000_0000_0000;
    if e >= 1075 + 64 {
        return usize::MAX;
    }
    if e < 1023 {
        return 0;
    }
    let t: u128 = if e <= 1075 {
        let p = pow2_u64(1075 - e);
        proof {
            lemma_pow2_pos((1075 - e) as nat);
        }
        ((0x10_0000_0000_0000 + f) / p) as u128
    } else {
        if e - 1075 > 63 {
            return usize::MAX;
        }
        let p = pow2_u64(e - 1075);
        proof {
            assert((0x10_0000_0000_0000 + f) * p <= 0x20_0000_0000_0000 * 0x8000_0000_0000_0000)
                by (nonlinear_arith)
                requires
                    f < 0x10_0000_0000_0000,
                    p <= 0x8000_0000_0000_0000,
            ;
        }
        (0x10_0000_0000_0000 + f) as u128 * p as u128
    };
    if t > usize::MAX as u128 {
        usize::MAX
    } else {
        t as usize
    }
}

/// Appends the decimal digits of `n`.
pub fn push_nat_text(s: &mut String, n: u128)
    ensures
        final(s)@ == old(s)@ + nat_text(n as nat),
    decreases n,
{
    if n >= 10 {
        push_nat_text(s, n / 10);
    }
    let d = (n % 10) as u32 + 48;
    let c = char_from_ascii(d);
    push_char(s, c);
    proof {
        assert(c == digit_char(n as nat));
    }
}

fn char_from_ascii(d: u32) -> (c: char)
    requires
        48 <= d < 58,
    ensures
        c as u32 == d,
{
    let c = if d == 48 { '0' } else if d == 49 { '1' } else if d == 50 { '2' } else if d == 51 {
        '3'
    } else if d == 52 { '4' } else if d == 53 { '5' } else if d == 54 { '6' } else if d == 55 {
        '7'
    } else if d == 56 { '8' } else { '9' };
    c
}

/// Appends the decimal text of an integer.
pub fn push_int_text(s: &mut String, i: i64)
    ensures
        final(s)@ == old(s)@ + int_text(i as int),
{
    if i < 0 {
        push_char(s, '-');
        let m: u128 = if i == i64::MIN { 0x8000_0000_0000_0000 } else { (-i) as u128 };
        push_nat_text(s, m);
        assert(final(s)@ =~= old(s)@ + int_text(i as int));
    } else {
        push_nat_text(s, i as u128);
    }
}

/// How `{}` prints a number: an integer below 10^15 in magnitude as an integer, any other
/// double as Rust prints an `f64`.
pub open spec fn number_text_spec(b: u64) -> Seq<char> {
    if is_integral(b) && magnitude(b) < E15_BITS {
        int_text(small_integer_value(b))
    } else {
        crate::decimal::double_display(b)
    }
}

pub fn number_text(n: Number) -> (s: String)
    ensures
        s@ == number_text_spec(n.bits),
{
    if number_is_integral(n) && n.bits % SIGN_BIT < E15_BITS {
        let v = small_integer(n);
        let mut s = String::new();
        push_int_text(&mut s, v);
        s
    } else {
        crate::decimal::display_double(n.bits)
    }
}


// ---------------------------------------------------------------------------
// Reading a number the way `str::parse::<f64>` does
// ---------------------------------------------------------------------------

pub open spec fn is_sign_char(c: char) -> bool {
    c == '+' || c == '-'
}

pub open spec fn is_exp_char(c: char) -> bool {
    c == 'e' || c == 'E'
}

/// The text after an optional leading sign.
pub open spec fn unsigned_part(s: Seq<char>) -> Seq<char> {
    if s.len() > 0 && is_sign_char(s[0]) {
        s.drop_first()
    } else {
        s
    }
}

pub open spec fn ascii_lower(c: char) -> char {
    if 'A' <= c && c <= 'Z' {
        ((c as u32) + 32) as char
    } else {
        c
    }
}

/// `s` equals the lower-case ASCII `word` when case is ignored.
pub open spec fn equals_ignoring_case(s: Seq<char>, word: Seq<char>) -> bool {
    s.len() == word.len() && forall|i: int| 0 <= i < s.len() ==> ascii_lower(#[trigger] s[i]) == word[i]
}

/// Digits with at most one `.` among them, and at least one digit.
pub open spec fn mantissa_syntax(m: Seq<char>) -> bool {
    &&& forall|i: int| 0 <= i < m.len() ==> is_digit(#[trigger] m[i]) || m[i] == '.'
    &&& forall|i: int, j: int| 0 <= i < j < m.len() && m[i] == '.' ==> m[j] != '.'
    &&& exists|i: int| 0 <= i < m.len() && is_digit(#[trigger] m[i])
}

/// An optional sign followed by at least one digit.
pub open spec fn exponent_syntax(x: Seq<char>) -> bool {
    let d = unsigned_part(x);
    d.len() > 0 && forall|i: int| 0 <= i < d.len() ==> is_digit(#[trigger] d[i])
}

/// The grammar of a decimal numeral in `f64`'s `FromStr` documentation:
/// a mantissa, then optionally `e`/`E` and an exponent.
pub open spec fn decimal_syntax(s: Seq<char>) -> bool {
    ||| ((forall|i: int| 0 <= i < s.len() ==> !is_exp_char(#[trigger] s[i])) && mantissa_syntax(s))
    ||| exists|k: int|
        0 <= k < s.len() && is_exp_char(s[k]) && (forall|i: int|
            0 <= i < k ==> !is_exp_char(#[trigger] s[i])) && mantissa_syntax(s.take(k))
            && exponent_syntax(s.skip(k + 1))
}

/// What `str::parse::<f64>` gives: `inf`, `infinity` and `nan` in any case, or a decimal
/// numeral, each after an optional sign; `None` for anything else.
pub open spec fn parse_number_spec(s: Seq<char>) -> Option<u64> {
    let negative = s.len() > 0 && s[0] == '-';
    let body = unsigned_part(s);
    if equals_ignoring_case(body, seq!['i', 'n', 'f']) || equals_ignoring_case(
        body,
        seq!['i', 'n', 'f', 'i', 'n', 'i', 't', 'y'],
    ) {
        Some(if negative { (INFINITY_BITS + SIGN_BIT) as u64 } else { INFINITY_BITS })
    } else if equals_ignoring_case(body, seq!['n', 'a', 'n']) {
        Some(if negative { (NAN_BITS + SIGN_BIT) as u64 } else { NAN_BITS })
    } else if decimal_syntax(body) {
        decimal_double(s)
    } else {
        None
    }
}

fn lower_ascii(c: char) -> (r: char)
    ensures
        r == ascii_lower(c),
{
    if 'A' <= c && c <= 'Z' {
        let u = (c as u32) + 32;
        let r = if u == 97 { 'a' } else if u == 98 { 'b' } else if u == 99 { 'c' } else if u
            == 100 { 'd' } else if u == 101 { 'e' } else if u == 102 { 'f' } else if u == 103 {
            'g'
        } else if u == 104 { 'h' } else if u == 105 { 'i' } else if u == 106 { 'j' } else if u
            == 107 { 'k' } else if u == 108 { 'l' } else if u == 109 { 'm' } else if u == 110 {
            'n'
        } else if u == 111 { 'o' } else if u == 112 { 'p' } else if u == 113 { 'q' } else if u
            == 114 { 'r' } else if u == 115 { 's' } else if u == 116 { 't' } else if u == 117 {
            'u'
        } else if u == 118 { 'v' } else if u == 119 { 'w' } else if u == 120 { 'x' } else if u
            == 121 { 'y' } else { 'z' };
        r
    } else {
        c
    }
}

fn matches_ignoring_case(s: &Vec<char>, start: usize, word: &Vec<char>) -> (r: bool)
    requires
        start <= s.len(),
    ensures
        r == equals_ignoring_case(s@.skip(start as int), word@),
{
    if s.len() - start != word.len() {
        return false;
    }
    let mut i: usize = 0;
    while i < word.len()
        invariant
            start <= s.len(),
            s.len() - start == word.len(),
            i <= word.len(),
            forall|j: int| 0 <= j < i ==> ascii_lower(#[trigger] s@.skip(start as int)[j]) == word@[j],
        decreases word.len() - i,
    {
        if lower_ascii(s[start + i]) != word[i] {
            assert(ascii_lower(s@.skip(start as int)[i as int]) != word@[i as int]);
            return false;
        }
        i += 1;
    }
    true
}

fn check_mantissa(s: &Vec<char>, start: usize, end: usize) -> (r: bool)
    requires
        start <= end <= s.len(),
    ensures
        r == mantissa_syntax(s@.subrange(start as int, end as int)),
{
    let ghost m = s@.subrange(start as int, end as int);
    let mut seen_dot = false;
    let mut seen_digit = false;
    let mut i = start;
    while i < end
        invariant
            start <= i <= end <= s.len(),
            m == s@.subrange(start as int, end as int),
            forall|j: int| 0 <= j < i - start ==> is_digit(#[trigger] m[j]) || m[j] == '.',
            forall|a: int, b: int| 0 <= a < b < i - start && m[a] == '.' ==> m[b] != '.',
            seen_dot == exists|j: int| 0 <= j < i - start && #[trigger] m[j] == '.',
            seen_digit == exists|j: int| 0 <= j < i - start && is_digit(#[trigger] m[j]),
        decreases end - i,
    {
        let c = s[i];
        assert(m[i - start] == c);
        if c == '.' {
            if seen_dot {
                let ghost j = choose|j: int| 0 <= j < i - start && #[trigger] m[j] == '.';
                assert(m[j] == '.' && m[i - start] == '.');
                return false;
            }
            seen_dot = true;
        } else if '0' <= c && c <= '9' {
            seen_digit = true;
        } else {
            return false;
        }
        i += 1;
    }
    seen_digit
}

fn check_exponent(s: &Vec<char>, start: usize) -> (r: bool)
    requires
        start <= s.len(),
    ensures
        r == exponent_syntax(s@.skip(start as int)),
{
    let ghost x = s@.skip(start as int);
    let mut i = start;
    if i < s.len() && (s[i] == '+' || s[i] == '-') {
        i += 1;
    }
    let ghost d = unsigned_part(x);
    assert(d =~= s@.skip(i as int));
    if i == s.len() {
        return false;
    }
    let first = i;
    while i < s.len()
        invariant
            first <= i <= s.len(),
            start <= s.len(),
            d == s@.skip(first as int),
            d == unsigned_part(s@.skip(start as int)),
            forall|j: int| 0 <= j < i - first ==> is_digit(#[trigger] d[j]),
        decreases s.len() - i,
    {
        if !('0' <= s[i] && s[i] <= '9') {
            assert(d[i - first] == s@[i as int]);
            assert(!is_digit(d[i - first]));
            return false;
        }
        i += 1;
    }
    true
}

fn check_decimal(s: &Vec<char>, start: usize) -> (r: bool)
    requires
        start <= s.len(),
    ensures
        r == decimal_syntax(s@.skip(start as int)),
{
    let ghost b = s@.skip(start as int);
    let mut k = start;
    while k < s.len() && !(s[k] == 'e' || s[k] == 'E')
        invariant
            start <= k <= s.len(),
            b == s@.skip(start as int),
            forall|i: int| 0 <= i < k - start ==> !is_exp_char(#[trigger] b[i]),
        decreases s.len() - k,
    {
        assert(b[k - start] == s@[k as int]);
        k += 1;
    }
    if k == s.len() {
        let r = check_mantissa(s, start, s.len());
        assert(s@.subrange(start as int, s.len() as int) =~= b);
        proof {
            if !r {
                assert forall|k2: int|
                    0 <= k2 < b.len() && is_exp_char(b[k2]) implies !((forall|i: int|
                    0 <= i < k2 ==> !is_exp_char(#[trigger] b[i])) && mantissa_syntax(b.take(k2))
                    && exponent_syntax(b.skip(k2 + 1))) by {
                    assert(!is_exp_char(b[k2]));
                }
            }
        }
        r
    } else {
        let ghost kk = k - start;
        assert(b[kk] == s@[k as int]);
        let m = check_mantissa(s, start, k);
        let x = check_exponent(s, k + 1);
        assert(s@.subrange(start as int, k as int) =~= b.take(kk));
        assert(s@.skip(k + 1) =~= b.skip(kk + 1));
        proof {
            assert(!(forall|i: int| 0 <= i < b.len() ==> !is_exp_char(#[trigger] b[i])));
            if !(m && x) {
                assert forall|k2: int|
                    0 <= k2 < b.len() && is_exp_char(b[k2]) implies !((forall|i: int|
                    0 <= i < k2 ==> !is_exp_char(#[trigger] b[i])) && mantissa_syntax(b.take(k2))
                    && exponent_syntax(b.skip(k2 + 1))) by {
                    if k2 > kk {
                        assert(is_exp_char(b[kk]));
                    } else if k2 < kk {
                        assert(!is_exp_char(b[k2]));
                    }
                }
            }
        }
        m && x
    }
}

/// Reads a number as `str::parse::<f64>` does.
pub fn parse_number(text: &str) -> (r: Option<Number>)
    ensures
        r matches Some(n) ==> parse_number_spec(text@) == Some(n.bits),
        r is None ==> parse_number_spec(text@) is None,
{
    let s = chars_of(text);
    let negative = s.len() > 0 && s[0] == '-';
    let start: usize = if s.len() > 0 && (s[0] == '+' || s[0] == '-') { 1 } else { 0 };
    assert(unsigned_part(s@) =~= s@.skip(start as int));
    let inf = vec!['i', 'n', 'f'];
    let infinity = vec!['i', 'n', 'f', 'i', 'n', 'i', 't', 'y'];
    let nan = vec!['n', 'a', 'n'];
    assert(inf@ =~= seq!['i', 'n', 'f']);
    assert(infinity@ =~= seq!['i', 'n', 'f', 'i', 'n', 'i', 't', 'y']);
    assert(nan@ =~= seq!['n', 'a', 'n']);
    if matches_ignoring_case(&s, start, &inf) || matches_ignoring_case(&s, start, &infinity) {
        Some(Number { bits: if negative { INFINITY_BITS + SIGN_BIT } else { INFINITY_BITS } })
    } else if matches_ignoring_case(&s, start, &nan) {
        Some(Number { bits: if negative { NAN_BITS + SIGN_BIT } else { NAN_BITS } })
    } else if check_decimal(&s, start) {
        match read_decimal(text) {
            Some(b) => Some(Number { bits: b }),
            None => None,
        }
    } else {
        None
    }
}

} // verus!
