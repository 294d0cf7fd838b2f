//! Numeric literals.
//!
//! A literal is a single-precision binary floating-point number, held as its
//! IEEE 754 bit pattern: one sign bit, eight exponent bits, twenty-three
//! fraction bits. Everything here works on that pattern with integer
//! arithmetic only.
use crate::shortest::{
    best_count, best_scale, decimal_text, lemma_shortest_is_shortest, lemma_shortest_reads,
    push_decimal, reads_as, shortest,
};
use vstd::prelude::*;

verus! {

/// The sign bit.
pub const SIGN: u32 = 0x8000_0000;

/// The pattern of `+0`.
pub const POS_ZERO: u32 = 0;

/// The pattern of `-0`.
pub const NEG_ZERO: u32 = 0x8000_0000;

/// The pattern of `1`.
pub const ONE: u32 = 0x3F80_0000;

/// The pattern of `-1`.
pub const NEG_ONE: u32 = 0xBF80_0000;

/// The pattern of `2`.
pub const TWO: u32 = 0x4000_0000;

/// The pattern of positive infinity.
pub const INFINITY: u32 = 0x7F80_0000;

/// The pattern of the quiet not-a-number that arithmetic produces.
pub const NAN: u32 = 0x7FC0_0000;

/// The weight of the implicit leading bit of a normal significand, `2^23`.
pub const HIDDEN: u32 = 0x0080_0000;

/// `2^n`.
pub open spec fn two_pow(n: nat) -> nat
    decreases n,
{
    if n == 0 {
        1
    } else {
        2 * two_pow((n - 1) as nat)
    }
}

/// `5^n`.
pub open spec fn five_pow(n: nat) -> nat
    decreases n,
{
    if n == 0 {
        1
    } else {
        5 * five_pow((n - 1) as nat)
    }
}

pub(crate) proof fn lemma_two_pow_adds(a: nat, b: nat)
    ensures
        two_pow(a + b) == two_pow(a) * two_pow(b),
    decreases b,
{
    if b == 0 {
        assert(two_pow(a) * 1 == two_pow(a));
    } else {
        lemma_two_pow_adds(a, (b - 1) as nat);
        assert(two_pow(a + b) == 2 * two_pow((a + b - 1) as nat));
        assert(2 * (two_pow(a) * two_pow((b - 1) as nat)) == two_pow(a) * (2 * two_pow(
            (b - 1) as nat,
        ))) by (nonlinear_arith);
    }
}

pub(crate) proof fn lemma_two_pow_monotonic(a: nat, b: nat)
    requires
        a <= b,
    ensures
        0 < two_pow(a) <= two_pow(b),
    decreases b,
{
    if b == 0 {
    } else if a == b {
        lemma_two_pow_monotonic(0, (b - 1) as nat);
    } else {
        lemma_two_pow_monotonic(a, (b - 1) as nat);
    }
}

pub(crate) proof fn lemma_five_pow_monotonic(a: nat, b: nat)
    requires
        a <= b,
    ensures
        0 < five_pow(a) <= five_pow(b),
    decreases b,
{
    if b == 0 {
    } else if a == b {
        lemma_five_pow_monotonic(0, (b - 1) as nat);
    } else {
        lemma_five_pow_monotonic(a, (b - 1) as nat);
    }
}

pub(crate) proof fn lemma_two_pow_values()
    ensures
        two_pow(8) == 0x100,
        two_pow(16) == 0x1_0000,
        two_pow(23) == 0x80_0000,
        two_pow(24) == 0x100_0000,
        two_pow(31) == 0x8000_0000,
        two_pow(32) == 0x1_0000_0000,
        two_pow(64) == 0x1_0000_0000_0000_0000,
        two_pow(80) == 0x1_0000_0000_0000_0000_0000,
        two_pow(100) == 0x10_0000_0000_0000_0000_0000_0000,
        two_pow(102) == 0x40_0000_0000_0000_0000_0000_0000,
        two_pow(104) == 0x100_0000_0000_0000_0000_0000_0000,
        two_pow(124) == 0x1000_0000_0000_0000_0000_0000_0000_0000,
        two_pow(126) == 0x4000_0000_0000_0000_0000_0000_0000_0000,
        two_pow(127) == 0x8000_0000_0000_0000_0000_0000_0000_0000,
{
    assert(two_pow(8) == 0x100) by {
        reveal_with_fuel(two_pow, 9);
    }
    assert(two_pow(7) == 0x80) by {
        reveal_with_fuel(two_pow, 8);
    }
    assert(two_pow(4) == 0x10) by {
        reveal_with_fuel(two_pow, 5);
    }
    assert(two_pow(2) == 4 && two_pow(3) == 8) by {
        reveal_with_fuel(two_pow, 4);
    }
    lemma_two_pow_product(8, 8, 0x100, 0x100);
    lemma_two_pow_product(16, 7, 0x1_0000, 0x80);
    lemma_two_pow_product(16, 8, 0x1_0000, 0x100);
    lemma_two_pow_product(24, 7, 0x100_0000, 0x80);
    lemma_two_pow_product(24, 8, 0x100_0000, 0x100);
    lemma_two_pow_product(32, 32, 0x1_0000_0000, 0x1_0000_0000);
    lemma_two_pow_product(64, 16, 0x1_0000_0000_0000_0000, 0x1_0000);
    lemma_two_pow_product(80, 24, 0x1_0000_0000_0000_0000_0000, 0x100_0000);
    lemma_two_pow_product(16, 4, 0x1_0000, 0x10);
    lemma_two_pow_product(80, 20, 0x1_0000_0000_0000_0000_0000, 0x10_0000);
    lemma_two_pow_product(100, 2, 0x10_0000_0000_0000_0000_0000_0000, 4);
    lemma_two_pow_product(104, 20, 0x100_0000_0000_0000_0000_0000_0000, 0x10_0000);
    lemma_two_pow_product(124, 2, 0x1000_0000_0000_0000_0000_0000_0000_0000, 4);
    lemma_two_pow_product(124, 3, 0x1000_0000_0000_0000_0000_0000_0000_0000, 8);
}

proof fn lemma_two_pow_product(a: nat, b: nat, x: nat, y: nat)
    requires
        two_pow(a) == x,
        two_pow(b) == y,
    ensures
        two_pow(a + b) == x * y,
{
    lemma_two_pow_adds(a, b);
}

pub(crate) proof fn lemma_five_pow_values()
    ensures
        five_pow(24) == 59604644775390625,
{
    assert(five_pow(6) == 15625) by {
        reveal_with_fuel(five_pow, 7);
    }
    lemma_five_pow_adds(6, 6);
    assert(five_pow(12) == 15625 * 15625);
    lemma_five_pow_adds(12, 12);
    assert(five_pow(24) == 244140625 * 244140625);
}

proof fn lemma_five_pow_adds(a: nat, b: nat)
    ensures
        five_pow(a + b) == five_pow(a) * five_pow(b),
    decreases b,
{
    if b == 0 {
        assert(five_pow(a) * 1 == five_pow(a));
    } else {
        lemma_five_pow_adds(a, (b - 1) as nat);
        assert(five_pow(a + b) == 5 * five_pow((a + b - 1) as nat));
        assert(5 * (five_pow(a) * five_pow((b - 1) as nat)) == five_pow(a) * (5 * five_pow(
            (b - 1) as nat,
        ))) by (nonlinear_arith);
    }
}

proof fn lemma_small_quotient(x: nat, d: nat)
    requires
        x < d,
    ensures
        x / d == 0,
        x % d == x,
{
    assert(x / d == 0 && x % d == x) by (nonlinear_arith)
        requires
            x < d,
    ;
}

/// Whether the sign bit is set.
pub open spec fn lit_sign(b: u32) -> bool {
    b >= SIGN
}

/// The pattern without its sign bit.
pub open spec fn lit_magnitude(b: u32) -> u32 {
    if b >= SIGN {
        (b - SIGN) as u32
    } else {
        b
    }
}

/// The eight exponent bits.
pub open spec fn lit_exponent(b: u32) -> int {
    lit_magnitude(b) as int / 0x80_0000
}

/// The twenty-three fraction bits.
pub open spec fn lit_fraction(b: u32) -> int {
    lit_magnitude(b) as int % 0x80_0000
}

/// Not a number.
pub open spec fn lit_is_nan(b: u32) -> bool {
    lit_magnitude(b) > INFINITY
}

/// Either zero.
pub open spec fn lit_is_zero(b: u32) -> bool {
    b == POS_ZERO || b == NEG_ZERO
}

/// Strictly below zero: the sign is set and the value is neither `-0` nor
/// not-a-number.
pub open spec fn lit_is_negative(b: u32) -> bool {
    NEG_ZERO < b <= 0xFF80_0000
}

/// The pattern with its sign bit flipped.
pub open spec fn lit_negated(b: u32) -> u32 {
    if b >= SIGN {
        (b - SIGN) as u32
    } else {
        (b + SIGN) as u32
    }
}

/// The integer `m` of a finite literal `±m·2^e`.
pub open spec fn lit_significand(b: u32) -> nat {
    if lit_exponent(b) == 0 {
        lit_fraction(b) as nat
    } else {
        (lit_fraction(b) + 0x80_0000) as nat
    }
}

/// The exponent `e` of a finite literal `±m·2^e`.
pub open spec fn lit_scale(b: u32) -> int {
    if lit_exponent(b) == 0 {
        -149
    } else {
        lit_exponent(b) - 150
    }
}

/// Whether two literals are equal as numbers: the two zeros are, and a
/// literal that is no number equals none, not even itself.
pub open spec fn lit_equal(a: u32, b: u32) -> bool {
    !lit_is_nan(a) && !lit_is_nan(b) && (a == b || (lit_is_zero(a) && lit_is_zero(b)))
}

/// Whether two literals are equal as numbers.
pub fn literal_equal(a: u32, b: u32) -> (r: bool)
    ensures
        r == lit_equal(a, b),
{
    let x = if a >= SIGN {
        a - SIGN
    } else {
        a
    };
    let y = if b >= SIGN {
        b - SIGN
    } else {
        b
    };
    x <= INFINITY && y <= INFINITY && (a == b || (x == 0 && y == 0))
}

/// Whether a literal is zero, of either sign.
pub fn is_zero_literal(b: u32) -> (r: bool)
    ensures
        r == lit_is_zero(b),
{
    b == POS_ZERO || b == NEG_ZERO
}

/// Whether a literal is strictly below zero.
pub fn is_negative_literal(b: u32) -> (r: bool)
    ensures
        r == lit_is_negative(b),
{
    NEG_ZERO < b && b <= 0xFF80_0000
}

/// The literal with its sign changed.
pub fn negate_literal(b: u32) -> (r: u32)
    ensures
        r == lit_negated(b),
{
    if b >= SIGN {
        b - SIGN
    } else {
        b + SIGN
    }
}

/// Negating twice gives the literal back.
pub proof fn lemma_negated_twice(b: u32)
    ensures
        lit_negated(lit_negated(b)) == b,
{
}

/// The character of one decimal digit.
pub open spec fn digit_char(d: int) -> char {
    if d == 0 {
        '0'
    } else if d == 1 {
        '1'
    } else if d == 2 {
        '2'
    } else if d == 3 {
        '3'
    } else if d == 4 {
        '4'
    } else if d == 5 {
        '5'
    } else if d == 6 {
        '6'
    } else if d == 7 {
        '7'
    } else if d == 8 {
        '8'
    } else {
        '9'
    }
}

/// The decimal digits of a natural number, most significant first.
pub open spec fn nat_text(n: nat) -> Seq<char>
    decreases n,
{
    if n < 10 {
        seq![digit_char(n as int)]
    } else {
        nat_text(n / 10).push(digit_char((n % 10) as int))
    }
}

/// The digits of the literal of value `m·2^e`: `0` for zero, else the
/// shortest decimal that reads as the literal, written out without an
/// exponent.
pub open spec fn magnitude_text(m: nat, e: int) -> Seq<char> {
    if m == 0 {
        seq!['0']
    } else {
        decimal_text(best_count(m, e), best_scale(m, e))
    }
}

/// The text of a literal: of all decimals that read as the literal the one
/// with the fewest digits, so `0.1` for the literal nearest to a tenth;
/// with a leading `-` where the sign bit is set; `inf`, `-inf` and `NaN`
/// for the values that are no numbers.
pub open spec fn lit_text(b: u32) -> Seq<char> {
    if lit_is_nan(b) {
        seq!['N', 'a', 'N']
    } else if lit_magnitude(b) == INFINITY {
        if lit_sign(b) {
            seq!['-', 'i', 'n', 'f']
        } else {
            seq!['i', 'n', 'f']
        }
    } else if lit_sign(b) {
        seq!['-'] + magnitude_text(lit_significand(b), lit_scale(b))
    } else {
        magnitude_text(lit_significand(b), lit_scale(b))
    }
}

fn digit(d: u8) -> (c: char)
    requires
        d < 10,
    ensures
        c == digit_char(d as int),
{
    if d == 0 {
        '0'
    } else if d == 1 {
        '1'
    } else if d == 2 {
        '2'
    } else if d == 3 {
        '3'
    } else if d == 4 {
        '4'
    } else if d == 5 {
        '5'
    } else if d == 6 {
        '6'
    } else if d == 7 {
        '7'
    } else if d == 8 {
        '8'
    } else {
        '9'
    }
}

/// Appends the decimal digits of `n`.
pub fn push_nat(out: &mut Vec<char>, n: u128)
    ensures
        final(out)@ == old(out)@ + nat_text(n as nat),
    decreases n,
{
    if n < 10 {
        out.push(digit(n as u8));
        assert(out@ =~= old(out)@ + nat_text(n as nat));
    } else {
        push_nat(out, n / 10);
        out.push(digit((n % 10) as u8));
        assert(out@ =~= old(out)@ + nat_text(n as nat));
    }
}

/// `2^n` as a machine integer.
pub(crate) fn power_of_two(n: u32) -> (p: u128)
    requires
        n <= 127,
    ensures
        p == two_pow(n as nat),
{
    let mut p: u128 = 1;
    let mut i: u32 = 0;
    while i < n
        invariant
            i <= n <= 127,
            p == two_pow(i as nat),
        decreases n - i,
    {
        proof {
            lemma_two_pow_monotonic(i as nat, 126);
            lemma_two_pow_values();
        }
        p = p * 2;
        i += 1;
    }
    p
}

/// Appends the digits of the literal of value `m·2^e`.
fn push_magnitude(out: &mut Vec<char>, m: u32, e: i32)
    requires
        m < 0x100_0000,
        -149 <= e <= 104,
    ensures
        final(out)@ == old(out)@ + magnitude_text(m as nat, e as int),
{
    if m == 0 {
        out.push('0');
        assert(out@ =~= old(out)@ + magnitude_text(m as nat, e as int));
    } else {
        let (c, q) = shortest(m, e);
        push_decimal(out, c, q);
    }
}

/// The text of a literal.
pub fn literal_text(b: u32) -> (r: Vec<char>)
    ensures
        r@ == lit_text(b),
{
    let mut out: Vec<char> = Vec::new();
    let negative = b >= SIGN;
    let magnitude = if negative {
        b - SIGN
    } else {
        b
    };
    if magnitude > INFINITY {
        out.push('N');
        out.push('a');
        out.push('N');
        assert(out@ =~= lit_text(b));
        return out;
    }
    if negative {
        out.push('-');
    }
    if magnitude == INFINITY {
        out.push('i');
        out.push('n');
        out.push('f');
        assert(out@ =~= lit_text(b));
        return out;
    }
    let field = magnitude / HIDDEN;
    let fraction = magnitude % HIDDEN;
    if field == 0 {
        push_magnitude(&mut out, fraction, -149);
    } else {
        push_magnitude(&mut out, fraction + HIDDEN, field as i32 - 150);
    }
    assert(out@ =~= lit_text(b));
    out
}

/// The text of a finite literal that is not zero is a decimal that reads
/// as the literal, and no decimal with fewer digits does: no multiple of a
/// larger power of ten reads as it.
pub proof fn lemma_text_is_shortest(b: u32)
    requires
        !lit_is_nan(b),
        !lit_is_infinite(b),
        !lit_is_zero(b),
    ensures
        ({
            let m = lit_significand(b);
            let e = lit_scale(b);
            let c = best_count(m, e);
            let q = best_scale(m, e);
            &&& lit_text(b) == (if lit_sign(b) {
                seq!['-'] + decimal_text(c, q)
            } else {
                decimal_text(c, q)
            })
            &&& reads_as(m, e, c, q)
            &&& forall|c2: nat, q2: int| #[trigger] reads_as(m, e, c2, q2) ==> q2 <= q
        }),
{
    let m = lit_significand(b);
    let e = lit_scale(b);
    assert(0 < m < 0x100_0000);
    assert(-149 <= e <= 104);
    lemma_shortest_reads(m, e);
    assert forall|c2: nat, q2: int| #[trigger] reads_as(m, e, c2, q2) implies q2 <= best_scale(
        m,
        e,
    ) by {
        lemma_shortest_is_shortest(m, e, c2, q2);
    }
}

/// Positive or negative infinity.
pub open spec fn lit_is_infinite(b: u32) -> bool {
    lit_magnitude(b) == INFINITY
}

/// A magnitude with a sign bit.
pub open spec fn with_sign(sign: bool, magnitude: nat) -> u32 {
    if sign {
        (magnitude + SIGN) as u32
    } else {
        magnitude as u32
    }
}

/// The number of binary digits of `n`.
pub open spec fn bit_length(n: nat) -> nat
    decreases n,
{
    if n == 0 {
        0
    } else {
        1 + bit_length(n / 2)
    }
}

/// `n / d` rounded to the nearest integer, a tie to the even one.
pub open spec fn nearest(n: nat, d: nat) -> nat {
    let down = n / d;
    let rest = n % d;
    if 2 * rest > d || (2 * rest == d && down % 2 == 1) {
        down + 1
    } else {
        down
    }
}

/// The exponent of the last place that a literal of value `n·2^e` keeps:
/// twenty-four binary digits, and nothing below `2^-149`.
pub open spec fn last_place(n: nat, e: int) -> int {
    let q = e + bit_length(n) - 24;
    if q < -149 {
        -149
    } else {
        q
    }
}

/// The pattern, without sign, of the literal nearest to `n·2^e`, for `n`
/// above zero. A tie goes to the even significand; a value beyond the
/// largest literal becomes infinity.
pub open spec fn rounded_magnitude(n: nat, e: int) -> nat {
    let q = last_place(n, e);
    let m = if q <= e {
        n * two_pow((e - q) as nat)
    } else {
        nearest(n, two_pow((q - e) as nat))
    };
    let packed = (q + 149) * 0x80_0000 + m;
    if packed >= INFINITY {
        INFINITY as nat
    } else {
        packed as nat
    }
}

/// The literal nearest to `±n·2^e`.
pub open spec fn rounded(sign: bool, n: nat, e: int) -> u32 {
    if n == 0 {
        with_sign(sign, 0)
    } else {
        with_sign(sign, rounded_magnitude(n, e))
    }
}

/// The sum of two finite literals that are not zero, the first with the
/// larger exponent. Up to sixty-four binary places apart the exact sum is
/// rounded; further apart the second is too small to move the first.
pub open spec fn sum_aligned(hi: u32, lo: u32) -> u32 {
    let d = lit_scale(hi) - lit_scale(lo);
    if d > 64 {
        hi
    } else {
        let a = (lit_significand(hi) * two_pow(d as nat)) as int;
        let b = lit_significand(lo) as int;
        let s = (if lit_sign(hi) {
            -a
        } else {
            a
        }) + (if lit_sign(lo) {
            -b
        } else {
            b
        });
        if s == 0 {
            POS_ZERO
        } else if s < 0 {
            rounded(true, (-s) as nat, lit_scale(lo))
        } else {
            rounded(false, s as nat, lit_scale(lo))
        }
    }
}

/// The sum of two literals, rounded to the nearest literal.
pub open spec fn lit_sum(a: u32, b: u32) -> u32 {
    if lit_is_nan(a) || lit_is_nan(b) {
        NAN
    } else if lit_is_infinite(a) {
        if lit_is_infinite(b) && a != b {
            NAN
        } else {
            a
        }
    } else if lit_is_infinite(b) {
        b
    } else if lit_is_zero(a) && lit_is_zero(b) {
        if a == b {
            a
        } else {
            POS_ZERO
        }
    } else if lit_is_zero(a) {
        b
    } else if lit_is_zero(b) {
        a
    } else if lit_scale(a) >= lit_scale(b) {
        sum_aligned(a, b)
    } else {
        sum_aligned(b, a)
    }
}

/// The difference of two literals, rounded to the nearest literal.
pub open spec fn lit_difference(a: u32, b: u32) -> u32 {
    lit_sum(a, lit_negated(b))
}

/// The product of two literals, rounded to the nearest literal.
pub open spec fn lit_product(a: u32, b: u32) -> u32 {
    let sign = lit_sign(a) != lit_sign(b);
    if lit_is_nan(a) || lit_is_nan(b) {
        NAN
    } else if lit_is_infinite(a) || lit_is_infinite(b) {
        if lit_is_zero(a) || lit_is_zero(b) {
            NAN
        } else {
            with_sign(sign, INFINITY as nat)
        }
    } else if lit_is_zero(a) || lit_is_zero(b) {
        with_sign(sign, 0)
    } else {
        rounded(sign, lit_significand(a) * lit_significand(b), lit_scale(a) + lit_scale(b))
    }
}

/// The quotient of two finite literals that are not zero. The quotient of
/// the significands is taken to fifty binary places, with one more digit
/// that says whether anything is left, and rounded.
pub open spec fn quotient_rounded(a: u32, b: u32) -> u32 {
    let sign = lit_sign(a) != lit_sign(b);
    let n = lit_significand(a) * two_pow(50);
    let d = lit_significand(b);
    let rest: nat = if n % d == 0 {
        0
    } else {
        1
    };
    rounded(sign, 2 * (n / d) + rest, lit_scale(a) - lit_scale(b) - 51)
}

/// The quotient of two literals, rounded to the nearest literal.
pub open spec fn lit_quotient(a: u32, b: u32) -> u32 {
    let sign = lit_sign(a) != lit_sign(b);
    if lit_is_nan(a) || lit_is_nan(b) {
        NAN
    } else if lit_is_infinite(a) {
        if lit_is_infinite(b) {
            NAN
        } else {
            with_sign(sign, INFINITY as nat)
        }
    } else if lit_is_infinite(b) {
        with_sign(sign, 0)
    } else if lit_is_zero(b) {
        if lit_is_zero(a) {
            NAN
        } else {
            with_sign(sign, INFINITY as nat)
        }
    } else if lit_is_zero(a) {
        with_sign(sign, 0)
    } else {
        quotient_rounded(a, b)
    }
}

/// A sum does not depend on the order of its operands.
pub proof fn lemma_sum_commutes(a: u32, b: u32)
    ensures
        lit_sum(a, b) == lit_sum(b, a),
{
    if lit_scale(a) == lit_scale(b) {
        assert(two_pow(0) == 1);
        assert(lit_significand(a) * 1 == lit_significand(a)) by (nonlinear_arith);
        assert(lit_significand(b) * 1 == lit_significand(b)) by (nonlinear_arith);
    }
}

/// A product does not depend on the order of its operands.
pub proof fn lemma_product_commutes(a: u32, b: u32)
    ensures
        lit_product(a, b) == lit_product(b, a),
{
    assert(lit_significand(a) * lit_significand(b) == lit_significand(b) * lit_significand(a))
        by (nonlinear_arith);
}

fn bit_count(n: u128) -> (k: u32)
    requires
        n < 0x10_0000_0000_0000_0000_0000_0000,
    ensures
        k == bit_length(n as nat),
        k <= 100,
{
    let mut k: u32 = 0;
    let mut t: u128 = n;
    proof {
        lemma_two_pow_values();
    }
    while t > 0
        invariant
            bit_length(n as nat) == k + bit_length(t as nat),
            k <= 100,
            t < two_pow((100 - k) as nat),
        decreases t,
    {
        proof {
            if k == 100 {
                assert(two_pow(0) == 1);
            } else {
                assert(two_pow((100 - k) as nat) == 2 * two_pow((99 - k) as nat));
            }
        }
        t = t / 2;
        k += 1;
    }
    k
}

/// The literal nearest to `±n·2^e`.
fn round_pack(sign: bool, n: u128, e: i32) -> (r: u32)
    requires
        n < 0x10_0000_0000_0000_0000_0000_0000,
        -1000 <= e <= 1000,
    ensures
        r == rounded(sign, n as nat, e as int),
{
    let top: u32 = if sign {
        SIGN
    } else {
        0
    };
    if n == 0 {
        return top;
    }
    let len = bit_count(n) as i32;
    let q: i32 = if e + len - 24 < -149 {
        -149
    } else {
        e + len - 24
    };
    proof {
        lemma_two_pow_values();
        assert(bit_length(n as nat) >= 1);
    }
    let m: u128;
    if q <= e {
        let unit = power_of_two((e - q) as u32);
        proof {
            lemma_two_pow_monotonic((e - q) as nat, 23);
            assert(n * unit < 0x10_0000_0000_0000_0000_0000_0000 * 0x80_0000) by (nonlinear_arith)
                requires
                    n < 0x10_0000_0000_0000_0000_0000_0000,
                    unit <= 0x80_0000,
            ;
        }
        m = n * unit;
    } else if q - e > 101 {
        proof {
            let d = two_pow((q - e) as nat);
            lemma_two_pow_monotonic(102, (q - e) as nat);
            lemma_small_quotient(n as nat, d);
        }
        m = 0;
    } else {
        let unit = power_of_two((q - e) as u32);
        proof {
            lemma_two_pow_monotonic((q - e) as nat, 101);
            lemma_two_pow_monotonic(101, 104);
        }
        let down = n / unit;
        let rest = n % unit;
        if 2 * rest > unit || (2 * rest == unit && down % 2 == 1) {
            m = down + 1;
        } else {
            m = down;
        }
    }
    assert(m == if q <= e {
        n as nat * two_pow((e - q) as nat)
    } else {
        nearest(n as nat, two_pow((q - e) as nat))
    });
    assert(m <= 0x10_0000_0000_0000_0000_0000_0000 * 0x80_0000);
    let packed: u128 = ((q + 149) as u128) * 0x80_0000 + m;
    if packed >= INFINITY as u128 {
        top + INFINITY
    } else {
        top + packed as u32
    }
}

/// The significand and exponent of a finite literal.
fn unpack(b: u32) -> (r: (u32, i32))
    requires
        !lit_is_nan(b),
        !lit_is_infinite(b),
    ensures
        r.0 == lit_significand(b),
        r.1 == lit_scale(b),
        r.0 < 0x100_0000,
        -149 <= r.1 <= 104,
{
    let magnitude = if b >= SIGN {
        b - SIGN
    } else {
        b
    };
    let field = magnitude / HIDDEN;
    let fraction = magnitude % HIDDEN;
    if field == 0 {
        (fraction, -149)
    } else {
        (fraction + HIDDEN, field as i32 - 150)
    }
}

fn magnitude_of(b: u32) -> (r: u32)
    ensures
        r == lit_magnitude(b),
{
    if b >= SIGN {
        b - SIGN
    } else {
        b
    }
}

fn sum_of_aligned(hi: u32, lo: u32) -> (r: u32)
    requires
        !lit_is_nan(hi),
        !lit_is_infinite(hi),
        !lit_is_nan(lo),
        !lit_is_infinite(lo),
        lit_scale(hi) >= lit_scale(lo),
    ensures
        r == sum_aligned(hi, lo),
{
    let (mh, eh) = unpack(hi);
    let (ml, el) = unpack(lo);
    let d = eh - el;
    if d > 64 {
        return hi;
    }
    let unit = power_of_two(d as u32);
    proof {
        lemma_two_pow_values();
        lemma_two_pow_monotonic(d as nat, 64);
        assert(mh * unit < 0x100_0000 * 0x1_0000_0000_0000_0000) by (nonlinear_arith)
            requires
                mh < 0x100_0000,
                unit <= 0x1_0000_0000_0000_0000,
        ;
    }
    let a: u128 = (mh as u128) * unit;
    let b: u128 = ml as u128;
    let negative_hi = hi >= SIGN;
    let negative_lo = lo >= SIGN;
    if negative_hi == negative_lo {
        if a + b == 0 {
            POS_ZERO
        } else {
            round_pack(negative_hi, a + b, el)
        }
    } else if a == b {
        POS_ZERO
    } else if a > b {
        round_pack(negative_hi, a - b, el)
    } else {
        round_pack(negative_lo, b - a, el)
    }
}

/// The sum of two literals.
pub fn literal_sum(a: u32, b: u32) -> (r: u32)
    ensures
        r == lit_sum(a, b),
{
    let ma = magnitude_of(a);
    let mb = magnitude_of(b);
    if ma > INFINITY || mb > INFINITY {
        NAN
    } else if ma == INFINITY {
        if mb == INFINITY && a != b {
            NAN
        } else {
            a
        }
    } else if mb == INFINITY {
        b
    } else if ma == 0 && mb == 0 {
        if a == b {
            a
        } else {
            POS_ZERO
        }
    } else if ma == 0 {
        b
    } else if mb == 0 {
        a
    } else {
        let (_, ea) = unpack(a);
        let (_, eb) = unpack(b);
        if ea >= eb {
            sum_of_aligned(a, b)
        } else {
            sum_of_aligned(b, a)
        }
    }
}

/// The difference of two literals.
pub fn literal_difference(a: u32, b: u32) -> (r: u32)
    ensures
        r == lit_difference(a, b),
{
    literal_sum(a, negate_literal(b))
}

/// The product of two literals.
pub fn literal_product(a: u32, b: u32) -> (r: u32)
    ensures
        r == lit_product(a, b),
{
    let ma = magnitude_of(a);
    let mb = magnitude_of(b);
    let negative = (a >= SIGN) != (b >= SIGN);
    let top: u32 = if negative {
        SIGN
    } else {
        0
    };
    if ma > INFINITY || mb > INFINITY {
        NAN
    } else if ma == INFINITY || mb == INFINITY {
        if ma == 0 || mb == 0 {
            NAN
        } else {
            top + INFINITY
        }
    } else if ma == 0 || mb == 0 {
        top
    } else {
        let (sa, ea) = unpack(a);
        let (sb, eb) = unpack(b);
        proof {
            assert(sa * sb < 0x100_0000 * 0x100_0000) by (nonlinear_arith)
                requires
                    sa < 0x100_0000,
                    sb < 0x100_0000,
            ;
        }
        round_pack(negative, (sa as u128) * (sb as u128), ea + eb)
    }
}

/// The quotient of two literals.
pub fn literal_quotient(a: u32, b: u32) -> (r: u32)
    ensures
        r == lit_quotient(a, b),
{
    let ma = magnitude_of(a);
    let mb = magnitude_of(b);
    let negative = (a >= SIGN) != (b >= SIGN);
    let top: u32 = if negative {
        SIGN
    } else {
        0
    };
    if ma > INFINITY || mb > INFINITY {
        NAN
    } else if ma == INFINITY {
        if mb == INFINITY {
            NAN
        } else {
            top + INFINITY
        }
    } else if mb == INFINITY {
        top
    } else if mb == 0 {
        if ma == 0 {
            NAN
        } else {
            top + INFINITY
        }
    } else if ma == 0 {
        top
    } else {
        let (sa, ea) = unpack(a);
        let (sb, eb) = unpack(b);
        let unit = power_of_two(50);
        proof {
            lemma_two_pow_values();
            lemma_two_pow_product(32, 16, 0x1_0000_0000, 0x1_0000);
            assert(two_pow(2) == 4) by {
                reveal_with_fuel(two_pow, 3);
            }
            lemma_two_pow_product(48, 2, 0x1_0000_0000_0000, 4);
            assert(sa * unit < 0x100_0000 * 0x4_0000_0000_0000) by (nonlinear_arith)
                requires
                    sa < 0x100_0000,
                    unit == 0x4_0000_0000_0000,
            ;
            assert(sb > 0);
        }
        let n: u128 = (sa as u128) * unit;
        let d: u128 = sb as u128;
        let rest: u128 = if n % d == 0 {
            0
        } else {
            1
        };
        proof {
            assert(n / d <= n) by (nonlinear_arith)
                requires
                    d > 0,
                    n >= 0,
            ;
        }
        round_pack(negative, 2 * (n / d) + rest, ea - eb - 51)
    }
}

proof fn lemma_bit_length_bounds(n: nat)
    requires
        n > 0,
    ensures
        bit_length(n) >= 1,
        two_pow((bit_length(n) - 1) as nat) <= n < two_pow(bit_length(n)),
    decreases n,
{
    if n == 1 {
        assert(bit_length(1) == 1) by {
            reveal_with_fuel(bit_length, 2);
        }
        assert(two_pow(0) == 1 && two_pow(1) == 2) by {
            reveal_with_fuel(two_pow, 2);
        }
    } else {
        lemma_bit_length_bounds(n / 2);
    }
}

proof fn lemma_bit_length_is(n: nat, k: nat)
    requires
        k >= 1,
        two_pow((k - 1) as nat) <= n < two_pow(k),
    ensures
        bit_length(n) == k,
{
    lemma_two_pow_monotonic(0, (k - 1) as nat);
    lemma_bit_length_bounds(n);
    let b = bit_length(n);
    if b < k {
        lemma_two_pow_monotonic(b, (k - 1) as nat);
    } else if b > k {
        lemma_two_pow_monotonic(k, (b - 1) as nat);
    }
}

/// Rounding a finite literal that is not zero, its significand and exponent
/// written with `k` more binary places, gives the literal back.
proof fn lemma_rounded_gives_back(a: u32, k: nat)
    requires
        !lit_is_nan(a),
        !lit_is_infinite(a),
        !lit_is_zero(a),
    ensures
        rounded(lit_sign(a), lit_significand(a) * two_pow(k), lit_scale(a) - k) == a,
{
    let m = lit_significand(a);
    let e = lit_scale(a);
    let n = m * two_pow(k);
    lemma_two_pow_values();
    lemma_two_pow_monotonic(0, k);
    assert(m > 0);
    assert(n > 0) by (nonlinear_arith)
        requires
            m > 0,
            two_pow(k) > 0,
            n == m * two_pow(k),
    ;
    lemma_bit_length_bounds(m);
    let b = bit_length(m);
    assert(b <= 24) by {
        if b > 24 {
            lemma_two_pow_monotonic(24, (b - 1) as nat);
        }
    }
    if lit_exponent(a) != 0 {
        assert(b == 24) by {
            if b < 24 {
                lemma_two_pow_monotonic(b, 23);
            }
        }
    }
    lemma_two_pow_adds((b - 1) as nat, k);
    lemma_two_pow_adds(b, k);
    assert(two_pow((b - 1) as nat) * two_pow(k) <= n < two_pow(b) * two_pow(k))
        by (nonlinear_arith)
        requires
            two_pow((b - 1) as nat) <= m < two_pow(b),
            two_pow(k) > 0,
            n == m * two_pow(k),
    ;
    assert(((b - 1) as nat + k) as nat == ((b + k) - 1) as nat);
    lemma_bit_length_is(n, b + k);
    let q = last_place(n, e - k);
    assert(q == e);
    assert(nearest(n, two_pow(k)) == m) by {
        vstd::arithmetic::div_mod::lemma_div_by_multiple(m as int, two_pow(k) as int);
        vstd::arithmetic::div_mod::lemma_mod_multiples_basic(m as int, two_pow(k) as int);
    }
    assert(two_pow(0) == 1);
    assert(n * 1 == n);
}

/// A literal times one is the literal.
pub proof fn lemma_product_with_one(a: u32)
    requires
        !lit_is_nan(a),
    ensures
        lit_product(a, ONE) == a,
        lit_product(ONE, a) == a,
{
    lemma_product_commutes(a, ONE);
    if !lit_is_infinite(a) && !lit_is_zero(a) {
        lemma_rounded_gives_back(a, 23);
        assert(lit_significand(ONE) == 0x80_0000 && lit_scale(ONE) == -23);
        lemma_two_pow_values();
    }
}

/// A literal divided by one is the literal.
pub proof fn lemma_quotient_by_one(a: u32)
    requires
        !lit_is_nan(a),
    ensures
        lit_quotient(a, ONE) == a,
{
    if !lit_is_infinite(a) && !lit_is_zero(a) {
        lemma_rounded_gives_back(a, 28);
        assert(lit_significand(ONE) == 0x80_0000 && lit_scale(ONE) == -23);
        lemma_two_pow_values();
        let m = lit_significand(a);
        let n = m * two_pow(50);
        lemma_two_pow_adds(27, 23);
        lemma_two_pow_adds(1, 27);
        assert(two_pow(1) == 2) by {
            reveal_with_fuel(two_pow, 2);
        }
        assert(n == (m * two_pow(27)) * 0x80_0000) by (nonlinear_arith)
            requires
                n == m * two_pow(50),
                two_pow(50) == two_pow(27) * 0x80_0000,
        ;
        vstd::arithmetic::div_mod::lemma_div_by_multiple((m * two_pow(27)) as int, 0x80_0000);
        vstd::arithmetic::div_mod::lemma_mod_multiples_basic((m * two_pow(27)) as int, 0x80_0000);
        assert(2 * (m * two_pow(27)) == m * two_pow(28)) by (nonlinear_arith)
            requires
                two_pow(28) == 2 * two_pow(27),
        ;
    }
}

/// A literal plus zero is the literal, unless it is the negative zero,
/// which plus the positive zero is the positive zero.
pub proof fn lemma_sum_with_zero(a: u32)
    requires
        !lit_is_nan(a),
        a != NEG_ZERO,
    ensures
        lit_sum(a, POS_ZERO) == a,
        lit_sum(POS_ZERO, a) == a,
        lit_difference(a, POS_ZERO) == a,
{
}

} // verus!
