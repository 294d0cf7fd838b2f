//! The shortest decimal that reads as a literal.
//!
//! A decimal `c·10^q` reads as a literal where it is nearer to the
//! literal's value than to that of any other literal; half way between two
//! it reads as the one with the even significand. Of all decimals that
//! read as a literal, its text is the one with the fewest digits: the
//! multiple of the largest power of ten that has one. Where two multiples
//! of that power read as the literal, it is the nearer one.
use crate::literal::{
    five_pow, lemma_five_pow_monotonic, lemma_five_pow_values, lemma_two_pow_adds,
    lemma_two_pow_monotonic, lemma_two_pow_values, nat_text, power_of_two, push_nat, two_pow,
    HIDDEN,
};
use vstd::prelude::*;

verus! {

/// `10^n`.
pub open spec fn ten_pow(n: nat) -> nat
    decreases n,
{
    if n == 0 {
        1
    } else {
        10 * ten_pow((n - 1) as nat)
    }
}

/// A number where it is above zero, else zero.
pub open spec fn positive_part(x: int) -> nat {
    if x > 0 {
        x as nat
    } else {
        0
    }
}

/// The room below the value `m·2^e` of a literal, in quarters of its last
/// place: as far as half way to the literal below, which is two quarters,
/// or one where the literal below has a finer last place.
pub open spec fn room_below(m: nat, e: int) -> nat {
    if m == HIDDEN && e > -149 {
        1
    } else {
        2
    }
}

/// The factor that makes whole numbers of the value of a literal with the
/// exponent `e`, counted in quarters of its last place, and of the
/// multiples of `10^q`.
pub open spec fn lift(e: int, q: int) -> nat {
    two_pow(positive_part(e - 2)) * ten_pow(positive_part(-q))
}

/// The value `m·2^e`, lifted.
pub open spec fn lifted(m: nat, e: int, q: int) -> nat {
    4 * m * lift(e, q)
}

/// `10^q`, lifted.
pub open spec fn unit(e: int, q: int) -> nat {
    ten_pow(positive_part(q)) * two_pow(positive_part(2 - e))
}

/// The room below the value, lifted.
pub open spec fn below(m: nat, e: int, q: int) -> nat {
    room_below(m, e) * lift(e, q)
}

/// The room above the value, lifted: half way to the literal above.
pub open spec fn above(e: int, q: int) -> nat {
    2 * lift(e, q)
}

/// Whether the decimal `c·10^q` reads as the literal of value `m·2^e`: it
/// lies within the room around the value, or at the end of it where the
/// significand `m` is even.
pub open spec fn reads_as(m: nat, e: int, c: nat, q: int) -> bool {
    let x = c * unit(e, q);
    let v = lifted(m, e, q);
    if m % 2 == 0 {
        v - below(m, e, q) <= x <= v + above(e, q)
    } else {
        v - below(m, e, q) < x < v + above(e, q)
    }
}

/// How many times `10^q` goes into the value.
pub open spec fn count_below(m: nat, e: int, q: int) -> nat {
    lifted(m, e, q) / unit(e, q)
}

/// What is left of the value above that multiple of `10^q`, lifted.
pub open spec fn rest(m: nat, e: int, q: int) -> nat {
    lifted(m, e, q) % unit(e, q)
}

/// Whether the multiple of `10^q` next below the value, or the value
/// itself, reads as the literal.
pub open spec fn reads_down(m: nat, e: int, q: int) -> bool {
    reads_as(m, e, count_below(m, e, q), q)
}

/// Whether the multiple of `10^q` next above the value reads as the
/// literal.
pub open spec fn reads_up(m: nat, e: int, q: int) -> bool {
    reads_as(m, e, count_below(m, e, q) + 1, q)
}

/// Whether one of the two multiples of `10^q` around the value reads as the
/// literal.
pub open spec fn reads(m: nat, e: int, q: int) -> bool {
    reads_down(m, e, q) || reads_up(m, e, q)
}

/// The largest exponent, from `q` down, at which a multiple of the power of
/// ten reads as the literal.
pub open spec fn scale_from(m: nat, e: int, q: int) -> int
    decreases q + 160,
{
    if reads(m, e, q) || q <= -155 {
        q
    } else {
        scale_from(m, e, q - 1)
    }
}

/// The exponent of the shortest decimal that reads as the literal. No
/// literal is as large as `10^39`.
pub open spec fn best_scale(m: nat, e: int) -> int {
    scale_from(m, e, 38)
}

/// Of the two multiples of `10^q` around the value the one that reads as
/// the literal, as a count of `10^q`; where both do, the nearer one, and
/// the upper one where they are as near.
pub open spec fn count_at(m: nat, e: int, q: int) -> nat {
    let c = count_below(m, e, q);
    if reads_up(m, e, q) && (!reads_down(m, e, q) || 2 * rest(m, e, q) >= unit(e, q)) {
        c + 1
    } else {
        c
    }
}

/// The digits of the shortest decimal that reads as the literal, as a
/// number.
pub open spec fn best_count(m: nat, e: int) -> nat {
    count_at(m, e, best_scale(m, e))
}

proof fn lemma_ten_pow_positive(n: nat)
    ensures
        ten_pow(n) > 0,
    decreases n,
{
    if n > 0 {
        lemma_ten_pow_positive((n - 1) as nat);
    }
}

proof fn lemma_ten_pow_monotonic(a: nat, b: nat)
    requires
        a <= b,
    ensures
        0 < ten_pow(a) <= ten_pow(b),
    decreases b,
{
    if b == 0 {
    } else if a == b {
        lemma_ten_pow_monotonic(0, (b - 1) as nat);
    } else {
        lemma_ten_pow_monotonic(a, (b - 1) as nat);
    }
}

proof fn lemma_ten_pow_adds(a: nat, b: nat)
    ensures
        ten_pow(a + b) == ten_pow(a) * ten_pow(b),
    decreases b,
{
    if b == 0 {
        assert(ten_pow(a) * 1 == ten_pow(a));
    } else {
        lemma_ten_pow_adds(a, (b - 1) as nat);
        assert(ten_pow(a + b) == 10 * ten_pow((a + b - 1) as nat));
        assert(10 * (ten_pow(a) * ten_pow((b - 1) as nat)) == ten_pow(a) * (10 * ten_pow(
            (b - 1) as nat,
        ))) by (nonlinear_arith);
    }
}

/// `10^n = 2^n · 5^n`.
proof fn lemma_ten_pow_splits(n: nat)
    ensures
        ten_pow(n) == two_pow(n) * five_pow(n),
    decreases n,
{
    if n == 0 {
        assert(two_pow(0) == 1 && five_pow(0) == 1 && ten_pow(0) == 1);
        assert(1 * 1 == 1);
    } else {
        lemma_ten_pow_splits((n - 1) as nat);
        let t = two_pow((n - 1) as nat);
        let f = five_pow((n - 1) as nat);
        assert(ten_pow(n) == 10 * ten_pow((n - 1) as nat));
        assert(two_pow(n) == 2 * t);
        assert(five_pow(n) == 5 * f);
        assert(10 * (t * f) == (2 * t) * (5 * f)) by (nonlinear_arith);
    }
}

proof fn lemma_ten_pow_values()
    ensures
        ten_pow(9) == 1_000_000_000,
        ten_pow(38) == 100_000_000_000_000_000_000_000_000_000_000_000_000,
{
    assert(ten_pow(3) == 1000) by {
        reveal_with_fuel(ten_pow, 4);
    }
    lemma_ten_pow_adds(3, 3);
    lemma_ten_pow_adds(6, 3);
    lemma_ten_pow_adds(9, 9);
    lemma_ten_pow_adds(18, 18);
    lemma_ten_pow_adds(36, 2);
    assert(ten_pow(2) == 100) by {
        reveal_with_fuel(ten_pow, 3);
    }
    assert(ten_pow(6) == 1000 * 1000);
    assert(ten_pow(9) == 1_000_000 * 1000);
    assert(ten_pow(18) == 1_000_000_000 * 1_000_000_000);
    assert(ten_pow(36) == 1_000_000_000_000_000_000 * 1_000_000_000_000_000_000);
    assert(ten_pow(38) == 1_000_000_000_000_000_000_000_000_000_000_000_000 * 100);
}

/// `10^n` as a machine integer.
fn power_of_ten(n: u32) -> (p: u128)
    requires
        n <= 38,
    ensures
        p == ten_pow(n as nat),
{
    let mut p: u128 = 1;
    let mut i: u32 = 0;
    while i < n
        invariant
            i <= n <= 38,
            p == ten_pow(i as nat),
        decreases n - i,
    {
        proof {
            lemma_ten_pow_monotonic((i + 1) as nat, 38);
            lemma_ten_pow_values();
        }
        p = p * 10;
        i += 1;
    }
    p
}

/// Whether the two multiples read as the literal, told by what is left of
/// the value above the lower one.
pub proof fn lemma_reads_by_rest(m: nat, e: int, q: int)
    requires
        m > 0,
    ensures
        unit(e, q) > 0,
        below(m, e, q) > 0,
        rest(m, e, q) < unit(e, q),
        lifted(m, e, q) == count_below(m, e, q) * unit(e, q) + rest(m, e, q),
        reads_down(m, e, q) == (if m % 2 == 0 {
            rest(m, e, q) <= below(m, e, q)
        } else {
            rest(m, e, q) < below(m, e, q)
        }),
        reads_up(m, e, q) == (if m % 2 == 0 {
            unit(e, q) - rest(m, e, q) <= above(e, q)
        } else {
            unit(e, q) - rest(m, e, q) < above(e, q)
        }),
{
    let u = unit(e, q);
    let v = lifted(m, e, q);
    let c = count_below(m, e, q);
    let r = rest(m, e, q);
    lemma_ten_pow_positive(positive_part(q));
    lemma_ten_pow_positive(positive_part(-q));
    lemma_two_pow_monotonic(0, positive_part(2 - e));
    lemma_two_pow_monotonic(0, positive_part(e - 2));
    assert(u > 0) by (nonlinear_arith)
        requires
            u == ten_pow(positive_part(q)) * two_pow(positive_part(2 - e)),
            ten_pow(positive_part(q)) > 0,
            two_pow(positive_part(2 - e)) > 0,
    ;
    let l = lift(e, q);
    assert(l > 0) by (nonlinear_arith)
        requires
            l == two_pow(positive_part(e - 2)) * ten_pow(positive_part(-q)),
            ten_pow(positive_part(-q)) > 0,
            two_pow(positive_part(e - 2)) > 0,
    ;
    assert(below(m, e, q) > 0) by (nonlinear_arith)
        requires
            below(m, e, q) == room_below(m, e) * l,
            room_below(m, e) >= 1,
            l > 0,
    ;
    vstd::arithmetic::div_mod::lemma_fundamental_div_mod(v as int, u as int);
    assert(v == c * u + r) by (nonlinear_arith)
        requires
            v == u * c + r,
    ;
    assert(0 <= r < u) by (nonlinear_arith)
        requires
            u > 0,
            r == v % u,
    ;
    assert((c + 1) * u == c * u + u) by (nonlinear_arith);
}

/// The exponent found by looking from `top` down is the first at which a
/// multiple reads.
proof fn lemma_scale_found(m: nat, e: int, top: int, q: int)
    requires
        -155 <= q <= top,
        reads(m, e, q),
        forall|k: int| q < k <= top ==> !reads(m, e, k),
    ensures
        scale_from(m, e, top) == q,
    decreases top - q,
{
    if top > q {
        assert(!reads(m, e, top));
        lemma_scale_found(m, e, top - 1, q);
    }
}

/// How the shortest decimal is told: a multiple of `10^q` reads as the
/// literal, and none of a larger power of ten up to `10^38` does.
pub proof fn lemma_shortest_found(m: nat, e: int, q: int)
    requires
        m > 0,
        -155 <= q <= 38,
        reads(m, e, q),
        forall|k: int| q < k <= 38 ==> !reads(m, e, k),
    ensures
        best_scale(m, e) == q,
        best_count(m, e) == count_at(m, e, q),
{
    lemma_scale_found(m, e, 38, q);
}

/// Which multiple is taken, if one reads: `c` times the unit `u` is the
/// lower one, `r` what is left of the value above it, `dn` and `up` the
/// room below and above the value.
fn taken(closed: bool, c: u128, r: u128, u: u128, dn: u128, up: u128) -> (n: Option<u128>)
    requires
        r < u,
        c < u128::MAX,
    ensures
        ({
            let down = if closed {
                r <= dn
            } else {
                r < dn
            };
            let above = if closed {
                u - r <= up
            } else {
                u - r < up
            };
            n == (if !down && !above {
                None
            } else if above && (!down || 2 * r >= u) {
                Some((c + 1) as u128)
            } else {
                Some(c)
            })
        }),
{
    let down = if closed {
        r <= dn
    } else {
        r < dn
    };
    let above = if closed {
        u - r <= up
    } else {
        u - r < up
    };
    if !down && !above {
        None
    } else if above && (!down || r >= u - r) {
        Some(c + 1)
    } else {
        Some(c)
    }
}

/// The count at an exponent, told by what is left of the value above the
/// lower multiple.
proof fn lemma_taken(m: nat, e: int, q: int)
    requires
        m > 0,
    ensures
        count_at(m, e, q) == ({
            let down = if m % 2 == 0 {
                rest(m, e, q) <= below(m, e, q)
            } else {
                rest(m, e, q) < below(m, e, q)
            };
            let up = if m % 2 == 0 {
                unit(e, q) - rest(m, e, q) <= above(e, q)
            } else {
                unit(e, q) - rest(m, e, q) < above(e, q)
            };
            if up && (!down || 2 * rest(m, e, q) >= unit(e, q)) {
                count_below(m, e, q) + 1
            } else {
                count_below(m, e, q)
            }
        }),
{
    lemma_reads_by_rest(m, e, q);
}

/// The shortest decimal of a literal whose last place is four or more: a
/// whole number.
fn shortest_whole(m: u32, e: i32) -> (r: (u128, i32))
    requires
        0 < m < 0x100_0000,
        2 <= e <= 104,
    ensures
        r.0 == best_count(m as nat, e as int),
        r.1 == best_scale(m as nat, e as int),
{
    let x = power_of_two((e - 2) as u32);
    proof {
        lemma_two_pow_values();
        lemma_two_pow_monotonic((e - 2) as nat, 102);
        lemma_two_pow_adds(100, 2);
        assert(4 * m * x < 0x1_0000_0000_0000_0000_0000_0000_0000_0000 - 1) by (nonlinear_arith)
            requires
                0 < m < 0x100_0000,
                0 < x <= 0x40_0000_0000_0000_0000_0000_0000,
        ;
    }
    let v: u128 = 4 * (m as u128) * x;
    let dn: u128 = if m == HIDDEN && e > -149 {
        x
    } else {
        2 * x
    };
    let up: u128 = 2 * x;
    let closed = m % 2 == 0;
    let mut q: u32 = 38;
    loop
        invariant
            q <= 38,
            0 < m < 0x100_0000,
            2 <= e <= 104,
            x == two_pow((e - 2) as nat),
            v == 4 * m * x,
            v < u128::MAX,
            dn == room_below(m as nat, e as int) * x,
            up == 2 * x,
            closed == (m % 2 == 0),
            forall|k: int| q < k <= 38 ==> !reads(m as nat, e as int, k),
        decreases q,
    {
        let u = power_of_ten(q);
        proof {
            lemma_ten_pow_positive(q as nat);
        }
        let c = v / u;
        let r = v % u;
        proof {
            let mm = m as nat;
            let ee = e as int;
            let qq = q as int;
            lemma_reads_by_rest(mm, ee, qq);
            assert(ten_pow(0) == 1 && two_pow(0) == 1);
            assert(lift(ee, qq) == x) by (nonlinear_arith)
                requires
                    lift(ee, qq) == x * 1,
            ;
            assert(unit(ee, qq) == u) by (nonlinear_arith)
                requires
                    unit(ee, qq) == u * 1,
            ;
            assert(lifted(mm, ee, qq) == v);
            assert(c <= v) by (nonlinear_arith)
                requires
                    c == v / u,
                    u > 0,
                    v >= 0,
            ;
        }
        match taken(closed, c, r, u, dn, up) {
            Some(n) => {
                proof {
                    lemma_scale_found(m as nat, e as int, 38, q as int);
                    lemma_taken(m as nat, e as int, q as int);
                }
                return (n, q as i32);
            },
            None => {},
        }
        proof {
            if q == 0 {
                assert(u == 1);
                assert(r == 0);
                assert(false);
            }
        }
        q = q - 1;
    }
}

/// A power of ten that is larger than the value and the room above it: none
/// of its multiples reads as the literal.
pub proof fn lemma_too_coarse(m: nat, e: int, q: int)
    requires
        m > 0,
        unit(e, q) > lifted(m, e, q) + above(e, q),
    ensures
        !reads(m, e, q),
{
    lemma_reads_by_rest(m, e, q);
    let l = lift(e, q);
    vstd::arithmetic::div_mod::lemma_small_mod(lifted(m, e, q), unit(e, q));
    assert(lifted(m, e, q) > below(m, e, q)) by (nonlinear_arith)
        requires
            lifted(m, e, q) == 4 * m * l,
            below(m, e, q) == room_below(m, e) * l,
            below(m, e, q) > 0,
            room_below(m, e) <= 2,
            m >= 1,
            l >= 0,
    ;
}

/// The lift of a literal whose last place is two or less is one, for a
/// power of ten that is one or more.
proof fn lemma_fraction_lift(m: nat, e: int, q: int)
    requires
        e <= 1,
        q >= 0,
    ensures
        lift(e, q) == 1,
        lifted(m, e, q) == 4 * m,
        above(e, q) == 2,
        unit(e, q) == ten_pow(q as nat) * two_pow((2 - e) as nat),
{
    assert(ten_pow(0) == 1 && two_pow(0) == 1);
    assert(lift(e, q) == 1) by (nonlinear_arith)
        requires
            lift(e, q) == 1 * 1,
    ;
    assert(lifted(m, e, q) == 4 * m) by (nonlinear_arith)
        requires
            lifted(m, e, q) == 4 * m * lift(e, q),
            lift(e, q) == 1,
    ;
}

/// Cancelling a factor that is above zero.
proof fn lemma_cancel(a: int, b: int, w: int)
    requires
        w > 0,
    ensures
        (a * w <= b * w) == (a <= b),
        (a * w < b * w) == (a < b),
{
    assert((a * w <= b * w) == (a <= b)) by (nonlinear_arith)
        requires
            w > 0,
    ;
    assert((a * w < b * w) == (a < b)) by (nonlinear_arith)
        requires
            w > 0,
    ;
}

/// The state after `j` digits behind the point: `c` is how many times
/// `10^-j` goes into the value, and `r / 2^(s-j)` of `10^-j` is left, where
/// `s` is `2 - e`. Then the multiples of `10^-j` read as the literal as
/// `c`, `r` and `5^j` say.
proof fn lemma_stream(m: nat, e: int, j: nat, c: nat, r: nat)
    requires
        m > 0,
        e <= 1,
        j <= 2 - e,
        4 * m * five_pow(j) == c * two_pow((2 - e - j) as nat) + r,
        r < two_pow((2 - e - j) as nat),
    ensures
        count_below(m, e, -(j as int)) == c,
        reads_down(m, e, -(j as int)) == (if m % 2 == 0 {
            r <= room_below(m, e) * five_pow(j)
        } else {
            r < room_below(m, e) * five_pow(j)
        }),
        reads_up(m, e, -(j as int)) == (if m % 2 == 0 {
            two_pow((2 - e - j) as nat) - r <= 2 * five_pow(j)
        } else {
            two_pow((2 - e - j) as nat) - r < 2 * five_pow(j)
        }),
        (2 * rest(m, e, -(j as int)) >= unit(e, -(j as int))) == (2 * r >= two_pow(
            (2 - e - j) as nat,
        )),
{
    let q = -(j as int);
    let s = (2 - e) as nat;
    let t = two_pow((s - j) as nat);
    let w = two_pow(j);
    let f = five_pow(j);
    let room = room_below(m, e);
    lemma_two_pow_monotonic(0, j);
    lemma_two_pow_adds((s - j) as nat, j);
    lemma_ten_pow_splits(j);
    assert(ten_pow(0) == 1 && two_pow(0) == 1);
    assert(positive_part(-q) == j);
    assert(positive_part(q) == 0);
    assert(positive_part(e - 2) == 0);
    assert(positive_part(2 - e) == s);
    assert(lift(e, q) == w * f) by (nonlinear_arith)
        requires
            lift(e, q) == 1 * ten_pow(j),
            ten_pow(j) == w * f,
    ;
    assert(unit(e, q) == t * w) by (nonlinear_arith)
        requires
            unit(e, q) == 1 * two_pow(s),
            two_pow(s) == t * w,
    ;
    assert(lifted(m, e, q) == c * (t * w) + r * w) by (nonlinear_arith)
        requires
            lifted(m, e, q) == 4 * m * lift(e, q),
            lift(e, q) == w * f,
            4 * m * f == c * t + r,
    ;
    assert(r * w < t * w) by (nonlinear_arith)
        requires
            r < t,
            w > 0,
    ;
    assert(0 <= r * w) by (nonlinear_arith)
        requires
            r >= 0,
            w > 0,
    ;
    vstd::arithmetic::div_mod::lemma_fundamental_div_mod_converse(
        lifted(m, e, q) as int,
        (t * w) as int,
        c as int,
        (r * w) as int,
    );
    assert(rest(m, e, q) == r * w);
    assert(count_below(m, e, q) == c);
    lemma_reads_by_rest(m, e, q);
    assert(below(m, e, q) == (room * f) * w) by (nonlinear_arith)
        requires
            below(m, e, q) == room * lift(e, q),
            lift(e, q) == w * f,
    ;
    assert(above(e, q) == (2 * f) * w) by (nonlinear_arith)
        requires
            above(e, q) == 2 * lift(e, q),
            lift(e, q) == w * f,
    ;
    lemma_cancel(r as int, (room * f) as int, w as int);
    lemma_cancel(t - r, (2 * f) as int, w as int);
    assert((t - r) * w == t * w - r * w) by (nonlinear_arith);
    lemma_cancel(t as int, (2 * r) as int, w as int);
    assert((2 * r) * w == 2 * (r * w)) by (nonlinear_arith);
}

/// Whether a multiple of `10^q`, for `q` from zero to eight, reads as a
/// literal whose last place is two or less, and which: `p` is `2^(2-e)`.
fn whole_multiple(m: u32, e: i32, q: u32, p: u128) -> (n: Option<u128>)
    requires
        0 < m < 0x100_0000,
        -24 <= e <= 1,
        q <= 8,
        p == two_pow((2 - e) as nat),
    ensures
        n == (if reads(m as nat, e as int, q as int) {
            Some(count_at(m as nat, e as int, q as int) as u128)
        } else {
            None
        }),
        count_at(m as nat, e as int, q as int) <= 4 * m + 1,
{
    let t = power_of_ten(q);
    proof {
        lemma_ten_pow_values();
        lemma_ten_pow_monotonic(q as nat, 9);
        lemma_two_pow_values();
        lemma_two_pow_adds(24, 2);
        assert(two_pow(2) == 4) by {
            reveal_with_fuel(two_pow, 3);
        }
        lemma_two_pow_monotonic((2 - e) as nat, 26);
        assert(t * p <= 1_000_000_000 * 0x400_0000) by (nonlinear_arith)
            requires
                0 < t <= 1_000_000_000,
                0 < p <= 0x400_0000,
        ;
        assert(t * p > 0) by (nonlinear_arith)
            requires
                0 < t,
                0 < p,
        ;
    }
    let u: u128 = t * p;
    let v: u128 = 4 * (m as u128);
    let room: u128 = if m == HIDDEN && e > -149 {
        1
    } else {
        2
    };
    let c = v / u;
    let r = v % u;
    proof {
        let mm = m as nat;
        let ee = e as int;
        let qq = q as int;
        lemma_reads_by_rest(mm, ee, qq);
        lemma_taken(mm, ee, qq);
        assert(ten_pow(0) == 1 && two_pow(0) == 1);
        assert(lift(ee, qq) == 1) by (nonlinear_arith)
            requires
                lift(ee, qq) == 1 * 1,
        ;
        assert(lifted(mm, ee, qq) == v) by (nonlinear_arith)
            requires
                lifted(mm, ee, qq) == 4 * mm * lift(ee, qq),
                lift(ee, qq) == 1,
                v == 4 * mm,
        ;
        assert(unit(ee, qq) == u);
        assert(below(mm, ee, qq) == room) by (nonlinear_arith)
            requires
                below(mm, ee, qq) == room_below(mm, ee) * lift(ee, qq),
                lift(ee, qq) == 1,
                room == room_below(mm, ee),
        ;
        assert(above(ee, qq) == 2);
        assert(c <= v) by (nonlinear_arith)
            requires
                c == v / u,
                u > 0,
                v >= 0,
        ;
    }
    taken(m % 2 == 0, c, r, u, room, 2)
}

/// What follows where no multiple of `10^-j` reads as the literal: there
/// is a place left behind the point, and the numbers stay small.
proof fn lemma_goes_on(m: nat, e: int, j: nat, c: nat, r: nat)
    requires
        m > 0,
        e <= 1,
        j <= 2 - e,
        4 * m * five_pow(j) == c * two_pow((2 - e - j) as nat) + r,
        r < two_pow((2 - e - j) as nat),
        !reads(m, e, -(j as int)),
    ensures
        j < 2 - e,
        2 * c <= 4 * m,
        2 * five_pow(j) <= two_pow((2 - e - j) as nat) - r,
{
    let t = two_pow((2 - e - j) as nat);
    let f = five_pow(j);
    lemma_stream(m, e, j, c, r);
    lemma_five_pow_monotonic(0, j);
    assert(room_below(m, e) * f > 0) by (nonlinear_arith)
        requires
            room_below(m, e) >= 1,
            f > 0,
    ;
    if j == 2 - e {
        assert(t == 1);
        assert(r == 0);
        assert(reads_down(m, e, -(j as int)));
    }
    assert(2 * f <= t - r);
    assert(c * (2 * f) <= c * t) by (nonlinear_arith)
        requires
            2 * f <= t,
            c >= 0,
    ;
    assert(2 * c <= 4 * m) by (nonlinear_arith)
        requires
            4 * m * f == c * t + r,
            c * (2 * f) <= c * t,
            f > 0,
            r >= 0,
    ;
}

/// The shortest decimal of a literal whose last place is two or less.
fn shortest_fraction(m: u32, e: i32) -> (r: (u128, i32))
    requires
        0 < m < 0x100_0000,
        -149 <= e <= 1,
    ensures
        r.0 == best_count(m as nat, e as int),
        r.1 == best_scale(m as nat, e as int),
{
    let s: u32 = (2 - e) as u32;
    let v: u128 = 4 * (m as u128);
    let room: u128 = if m == HIDDEN && e > -149 {
        1
    } else {
        2
    };
    let closed = m % 2 == 0;
    proof {
        lemma_ten_pow_values();
        lemma_two_pow_values();
        lemma_five_pow_values();
        lemma_two_pow_monotonic(0, s as nat);
        assert forall|k: int| 8 < k <= 38 implies !reads(m as nat, e as int, k) by {
            lemma_ten_pow_monotonic(9, k as nat);
            lemma_fraction_lift(m as nat, e as int, k);
            assert(unit(e as int, k) >= 1_000_000_000) by (nonlinear_arith)
                requires
                    unit(e as int, k) == ten_pow(k as nat) * two_pow(s as nat),
                    ten_pow(k as nat) >= 1_000_000_000,
                    two_pow(s as nat) >= 1,
            ;
            lemma_too_coarse(m as nat, e as int, k);
        }
    }
    let mut c: u128 = 0;
    let mut rest: u128 = v;
    if s <= 26 {
        let p = power_of_two(s);
        let mut q: u32 = 9;
        while q > 0
            invariant
                q <= 9,
                0 < m < 0x100_0000,
                -24 <= e <= 1,
                p == two_pow((2 - e) as nat),
                forall|k: int| q <= k <= 38 ==> !reads(m as nat, e as int, k),
            decreases q,
        {
            q = q - 1;
            match whole_multiple(m, e, q, p) {
                Some(n) => {
                    proof {
                        lemma_scale_found(m as nat, e as int, 38, q as int);
                    }
                    return (n, q as i32);
                },
                None => {},
            }
        }
        c = v / p;
        rest = v % p;
        proof {
            vstd::arithmetic::div_mod::lemma_fundamental_div_mod(v as int, p as int);
            assert(v == c * p + rest) by (nonlinear_arith)
                requires
                    v == p * c + rest,
            ;
            assert(c <= v) by (nonlinear_arith)
                requires
                    c == v / p,
                    p > 0,
                    v >= 0,
            ;
        }
    } else {
        proof {
            lemma_two_pow_monotonic(27, s as nat);
            lemma_two_pow_adds(24, 3);
            assert(two_pow(3) == 8) by {
                reveal_with_fuel(two_pow, 4);
            }
            assert forall|k: int| 0 <= k <= 8 implies !reads(m as nat, e as int, k) by {
                lemma_ten_pow_positive(k as nat);
                lemma_fraction_lift(m as nat, e as int, k);
                assert(unit(e as int, k) >= 0x800_0000) by (nonlinear_arith)
                    requires
                        unit(e as int, k) == ten_pow(k as nat) * two_pow(s as nat),
                        ten_pow(k as nat) >= 1,
                        two_pow(s as nat) >= 0x800_0000,
                ;
                lemma_too_coarse(m as nat, e as int, k);
            }
            assert(v == 0 * two_pow(s as nat) + v) by (nonlinear_arith);
        }
    }
    let mut fives: u128 = 1;
    let mut j: u32 = 0;
    proof {
        assert(five_pow(0) == 1);
        assert(4 * m * 1 == v);
    }
    loop
        invariant
            0 < m < 0x100_0000,
            -149 <= e <= 1,
            s == 2 - e,
            j <= s,
            room == room_below(m as nat, e as int),
            closed == (m % 2 == 0),
            4 * m * five_pow(j as nat) == c * two_pow((s - j) as nat) + rest,
            rest < two_pow((s - j) as nat),
            rest <= 4 * m * five_pow(j as nat),
            fives == five_pow(j as nat),
            forall|k: int| -(j as int) <= k <= 38 ==> !reads(m as nat, e as int, k),
        decreases s - j,
    {
        let ghost t = two_pow((s - j) as nat);
        let ghost f = five_pow(j as nat);
        let ghost half = two_pow((s - j - 1) as nat);
        proof {
            lemma_goes_on(m as nat, e as int, j as nat, c as nat, rest as nat);
            lemma_two_pow_values();
            lemma_five_pow_values();
            lemma_five_pow_monotonic(0, j as nat);
            lemma_two_pow_monotonic(0, (s - j - 1) as nat);
            assert(t == 2 * half);
            if s - j <= 125 {
                lemma_two_pow_monotonic((s - j) as nat, 125);
                assert(two_pow(125) == 2 * two_pow(124));
            } else {
                lemma_five_pow_monotonic(j as nat, 25);
                assert(five_pow(25) == 5 * five_pow(24));
                assert(4 * m * f <= 0x400_0000 * 298023223876953125) by (nonlinear_arith)
                    requires
                        0 < m < 0x100_0000,
                        0 < f <= 298023223876953125,
                ;
            }
        }
        let g: u128 = 5 * rest;
        let more_fives: u128 = 5 * fives;
        let d: u128;
        let left: u128;
        let far = s - j - 1 >= 127;
        let width: u128 = if far {
            0
        } else {
            power_of_two(s - j - 1)
        };
        if far {
            proof {
                lemma_two_pow_monotonic(127, (s - j - 1) as nat);
                assert(g < half);
                vstd::arithmetic::div_mod::lemma_small_mod(g as nat, half);
                assert(g == 0 * half + g) by (nonlinear_arith);
            }
            d = 0;
            left = g;
        } else {
            d = g / width;
            left = g % width;
            proof {
                vstd::arithmetic::div_mod::lemma_fundamental_div_mod(g as int, width as int);
                assert(g == d * half + left) by (nonlinear_arith)
                    requires
                        g == width * d + left,
                        width == half,
                ;
                assert(d < 10) by (nonlinear_arith)
                    requires
                        d == g / width,
                        g < 10 * width,
                        width > 0,
                ;
                assert(left <= g) by (nonlinear_arith)
                    requires
                        left == g % width,
                        width > 0,
                        g >= 0,
                ;
            }
        }
        let count: u128 = 10 * c + d;
        proof {
            assert(five_pow((j + 1) as nat) == 5 * f);
            assert(4 * m * (5 * f) == count * half + left) by (nonlinear_arith)
                requires
                    4 * m * f == c * t + rest,
                    t == 2 * half,
                    5 * rest == d * half + left,
                    count == 10 * c + d,
            ;
            assert(4 * m * (5 * f) == 5 * (4 * m * f)) by (nonlinear_arith);
            lemma_stream(m as nat, e as int, (j + 1) as nat, count as nat, left as nat);
            lemma_taken(m as nat, e as int, -((j + 1) as int));
            lemma_reads_by_rest(m as nat, e as int, -((j + 1) as int));
        }
        let found = if far {
            let down = if closed {
                left <= room * more_fives
            } else {
                left < room * more_fives
            };
            proof {
                assert(half - left > 2 * more_fives);
            }
            if down {
                Some(count)
            } else {
                None
            }
        } else {
            taken(closed, count, left, width, room * more_fives, 2 * more_fives)
        };
        match found {
            Some(n) => {
                proof {
                    lemma_scale_found(m as nat, e as int, 38, -((j + 1) as int));
                }
                return (n, -((j + 1) as i32));
            },
            None => {},
        }
        c = count;
        rest = left;
        fives = more_fives;
        j = j + 1;
    }
}

/// The shortest decimal that reads as the literal of value `m·2^e`: its
/// digits as a number, and its exponent.
pub fn shortest(m: u32, e: i32) -> (r: (u128, i32))
    requires
        0 < m < 0x100_0000,
        -149 <= e <= 104,
    ensures
        r.0 == best_count(m as nat, e as int),
        r.1 == best_scale(m as nat, e as int),
        -151 <= r.1 <= 38,
{
    if e >= 2 {
        let r = shortest_whole(m, e);
        proof {
            lemma_shortest_reads(m as nat, e as int);
        }
        r
    } else {
        let r = shortest_fraction(m, e);
        proof {
            lemma_shortest_reads(m as nat, e as int);
        }
        r
    }
}

/// At the exponent of its last place, or at zero where its last place is
/// a whole number, the value itself is a multiple, and reads as the
/// literal.
proof fn lemma_value_reads(m: nat, e: int)
    requires
        m > 0,
    ensures
        reads(m, e, -(positive_part(2 - e) as int)),
{
    let j = positive_part(2 - e);
    let q = -(j as int);
    lemma_reads_by_rest(m, e, q);
    let w = two_pow(j);
    let f = five_pow(j);
    lemma_ten_pow_splits(j);
    lemma_two_pow_monotonic(0, j);
    assert(ten_pow(0) == 1 && two_pow(0) == 1);
    assert(positive_part(-q) == j);
    assert(positive_part(q) == 0);
    let a = two_pow(positive_part(e - 2));
    assert(unit(e, q) == w) by (nonlinear_arith)
        requires
            unit(e, q) == 1 * w,
    ;
    assert(lifted(m, e, q) == (4 * m * a * f) * w) by (nonlinear_arith)
        requires
            lifted(m, e, q) == 4 * m * lift(e, q),
            lift(e, q) == a * ten_pow(j),
            ten_pow(j) == w * f,
    ;
    vstd::arithmetic::div_mod::lemma_fundamental_div_mod_converse(
        lifted(m, e, q) as int,
        w as int,
        (4 * m * a * f) as int,
        0,
    );
    assert(rest(m, e, q) == 0);
}

/// Looking from `top` down stops at an exponent at which a multiple reads,
/// no lower than any such exponent.
proof fn lemma_scale_reads(m: nat, e: int, top: int, q: int)
    requires
        -155 <= q <= top,
        reads(m, e, q),
    ensures
        reads(m, e, scale_from(m, e, top)),
        q <= scale_from(m, e, top) <= top,
    decreases top - q,
{
    if reads(m, e, top) || top <= -155 {
    } else {
        lemma_scale_reads(m, e, top - 1, q);
    }
}

/// The shortest decimal reads as the literal.
pub proof fn lemma_shortest_reads(m: nat, e: int)
    requires
        m > 0,
        -149 <= e,
    ensures
        reads_as(m, e, best_count(m, e), best_scale(m, e)),
        -151 <= best_scale(m, e) <= 38,
{
    lemma_value_reads(m, e);
    lemma_scale_reads(m, e, 38, -(positive_part(2 - e) as int));
}

/// Where a multiple of `10^q` reads as the literal, one of the two
/// multiples around the value does.
pub proof fn lemma_reads_around(m: nat, e: int, c: nat, q: int)
    requires
        m > 0,
        reads_as(m, e, c, q),
    ensures
        reads(m, e, q),
{
    lemma_reads_by_rest(m, e, q);
    let u = unit(e, q);
    let v = lifted(m, e, q);
    let k = count_below(m, e, q);
    let r = rest(m, e, q);
    assert((k + 1) * u == k * u + u) by (nonlinear_arith);
    if c <= k {
        assert(c * u <= k * u) by (nonlinear_arith)
            requires
                c <= k,
                u > 0,
        ;
    } else {
        assert(c * u >= (k + 1) * u) by (nonlinear_arith)
            requires
                c >= k + 1,
                u > 0,
        ;
    }
}

/// No multiple of `10^39` or of a larger power of ten reads as a literal:
/// every literal is smaller.
pub proof fn lemma_too_large(m: nat, e: int, c: nat, q: int)
    requires
        0 < m < 0x100_0000,
        e <= 104,
        q > 38,
    ensures
        !reads_as(m, e, c, q),
{
    lemma_reads_by_rest(m, e, q);
    lemma_ten_pow_values();
    lemma_two_pow_values();
    lemma_ten_pow_monotonic(38, q as nat);
    let u = unit(e, q);
    let l = lift(e, q);
    let t = ten_pow(q as nat);
    assert(ten_pow(0) == 1 && two_pow(0) == 1);
    assert(t >= 10 * ten_pow(38)) by {
        lemma_ten_pow_monotonic(39, q as nat);
    }
    lemma_two_pow_monotonic(0, positive_part(2 - e));
    lemma_two_pow_monotonic(positive_part(e - 2), 102);
    lemma_two_pow_adds(100, 2);
    assert(u >= t) by (nonlinear_arith)
        requires
            u == t * two_pow(positive_part(2 - e)),
            two_pow(positive_part(2 - e)) >= 1,
            t >= 0,
    ;
    assert(l <= 0x40_0000_0000_0000_0000_0000_0000) by (nonlinear_arith)
        requires
            l == two_pow(positive_part(e - 2)) * 1,
            two_pow(positive_part(e - 2)) <= 0x40_0000_0000_0000_0000_0000_0000,
    ;
    assert(lifted(m, e, q) + above(e, q) < 0x1_0000_0000_0000_0000_0000_0000_0000_0000)
        by (nonlinear_arith)
        requires
            lifted(m, e, q) == 4 * m * l,
            above(e, q) == 2 * l,
            0 < m < 0x100_0000,
            0 < l <= 0x40_0000_0000_0000_0000_0000_0000,
    ;
    assert(lifted(m, e, q) > below(m, e, q)) by (nonlinear_arith)
        requires
            lifted(m, e, q) == 4 * m * l,
            below(m, e, q) == room_below(m, e) * l,
            room_below(m, e) <= 2,
            m >= 1,
            l > 0,
    ;
    if c >= 1 {
        assert(c * u >= u) by (nonlinear_arith)
            requires
                c >= 1,
                u >= 0,
        ;
    } else {
        assert(c * u == 0) by (nonlinear_arith)
            requires
                c == 0,
        ;
    }
}

/// No decimal with fewer digits reads as the literal: a multiple of a power
/// of ten that reads as the literal is a multiple of `10^q` for a `q` that
/// is not above the exponent of the shortest decimal.
pub proof fn lemma_shortest_is_shortest(m: nat, e: int, c: nat, q: int)
    requires
        0 < m < 0x100_0000,
        -149 <= e <= 104,
        reads_as(m, e, c, q),
    ensures
        q <= best_scale(m, e),
{
    lemma_shortest_reads(m, e);
    if q > 38 {
        lemma_too_large(m, e, c, q);
    } else if q >= -155 {
        lemma_reads_around(m, e, c, q);
        lemma_scale_reads(m, e, 38, q);
    }
}

/// `n` zeros.
pub open spec fn zeros(n: nat) -> Seq<char> {
    Seq::new(n, |i: int| '0')
}

/// The decimal `c·10^q` written out without an exponent: its digits, with
/// zeros behind them as far as the last whole place, or with a point in
/// them, or behind `0.` and the zeros that stand between the point and the
/// first digit.
pub open spec fn decimal_text(c: nat, q: int) -> Seq<char> {
    let digits = nat_text(c);
    if q >= 0 {
        digits + zeros(q as nat)
    } else if digits.len() > -q {
        digits.subrange(0, digits.len() + q) + seq!['.'] + digits.subrange(
            digits.len() + q,
            digits.len() as int,
        )
    } else {
        seq!['0', '.'] + zeros((-q - digits.len()) as nat) + digits
    }
}

/// A digit or a point.
pub open spec fn is_decimal_char(c: char) -> bool {
    c == '.' || c == '0' || c == '1' || c == '2' || c == '3' || c == '4' || c == '5' || c == '6'
        || c == '7' || c == '8' || c == '9'
}

/// The text holds digits and points only.
pub open spec fn is_decimal(s: Seq<char>) -> bool {
    forall|i: int| 0 <= i < s.len() ==> is_decimal_char(#[trigger] s[i])
}

/// The digits of a number are digits, and there is one at least.
pub proof fn lemma_digits(n: nat)
    ensures
        is_decimal(nat_text(n)),
        nat_text(n).len() > 0,
    decreases n,
{
    if n >= 10 {
        lemma_digits(n / 10);
        let s = nat_text(n);
        assert forall|i: int| 0 <= i < s.len() implies is_decimal_char(#[trigger] s[i]) by {
            if i < nat_text(n / 10).len() {
                assert(s[i] == nat_text(n / 10)[i]);
            }
        }
    }
}

/// A decimal that is written out is not empty and holds digits and points
/// only.
pub proof fn lemma_decimal_text(c: nat, q: int)
    ensures
        is_decimal(decimal_text(c, q)),
        decimal_text(c, q).len() > 0,
{
    lemma_digits(c);
    let digits = nat_text(c);
    let s = decimal_text(c, q);
    assert forall|i: int| 0 <= i < s.len() implies is_decimal_char(#[trigger] s[i]) by {
        if q >= 0 {
            if i < digits.len() {
                assert(s[i] == digits[i]);
            } else {
                assert(s[i] == zeros(q as nat)[i - digits.len()]);
            }
        } else if digits.len() > -q {
            let cut = digits.len() + q;
            if i < cut {
                assert(s[i] == digits[i]);
            } else if i == cut {
                assert(s[i] == '.');
            } else {
                assert(s[i] == digits[i - 1]);
            }
        } else {
            let gap = (-q - digits.len()) as nat;
            if i < 2 {
            } else if i < 2 + gap {
                assert(s[i] == zeros(gap)[i - 2]);
            } else {
                assert(s[i] == digits[i - 2 - gap]);
            }
        }
    }
}

/// Appends the decimal `c·10^q`, written out.
pub(crate) fn push_decimal(out: &mut Vec<char>, c: u128, q: i32)
    requires
        -1000 <= q <= 1000,
    ensures
        final(out)@ == old(out)@ + decimal_text(c as nat, q as int),
{
    let mut digits: Vec<char> = Vec::new();
    push_nat(&mut digits, c);
    assert(digits@ =~= nat_text(c as nat));
    let n = digits.len();
    if q >= 0 {
        push_slice(out, &digits, 0, n);
        assert(digits@.subrange(0, n as int) =~= digits@);
        push_zeros(out, q as usize);
    } else {
        let k = (-q) as usize;
        if n > k {
            push_slice(out, &digits, 0, n - k);
            out.push('.');
            push_slice(out, &digits, n - k, n);
        } else {
            out.push('0');
            out.push('.');
            push_zeros(out, k - n);
            push_slice(out, &digits, 0, n);
            assert(digits@.subrange(0, n as int) =~= digits@);
        }
    }
    assert(out@ =~= old(out)@ + decimal_text(c as nat, q as int));
}

fn push_slice(out: &mut Vec<char>, from: &Vec<char>, start: usize, end: usize)
    requires
        start <= end <= from.len(),
    ensures
        final(out)@ == old(out)@ + from@.subrange(start as int, end as int),
{
    let mut i: usize = start;
    assert(out@ =~= old(out)@ + from@.subrange(start as int, i as int));
    while i < end
        invariant
            start <= i <= end <= from.len(),
            out@ == old(out)@ + from@.subrange(start as int, i as int),
        decreases end - i,
    {
        out.push(from[i]);
        i += 1;
        assert(out@ =~= old(out)@ + from@.subrange(start as int, i as int));
    }
}

fn push_zeros(out: &mut Vec<char>, n: usize)
    ensures
        final(out)@ == old(out)@ + zeros(n as nat),
{
    let mut i: usize = 0;
    assert(out@ =~= old(out)@ + zeros(0));
    while i < n
        invariant
            i <= n,
            out@ == old(out)@ + zeros(i as nat),
        decreases n - i,
    {
        out.push('0');
        i += 1;
        assert(out@ =~= old(out)@ + zeros(i as nat));
    }
}

} // verus!
