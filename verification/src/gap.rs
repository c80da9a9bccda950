//! How far two measurements are apart.
//!
//! The difference of two floating-point numbers is rounded to the nearest one, to the
//! even one of two that are equally near. Whether the rounded difference stays within a
//! limit is decided here exactly, on integers: a finite number is a whole multiple of
//! the least positive one.

use vstd::arithmetic::power2::{
    lemma2_to64, lemma2_to64_rest, lemma_pow2_adds, lemma_pow2_pos, lemma_pow2_strictly_increases,
    lemma_pow2_unfold, pow2,
};
use vstd::prelude::*;

use crate::measure::{finite, is_finite, magnitude, not_a_number, INFINITE, SIGN};

verus! {

/// The weight of the lowest bit of the exponent.
pub const EXPONENT: u64 = 0x0010_0000_0000_0000;

/// The fraction of a pattern, with the bit in front of it that only small numbers lack.
pub open spec fn significand(bits: u64) -> int {
    let m = magnitude(bits);
    if m < EXPONENT {
        m
    } else {
        EXPONENT + m % (EXPONENT as int)
    }
}

/// The power of two by which the significand is multiplied, in terms of the least
/// positive number.
pub open spec fn scale(bits: u64) -> nat {
    let m = magnitude(bits);
    if m < EXPONENT {
        0
    } else {
        (m / (EXPONENT as int) - 1) as nat
    }
}

/// The size of a number, counted in the least positive number.
pub open spec fn size(bits: u64) -> int {
    significand(bits) * pow2(scale(bits))
}

/// A number, counted in the least positive number.
pub open spec fn number(bits: u64) -> int {
    if bits >= SIGN {
        -size(bits)
    } else {
        size(bits)
    }
}

pub open spec fn distance(a: u64, b: u64) -> int {
    let d = number(a) - number(b);
    if d < 0 {
        -d
    } else {
        d
    }
}

/// Whether the rounded difference of two finite numbers is within a limit: the exact
/// difference is nearer to the limit than to the next larger number, or as near and the
/// limit is the even one of the two.
pub open spec fn finite_gap_within(a: u64, b: u64, limit: u64) -> bool {
    let ends = size(limit) + size((limit + 1) as u64);
    2 * distance(a, b) < ends || (2 * distance(a, b) == ends && limit % 2 == 0)
}

/// Whether the rounded difference of two numbers is within a limit. The difference of
/// anything but finite numbers is not.
pub open spec fn gap_within(a: u64, b: u64, limit: u64) -> bool {
    finite(a) && finite(b) && finite_gap_within(a, b, limit)
}

/// Whether the rounded difference of two numbers exceeds a limit. Where there is no
/// difference, as between equal infinite numbers, it does not.
pub open spec fn gap_exceeds(a: u64, b: u64, limit: u64) -> bool {
    if not_a_number(a) || not_a_number(b) {
        false
    } else if finite(a) && finite(b) {
        !finite_gap_within(a, b, limit)
    } else {
        a != b
    }
}

/// The limits for which the difference is decided: neither infinite nor extremely small.
pub open spec fn is_limit(limit: u64) -> bool {
    0x03e0_0000_0000_0000 <= limit < INFINITE
}

// ---------------------------------------------------------------------------
// Powers of two
// ---------------------------------------------------------------------------

proof fn lemma_pow2_monotone(a: nat, b: nat)
    requires
        a <= b,
    ensures
        pow2(a) <= pow2(b),
{
    if a < b {
        lemma_pow2_strictly_increases(a, b);
    }
}

/// `m` times two to the power of `shift`.
fn raise(m: u64, shift: u32) -> (res: u128)
    requires
        m < 2 * EXPONENT,
        shift <= 65,
    ensures
        res == m * pow2(shift as nat),
        res <= m * pow2(65),
        m * pow2(65) <= 0x0080_0000_0000_0000_0000_0000_0000_0000,
{
    let mut res: u128 = m as u128;
    proof {
        lemma2_to64();
        assert(m * 1 == m);
        lemma2_to64_rest();
        lemma_pow2_unfold(65);
        assert(m * pow2(65) <= 0x0020_0000_0000_0000 * pow2(65)) by (nonlinear_arith)
            requires
                m < 0x0020_0000_0000_0000,
        ;
    }
    for i in 0..shift
        invariant
            shift <= 65,
            res == m * pow2(i as nat),
            m * pow2(65) <= 0x0080_0000_0000_0000_0000_0000_0000_0000,
    {
        proof {
            lemma_pow2_unfold((i + 1) as nat);
            lemma_pow2_monotone((i + 1) as nat, 65);
            assert(m * pow2((i + 1) as nat) == 2 * (m * pow2(i as nat))) by (nonlinear_arith)
                requires
                    pow2((i + 1) as nat) == 2 * pow2(i as nat),
            ;
            assert(m * pow2((i + 1) as nat) <= m * pow2(65)) by (nonlinear_arith)
                requires
                    pow2((i + 1) as nat) <= pow2(65),
            ;
        }
        res = res * 2;
    }
    proof {
        lemma_pow2_monotone(shift as nat, 65);
        assert(m * pow2(shift as nat) <= m * pow2(65)) by (nonlinear_arith)
            requires
                pow2(shift as nat) <= pow2(65),
        ;
    }
    res
}

/// Whether `whole` and `rest` are the quotient and the remainder of `m` divided by two to
/// the power of `shift`.
spec fn is_quotient(m: u64, shift: nat, whole: u64, left: bool, rest: int) -> bool {
    m == whole * pow2(shift) + rest && 0 <= rest < pow2(shift) && left == (rest > 0)
}

/// `m` divided by two to the power of `shift`: the quotient, and whether there is a
/// remainder.
fn lower(m: u64, shift: u32) -> (res: (u64, bool))
    ensures
        res.0 <= m,
        exists|rest: int| #[trigger] is_quotient(m, shift as nat, res.0, res.1, rest),
{
    let ghost mut rest: int = 0;
    let mut whole: u64 = m;
    let mut left: bool = false;
    let steps: u32 = if shift < 64 {
        shift
    } else {
        64
    };
    proof {
        lemma2_to64();
        assert(m == m * 1);
    }
    for i in 0..steps
        invariant
            steps <= 64,
            whole <= m,
            m == whole * pow2(i as nat) + rest,
            0 <= rest < pow2(i as nat),
            left == (rest > 0),
    {
        proof {
            let p = pow2(i as nat) as int;
            lemma_pow2_unfold((i + 1) as nat);
            let half = (whole / 2) as int;
            let odd = (whole % 2) as int;
            assert(whole == 2 * half + odd);
            assert(whole * p == half * (2 * p) + odd * p) by (nonlinear_arith)
                requires
                    whole == 2 * half + odd,
            ;
            assert(odd * p == 0 || odd * p == p) by (nonlinear_arith)
                requires
                    odd == 0 || odd == 1,
            ;
            assert(odd == 1 ==> odd * p == p) by (nonlinear_arith);
            assert(odd == 0 ==> odd * p == 0) by (nonlinear_arith);
            rest = rest + odd * p;
        }
        if whole % 2 == 1 {
            left = true;
        }
        whole = whole / 2;
    }
    proof {
        if shift >= 64 {
            lemma2_to64_rest();
            lemma_pow2_monotone(64, shift as nat);
            assert(whole == 0) by (nonlinear_arith)
                requires
                    m == whole * pow2(64) + rest,
                    rest >= 0,
                    pow2(64) == 0x1_0000_0000_0000_0000,
                    m <= 0xffff_ffff_ffff_ffff,
            ;
            assert(whole * pow2(shift as nat) == 0) by (nonlinear_arith)
                requires
                    whole == 0,
            ;
        }
    }
    let res = (whole, left);
    assert(is_quotient(m, shift as nat, res.0, res.1, rest));
    res
}

// ---------------------------------------------------------------------------
// Multiples of a unit
// ---------------------------------------------------------------------------

/// A size as a multiple of two to the power of `k`, with a remainder.
struct Multiple {
    whole: u128,
    left: bool,
}

impl Multiple {
    spec fn is(self, value: int, k: nat) -> bool {
        exists|rest: int| self.has(value, k, rest)
    }

    spec fn has(self, value: int, k: nat, rest: int) -> bool {
        &&& value == self.whole * pow2(k) + rest
        &&& 0 <= rest < pow2(k)
        &&& self.left == (rest > 0)
        &&& rest > 0 ==> self.whole < 2 * EXPONENT
    }
}

fn multiple_of(m: u64, p: u32, k: u32) -> (res: Multiple)
    requires
        m < 2 * EXPONENT,
        p <= k + 65,
        k <= 2100,
    ensures
        res.is(m * pow2(p as nat), k as nat),
        res.whole <= 0x0080_0000_0000_0000_0000_0000_0000_0000,
{
    if p >= k {
        let whole = raise(m, p - k);
        proof {
            lemma_pow2_adds((p - k) as nat, k as nat);
            lemma_pow2_pos(k as nat);
            assert(m * pow2(p as nat) == whole * pow2(k as nat)) by (nonlinear_arith)
                requires
                    pow2(p as nat) == pow2((p - k) as nat) * pow2(k as nat),
                    whole == m * pow2((p - k) as nat),
            ;
        }
        let res = Multiple { whole, left: false };
        assert(res.has(m * pow2(p as nat), k as nat, 0));
        res
    } else {
        let (whole, left) = lower(m, k - p);
        let res = Multiple { whole: whole as u128, left };
        proof {
            let small = pow2((k - p) as nat) as int;
            let rest = choose|rest: int| #[trigger]
                is_quotient(m, (k - p) as nat, whole, left, rest);
            let unit = pow2(p as nat) as int;
            lemma_pow2_adds((k - p) as nat, p as nat);
            lemma_pow2_pos(p as nat);
            assert(m * unit == whole * (small * unit) + rest * unit) by (nonlinear_arith)
                requires
                    m == whole * small + rest,
            ;
            assert(rest * unit < small * unit) by (nonlinear_arith)
                requires
                    rest < small,
                    unit > 0,
            ;
            assert(rest * unit >= 0) by (nonlinear_arith)
                requires
                    rest >= 0,
                    unit > 0,
            ;
            assert((rest > 0) == (rest * unit > 0)) by (nonlinear_arith)
                requires
                    rest >= 0,
                    unit > 0,
            ;
            assert(res.has(m * pow2(p as nat), k as nat, rest * unit));
        }
        res
    }
}

/// How the sum of two multiples compares with a multiple.
proof fn lemma_sum(qa: int, ra: int, qb: int, rb: int, unit: int, bound: int)
    requires
        0 <= ra < unit,
        0 <= rb < unit,
        ra > 0 && rb > 0 ==> qa + qb + 1 < bound,
    ensures
        (qa * unit + ra + qb * unit + rb < bound * unit) == (qa + qb < bound),
        (qa * unit + ra + qb * unit + rb == bound * unit) == (qa + qb == bound && ra == 0 && rb
            == 0),
{
    let sum = qa + qb;
    assert(qa * unit + qb * unit == sum * unit) by (nonlinear_arith)
        requires
            sum == qa + qb,
    ;
    if sum < bound {
        if ra > 0 && rb > 0 {
            assert(sum * unit + 2 * unit <= bound * unit) by (nonlinear_arith)
                requires
                    sum + 2 <= bound,
                    unit > 0,
            ;
        } else {
            assert(sum * unit + unit <= bound * unit) by (nonlinear_arith)
                requires
                    sum + 1 <= bound,
                    unit > 0,
            ;
        }
    } else {
        assert(sum * unit >= bound * unit) by (nonlinear_arith)
            requires
                sum >= bound,
                unit > 0,
        ;
        if sum > bound {
            assert(sum * unit >= bound * unit + unit) by (nonlinear_arith)
                requires
                    sum >= bound + 1,
                    unit > 0,
            ;
        }
    }
}

/// How the difference of two multiples compares with a multiple.
proof fn lemma_difference(qa: int, ra: int, qb: int, rb: int, unit: int, bound: int)
    requires
        0 <= ra < unit,
        0 <= rb < unit,
        ra > 0 && rb > 0 ==> qa - qb < bound,
    ensures
        (qa * unit + ra - (qb * unit + rb) < bound * unit) == (qa - qb < bound || (qa - qb == bound
            && ra == 0 && rb > 0)),
        qa - qb == bound ==> ((qa * unit + ra - (qb * unit + rb) == bound * unit) == (ra == 0 && rb
            == 0)),
        qa - qb != bound ==> qa * unit + ra - (qb * unit + rb) != bound * unit,
{
    let d = qa - qb;
    assert(qa * unit - qb * unit == d * unit) by (nonlinear_arith)
        requires
            d == qa - qb,
    ;
    if d < bound {
        assert(d * unit + unit <= bound * unit) by (nonlinear_arith)
            requires
                d + 1 <= bound,
                unit > 0,
        ;
    } else if d > bound {
        assert(d * unit >= bound * unit + unit) by (nonlinear_arith)
            requires
                d >= bound + 1,
                unit > 0,
        ;
    }
}

// ---------------------------------------------------------------------------
// Deciding
// ---------------------------------------------------------------------------

/// The size of a limit and that of the next larger number add up to an odd multiple of
/// the limit's own power of two.
proof fn lemma_limit_ends(limit: u64)
    requires
        is_limit(limit),
    ensures
        scale(limit) >= 61,
        scale(limit) <= 2045,
        EXPONENT <= significand(limit) < 2 * EXPONENT,
        size(limit) + size((limit + 1) as u64) == (2 * significand(limit) + 1) * pow2(scale(limit)),
{
    let next = (limit + 1) as u64;
    let s = scale(limit);
    let sig = significand(limit);
    let p = pow2(s) as int;
    if (limit + 1) % (EXPONENT as int) == 0 {
        assert(sig == 2 * EXPONENT - 1);
        assert(significand(next) == EXPONENT);
        assert(scale(next) == s + 1);
        lemma_pow2_unfold(s + 1);
        assert(EXPONENT * (2 * p) == (sig + 1) * p) by (nonlinear_arith)
            requires
                sig + 1 == 2 * EXPONENT,
        ;
    } else {
        assert(significand(next) == sig + 1);
        assert(scale(next) == s);
    }
    assert(sig * p + (sig + 1) * p == (2 * sig + 1) * p) by (nonlinear_arith);
}

/// A size whose power of two is far above that of the limit exceeds the limit.
proof fn lemma_too_large(m: int, p: nat, t: int, s: nat)
    requires
        EXPONENT <= m,
        p >= s + 4,
        0 < t < 4 * EXPONENT,
    ensures
        m * pow2(p) > t * pow2(s),
        m * pow2(p) >= 4 * (t * pow2(s)),
{
    lemma_pow2_monotone(s + 4, p);
    lemma_pow2_adds(4, s);
    lemma2_to64();
    lemma_pow2_pos(s);
    let unit = pow2(s) as int;
    assert(m * pow2(p) >= m * (16 * unit)) by (nonlinear_arith)
        requires
            pow2(p) >= 16 * unit,
            m >= 0,
    ;
    assert(m * (16 * unit) >= 4 * (t * unit)) by (nonlinear_arith)
        requires
            4 * m >= t,
            m >= 0,
            unit > 0,
    ;
    assert(m * (16 * unit) > t * unit) by (nonlinear_arith)
        requires
            4 * m >= t,
            m > 0,
            t > 0,
            unit > 0,
    ;
}

fn significand_of(bits: u64) -> (res: u64)
    requires
        finite(bits),
    ensures
        res == significand(bits),
        res < 2 * EXPONENT,
{
    let m: u64 = if bits >= SIGN {
        bits - SIGN
    } else {
        bits
    };
    if m < EXPONENT {
        m
    } else {
        EXPONENT + m % EXPONENT
    }
}

fn scale_of(bits: u64) -> (res: u32)
    requires
        finite(bits),
    ensures
        res == scale(bits),
        res <= 2045,
        res > 0 ==> significand(bits) >= EXPONENT,
{
    let m: u64 = if bits >= SIGN {
        bits - SIGN
    } else {
        bits
    };
    if m < EXPONENT {
        0
    } else {
        (m / EXPONENT - 1) as u32
    }
}

/// How a distance compares with half of the ends of a limit.
#[derive(Clone, Copy, PartialEq, Eq, Structural)]
enum Comparison {
    Below,
    Equal,
    Above,
}

spec fn compares(comparison: Comparison, twice: int, ends: int) -> bool {
    match comparison {
        Comparison::Below => twice < ends,
        Comparison::Equal => twice == ends,
        Comparison::Above => twice > ends,
    }
}

/// Compares the sum of two sizes with `t` times two to the power of `s`, halved.
fn compare_sum(ma: u64, pa: u32, mb: u64, pb: u32, t: u64, s: u32) -> (res: Comparison)
    requires
        ma < 2 * EXPONENT,
        mb < 2 * EXPONENT,
        pa <= 2045,
        pb <= 2045,
        pa > 0 ==> ma >= EXPONENT,
        pb > 0 ==> mb >= EXPONENT,
        61 <= s <= 2045,
        2 * EXPONENT < t < 4 * EXPONENT,
    ensures
        compares(
            res,
            2 * (ma * pow2(pa as nat) + mb * pow2(pb as nat)),
            t * pow2(s as nat),
        ),
{
    let ghost a = ma * pow2(pa as nat);
    let ghost b = mb * pow2(pb as nat);
    proof {
        lemma_pow2_pos(pa as nat);
        lemma_pow2_pos(pb as nat);
        assert(a >= 0) by (nonlinear_arith)
            requires
                a == ma * pow2(pa as nat),
        ;
        assert(b >= 0) by (nonlinear_arith)
            requires
                b == mb * pow2(pb as nat),
        ;
    }
    if pa >= s + 4 {
        proof {
            lemma_too_large(ma as int, pa as nat, t as int, s as nat);
        }
        return Comparison::Above;
    }
    if pb >= s + 4 {
        proof {
            lemma_too_large(mb as int, pb as nat, t as int, s as nat);
        }
        return Comparison::Above;
    }
    let k: u32 = s - 61;
    let first = multiple_of(ma, pa, k);
    let second = multiple_of(mb, pb, k);
    let bound: u128 = raise_bound(t);
    let sum: u128 = first.whole + second.whole;
    proof {
        let ra = choose|rest: int| first.has(a, k as nat, rest);
        let rb = choose|rest: int| second.has(b, k as nat, rest);
        lemma_bound(t, s as nat, bound as int);
        lemma_sum(
            first.whole as int,
            ra,
            second.whole as int,
            rb,
            pow2(k as nat) as int,
            bound as int,
        );
    }
    if sum < bound {
        Comparison::Below
    } else if sum == bound && !first.left && !second.left {
        Comparison::Equal
    } else {
        Comparison::Above
    }
}

/// `t` times two to the power of sixty.
fn raise_bound(t: u64) -> (res: u128)
    requires
        2 * EXPONENT < t < 4 * EXPONENT,
    ensures
        res == t * 0x1000_0000_0000_0000,
        res > 0x1000_0000_0000_0000_0000,
{
    assert(t * 0x1000_0000_0000_0000 <= 0x0040_0000_0000_0000 * 0x1000_0000_0000_0000)
        by (nonlinear_arith)
        requires
            t < 0x0040_0000_0000_0000,
    ;
    t as u128 * 0x1000_0000_0000_0000
}

proof fn lemma_bound(t: u64, s: nat, bound: int)
    requires
        s >= 61,
        bound == t * 0x1000_0000_0000_0000,
    ensures
        t * pow2(s) == 2 * (bound * pow2((s - 61) as nat)),
{
    let k = (s - 61) as nat;
    lemma_pow2_adds(61, k);
    lemma2_to64_rest();
    let unit = pow2(k) as int;
    assert(pow2(s) == 0x2000_0000_0000_0000 * unit);
    assert(t * (0x2000_0000_0000_0000 * unit) == 2 * ((t * 0x1000_0000_0000_0000) * unit))
        by (nonlinear_arith);
}

/// Compares the difference of two sizes, of which the first is not the smaller one, with
/// `t` times two to the power of `s`, halved.
fn compare_difference(ma: u64, pa: u32, mb: u64, pb: u32, t: u64, s: u32) -> (res: Comparison)
    requires
        ma < 2 * EXPONENT,
        mb < 2 * EXPONENT,
        pa <= 2045,
        pb <= pa,
        pa > 0 ==> ma >= EXPONENT,
        pa == pb ==> ma >= mb,
        61 <= s <= 2045,
        2 * EXPONENT < t < 4 * EXPONENT,
    ensures
        compares(
            res,
            2 * (ma * pow2(pa as nat) - mb * pow2(pb as nat)),
            t * pow2(s as nat),
        ),
{
    let ghost a = ma * pow2(pa as nat);
    let ghost b = mb * pow2(pb as nat);
    if pa >= s + 4 {
        if pa - pb >= 2 {
            proof {
                lemma_far_apart(ma as int, pa as nat, mb as int, pb as nat, t as int, s as nat);
            }
            return Comparison::Above;
        }
        let front: u64 = if pa == pb {
            ma
        } else {
            2 * ma
        };
        let d: u64 = front - mb;
        proof {
            lemma_near(ma as int, pa as nat, mb as int, pb as nat, d as int);
        }
        if d == 0 {
            proof {
                lemma_pow2_pos(s as nat);
                assert(t * pow2(s as nat) > 0) by (nonlinear_arith)
                    requires
                        t > 0,
                        pow2(s as nat) > 0,
                ;
                assert(d * pow2(pb as nat) == 0) by (nonlinear_arith)
                    requires
                        d == 0,
                ;
            }
            return Comparison::Below;
        }
        let shift: u32 = pb - s;
        if shift >= 60 {
            proof {
                lemma_shifted_far(d as int, pb as nat, t as int, s as nat);
            }
            return Comparison::Above;
        }
        proof {
            lemma_pow2_adds((shift + 1) as nat, s as nat);
            lemma_pow2_unfold((pb + 1) as nat);
            lemma_pow2_pos(s as nat);
            let unit = pow2(s as nat) as int;
            assert(2 * (d * pow2(pb as nat)) == (d * pow2((shift + 1) as nat)) * unit)
                by (nonlinear_arith)
                requires
                    2 * pow2(pb as nat) == pow2((shift + 1) as nat) * unit,
            ;
            lemma_scaled_order((d * pow2((shift + 1) as nat)) as int, t as int, unit);
        }
        let raised: u128 = raise_small(d, shift + 1);
        return if raised < t as u128 {
            Comparison::Below
        } else if raised == t as u128 {
            Comparison::Equal
        } else {
            Comparison::Above
        };
    }
    let k: u32 = s - 61;
    let first = multiple_of(ma, pa, k);
    let second = multiple_of(mb, pb, k);
    let bound: u128 = raise_bound(t);
    proof {
        let ra = choose|rest: int| first.has(a, k as nat, rest);
        let rb = choose|rest: int| second.has(b, k as nat, rest);
        lemma_bound(t, s as nat, bound as int);
        lemma_not_smaller(ma as int, pa as nat, mb as int, pb as nat);
        lemma_quotient_order(
            first.whole as int,
            ra,
            second.whole as int,
            rb,
            pow2(k as nat) as int,
        );
        lemma_difference(
            first.whole as int,
            ra,
            second.whole as int,
            rb,
            pow2(k as nat) as int,
            bound as int,
        );
    }
    let difference: u128 = first.whole - second.whole;
    if difference < bound || (difference == bound && !first.left && second.left) {
        Comparison::Below
    } else if difference == bound && !first.left && !second.left {
        Comparison::Equal
    } else {
        Comparison::Above
    }
}

fn raise_small(d: u64, shift: u32) -> (res: u128)
    requires
        d <= 4 * EXPONENT,
        shift <= 60,
    ensures
        res == d * pow2(shift as nat),
{
    let mut res: u128 = d as u128;
    proof {
        lemma2_to64();
        lemma2_to64_rest();
        assert(d * pow2(60) <= 0x0040_0000_0000_0000 * pow2(60)) by (nonlinear_arith)
            requires
                d <= 0x0040_0000_0000_0000,
        ;
        assert(d * 1 == d);
    }
    for i in 0..shift
        invariant
            shift <= 60,
            res == d * pow2(i as nat),
            d * pow2(60) <= 0x0004_0000_0000_0000_0000_0000_0000_0000,
    {
        proof {
            lemma_pow2_unfold((i + 1) as nat);
            lemma_pow2_monotone((i + 1) as nat, 60);
            assert(d * pow2((i + 1) as nat) == 2 * (d * pow2(i as nat))) by (nonlinear_arith)
                requires
                    pow2((i + 1) as nat) == 2 * pow2(i as nat),
            ;
            assert(d * pow2((i + 1) as nat) <= d * pow2(60)) by (nonlinear_arith)
                requires
                    pow2((i + 1) as nat) <= pow2(60),
            ;
        }
        res = res * 2;
    }
    res
}

proof fn lemma_scaled_order(x: int, y: int, unit: int)
    requires
        unit > 0,
    ensures
        (x * unit < y * unit) == (x < y),
        (x * unit == y * unit) == (x == y),
{
    assert((x * unit < y * unit) == (x < y)) by (nonlinear_arith)
        requires
            unit > 0,
    ;
    assert((x * unit == y * unit) == (x == y)) by (nonlinear_arith)
        requires
            unit > 0,
    ;
}

proof fn lemma_not_smaller(ma: int, pa: nat, mb: int, pb: nat)
    requires
        0 <= ma,
        0 <= mb < 2 * EXPONENT,
        pb <= pa,
        pa > 0 ==> ma >= EXPONENT,
        pa == pb ==> ma >= mb,
    ensures
        ma * pow2(pa) >= mb * pow2(pb),
{
    lemma_pow2_pos(pb);
    if pa == pb {
        assert(ma * pow2(pa) >= mb * pow2(pa)) by (nonlinear_arith)
            requires
                ma >= mb,
                pow2(pa) > 0,
        ;
    } else {
        lemma_pow2_monotone(pb + 1, pa);
        lemma_pow2_unfold(pb + 1);
        let unit = pow2(pb) as int;
        assert(ma * pow2(pa) >= ma * (2 * unit)) by (nonlinear_arith)
            requires
                pow2(pa) >= 2 * unit,
                ma >= 0,
        ;
        assert(ma * (2 * unit) >= mb * unit) by (nonlinear_arith)
            requires
                2 * ma >= mb,
                unit > 0,
        ;
    }
}

proof fn lemma_quotient_order(qa: int, ra: int, qb: int, rb: int, unit: int)
    requires
        0 <= ra < unit,
        0 <= rb < unit,
        qa * unit + ra >= qb * unit + rb,
    ensures
        qa >= qb,
{
    if qa < qb {
        assert(qa * unit + unit <= qb * unit) by (nonlinear_arith)
            requires
                qa + 1 <= qb,
                unit > 0,
        ;
    }
}

/// Sizes whose powers of two differ by more than one are far apart.
proof fn lemma_far_apart(ma: int, pa: nat, mb: int, pb: nat, t: int, s: nat)
    requires
        EXPONENT <= ma,
        0 <= mb < 2 * EXPONENT,
        pa >= s + 4,
        pb + 2 <= pa,
        0 < t < 4 * EXPONENT,
    ensures
        2 * (ma * pow2(pa) - mb * pow2(pb)) > t * pow2(s),
{
    lemma_too_large(ma, pa, t, s);
    lemma_pow2_monotone(pb + 2, pa);
    lemma_pow2_adds(2, pb);
    lemma2_to64();
    lemma_pow2_pos(pb);
    let unit = pow2(pb) as int;
    let a = ma * pow2(pa);
    assert(a >= ma * (4 * unit)) by (nonlinear_arith)
        requires
            a == ma * pow2(pa),
            pow2(pa) >= 4 * unit,
            ma >= 0,
    ;
    assert(ma * (4 * unit) >= 2 * (mb * unit)) by (nonlinear_arith)
        requires
            2 * ma >= mb,
            unit > 0,
    ;
    lemma_pow2_pos(s);
    assert(t * pow2(s) > 0) by (nonlinear_arith)
        requires
            t > 0,
            pow2(s) > 0,
    ;
}

/// Sizes whose powers of two differ by at most one.
proof fn lemma_near(ma: int, pa: nat, mb: int, pb: nat, d: int)
    requires
        pa == pb || pa == pb + 1,
        d == (if pa == pb { ma } else { 2 * ma }) - mb,
    ensures
        ma * pow2(pa) - mb * pow2(pb) == d * pow2(pb),
{
    let unit = pow2(pb) as int;
    if pa == pb {
        assert(ma * unit - mb * unit == d * unit) by (nonlinear_arith)
            requires
                d == ma - mb,
        ;
    } else {
        lemma_pow2_unfold(pa);
        assert(ma * (2 * unit) - mb * unit == d * unit) by (nonlinear_arith)
            requires
                d == 2 * ma - mb,
        ;
    }
}

proof fn lemma_shifted_far(d: int, p: nat, t: int, s: nat)
    requires
        d >= 1,
        p >= s + 60,
        0 < t < 4 * EXPONENT,
    ensures
        2 * (d * pow2(p)) > t * pow2(s),
{
    lemma_pow2_monotone(s + 60, p);
    lemma_pow2_adds(60, s);
    lemma2_to64_rest();
    lemma_pow2_pos(s);
    let unit = pow2(s) as int;
    assert(d * pow2(p) >= pow2(p)) by (nonlinear_arith)
        requires
            d >= 1,
    ;
    assert(0x1000_0000_0000_0000 * unit > t * unit) by (nonlinear_arith)
        requires
            t < 0x1000_0000_0000_0000,
            unit > 0,
    ;
}

/// Whether the rounded difference of two numbers is within a limit.
pub fn is_gap_within(a: u64, b: u64, limit: u64) -> (res: bool)
    requires
        is_limit(limit),
    ensures
        res == gap_within(a, b, limit),
{
    if !is_finite(a) || !is_finite(b) {
        return false;
    }
    let even = limit % 2 == 0;
    let ma = significand_of(a);
    let pa = scale_of(a);
    let mb = significand_of(b);
    let pb = scale_of(b);
    proof {
        lemma_limit_ends(limit);
    }
    let t: u64 = 2 * significand_of(limit) + 1;
    let s: u32 = scale_of(limit);
    let comparison = if (a >= SIGN) != (b >= SIGN) {
        compare_sum(ma, pa, mb, pb, t, s)
    } else if pa > pb || (pa == pb && ma >= mb) {
        proof {
            lemma_not_smaller(ma as int, pa as nat, mb as int, pb as nat);
        }
        compare_difference(ma, pa, mb, pb, t, s)
    } else {
        proof {
            lemma_not_smaller(mb as int, pb as nat, ma as int, pa as nat);
        }
        compare_difference(mb, pb, ma, pa, t, s)
    };
    proof {
        lemma_size_not_negative(a);
        lemma_size_not_negative(b);
    }
    comparison == Comparison::Below || (comparison == Comparison::Equal && even)
}

proof fn lemma_size_not_negative(bits: u64)
    requires
        finite(bits),
    ensures
        size(bits) >= 0,
{
    lemma_pow2_pos(scale(bits));
    assert(significand(bits) * pow2(scale(bits)) >= 0) by (nonlinear_arith)
        requires
            significand(bits) >= 0,
    ;
}

/// Whether the rounded difference of two numbers exceeds a limit.
pub fn does_gap_exceed(a: u64, b: u64, limit: u64) -> (res: bool)
    requires
        is_limit(limit),
    ensures
        res == gap_exceeds(a, b, limit),
{
    if is_finite(a) && is_finite(b) {
        return !is_gap_within(a, b, limit);
    }
    let ma: u64 = if a >= SIGN {
        a - SIGN
    } else {
        a
    };
    let mb: u64 = if b >= SIGN {
        b - SIGN
    } else {
        b
    };
    ma <= INFINITE && mb <= INFINITE && a != b
}

/// The gap between a number and itself is within every limit, and the gap between two
/// numbers does not depend on their order.
pub proof fn law_gaps_are_symmetric(a: u64, b: u64, limit: u64)
    requires
        is_limit(limit),
    ensures
        finite(a) ==> gap_within(a, a, limit),
        gap_within(a, b, limit) == gap_within(b, a, limit),
        gap_exceeds(a, b, limit) == gap_exceeds(b, a, limit),
{
    lemma_limit_ends(limit);
    lemma_pow2_pos(scale(limit));
    let t = 2 * significand(limit) + 1;
    assert(t * pow2(scale(limit)) > 0) by (nonlinear_arith)
        requires
            t > 0,
            pow2(scale(limit)) > 0,
    ;
}

/// A finite number is counted in the least positive one: small numbers by their pattern, and a
/// number whose exponent is higher by one is twice as large.
pub proof fn law_sizes_count_the_least_number(bits: u64)
    ensures
        bits < 0x0020_0000_0000_0000 ==> size(bits) == bits,
        0x0010_0000_0000_0000 <= bits < 0x7fe0_0000_0000_0000 ==> size(
            (bits + 0x0010_0000_0000_0000) as u64,
        ) == 2 * size(bits),
        bits < 0x8000_0000_0000_0000 ==> number(bits) == size(bits) && number(
            (bits + 0x8000_0000_0000_0000) as u64,
        ) == -number(bits),
{
    lemma2_to64();
    if bits < 0x0020_0000_0000_0000 {
        if bits >= EXPONENT {
            assert(bits as int / (EXPONENT as int) == 1);
            assert(bits as int % (EXPONENT as int) == bits - EXPONENT);
        }
        assert(scale(bits) == 0);
        assert(pow2(0) == 1);
    }
    if 0x0010_0000_0000_0000 <= bits < 0x7fe0_0000_0000_0000 {
        let next = (bits + 0x0010_0000_0000_0000) as u64;
        assert(next as int / (EXPONENT as int) == bits as int / (EXPONENT as int) + 1);
        assert(next as int % (EXPONENT as int) == bits as int % (EXPONENT as int));
        assert(scale(next) == scale(bits) + 1);
        lemma_pow2_unfold(scale(next));
        let s = significand(bits);
        let p = pow2(scale(bits)) as int;
        assert(s * (2 * p) == 2 * (s * p)) by (nonlinear_arith);
    }
}

/// A difference that is not above the limit is within it, and one that reaches the next larger
/// number is not: only what lies between the two is rounded. A larger limit allows no less.
pub proof fn law_differences_are_held_against_the_limit(a: u64, b: u64, limit: u64)
    requires
        is_limit(limit),
        finite(a),
        finite(b),
    ensures
        distance(a, b) <= size(limit) ==> gap_within(a, b, limit) && !gap_exceeds(a, b, limit),
        distance(a, b) >= size((limit + 1) as u64) ==> !gap_within(a, b, limit) && gap_exceeds(
            a,
            b,
            limit,
        ),
        gap_within(a, b, limit) == !gap_exceeds(a, b, limit),
        size(limit) < size((limit + 1) as u64),
{
    lemma_limit_ends(limit);
    lemma_pow2_pos(scale(limit));
    let s = significand(limit);
    let p = pow2(scale(limit)) as int;
    assert((2 * s + 1) * p == 2 * (s * p) + p) by (nonlinear_arith);
}

} // verus!
