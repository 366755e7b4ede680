//! The share of memory in use, as a percentage in binary32.
//!
//! The percentage is what double-precision arithmetic gives for
//! `used / total * 100`, narrowed to single precision: both byte counts are
//! converted to binary64, divided, multiplied by one hundred, and the product
//! is converted to binary32, each step rounded to nearest with ties to even.
//! Every intermediate result is a normal number, so the unbounded exponents
//! of `rounding` state exactly what the hardware computes.

use crate::binary32::{
    lemma_hundred_magnitude, lemma_magnitude_strictly_increases, Binary32, HUNDRED_BITS, ZERO_BITS,
};
use crate::rounding::{
    down, lemma_binade_at_least, lemma_binade_at_most, lemma_nearest_exact, lemma_nearest_monotone,
    lemma_nearest_normalized, lemma_nearest_scaled, lemma_scale_difference,
    lemma_up_down_positive, nearest, round_nearest, up, Dyadic, Rounded,
};
use vstd::arithmetic::power2::{lemma2_to64, lemma_pow2_adds, lemma_pow2_pos, pow2};
use vstd::prelude::*;

verus! {

/// The binary64 number nearest to a whole number.
pub open spec fn to_double(x: nat) -> Rounded {
    nearest(x, 1, 53)
}

/// The binary64 number nearest to the quotient of two numbers.
pub open spec fn quotient(a: Rounded, b: Rounded) -> Rounded {
    nearest(a.num() * b.den(), a.den() * b.num(), 53)
}

/// The binary64 number nearest to one hundred times a number.
pub open spec fn times_hundred(a: Rounded) -> Rounded {
    nearest(100 * a.num(), a.den(), 53)
}

/// The binary32 number nearest to a number.
pub open spec fn narrowed(a: Rounded) -> Rounded {
    nearest(a.num(), a.den(), 24)
}

/// The pattern of a positive normal binary32 number, given by its 24-bit
/// significand and its exponent.
pub open spec fn pattern(r: Rounded) -> Binary32 {
    Binary32 { bits: ((r.exp + 149) * 0x80_0000 + r.mant) as u32 }
}

/// The percentage of `total` that `used` makes up, and zero where `total` is
/// zero: `used / total * 100` in binary64, then narrowed to binary32.
pub open spec fn ram_percent_of(used: nat, total: nat) -> Binary32 {
    if total == 0 || used == 0 {
        Binary32::zero()
    } else {
        pattern(narrowed(times_hundred(quotient(to_double(used), to_double(total)))))
    }
}

/// One, as binary64.
pub open spec fn one_double() -> Rounded {
    Rounded { mant: 0x10_0000_0000_0000, exp: -52 }
}

/// One hundred, as binary64.
pub open spec fn hundred_double() -> Rounded {
    Rounded { mant: 0x19_0000_0000_0000, exp: -46 }
}

/// One hundred, as binary32.
pub open spec fn hundred_single() -> Rounded {
    Rounded { mant: 0xc8_0000, exp: -17 }
}

/// The powers of two that bound the formats' significands and the byte counts.
proof fn lemma_pow2_values()
    ensures
        pow2(0) == 1,
        pow2(6) == 0x40,
        pow2(7) == 0x80,
        pow2(11) == 0x800,
        pow2(23) == 0x80_0000,
        pow2(24) == 0x100_0000,
        pow2(29) == 0x2000_0000,
        pow2(30) == 0x4000_0000,
        pow2(51) == 0x8_0000_0000_0000,
        pow2(52) == 0x10_0000_0000_0000,
        pow2(53) == 0x20_0000_0000_0000,
        pow2(64) == 0x1_0000_0000_0000_0000,
{
    lemma2_to64();
    lemma_pow2_adds(32, 19);
    lemma_pow2_adds(32, 20);
    lemma_pow2_adds(32, 21);
}

/// A quotient is found from the significands alone: the exponents only move
/// the result.
pub proof fn lemma_quotient_by_significands(a: Rounded, b: Rounded)
    requires
        a.mant > 0,
        b.mant > 0,
    ensures
        quotient(a, b) == nearest(a.mant, b.mant, 53).shifted(a.exp - b.exp),
{
    let k = a.exp - b.exp;
    lemma_up_down_positive(a.exp);
    lemma_up_down_positive(b.exp);
    lemma_scale_difference(a.exp, b.exp);
    let n2 = a.num() * b.den();
    let d2 = a.den() * b.num();
    let x = down(a.exp) * up(b.exp);
    let y = up(a.exp) * down(b.exp);
    assert(x > 0 && y > 0) by (nonlinear_arith)
        requires
            x == down(a.exp) * up(b.exp),
            y == up(a.exp) * down(b.exp),
            down(a.exp) > 0,
            up(b.exp) > 0,
            up(a.exp) > 0,
            down(b.exp) > 0,
    ;
    assert(n2 == a.mant * x) by (nonlinear_arith)
        requires
            n2 == (a.mant * down(a.exp)) * up(b.exp),
            x == down(a.exp) * up(b.exp),
    ;
    assert(d2 == b.mant * y) by (nonlinear_arith)
        requires
            d2 == up(a.exp) * (b.mant * down(b.exp)),
            y == up(a.exp) * down(b.exp),
    ;
    assert(n2 > 0 && d2 > 0) by (nonlinear_arith)
        requires
            n2 == a.mant * x,
            d2 == b.mant * y,
            a.mant > 0,
            b.mant > 0,
            x > 0,
            y > 0,
    ;
    assert((n2 * b.mant) * up(k) == (a.mant * d2) * down(k)) by (nonlinear_arith)
        requires
            n2 == a.mant * x,
            d2 == b.mant * y,
            x * up(k) == y * down(k),
    ;
    lemma_nearest_scaled(a.mant, b.mant, n2, d2, 53, k);
}

/// A multiple is found from the significand alone.
pub proof fn lemma_times_hundred_by_significand(a: Rounded)
    requires
        a.mant > 0,
    ensures
        times_hundred(a) == nearest(100 * a.mant, 1, 53).shifted(a.exp),
{
    lemma_up_down_positive(a.exp);
    let n = 100 * a.mant;
    let n2 = 100 * a.num();
    let d2 = a.den();
    assert(n2 == n * down(a.exp)) by (nonlinear_arith)
        requires
            n2 == 100 * (a.mant * down(a.exp)),
            n == 100 * a.mant,
    ;
    assert(n2 > 0) by (nonlinear_arith)
        requires
            n2 == n * down(a.exp),
            n > 0,
            down(a.exp) > 0,
    ;
    assert((n2 * 1) * up(a.exp) == (n * d2) * down(a.exp)) by (nonlinear_arith)
        requires
            n2 == n * down(a.exp),
            d2 == up(a.exp),
    ;
    lemma_nearest_scaled(n, 1, n2, d2, 53, a.exp);
}

/// A narrower number is found from the significand alone.
pub proof fn lemma_narrowed_by_significand(a: Rounded)
    requires
        a.mant > 0,
    ensures
        narrowed(a) == nearest(a.mant, 1, 24).shifted(a.exp),
{
    lemma_up_down_positive(a.exp);
    let n = a.mant;
    let n2 = a.num();
    let d2 = a.den();
    assert(n2 > 0) by (nonlinear_arith)
        requires
            n2 == n * down(a.exp),
            n > 0,
            down(a.exp) > 0,
    ;
    assert((n2 * 1) * up(a.exp) == (n * d2) * down(a.exp)) by (nonlinear_arith)
        requires
            n2 == n * down(a.exp),
            d2 == up(a.exp),
    ;
    lemma_nearest_scaled(n, 1, n2, d2, 24, a.exp);
}

/// A byte count converts to a normal binary64 number of exponent -52 to 12.
pub proof fn lemma_to_double_bounds(x: nat)
    requires
        0 < x <= u64::MAX,
    ensures
        to_double(x).normalized(53),
        -52 <= to_double(x).exp <= 12,
{
    lemma_pow2_values();
    lemma_nearest_normalized(x, 1, 53);
    assert(pow2(52) * (1 * down(-52)) <= x * up(-52)) by (nonlinear_arith)
        requires
            down(-52) == 1,
            up(-52) == pow2(52),
            x >= 1,
    ;
    lemma_binade_at_least(x, 1, 53, -52);
    assert(x * up(11) < pow2(53) * (1 * down(11))) by (nonlinear_arith)
        requires
            up(11) == 1,
            down(11) == 0x800,
            pow2(53) == 0x20_0000_0000_0000,
            x < 0x1_0000_0000_0000_0000,
    ;
    lemma_binade_at_most(x, 1, 53, 11);
}

/// The quotient of two normal numbers is normal, within two binades of the
/// difference of their exponents.
pub proof fn lemma_quotient_bounds(a: Rounded, b: Rounded)
    requires
        a.normalized(53),
        b.normalized(53),
    ensures
        quotient(a, b).normalized(53),
        a.exp - b.exp - 53 <= quotient(a, b).exp <= a.exp - b.exp - 51,
{
    lemma_pow2_values();
    lemma_quotient_by_significands(a, b);
    let ma = a.mant;
    let mb = b.mant;
    lemma_nearest_normalized(ma, mb, 53);
    assert(pow2(52) * (mb * down(-53)) <= ma * up(-53)) by (nonlinear_arith)
        requires
            down(-53) == 1,
            up(-53) == 0x20_0000_0000_0000,
            pow2(52) == 0x10_0000_0000_0000,
            0x10_0000_0000_0000 <= ma,
            mb < 0x20_0000_0000_0000,
    ;
    lemma_binade_at_least(ma, mb, 53, -53);
    assert(ma * up(-52) < pow2(53) * (mb * down(-52))) by (nonlinear_arith)
        requires
            down(-52) == 1,
            up(-52) == 0x10_0000_0000_0000,
            pow2(53) == 0x20_0000_0000_0000,
            ma < 0x20_0000_0000_0000,
            0x10_0000_0000_0000 <= mb,
    ;
    lemma_binade_at_most(ma, mb, 53, -52);
}

/// One hundred times a normal number is normal, six to eight binades up.
pub proof fn lemma_times_hundred_bounds(a: Rounded)
    requires
        a.normalized(53),
    ensures
        times_hundred(a).normalized(53),
        a.exp + 6 <= times_hundred(a).exp <= a.exp + 8,
{
    lemma_pow2_values();
    lemma_times_hundred_by_significand(a);
    let n = 100 * a.mant;
    lemma_nearest_normalized(n, 1, 53);
    assert(pow2(52) * (1 * down(6)) <= n * up(6)) by (nonlinear_arith)
        requires
            down(6) == 0x40,
            up(6) == 1,
            pow2(52) == 0x10_0000_0000_0000,
            n >= 100 * 0x10_0000_0000_0000,
    ;
    lemma_binade_at_least(n, 1, 53, 6);
    assert(n * up(7) < pow2(53) * (1 * down(7))) by (nonlinear_arith)
        requires
            down(7) == 0x80,
            up(7) == 1,
            pow2(53) == 0x20_0000_0000_0000,
            n < 100 * 0x20_0000_0000_0000,
    ;
    lemma_binade_at_most(n, 1, 53, 7);
}

/// A normal binary64 number narrows to a normal number 29 or 30 binades up.
pub proof fn lemma_narrowed_bounds(a: Rounded)
    requires
        a.normalized(53),
    ensures
        narrowed(a).normalized(24),
        a.exp + 29 <= narrowed(a).exp <= a.exp + 30,
{
    lemma_pow2_values();
    lemma_narrowed_by_significand(a);
    let n = a.mant;
    lemma_nearest_normalized(n, 1, 24);
    assert(pow2(23) * (1 * down(29)) <= n * up(29)) by (nonlinear_arith)
        requires
            down(29) == 0x2000_0000,
            up(29) == 1,
            pow2(23) == 0x80_0000,
            n >= 0x10_0000_0000_0000,
    ;
    lemma_binade_at_least(n, 1, 24, 29);
    assert(n * up(29) < pow2(24) * (1 * down(29))) by (nonlinear_arith)
        requires
            down(29) == 0x2000_0000,
            up(29) == 1,
            pow2(24) == 0x100_0000,
            n < 0x20_0000_0000_0000,
    ;
    lemma_binade_at_most(n, 1, 24, 29);
}

/// Converting to binary64 keeps the order of two byte counts.
pub proof fn lemma_to_double_monotone(x: nat, y: nat)
    requires
        0 < x <= y,
    ensures
        to_double(x).le(to_double(y)),
{
    assert(x * 1 <= y * 1);
    lemma_nearest_monotone(x, 1, y, 1, 53);
}

/// A number divided by one that is no smaller gives at most one.
pub proof fn lemma_quotient_at_most_one(a: Rounded, b: Rounded)
    requires
        a.normalized(53),
        b.normalized(53),
        a.le(b),
    ensures
        quotient(a, b).le(one_double()),
{
    lemma_pow2_values();
    lemma_quotient_by_significands(a, b);
    let ma = a.mant;
    let mb = b.mant;
    if a.exp == b.exp {
        assert(ma * 1 <= 1 * mb);
        lemma_nearest_monotone(ma, mb, 1, 1, 53);
        assert(1 * up(-52) == 0x10_0000_0000_0000 * (1 * down(-52)));
        lemma_nearest_exact(1, 1, 53, 0x10_0000_0000_0000, -52);
    } else {
        assert(ma * 1 <= 2 * mb);
        lemma_nearest_monotone(ma, mb, 2, 1, 53);
        assert(up(-51) == 0x8_0000_0000_0000);
        assert(2 * up(-51) == 0x10_0000_0000_0000 * (1 * down(-51)));
        lemma_nearest_exact(2, 1, 53, 0x10_0000_0000_0000, -51);
    }
}

/// One hundred times a number that is at most one is at most one hundred.
pub proof fn lemma_times_hundred_at_most(a: Rounded)
    requires
        a.normalized(53),
        a.le(one_double()),
    ensures
        times_hundred(a).le(hundred_double()),
{
    lemma_pow2_values();
    lemma_times_hundred_by_significand(a);
    let n = 100 * a.mant;
    if a.exp == -52 {
        assert(a.mant == 0x10_0000_0000_0000);
        assert(n * up(6) == 0x19_0000_0000_0000 * (1 * down(6)));
        lemma_nearest_exact(n, 1, 53, 0x19_0000_0000_0000, 6);
    } else {
        let top: nat = 100 * 0x20_0000_0000_0000;
        assert(n * 1 <= top * 1);
        lemma_nearest_monotone(n, 1, top, 1, 53);
        assert(top * up(7) == 0x19_0000_0000_0000 * (1 * down(7)));
        lemma_nearest_exact(top, 1, 53, 0x19_0000_0000_0000, 7);
    }
}

/// A binary64 number that is at most one hundred narrows to at most one
/// hundred.
pub proof fn lemma_narrowed_at_most(a: Rounded)
    requires
        a.normalized(53),
        a.le(hundred_double()),
    ensures
        narrowed(a).le(hundred_single()),
{
    lemma_pow2_values();
    lemma_narrowed_by_significand(a);
    let n = a.mant;
    if a.exp == -46 {
        let top: nat = 0x19_0000_0000_0000;
        assert(n * 1 <= top * 1);
        lemma_nearest_monotone(n, 1, top, 1, 24);
        assert(top * up(29) == 0xc8_0000 * (1 * down(29)));
        lemma_nearest_exact(top, 1, 24, 0xc8_0000, 29);
    } else {
        let top: nat = 0x20_0000_0000_0000;
        assert(n * 1 <= top * 1);
        lemma_nearest_monotone(n, 1, top, 1, 24);
        assert(top * up(30) == 0x80_0000 * (1 * down(30)));
        lemma_nearest_exact(top, 1, 24, 0x80_0000, 30);
    }
}

/// A number divided by one that is no larger gives at least one.
pub proof fn lemma_quotient_at_least_one(a: Rounded, b: Rounded)
    requires
        a.normalized(53),
        b.normalized(53),
        b.le(a),
    ensures
        one_double().le(quotient(a, b)),
{
    lemma_pow2_values();
    lemma_quotient_by_significands(a, b);
    let ma = a.mant;
    let mb = b.mant;
    lemma_nearest_normalized(ma, mb, 53);
    if a.exp == b.exp {
        assert(1 * mb <= ma * 1);
        lemma_nearest_monotone(1, 1, ma, mb, 53);
        assert(1 * up(-52) == 0x10_0000_0000_0000 * (1 * down(-52)));
        lemma_nearest_exact(1, 1, 53, 0x10_0000_0000_0000, -52);
    } else {
        assert(1 * mb <= ma * 2);
        lemma_nearest_monotone(1, 2, ma, mb, 53);
        assert(1 * up(-53) == 0x10_0000_0000_0000 * (2 * down(-53)));
        lemma_nearest_exact(1, 2, 53, 0x10_0000_0000_0000, -53);
    }
}

/// One hundred times a number that is at least one is at least one hundred.
pub proof fn lemma_times_hundred_at_least(a: Rounded)
    requires
        a.normalized(53),
        one_double().le(a),
    ensures
        hundred_double().le(times_hundred(a)),
{
    lemma_pow2_values();
    lemma_times_hundred_by_significand(a);
    let n = 100 * a.mant;
    let bottom: nat = 100 * 0x10_0000_0000_0000;
    assert(bottom * 1 <= n * 1);
    lemma_nearest_monotone(bottom, 1, n, 1, 53);
    assert(bottom * up(6) == 0x19_0000_0000_0000 * (1 * down(6)));
    lemma_nearest_exact(bottom, 1, 53, 0x19_0000_0000_0000, 6);
}

/// A binary64 number that is at least one hundred narrows to at least one
/// hundred.
pub proof fn lemma_narrowed_at_least(a: Rounded)
    requires
        a.normalized(53),
        hundred_double().le(a),
    ensures
        hundred_single().le(narrowed(a)),
{
    lemma_pow2_values();
    lemma_narrowed_by_significand(a);
    let n = a.mant;
    if a.exp == -46 {
        let bottom: nat = 0x19_0000_0000_0000;
        assert(bottom * 1 <= n * 1);
        lemma_nearest_monotone(bottom, 1, n, 1, 24);
        assert(bottom * up(29) == 0xc8_0000 * (1 * down(29)));
        lemma_nearest_exact(bottom, 1, 24, 0xc8_0000, 29);
    } else {
        let bottom: nat = 0x10_0000_0000_0000;
        assert(bottom * 1 <= n * 1);
        lemma_nearest_monotone(bottom, 1, n, 1, 24);
        assert(bottom * up(29) == 0x80_0000 * (1 * down(29)));
        lemma_nearest_exact(bottom, 1, 24, 0x80_0000, 29);
    }
}

/// What the pattern of a normal number holds: its exponent with the bias, its
/// significand without the leading bit, and its value as magnitude.
pub proof fn lemma_pattern(r: Rounded)
    requires
        r.normalized(24),
        -149 <= r.exp <= 104,
    ensures
        pattern(r).bits == (r.exp + 149) * 0x80_0000 + r.mant,
        pattern(r).exponent() == r.exp + 150,
        pattern(r).fraction() == r.mant - 0x80_0000,
        pattern(r).magnitude() == r.mant * pow2((r.exp + 149) as nat),
        pattern(r).is_finite(),
        !pattern(r).sign(),
        pattern(r).bits != ZERO_BITS,
{
    lemma_pow2_values();
    let v = (r.exp + 149) * 0x80_0000 + r.mant;
    assert(0x80_0000 <= v < 0x7f80_0000);
    assert(pattern(r).bits == v);
}

/// The percentage is a finite number that is not negative, and it is zero
/// only where nothing is in use or nothing is there.
pub proof fn lemma_ram_percent_finite(used: nat, total: nat)
    requires
        used <= u64::MAX,
        total <= u64::MAX,
    ensures
        ram_percent_of(used, total).is_finite(),
        !ram_percent_of(used, total).sign(),
        ram_percent_of(used, total).scaled() >= 0,
        ram_percent_of(used, total) == Binary32::zero() <==> total == 0 || used == 0,
{
    if total != 0 && used != 0 {
        let u = to_double(used);
        let t = to_double(total);
        lemma_to_double_bounds(used);
        lemma_to_double_bounds(total);
        let q = quotient(u, t);
        lemma_quotient_bounds(u, t);
        let p = times_hundred(q);
        lemma_times_hundred_bounds(q);
        let r = narrowed(p);
        lemma_narrowed_bounds(p);
        lemma_pattern(r);
    }
}

/// Where no more is in use than there is, the percentage is at most one
/// hundred.
pub proof fn lemma_ram_percent_at_most_hundred(used: nat, total: nat)
    requires
        used <= total <= u64::MAX,
    ensures
        ram_percent_of(used, total).bits <= HUNDRED_BITS,
        0 <= ram_percent_of(used, total).scaled() <= Binary32::hundred_scaled(),
{
    lemma_hundred_magnitude();
    lemma_ram_percent_finite(used, total);
    if total != 0 && used != 0 {
        let u = to_double(used);
        let t = to_double(total);
        lemma_to_double_bounds(used);
        lemma_to_double_bounds(total);
        lemma_to_double_monotone(used, total);
        let q = quotient(u, t);
        lemma_quotient_bounds(u, t);
        lemma_quotient_at_most_one(u, t);
        let p = times_hundred(q);
        lemma_times_hundred_bounds(q);
        lemma_times_hundred_at_most(q);
        let r = narrowed(p);
        lemma_narrowed_bounds(p);
        lemma_narrowed_at_most(p);
        lemma_pattern(r);
        let b = pattern(r);
        assert(b.bits <= HUNDRED_BITS);
        if b.bits < HUNDRED_BITS {
            lemma_magnitude_strictly_increases(b, Binary32::hundred());
        }
    } else {
        lemma_pow2_pos(149);
    }
}

/// Where no less is in use than there is, the percentage is at least one
/// hundred. So a percentage above one hundred comes only from a report of
/// more in use than installed, and equal counts give one hundred exactly.
pub proof fn lemma_ram_percent_at_least_hundred(used: nat, total: nat)
    requires
        0 < total <= used <= u64::MAX,
    ensures
        ram_percent_of(used, total).bits >= HUNDRED_BITS,
        ram_percent_of(used, total).scaled() >= Binary32::hundred_scaled(),
{
    lemma_hundred_magnitude();
    lemma_ram_percent_finite(used, total);
    let u = to_double(used);
    let t = to_double(total);
    lemma_to_double_bounds(used);
    lemma_to_double_bounds(total);
    lemma_to_double_monotone(total, used);
    let q = quotient(u, t);
    lemma_quotient_bounds(u, t);
    lemma_quotient_at_least_one(u, t);
    let p = times_hundred(q);
    lemma_times_hundred_bounds(q);
    lemma_times_hundred_at_least(q);
    let r = narrowed(p);
    lemma_narrowed_bounds(p);
    lemma_narrowed_at_least(p);
    lemma_pattern(r);
    let b = pattern(r);
    assert(b.bits >= HUNDRED_BITS);
    if b.bits > HUNDRED_BITS {
        lemma_magnitude_strictly_increases(Binary32::hundred(), b);
    }
}

/// The percentage lies between zero and one hundred exactly where no more is
/// in use than there is, or nothing is there, or the excess is so small that
/// the percentage still rounds to one hundred.
pub proof fn lemma_ram_percent_in_range(used: nat, total: nat)
    requires
        used <= u64::MAX,
        total <= u64::MAX,
    ensures
        ram_percent_of(used, total).is_percentage() <==> used <= total || total == 0
            || ram_percent_of(used, total) == Binary32::hundred(),
{
    let r = ram_percent_of(used, total);
    lemma_hundred_magnitude();
    lemma_ram_percent_finite(used, total);
    if used <= total {
        lemma_ram_percent_at_most_hundred(used, total);
    } else if total == 0 {
        lemma_pow2_pos(149);
    } else {
        lemma_ram_percent_at_least_hundred(used, total);
        if r.bits > HUNDRED_BITS {
            lemma_magnitude_strictly_increases(Binary32::hundred(), r);
        }
    }
}

/// The pattern of a normal binary32 number.
fn encode(r: Dyadic) -> (b: Binary32)
    requires
        r@.normalized(24),
        -149 <= r.exp <= 104,
    ensures
        b == pattern(r@),
{
    proof {
        lemma_pow2_values();
        lemma_pattern(r@);
    }
    let biased: u32 = (r.exp + 149) as u32;
    let mant: u32 = r.mant as u32;
    Binary32 { bits: biased * 0x80_0000 + mant }
}

/// The percentage of `total` that `used` makes up, as double-precision
/// arithmetic computes it and single precision holds it; zero where `total`
/// is zero.
pub fn ram_percent(used: u64, total: u64) -> (r: Binary32)
    ensures
        r == ram_percent_of(used as nat, total as nat),
        r.is_finite(),
        !r.sign(),
        r == Binary32::zero() <==> total == 0 || used == 0,
        used <= total ==> r.is_percentage(),
{
    proof {
        lemma_ram_percent_finite(used as nat, total as nat);
        if used <= total {
            lemma_ram_percent_at_most_hundred(used as nat, total as nat);
        }
    }
    if total == 0 || used == 0 {
        return Binary32 { bits: ZERO_BITS };
    }
    proof {
        lemma_pow2_values();
        lemma_to_double_bounds(used as nat);
        lemma_to_double_bounds(total as nat);
    }
    let u = round_nearest(used, 1, 53);
    let t = round_nearest(total, 1, 53);
    proof {
        lemma_quotient_bounds(u@, t@);
        lemma_quotient_by_significands(u@, t@);
    }
    let ratio = round_nearest(u.mant, t.mant, 53);
    let q = Dyadic { mant: ratio.mant, exp: ratio.exp + (u.exp - t.exp) };
    assert(q@ == quotient(u@, t@));
    proof {
        lemma_times_hundred_bounds(q@);
        lemma_times_hundred_by_significand(q@);
    }
    let product = round_nearest(100 * q.mant, 1, 53);
    let p = Dyadic { mant: product.mant, exp: product.exp + q.exp };
    assert(p@ == times_hundred(q@));
    proof {
        lemma_narrowed_bounds(p@);
        lemma_narrowed_by_significand(p@);
    }
    let single = round_nearest(p.mant, 1, 24);
    let r = Dyadic { mant: single.mant, exp: single.exp + p.exp };
    assert(r@ == narrowed(p@));
    encode(r)
}

} // verus!
