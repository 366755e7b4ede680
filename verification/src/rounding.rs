//! Rounding a positive ratio to a binary floating-point number of a given
//! precision, to nearest with ties to the even significand.
//!
//! This is the rounding that IEEE 754 arithmetic applies to the exact result
//! of every operation. It is stated here over whole numbers: the ratio is a
//! numerator over a denominator, the result a significand and an exponent.
//! The exponent is unbounded, so the statement is that of the standard as
//! long as the result is a normal number of the format in question.

use vstd::arithmetic::div_mod::{lemma_fundamental_div_mod, lemma_fundamental_div_mod_converse};
use vstd::arithmetic::power2::{
    lemma2_to64, lemma_pow2_adds, lemma_pow2_pos, lemma_pow2_strictly_increases, lemma_pow2_unfold,
    pow2,
};
use vstd::math::abs;
use vstd::prelude::*;

verus! {

/// A significand and an exponent: the number `mant * 2^exp`.
pub struct Rounded {
    pub mant: nat,
    pub exp: int,
}

impl Rounded {
    /// The same significand with the exponent moved by `k`: the number times `2^k`.
    pub open spec fn shifted(self, k: int) -> Rounded {
        Rounded { mant: self.mant, exp: self.exp + k }
    }

    /// The number as a ratio of whole numbers: its numerator.
    pub open spec fn num(self) -> nat {
        self.mant * down(self.exp)
    }

    /// The number as a ratio of whole numbers: its denominator.
    pub open spec fn den(self) -> nat {
        up(self.exp)
    }

    /// Whether the significand has exactly `p` bits.
    pub open spec fn normalized(self, p: nat) -> bool {
        pow2((p - 1) as nat) <= self.mant < pow2(p)
    }

    /// The order of the numbers, for two that are normalized to one precision:
    /// by exponent first, then by significand.
    pub open spec fn le(self, other: Rounded) -> bool {
        self.exp < other.exp || (self.exp == other.exp && self.mant <= other.mant)
    }
}

/// A significand and an exponent as the machine holds them.
#[derive(Clone, Copy, Debug, PartialEq, Eq, Structural)]
pub struct Dyadic {
    pub mant: u64,
    pub exp: i32,
}

impl View for Dyadic {
    type V = Rounded;

    open spec fn view(&self) -> Rounded {
        Rounded { mant: self.mant as nat, exp: self.exp as int }
    }
}

/// The factor that a negative exponent puts on the numerator: `2^-e` below
/// zero, else one.
pub open spec fn up(e: int) -> nat {
    if e < 0 {
        pow2((-e) as nat)
    } else {
        1
    }
}

/// The factor that a positive exponent puts on the denominator: `2^e` above
/// zero, else one. So `2^e` is `down(e) / up(e)` for every `e`.
pub open spec fn down(e: int) -> nat {
    if e > 0 {
        pow2(e as nat)
    } else {
        1
    }
}

/// Whether `n / d`, divided by `2^e`, lies from `2^(p-1)` up to but not
/// including `2^p`: whether its whole part then has exactly `p` bits.
pub open spec fn in_binade(n: nat, d: nat, p: nat, e: int) -> bool {
    pow2((p - 1) as nat) * (d * down(e)) <= n * up(e) < pow2(p) * (d * down(e))
}

/// The exponent at which `n / d` has a whole part of exactly `p` bits.
pub open spec fn binade(n: nat, d: nat, p: nat) -> int {
    choose|e: int| in_binade(n, d, p, e)
}

/// The whole number nearest to `n / d`; of two equally near, the even one.
pub open spec fn nearest_integer(n: nat, d: nat) -> nat {
    let q = n / d;
    let r = n % d;
    if 2 * r < d || (2 * r == d && q % 2 == 0) {
        q
    } else {
        q + 1
    }
}

/// The number of precision `p` nearest to `n / d`; of two equally near, the
/// one with the even significand. The ratio is scaled to a whole part of `p`
/// bits and rounded to a whole number; where that reaches `2^p`, the result
/// is the next power of two.
pub open spec fn nearest(n: nat, d: nat, p: nat) -> Rounded {
    let e = binade(n, d, p);
    let m = nearest_integer(n * up(e), d * down(e));
    if m == pow2(p) {
        Rounded { mant: pow2((p - 1) as nat), exp: e + 1 }
    } else {
        Rounded { mant: m, exp: e }
    }
}

/// The distance between the number `c` and the ratio `n / d`, counted in
/// units of one over `c.den() * d`.
pub open spec fn distance(c: Rounded, n: nat, d: nat) -> nat {
    abs(c.num() * d - n * c.den())
}

/// Both factors of an exponent are positive.
pub proof fn lemma_up_down_positive(e: int)
    ensures
        up(e) > 0,
        down(e) > 0,
{
    if e < 0 {
        lemma_pow2_pos((-e) as nat);
    }
    if e > 0 {
        lemma_pow2_pos(e as nat);
    }
}

/// `2^e2 / 2^e1` is `2^(e2 - e1)`, written without division.
pub proof fn lemma_scale(e1: int, e2: int)
    requires
        e1 <= e2,
    ensures
        up(e1) * down(e2) == pow2((e2 - e1) as nat) * (up(e2) * down(e1)),
        up(e1) > 0,
        down(e1) > 0,
        up(e2) > 0,
        down(e2) > 0,
{
    lemma_up_down_positive(e1);
    lemma_up_down_positive(e2);
    let k = (e2 - e1) as nat;
    let pk = pow2(k);
    lemma2_to64();
    if e1 >= 0 {
        lemma_pow2_adds(k, e1 as nat);
        let a = pow2(e1 as nat);
        assert(down(e1) == a);
        assert(down(e2) == pk * a);
        assert(1 * (pk * a) == pk * (1 * a)) by (nonlinear_arith);
    } else if e2 <= 0 {
        lemma_pow2_adds(k, (-e2) as nat);
        let b = pow2((-e2) as nat);
        assert(up(e2) == b);
        assert(up(e1) == pk * b);
        assert((pk * b) * 1 == pk * (b * 1)) by (nonlinear_arith);
    } else {
        lemma_pow2_adds((-e1) as nat, e2 as nat);
        let a = pow2((-e1) as nat);
        let b = pow2(e2 as nat);
        assert(pk == a * b);
        assert(a * b == (a * b) * (1 * 1)) by (nonlinear_arith);
    }
}

/// `2^e1 / 2^e2` is `2^(e1 - e2)`, written without division.
pub proof fn lemma_scale_difference(e1: int, e2: int)
    ensures
        (down(e1) * up(e2)) * up(e1 - e2) == (up(e1) * down(e2)) * down(e1 - e2),
{
    let k = e1 - e2;
    lemma2_to64();
    if k >= 0 {
        lemma_scale(e2, e1);
        let pk = pow2(k as nat);
        let a = up(e2) * down(e1);
        let b = up(e1) * down(e2);
        assert(down(k) == pk);
        assert(a == pk * b);
        assert((down(e1) * up(e2)) * 1 == (up(e1) * down(e2)) * pk) by (nonlinear_arith)
            requires
                a == up(e2) * down(e1),
                b == up(e1) * down(e2),
                a == pk * b,
        ;
    } else {
        lemma_scale(e1, e2);
        let pk = pow2((-k) as nat);
        let a = up(e1) * down(e2);
        let b = up(e2) * down(e1);
        assert(up(k) == pk);
        assert(a == pk * b);
        assert((down(e1) * up(e2)) * pk == (up(e1) * down(e2)) * 1) by (nonlinear_arith)
            requires
                a == up(e1) * down(e2),
                b == up(e2) * down(e1),
                a == pk * b,
        ;
    }
}

/// A larger ratio does not lie in a lower binade: where the first ratio,
/// divided by `2^e1`, reaches `2^(p-1)`, and the second, divided by `2^e2`,
/// stays below `2^p`, and the first is at most the second, `e1` is at most
/// `e2`.
pub proof fn lemma_binade_order(n1: nat, d1: nat, n2: nat, d2: nat, p: nat, e1: int, e2: int)
    requires
        p >= 1,
        d1 > 0,
        d2 > 0,
        n1 * d2 <= n2 * d1,
        pow2((p - 1) as nat) * (d1 * down(e1)) <= n1 * up(e1),
        n2 * up(e2) < pow2(p) * (d2 * down(e2)),
    ensures
        e1 <= e2,
{
    if e1 > e2 {
        let lo = pow2((p - 1) as nat);
        let hi = pow2(p);
        lemma_pow2_unfold(p);
        lemma_pow2_pos((p - 1) as nat);
        lemma_scale(e2, e1);
        let pk = pow2((e1 - e2) as nat);
        lemma_pow2_strictly_increases(0, (e1 - e2) as nat);
        lemma2_to64();
        assert(pk >= 2);
        let u1 = up(e1);
        let w1 = down(e1);
        let u2 = up(e2);
        let w2 = down(e2);
        // the two ratios, each divided by its power of two
        let a = n1 * u1;
        let b = d1 * w1;
        let c = n2 * u2;
        let f = d2 * w2;
        assert(lo * b <= a);
        assert(c < hi * f);
        assert(u2 * w1 == pk * (u1 * w2));
        let g = u1 * w2;
        assert(c * b == (n2 * d1) * (u2 * w1)) by (nonlinear_arith)
            requires
                c == n2 * u2,
                b == d1 * w1,
        ;
        assert(a * f == (n1 * d2) * g) by (nonlinear_arith)
            requires
                a == n1 * u1,
                f == d2 * w2,
                g == u1 * w2,
        ;
        assert((n2 * d1) * (pk * g) >= pk * ((n1 * d2) * g)) by (nonlinear_arith)
            requires
                n1 * d2 <= n2 * d1,
                pk >= 0,
                g >= 0,
        ;
        assert(pk * (a * f) >= 2 * (a * f)) by (nonlinear_arith)
            requires
                pk >= 2,
                a * f >= 0,
        ;
        assert(a * f >= lo * b * f) by (nonlinear_arith)
            requires
                lo * b <= a,
                f >= 0,
        ;
        assert(b > 0) by (nonlinear_arith)
            requires
                b == d1 * w1,
                d1 > 0,
                w1 > 0,
        ;
        assert(c * b < hi * f * b) by (nonlinear_arith)
            requires
                c < hi * f,
                b > 0,
        ;
        assert(hi * f * b == 2 * (lo * b * f)) by (nonlinear_arith)
            requires
                hi == 2 * lo,
        ;
        assert(false);
    }
}

/// A ratio lies in one binade only.
pub proof fn lemma_binade_unique(n: nat, d: nat, p: nat, e: int)
    requires
        p >= 1,
        d > 0,
        in_binade(n, d, p, e),
    ensures
        binade(n, d, p) == e,
{
    let b = binade(n, d, p);
    assert(in_binade(n, d, p, b));
    lemma_binade_order(n, d, n, d, p, e, b);
    lemma_binade_order(n, d, n, d, p, b, e);
}

/// A ratio of at least `2^(p-1)` lies in a binade at or above zero.
proof fn lemma_binade_above(n: nat, d: nat, p: nat) -> (e: int)
    requires
        p >= 1,
        d > 0,
        pow2((p - 1) as nat) * d <= n,
    ensures
        e >= 0,
        in_binade(n, d, p, e),
    decreases
            (if n >= pow2(p) * d {
                n - pow2(p) * d + 1
            } else {
                0
            }),
{
    let lo = pow2((p - 1) as nat);
    let hi = pow2(p);
    lemma_pow2_unfold(p);
    lemma_pow2_pos((p - 1) as nat);
    if n < hi * d {
        assert(lo * (d * 1) == lo * d && hi * (d * 1) == hi * d && n * 1 == n) by (nonlinear_arith);
        0
    } else {
        assert(lo * (2 * d) == hi * d) by (nonlinear_arith)
            requires
                hi == 2 * lo,
        ;
        assert(hi * (2 * d) > hi * d) by (nonlinear_arith)
            requires
                hi > 0,
                d > 0,
        ;
        let e = lemma_binade_above(n, 2 * d, p);
        lemma_up_down_positive(e);
        lemma_pow2_unfold((e + 1) as nat);
        lemma2_to64();
        assert(down(e + 1) == 2 * down(e));
        assert((2 * d) * down(e) == d * down(e + 1)) by (nonlinear_arith)
            requires
                down(e + 1) == 2 * down(e),
        ;
        e + 1
    }
}

/// A ratio below `2^p` lies in a binade at or below zero.
proof fn lemma_binade_below(n: nat, d: nat, p: nat) -> (e: int)
    requires
        p >= 1,
        n > 0,
        d > 0,
        n < pow2(p) * d,
    ensures
        e <= 0,
        in_binade(n, d, p, e),
    decreases
            (if n < pow2((p - 1) as nat) * d {
                pow2((p - 1) as nat) * d - n
            } else {
                0
            }),
{
    let lo = pow2((p - 1) as nat);
    let hi = pow2(p);
    lemma_pow2_unfold(p);
    lemma_pow2_pos((p - 1) as nat);
    if lo * d <= n {
        assert(lo * (d * 1) == lo * d && hi * (d * 1) == hi * d && n * 1 == n) by (nonlinear_arith);
        0
    } else {
        assert(2 * n < hi * d) by (nonlinear_arith)
            requires
                n < lo * d,
                hi == 2 * lo,
        ;
        let e = lemma_binade_below(2 * n, d, p);
        lemma_up_down_positive(e);
        lemma_pow2_unfold((1 - e) as nat);
        lemma2_to64();
        assert(up(e - 1) == 2 * up(e));
        assert((2 * n) * up(e) == n * up(e - 1)) by (nonlinear_arith)
            requires
                up(e - 1) == 2 * up(e),
        ;
        e - 1
    }
}

/// Every positive ratio lies in a binade, and `binade` names it.
pub proof fn lemma_binade_exists(n: nat, d: nat, p: nat)
    requires
        p >= 1,
        n > 0,
        d > 0,
    ensures
        in_binade(n, d, p, binade(n, d, p)),
{
    if pow2((p - 1) as nat) * d <= n {
        lemma_binade_above(n, d, p);
    } else {
        lemma_pow2_unfold(p);
        assert(pow2((p - 1) as nat) * d <= pow2(p) * d) by (nonlinear_arith)
            requires
                pow2(p) == 2 * pow2((p - 1) as nat),
        ;
        lemma_binade_below(n, d, p);
    }
}

/// The binade of a ratio that, divided by `2^e`, reaches `2^(p-1)` is at
/// least `e`.
pub proof fn lemma_binade_at_least(n: nat, d: nat, p: nat, e: int)
    requires
        p >= 1,
        n > 0,
        d > 0,
        pow2((p - 1) as nat) * (d * down(e)) <= n * up(e),
    ensures
        e <= binade(n, d, p),
{
    lemma_binade_exists(n, d, p);
    lemma_binade_order(n, d, n, d, p, e, binade(n, d, p));
}

/// The binade of a ratio that, divided by `2^e`, stays below `2^p` is at
/// most `e`.
pub proof fn lemma_binade_at_most(n: nat, d: nat, p: nat, e: int)
    requires
        p >= 1,
        n > 0,
        d > 0,
        n * up(e) < pow2(p) * (d * down(e)),
    ensures
        binade(n, d, p) <= e,
{
    lemma_binade_exists(n, d, p);
    lemma_binade_order(n, d, n, d, p, binade(n, d, p), e);
}

/// Rounding to a whole number moves a ratio by less than one, and leaves it
/// between the whole numbers that bound it.
pub proof fn lemma_nearest_integer_bounds(n: nat, d: nat, lo: nat, hi: nat)
    requires
        d > 0,
        lo * d <= n < hi * d,
    ensures
        lo <= nearest_integer(n, d) <= hi,
        n / d <= nearest_integer(n, d) <= n / d + 1,
{
    let q = n / d;
    let r = n % d;
    assert(n == d * q + r && 0 <= r < d) by {
        lemma_fundamental_div_mod(n as int, d as int);
    }
    assert(lo <= q) by (nonlinear_arith)
        requires
            lo * d <= n,
            n == d * q + r,
            r < d,
            d > 0,
    ;
    assert(q < hi) by (nonlinear_arith)
        requires
            n < hi * d,
            n == d * q + r,
            r >= 0,
            d > 0,
    ;
}

/// Rounding to a whole number keeps the order of two ratios.
pub proof fn lemma_nearest_integer_monotone(n1: nat, d1: nat, n2: nat, d2: nat)
    requires
        d1 > 0,
        d2 > 0,
        n1 * d2 <= n2 * d1,
    ensures
        nearest_integer(n1, d1) <= nearest_integer(n2, d2),
{
    let q1 = n1 / d1;
    let r1 = n1 % d1;
    let q2 = n2 / d2;
    let r2 = n2 % d2;
    assert(n1 == d1 * q1 + r1 && 0 <= r1 < d1) by {
        lemma_fundamental_div_mod(n1 as int, d1 as int);
    }
    assert(n2 == d2 * q2 + r2 && 0 <= r2 < d2) by {
        lemma_fundamental_div_mod(n2 as int, d2 as int);
    }
    assert(q1 <= q2) by (nonlinear_arith)
        requires
            n1 * d2 <= n2 * d1,
            n1 == d1 * q1 + r1,
            n2 == d2 * q2 + r2,
            0 <= r1,
            r2 < d2,
            d1 > 0,
            d2 > 0,
    ;
    if q1 == q2 {
        // the remainders stand as the ratios do
        assert(r1 * d2 <= r2 * d1) by (nonlinear_arith)
            requires
                n1 * d2 <= n2 * d1,
                n1 == d1 * q1 + r1,
                n2 == d2 * q2 + r2,
                q1 == q2,
        ;
        if 2 * r1 > d1 {
            assert(2 * r2 > d2) by (nonlinear_arith)
                requires
                    r1 * d2 <= r2 * d1,
                    2 * r1 > d1,
                    d1 > 0,
                    d2 > 0,
            ;
        } else if 2 * r1 == d1 {
            assert(2 * r2 >= d2) by (nonlinear_arith)
                requires
                    r1 * d2 <= r2 * d1,
                    2 * r1 == d1,
                    d1 > 0,
                    d2 > 0,
            ;
        }
    }
}

/// A multiple of the denominator rounds to the multiplier.
pub proof fn lemma_nearest_integer_exact(m: nat, d: nat)
    requires
        d > 0,
    ensures
        nearest_integer(m * d, d) == m,
{
    lemma_fundamental_div_mod_converse((m * d) as int, d as int, m as int, 0);
}

/// No whole number is nearer to `n / d` than the one it rounds to, and where
/// a second one is as near, the first is even.
pub proof fn lemma_nearest_integer_is_nearest(n: nat, d: nat, k: nat)
    requires
        d > 0,
    ensures
        ({
            let m = nearest_integer(n, d);
            &&& 2 * abs(m * d - n) <= d
            &&& abs(m * d - n) <= abs(k * d - n)
            &&& k != m && abs(m * d - n) == abs(k * d - n) ==> m % 2 == 0
        }),
{
    let q = n / d;
    let r = n % d;
    let m = nearest_integer(n, d);
    assert(n == d * q + r && 0 <= r < d) by {
        lemma_fundamental_div_mod(n as int, d as int);
    }
    assert(m * d - n == (m - q) * d - r) by (nonlinear_arith)
        requires
            n == d * q + r,
    ;
    assert(k * d - n == (k - q) * d - r) by (nonlinear_arith)
        requires
            n == d * q + r,
    ;
    assert((q + 1 - q) * d - r == d - r) by (nonlinear_arith);
    assert((q - q) * d - r == -r) by (nonlinear_arith);
    if k > q + 1 {
        assert((k - q) * d - r >= 2 * d - r) by (nonlinear_arith)
            requires
                k - q >= 2,
                d > 0,
        ;
    } else if k < q {
        assert((k - q) * d - r <= -d - r) by (nonlinear_arith)
            requires
                k - q <= -1,
                d > 0,
        ;
    }
}

/// The rounded number is normalized, at the ratio's own binade or, where the
/// significand was carried over, at the next.
pub proof fn lemma_nearest_normalized(n: nat, d: nat, p: nat)
    requires
        p >= 1,
        n > 0,
        d > 0,
    ensures
        nearest(n, d, p).normalized(p),
        binade(n, d, p) <= nearest(n, d, p).exp <= binade(n, d, p) + 1,
        nearest(n, d, p).exp == binade(n, d, p) + 1 ==> nearest(n, d, p).mant == pow2(
            (p - 1) as nat,
        ),
{
    let e = binade(n, d, p);
    lemma_binade_exists(n, d, p);
    lemma_up_down_positive(e);
    let big_d = d * down(e);
    assert(big_d > 0) by (nonlinear_arith)
        requires
            big_d == d * down(e),
            d > 0,
            down(e) > 0,
    ;
    lemma_nearest_integer_bounds(n * up(e), big_d, pow2((p - 1) as nat), pow2(p));
    lemma_pow2_unfold(p);
    lemma_pow2_pos((p - 1) as nat);
}

/// Rounding keeps the order of two ratios.
pub proof fn lemma_nearest_monotone(n1: nat, d1: nat, n2: nat, d2: nat, p: nat)
    requires
        p >= 1,
        n1 > 0,
        d1 > 0,
        n2 > 0,
        d2 > 0,
        n1 * d2 <= n2 * d1,
    ensures
        nearest(n1, d1, p).le(nearest(n2, d2, p)),
{
    let e1 = binade(n1, d1, p);
    let e2 = binade(n2, d2, p);
    lemma_binade_exists(n1, d1, p);
    lemma_binade_exists(n2, d2, p);
    lemma_binade_order(n1, d1, n2, d2, p, e1, e2);
    lemma_nearest_normalized(n1, d1, p);
    lemma_nearest_normalized(n2, d2, p);
    if e1 == e2 {
        let u = up(e1);
        let w = down(e1);
        lemma_up_down_positive(e1);
        assert(d1 * w > 0 && d2 * w > 0) by (nonlinear_arith)
            requires
                d1 > 0,
                d2 > 0,
                w > 0,
        ;
        assert((n1 * u) * (d2 * w) <= (n2 * u) * (d1 * w)) by (nonlinear_arith)
            requires
                n1 * d2 <= n2 * d1,
                u >= 0,
                w >= 0,
        ;
        lemma_nearest_integer_monotone(n1 * u, d1 * w, n2 * u, d2 * w);
        lemma_nearest_integer_bounds(n2 * u, d2 * w, pow2((p - 1) as nat), pow2(p));
    }
}

/// A ratio that is itself a number of precision `p` rounds to that number.
pub proof fn lemma_nearest_exact(n: nat, d: nat, p: nat, m: nat, e: int)
    requires
        p >= 1,
        d > 0,
        pow2((p - 1) as nat) <= m < pow2(p),
        n * up(e) == m * (d * down(e)),
    ensures
        nearest(n, d, p) == (Rounded { mant: m, exp: e }),
        binade(n, d, p) == e,
{
    let lo = pow2((p - 1) as nat);
    let hi = pow2(p);
    lemma_up_down_positive(e);
    let big_d = d * down(e);
    assert(big_d > 0) by (nonlinear_arith)
        requires
            big_d == d * down(e),
            d > 0,
            down(e) > 0,
    ;
    assert(lo * big_d <= m * big_d < hi * big_d) by (nonlinear_arith)
        requires
            lo <= m < hi,
            big_d > 0,
    ;
    lemma_binade_unique(n, d, p, e);
    lemma_nearest_integer_exact(m, big_d);
}

/// Two ratios that differ by the factor `2^k` round to numbers that differ
/// by the same factor: the significand is the same and the exponent moves by
/// `k`.
pub proof fn lemma_nearest_scaled(n: nat, d: nat, n2: nat, d2: nat, p: nat, k: int)
    requires
        p >= 1,
        n > 0,
        d > 0,
        n2 > 0,
        d2 > 0,
        (n2 * d) * up(k) == (n * d2) * down(k),
    ensures
        binade(n2, d2, p) == binade(n, d, p) + k,
        nearest(n2, d2, p) == nearest(n, d, p).shifted(k),
{
    let lo = pow2((p - 1) as nat);
    let hi = pow2(p);
    let e = binade(n, d, p);
    lemma_binade_exists(n, d, p);
    lemma_up_down_positive(e);
    lemma_up_down_positive(e + k);
    lemma_up_down_positive(k);
    lemma2_to64();
    let big_n = n * up(e);
    let big_d = d * down(e);
    let big_n2 = n2 * up(e + k);
    let big_d2 = d2 * down(e + k);
    let a = up(e + k) * down(e);
    let b = up(e) * down(e + k);
    assert(big_n2 * big_d == (n2 * d) * a) by (nonlinear_arith)
        requires
            big_n2 == n2 * up(e + k),
            big_d == d * down(e),
            a == up(e + k) * down(e),
    ;
    assert(big_n * big_d2 == (n * d2) * b) by (nonlinear_arith)
        requires
            big_n == n * up(e),
            big_d2 == d2 * down(e + k),
            b == up(e) * down(e + k),
    ;
    if k >= 0 {
        lemma_scale(e, e + k);
        let pk = pow2(k as nat);
        assert(down(k) == pk);
        assert(b == pk * a);
        assert(n2 * d == (n * d2) * pk) by (nonlinear_arith)
            requires
                (n2 * d) * up(k) == (n * d2) * down(k),
                up(k) == 1,
                down(k) == pk,
        ;
        assert((n2 * d) * a == (n * d2) * b) by (nonlinear_arith)
            requires
                n2 * d == (n * d2) * pk,
                b == pk * a,
        ;
    } else {
        lemma_scale(e + k, e);
        let pk = pow2((-k) as nat);
        assert(up(k) == pk);
        assert(a == pk * b);
        assert((n2 * d) * pk == n * d2) by (nonlinear_arith)
            requires
                (n2 * d) * up(k) == (n * d2) * down(k),
                down(k) == 1,
                up(k) == pk,
        ;
        assert((n2 * d) * a == (n * d2) * b) by (nonlinear_arith)
            requires
                (n2 * d) * pk == n * d2,
                a == pk * b,
        ;
    }
    assert(big_n2 * big_d == big_n * big_d2);
    assert(big_d > 0 && big_d2 > 0) by (nonlinear_arith)
        requires
            big_d == d * down(e),
            big_d2 == d2 * down(e + k),
            d > 0,
            d2 > 0,
            down(e) > 0,
            down(e + k) > 0,
    ;
    assert(lo * big_d2 <= big_n2 < hi * big_d2) by (nonlinear_arith)
        requires
            lo * big_d <= big_n < hi * big_d,
            big_n2 * big_d == big_n * big_d2,
            big_d > 0,
            big_d2 > 0,
    ;
    lemma_binade_unique(n2, d2, p, e + k);
    lemma_nearest_integer_monotone(big_n, big_d, big_n2, big_d2);
    lemma_nearest_integer_monotone(big_n2, big_d2, big_n, big_d);
}

/// Two equal products of a signed and a positive factor have equal
/// absolute values.
proof fn lemma_abs_scaled(s1: int, y1: int, s2: int, y2: int)
    requires
        s1 * y1 == s2 * y2,
        y1 > 0,
        y2 > 0,
    ensures
        abs(s1) * y1 == abs(s2) * y2,
{
    if s1 >= 0 {
        assert(s2 >= 0) by (nonlinear_arith)
            requires
                s1 * y1 == s2 * y2,
                s1 >= 0,
                y1 > 0,
                y2 > 0,
        ;
    } else {
        assert(s2 < 0) by (nonlinear_arith)
            requires
                s1 * y1 == s2 * y2,
                s1 < 0,
                y1 > 0,
                y2 > 0,
        ;
        assert((-s1) * y1 == (-s2) * y2) by (nonlinear_arith)
            requires
                s1 * y1 == s2 * y2,
        ;
    }
}

/// The distance of the rounded number from the ratio is that of the whole
/// number it was rounded to, at the ratio's binade.
proof fn lemma_distance_of_nearest(n: nat, d: nat, p: nat)
    requires
        p >= 1,
        n > 0,
        d > 0,
    ensures
        ({
            let b = binade(n, d, p);
            let m = nearest_integer(n * up(b), d * down(b));
            let r = nearest(n, d, p);
            distance(r, n, d) * up(b) == abs(m * (d * down(b)) - n * up(b)) * r.den()
        }),
{
    let b = binade(n, d, p);
    let m = nearest_integer(n * up(b), d * down(b));
    let r = nearest(n, d, p);
    lemma_up_down_positive(b);
    lemma_up_down_positive(b + 1);
    if m == pow2(p) {
        let lo = pow2((p - 1) as nat);
        lemma_pow2_unfold(p);
        lemma_scale(b, b + 1);
        lemma2_to64();
        assert(up(b) * down(b + 1) == 2 * (up(b + 1) * down(b)));
        let s1 = lo * down(b + 1) * d - n * up(b + 1);
        let s2 = m * (d * down(b)) - n * up(b);
        assert(s1 * up(b) == s2 * up(b + 1)) by (nonlinear_arith)
            requires
                s1 == lo * down(b + 1) * d - n * up(b + 1),
                s2 == m * (d * down(b)) - n * up(b),
                m == 2 * lo,
                up(b) * down(b + 1) == 2 * (up(b + 1) * down(b)),
        ;
        lemma_abs_scaled(s1, up(b) as int, s2, up(b + 1) as int);
    } else {
        assert(m * down(b) * d == m * (d * down(b))) by (nonlinear_arith);
    }
}

/// No number of precision `p` is nearer to the ratio than the one it rounds
/// to. Where another is as near, the significand of the rounded number is
/// even.
pub proof fn lemma_nearest_is_nearest(n: nat, d: nat, p: nat, c: Rounded)
    requires
        p >= 1,
        n > 0,
        d > 0,
        c.normalized(p),
    ensures
        ({
            let r = nearest(n, d, p);
            let nearer = distance(r, n, d) * c.den() < distance(c, n, d) * r.den();
            let as_near = distance(r, n, d) * c.den() == distance(c, n, d) * r.den();
            &&& nearer || as_near
            &&& p >= 2 && c != r && as_near ==> r.mant % 2 == 0
        }),
{
    let lo = pow2((p - 1) as nat);
    let hi = pow2(p);
    let b = binade(n, d, p);
    let r = nearest(n, d, p);
    lemma_binade_exists(n, d, p);
    lemma_nearest_normalized(n, d, p);
    lemma_pow2_unfold(p);
    lemma_pow2_pos((p - 1) as nat);
    lemma_up_down_positive(b);
    lemma_up_down_positive(c.exp);
    lemma_up_down_positive(r.exp);
    lemma2_to64();
    let ub = up(b);
    let big_n = n * ub;
    let big_d = d * down(b);
    assert(big_d > 0) by (nonlinear_arith)
        requires
            big_d == d * down(b),
            d > 0,
            down(b) > 0,
    ;
    let m = nearest_integer(big_n, big_d);
    lemma_nearest_integer_bounds(big_n, big_d, lo, hi);
    let dm = abs(m * big_d - big_n);
    lemma_distance_of_nearest(n, d, p);
    let dr = distance(r, n, d);
    let dc = distance(c, n, d);
    let uc = up(c.exp);
    let ur = r.den();
    assert(dr * ub == dm * ur);
    // the candidate's distance, at the ratio's binade
    let sc = c.mant * down(c.exp) * d - n * uc;
    assert(dc == abs(sc));
    let mut strictly = false;
    let mut other = false;
    if c.exp >= b {
        let pk = pow2((c.exp - b) as nat);
        lemma_pow2_pos((c.exp - b) as nat);
        lemma_scale(b, c.exp);
        let k = c.mant * pk;
        lemma_nearest_integer_is_nearest(big_n, big_d, k);
        let sk = k * big_d - big_n;
        let md = c.mant * d;
        let t = ub * down(c.exp);
        let kb = k * big_d;
        let cm = c.mant * down(c.exp) * d;
        assert(kb == md * (pk * down(b))) by (nonlinear_arith)
            requires
                kb == (c.mant * pk) * (d * down(b)),
                md == c.mant * d,
        ;
        assert(kb * uc == md * t) by (nonlinear_arith)
            requires
                kb == md * (pk * down(b)),
                t == pk * (uc * down(b)),
        ;
        assert(cm * ub == md * t) by (nonlinear_arith)
            requires
                cm == c.mant * down(c.exp) * d,
                md == c.mant * d,
                t == ub * down(c.exp),
        ;
        assert(sk * uc == sc * ub) by (nonlinear_arith)
            requires
                sk == kb - n * ub,
                sc == cm - n * uc,
                kb * uc == cm * ub,
        ;
        lemma_abs_scaled(sk, uc as int, sc, ub as int);
        assert(dm * uc <= dc * ub) by (nonlinear_arith)
            requires
                dm <= abs(sk),
                abs(sk) * uc == dc * ub,
                uc > 0,
        ;
        if k != m {
            other = true;
            if dm * uc == dc * ub {
                assert(dm == abs(sk)) by (nonlinear_arith)
                    requires
                        dm * uc == dc * ub,
                        abs(sk) * uc == dc * ub,
                        uc > 0,
                ;
            }
        } else {
            // the candidate is the rounded number itself
            if c.exp > b {
                lemma_pow2_strictly_increases(0, (c.exp - b) as nat);
                assert(c.mant * pk >= lo * 2) by (nonlinear_arith)
                    requires
                        c.mant >= lo,
                        pk >= 2,
                ;
                if c.exp > b + 1 {
                    lemma_pow2_strictly_increases(1, (c.exp - b) as nat);
                    assert(c.mant * pk > lo * 2) by (nonlinear_arith)
                        requires
                            c.mant >= lo,
                            lo > 0,
                            pk > 2,
                    ;
                }
                assert(c.exp == b + 1);
                assert(pk == 2);
                assert(k == 2 * c.mant) by (nonlinear_arith)
                    requires
                        k == c.mant * pk,
                        pk == 2,
                ;
                assert(c.mant == lo && m == hi);
            } else {
                assert(pk == 1);
                assert(k == c.mant) by (nonlinear_arith)
                    requires
                        k == c.mant * pk,
                        pk == 1,
                ;
                assert(m < hi);
            }
            assert(c.mant == r.mant && c.exp == r.exp);
            assert(c == r);
        }
    } else {
        // the candidate lies below the binade, and so below the ratio
        let pk = pow2((b - c.exp) as nat);
        lemma_pow2_strictly_increases(0, (b - c.exp) as nat);
        lemma_scale(c.exp, b);
        lemma_nearest_integer_is_nearest(big_n, big_d, lo);
        strictly = true;
        let below = big_n - lo * big_d;
        assert(below >= 0);
        assert(dm <= below);
        let x = ub * down(c.exp);
        assert(x > 0) by (nonlinear_arith)
            requires
                x == ub * down(c.exp),
                ub > 0,
                down(c.exp) > 0,
        ;
        assert(c.mant * x < lo * (pk * x)) by (nonlinear_arith)
            requires
                c.mant < 2 * lo,
                pk >= 2,
                x > 0,
        ;
        let y1 = lo * (pk * x);
        let y2 = c.mant * x;
        let tb = lo * (d * down(b));
        let tc = c.mant * down(c.exp) * d;
        assert(tb * uc == d * y1) by (nonlinear_arith)
            requires
                tb == lo * (d * down(b)),
                y1 == lo * (pk * x),
                uc * down(b) == pk * x,
        ;
        assert(tc * ub == d * y2) by (nonlinear_arith)
            requires
                tc == c.mant * down(c.exp) * d,
                y2 == c.mant * x,
                x == ub * down(c.exp),
        ;
        assert(d * y2 < d * y1) by (nonlinear_arith)
            requires
                y2 < y1,
                d > 0,
        ;
        assert(below * uc < (-sc) * ub) by (nonlinear_arith)
            requires
                below == n * ub - tb,
                sc == tc - n * uc,
                tc * ub < tb * uc,
        ;
        assert(-sc > 0) by (nonlinear_arith)
            requires
                below * uc < (-sc) * ub,
                below >= 0,
                uc > 0,
                ub > 0,
        ;
        assert(dm * uc < dc * ub) by (nonlinear_arith)
            requires
                dm <= below,
                below * uc < (-sc) * ub,
                dc == -sc,
                uc > 0,
        ;
    }
    // from the binade's scale back to the numbers' own
    assert(dr * uc <= dc * ur) by (nonlinear_arith)
        requires
            dr * ub == dm * ur,
            dm * uc <= dc * ub,
            ub > 0,
            ur > 0,
            uc > 0,
            dr >= 0,
            dc >= 0,
            dm >= 0,
    ;
    if dr * uc == dc * ur {
        assert(dm * uc == dc * ub) by (nonlinear_arith)
            requires
                dr * ub == dm * ur,
                dr * uc == dc * ur,
                ub > 0,
                ur > 0,
                uc > 0,
        ;
        assert(!strictly);
        if p >= 2 && c != r {
            assert(other);
            assert(m % 2 == 0);
            lemma_pow2_unfold((p - 1) as nat);
            assert(lo % 2 == 0);
        }
    }
}

/// The values of the powers of two that bound the machine's double words.
proof fn lemma_pow2_wide()
    ensures
        pow2(62) == 0x4000_0000_0000_0000,
        pow2(63) == 0x8000_0000_0000_0000,
        pow2(64) == 0x1_0000_0000_0000_0000,
        pow2(126) == 0x4000_0000_0000_0000_0000_0000_0000_0000,
{
    lemma2_to64();
    lemma_pow2_adds(31, 31);
    lemma_pow2_adds(32, 31);
    lemma_pow2_adds(64, 62);
}

/// Two to the power `k`.
fn power_of_two(k: u32) -> (r: u128)
    requires
        k <= 63,
    ensures
        r == pow2(k as nat),
        r <= 0x8000_0000_0000_0000,
{
    let mut r: u128 = 1;
    let mut i: u32 = 0;
    proof {
        lemma_pow2_wide();
        lemma2_to64();
    }
    while i < k
        invariant
            i <= k <= 63,
            r == pow2(i as nat),
            r <= pow2(63),
            pow2(63) == 0x8000_0000_0000_0000,
        decreases k - i,
    {
        proof {
            lemma_pow2_unfold((i + 1) as nat);
            if i + 1 < 63 {
                lemma_pow2_strictly_increases((i + 1) as nat, 63);
            }
        }
        r = r * 2;
        i = i + 1;
    }
    r
}

/// Rounds the ratio `n / d` to precision `p`, to nearest with ties to even.
///
/// The ratio is brought into the binade of `p` bits by doubling the
/// denominator or the numerator, divided once, and rounded on the remainder.
pub fn round_nearest(n: u64, d: u64, p: u32) -> (r: Dyadic)
    requires
        n > 0,
        d > 0,
        1 <= p <= 63,
    ensures
        r@ == nearest(n as nat, d as nat, p as nat),
        r@.normalized(p as nat),
{
    let hi: u128 = power_of_two(p);
    let lo: u128 = hi / 2;
    let mut num: u128 = n as u128;
    let mut den: u128 = d as u128;
    let mut e: i32 = 0;
    proof {
        lemma_pow2_unfold(p as nat);
        lemma_pow2_pos((p - 1) as nat);
        lemma_pow2_wide();
        lemma2_to64();
        assert(hi * den <= 0x8000_0000_0000_0000 * 0x1_0000_0000_0000_0000) by (nonlinear_arith)
            requires
                hi <= 0x8000_0000_0000_0000,
                den <= 0x1_0000_0000_0000_0000,
        ;
        assert(d * pow2(0) == d) by (nonlinear_arith)
            requires
                pow2(0) == 1,
        ;
        assert(n * pow2(0) == n) by (nonlinear_arith)
            requires
                pow2(0) == 1,
        ;
    }
    if num >= hi * den {
        proof {
            assert(lo * den <= hi * den) by (nonlinear_arith)
                requires
                    hi == 2 * lo,
            ;
            assert(den <= num) by (nonlinear_arith)
                requires
                    num >= hi * den,
                    hi >= 2,
                    den >= 0,
            ;
        }
        while num >= hi * den
            invariant
                num == n,
                hi * den <= 0x8000_0000_0000_0000_0000_0000_0000_0000,
                d > 0,
                hi == pow2(p as nat),
                lo == pow2((p - 1) as nat),
                hi == 2 * lo,
                1 <= lo,
                hi <= 0x8000_0000_0000_0000,
                0 <= e <= 63,
                den == d * pow2(e as nat),
                lo * den <= num,
                0 < den <= num,
            decreases
                    (if num >= hi * den {
                        num - hi * den + 1
                    } else {
                        0
                    }),
        {
            proof {
                let w = pow2(e as nat);
                lemma_pow2_wide();
                lemma_pow2_unfold((e + 1) as nat);
                // the denominator is at most half the numerator, so it fits when doubled
                assert(2 * den <= num) by (nonlinear_arith)
                    requires
                        num >= hi * den,
                        hi >= 2,
                        den >= 0,
                ;
                assert(w <= den) by (nonlinear_arith)
                    requires
                        den == d * w,
                        d > 0,
                        w >= 0,
                ;
                if e >= 63 {
                    if e > 63 {
                        lemma_pow2_strictly_increases(63, e as nat);
                    }
                    assert(false);
                }
                assert(2 * den == d * pow2((e + 1) as nat)) by (nonlinear_arith)
                    requires
                        den == d * w,
                        pow2((e + 1) as nat) == 2 * w,
                ;
                assert(lo * (2 * den) == hi * den) by (nonlinear_arith)
                    requires
                        hi == 2 * lo,
                ;
                assert(hi * (2 * den) <= 0x8000_0000_0000_0000 * 0x1_0000_0000_0000_0000) by (
                    nonlinear_arith)
                    requires
                        hi <= 0x8000_0000_0000_0000,
                        2 * den <= 0x1_0000_0000_0000_0000,
                ;
                assert(hi * (2 * den) > hi * den) by (nonlinear_arith)
                    requires
                        hi > 0,
                        den > 0,
                ;
            }
            den = den * 2;
            e = e + 1;
        }
    } else {
        proof {
            assert(lo * den <= 0x4000_0000_0000_0000 * 0x1_0000_0000_0000_0000) by (nonlinear_arith)
                requires
                    lo <= 0x4000_0000_0000_0000,
                    den <= 0x1_0000_0000_0000_0000,
            ;
        }
        while num < lo * den
            invariant
                den == d,
                lo * den <= 0x4000_0000_0000_0000_0000_0000_0000_0000,
                n > 0,
                hi == pow2(p as nat),
                lo == pow2((p - 1) as nat),
                hi == 2 * lo,
                1 <= lo,
                lo <= 0x4000_0000_0000_0000,
                -126 <= e <= 0,
                num == n * pow2((-e) as nat),
                num < hi * den,
                0 < num,
            decreases
                    (if num < lo * den {
                        lo * den - num
                    } else {
                        0
                    }),
        {
            proof {
                let w = pow2((-e) as nat);
                lemma_pow2_wide();
                lemma_pow2_unfold((1 - e) as nat);
                assert(w <= num) by (nonlinear_arith)
                    requires
                        num == n * w,
                        n > 0,
                        w >= 0,
                ;
                if -e >= 126 {
                    if -e > 126 {
                        lemma_pow2_strictly_increases(126, (-e) as nat);
                    }
                    assert(false);
                }
                assert(2 * num == n * pow2((1 - e) as nat)) by (nonlinear_arith)
                    requires
                        num == n * w,
                        pow2((1 - e) as nat) == 2 * w,
                ;
                assert(2 * num < hi * den) by (nonlinear_arith)
                    requires
                        num < lo * den,
                        hi == 2 * lo,
                ;
            }
            num = num * 2;
            e = e - 1;
        }
    }
    proof {
        assert(lo * den <= num < hi * den);
        assert(num == n * up(e as int));
        assert(den == d * down(e as int));
        assert(in_binade(n as nat, d as nat, p as nat, e as int));
        lemma_binade_unique(n as nat, d as nat, p as nat, e as int);
        lemma_nearest_integer_bounds(num as nat, den as nat, lo as nat, hi as nat);
        lemma_nearest_normalized(n as nat, d as nat, p as nat);
    }
    let q: u128 = num / den;
    let rem: u128 = num % den;
    let m: u128 = if rem * 2 > den || (rem * 2 == den && q % 2 == 1) {
        q + 1
    } else {
        q
    };
    if m == hi {
        Dyadic { mant: lo as u64, exp: e + 1 }
    } else {
        Dyadic { mant: m as u64, exp: e }
    }
}

} // verus!
