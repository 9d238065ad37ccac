//! Rounding of a ratio to a binary number of 53 significant bits, to nearest
//! with ties to even.

use vstd::arithmetic::power2::{
    lemma2_to64, lemma2_to64_rest, lemma_pow2_adds, lemma_pow2_pos, lemma_pow2_unfold, pow2,
};
use vstd::prelude::*;

verus! {

/// The number `num / den`.
pub struct Ratio {
    pub num: nat,
    pub den: nat,
}

/// The numerator of `2^-e` in lowest terms.
pub open spec fn up(e: int) -> nat {
    if e < 0 {
        pow2((-e) as nat)
    } else {
        1
    }
}

/// The numerator of `2^e` in lowest terms.
pub open spec fn down(e: int) -> nat {
    if e < 0 {
        1
    } else {
        pow2(e as nat)
    }
}

/// The integer nearest to `a / b`, the even one of two equally near.
pub open spec fn nearest(a: nat, b: nat) -> nat {
    let q = a / b;
    let r = a % b;
    if 2 * r < b || (2 * r == b && q % 2 == 0) {
        q
    } else {
        q + 1
    }
}

/// Whether `x / 2^e` lies in the range of a 53-bit significand: `2^52 <= x / 2^e < 2^53`.
pub open spec fn in_binade(x: Ratio, e: int) -> bool {
    0x10_0000_0000_0000 * (x.den * down(e)) <= x.num * up(e) < 0x20_0000_0000_0000 * (x.den * down(
        e,
    ))
}

/// The number of 53 significant bits nearest to `x`, without a bound on the exponent.
pub open spec fn rounded(x: Ratio) -> Ratio {
    if x.num == 0 {
        x
    } else {
        let e = choose|e: int| in_binade(x, e);
        Ratio { num: nearest(x.num * up(e), x.den * down(e)) * down(e), den: up(e) }
    }
}

/// The largest integer that is not above `x`.
pub open spec fn floor(x: Ratio) -> nat {
    x.num / x.den
}

proof fn lemma_up_down_positive(e: int)
    ensures
        up(e) > 0,
        down(e) > 0,
{
    lemma_pow2_pos((-e) as nat);
    lemma_pow2_pos(e as nat);
}

proof fn lemma_scale(e: int, s: nat)
    ensures
        down(e + s) * up(e) == pow2(s) * down(e) * up(e + s),
{
    lemma_pow2_pos(s);
    if e >= 0 {
        lemma_pow2_adds(s, e as nat);
        assert(down(e + s) == pow2(s) * pow2(e as nat));
    } else if e + s < 0 {
        lemma_pow2_adds(s, (-(e + s)) as nat);
        assert(s + (-(e + s)) as nat == (-e) as nat);
    } else {
        lemma_pow2_adds((e + s) as nat, (-e) as nat);
        assert((e + s) as nat + (-e) as nat == s);
        assert(pow2(s) * 1 * 1 == pow2(s)) by (nonlinear_arith);
    }
}

/// The quotient of a ratio by `2^(e + s)` is its quotient by `2^e` over `2^s`.
proof fn lemma_rescale(x: Ratio, e: int, s: nat)
    ensures
        (x.num * up(e + s)) * (pow2(s) * (x.den * down(e))) == (x.num * up(e)) * (x.den * down(
            e + s,
        )),
{
    lemma_scale(e, s);
    let a = x.num as int;
    let b = x.den as int;
    let u = up(e) as int;
    let v = down(e) as int;
    let u2 = up(e + s) as int;
    let v2 = down(e + s) as int;
    let p = pow2(s) as int;
    assert((a * u2) * (p * (b * v)) == (a * b) * (p * v * u2)) by (nonlinear_arith);
    assert((a * u) * (b * v2) == (a * b) * (v2 * u)) by (nonlinear_arith);
}

proof fn lemma_nearest_is(a: nat, b: nat, n: nat)
    requires
        b > 0,
        2 * n * b <= 2 * a + b,
        2 * a <= 2 * n * b + b,
        2 * a == 2 * n * b + b ==> n % 2 == 0,
        2 * n * b == 2 * a + b ==> n % 2 == 0,
    ensures
        nearest(a, b) == n,
{
    let q = a / b;
    let r = a % b;
    vstd::arithmetic::div_mod::lemma_fundamental_div_mod(a as int, b as int);
    assert(a == b * q + r && 0 <= r < b) by {
        vstd::arithmetic::div_mod::lemma_mod_bound(a as int, b as int);
    }
    // n is q or q + 1
    if n < q {
        assert(2 * a > 2 * n * b + b) by (nonlinear_arith)
            requires
                a == b * q + r,
                n + 1 <= q,
                r >= 0,
                b > 0,
        ;
    } else if n > q + 1 {
        assert(2 * n * b > 2 * a + b) by (nonlinear_arith)
            requires
                a == b * q + r,
                n >= q + 2,
                r < b,
                b > 0,
        ;
    } else if n == q {
        assert(2 * n * b == 2 * (b * q)) by (nonlinear_arith)
            requires
                n == q,
        ;
    } else {
        assert(2 * n * b == 2 * (b * q) + 2 * b) by (nonlinear_arith)
            requires
                n == q + 1,
        ;
    }
}

proof fn lemma_nearest_bounds(a: nat, b: nat)
    requires
        b > 0,
    ensures
        2 * nearest(a, b) * b <= 2 * a + b,
        2 * a <= 2 * nearest(a, b) * b + b,
        2 * a == 2 * nearest(a, b) * b + b ==> nearest(a, b) % 2 == 0,
        2 * nearest(a, b) * b == 2 * a + b ==> nearest(a, b) % 2 == 0,
{
    let q = a / b;
    let r = a % b;
    vstd::arithmetic::div_mod::lemma_fundamental_div_mod(a as int, b as int);
    vstd::arithmetic::div_mod::lemma_mod_bound(a as int, b as int);
    let n = nearest(a, b);
    if n == q {
        assert(2 * n * b == 2 * (b * q)) by (nonlinear_arith)
            requires
                n == q,
        ;
    } else {
        assert(2 * n * b == 2 * (b * q) + 2 * b) by (nonlinear_arith)
            requires
                n == q + 1,
        ;
    }
}

/// `nearest` depends on the ratio alone.
proof fn lemma_nearest_ratio(a: nat, b: nat, c: nat, d: nat)
    requires
        b > 0,
        d > 0,
        a * d == c * b,
    ensures
        nearest(a, b) == nearest(c, d),
{
    let n = nearest(c, d);
    lemma_nearest_bounds(c, d);
    assert(2 * n * b <= 2 * a + b) by (nonlinear_arith)
        requires
            2 * n * d <= 2 * c + d,
            a * d == c * b,
            b > 0,
            d > 0,
    {
        assert((2 * n * d) * b <= (2 * c + d) * b);
        assert((2 * n * b) * d <= (2 * a + b) * d);
    }
    assert(2 * a <= 2 * n * b + b) by (nonlinear_arith)
        requires
            2 * c <= 2 * n * d + d,
            a * d == c * b,
            b > 0,
            d > 0,
    {
        assert((2 * c) * b <= (2 * n * d + d) * b);
        assert((2 * a) * d <= (2 * n * b + b) * d);
    }
    if 2 * a == 2 * n * b + b {
        assert(2 * c == 2 * n * d + d) by (nonlinear_arith)
            requires
                2 * a == 2 * n * b + b,
                a * d == c * b,
                b > 0,
                d > 0,
        {
            assert((2 * a) * d == (2 * n * b + b) * d);
            assert((2 * c) * b == (2 * n * d + d) * b);
        }
    }
    if 2 * n * b == 2 * a + b {
        assert(2 * n * d == 2 * c + d) by (nonlinear_arith)
            requires
                2 * n * b == 2 * a + b,
                a * d == c * b,
                b > 0,
                d > 0,
        {
            assert((2 * n * b) * d == (2 * a + b) * d);
            assert((2 * n * d) * b == (2 * c + d) * b);
        }
    }
    lemma_nearest_is(a, b, n);
}

/// Comparison with `k` carries over between equal ratios.
proof fn lemma_compare_ratio(a: nat, b: nat, c: nat, d: nat, k: nat)
    requires
        b > 0,
        d > 0,
        a * d == c * b,
    ensures
        k * b <= a <==> k * d <= c,
{
    if k * b <= a {
        assert(k * d <= c) by (nonlinear_arith)
            requires
                k * b <= a,
                a * d == c * b,
                b > 0,
                d > 0,
        {
            assert((k * b) * d <= a * d);
            assert((k * d) * b <= c * b);
        }
    } else {
        assert(k * d > c) by (nonlinear_arith)
            requires
                k * b > a,
                a * d == c * b,
                b > 0,
                d > 0,
        {
            assert((k * b) * d > a * d);
            assert((k * d) * b > c * b);
        }
    }
}

/// A ratio lies in one binade at most.
proof fn lemma_binade_unique(x: Ratio, e1: int, e2: int)
    requires
        x.den > 0,
        in_binade(x, e1),
        in_binade(x, e2),
    ensures
        e1 == e2,
{
    if e1 < e2 {
        lemma_binade_order(x, e1, (e2 - e1) as nat);
    } else if e2 < e1 {
        lemma_binade_order(x, e2, (e1 - e2) as nat);
    }
}

proof fn lemma_binade_order(x: Ratio, e: int, s: nat)
    requires
        x.den > 0,
        s > 0,
        in_binade(x, e),
    ensures
        !in_binade(x, e + s),
{
    lemma_up_down_positive(e);
    lemma_up_down_positive(e + s);
    lemma_pow2_pos(s);
    lemma_pow2_unfold(s);
    lemma_pow2_pos((s - 1) as nat);
    lemma_rescale(x, e, s);
    let w = x.den * down(e);
    let w2 = x.den * down(e + s);
    let t = x.num * up(e);
    let t2 = x.num * up(e + s);
    let p = pow2(s);
    assert(w > 0 && w2 > 0 && p * w > 0) by (nonlinear_arith)
        requires
            x.den > 0,
            down(e) > 0,
            down(e + s) > 0,
            p > 0,
            w == x.den * down(e),
            w2 == x.den * down(e + s),
    ;
    lemma_compare_ratio(t2, w2, t, p * w, 0x10_0000_0000_0000);
    assert(0x10_0000_0000_0000 * (p * w) >= 0x20_0000_0000_0000 * w) by (nonlinear_arith)
        requires
            p >= 2,
            w > 0,
    ;
}

/// What rounding gives, once the binade of `x` is known.
proof fn lemma_rounded_in(x: Ratio, e: int)
    requires
        x.den > 0,
        in_binade(x, e),
    ensures
        rounded(x) == (Ratio {
            num: nearest(x.num * up(e), x.den * down(e)) * down(e),
            den: up(e),
        }),
{
    lemma_up_down_positive(e);
    assert(x.num != 0) by (nonlinear_arith)
        requires
            0x10_0000_0000_0000 * (x.den * down(e)) <= x.num * up(e),
            x.den > 0,
            down(e) > 0,
    ;
    let c = choose|c: int| in_binade(x, c);
    assert(in_binade(x, c));
    lemma_binade_unique(x, e, c);
}

proof fn lemma_pow2_exceeds(n: nat)
    ensures
        pow2(n) > n,
    decreases n,
{
    lemma2_to64();
    if n > 0 {
        lemma_pow2_exceeds((n - 1) as nat);
        lemma_pow2_unfold(n);
    }
}

/// From a scale at which `x` is at least `2^52`, a larger one brings it into range.
proof fn lemma_binade_above(x: Ratio, e: int, n: nat) -> (found: int)
    requires
        x.den > 0,
        0x10_0000_0000_0000 * (x.den * down(e)) <= x.num * up(e),
        x.num * up(e) < 0x20_0000_0000_0000 * (pow2(n) * (x.den * down(e))),
    ensures
        in_binade(x, found),
    decreases n,
{
    lemma2_to64();
    let w = x.den * down(e);
    let t = x.num * up(e);
    if t < 0x20_0000_0000_0000 * w {
        e
    } else {
        if n == 0 {
            assert(pow2(n) * w == w) by (nonlinear_arith)
                requires
                    pow2(n) == 1,
            ;
            assert(false);
        }
        lemma_up_down_positive(e);
        lemma_up_down_positive(e + 1);
        lemma_rescale(x, e, 1);
        let w2 = x.den * down(e + 1);
        let t2 = x.num * up(e + 1);
        let m = (n - 1) as nat;
        lemma_pow2_unfold(n);
        lemma_pow2_pos(m);
        assert(w > 0 && w2 > 0) by (nonlinear_arith)
            requires
                x.den > 0,
                down(e) > 0,
                down(e + 1) > 0,
                w == x.den * down(e),
                w2 == x.den * down(e + 1),
        ;
        lemma_compare_ratio(t2, w2, t, 2 * w, 0x10_0000_0000_0000);
        let k = 0x20_0000_0000_0000 * pow2(m);
        lemma_compare_ratio(t2, w2, t, 2 * w, k);
        assert(k * (2 * w) == 0x20_0000_0000_0000 * (pow2(n) * w)) by (nonlinear_arith)
            requires
                pow2(n) == 2 * pow2(m),
                k == 0x20_0000_0000_0000 * pow2(m),
        ;
        assert(k * w2 == 0x20_0000_0000_0000 * (pow2(m) * w2)) by (nonlinear_arith)
            requires
                k == 0x20_0000_0000_0000 * pow2(m),
        ;
        lemma_binade_above(x, e + 1, m)
    }
}

/// Every positive ratio lies in a binade.
proof fn lemma_binade_exists(x: Ratio) -> (e: int)
    requires
        x.num > 0,
        x.den > 0,
    ensures
        in_binade(x, e),
{
    lemma2_to64();
    lemma2_to64_rest();
    let big = (52 + x.den) as nat;
    let e = -(big as int);
    lemma_pow2_exceeds(x.den);
    lemma_pow2_adds(52, x.den);
    lemma_pow2_pos(big);
    let t = x.num * pow2(big);
    assert(x.den * 1 == x.den);
    assert(0x10_0000_0000_0000 * x.den <= t) by (nonlinear_arith)
        requires
            t == x.num * pow2(big),
            x.num >= 1,
            pow2(big) == 0x10_0000_0000_0000 * pow2(x.den),
            pow2(x.den) > x.den,
    ;
    lemma_pow2_exceeds(t);
    assert(t < 0x20_0000_0000_0000 * (pow2(t) * x.den)) by (nonlinear_arith)
        requires
            pow2(t) > t,
            x.den >= 1,
    ;
    lemma_binade_above(x, e, t)
}

/// The nearest integer is at most half away, and even where two are equally near.
pub proof fn law_nearest_is_at_most_half_away(a: nat, b: nat)
    requires
        b > 0,
    ensures
        2 * a <= 2 * (nearest(a, b) * b) + b,
        2 * (nearest(a, b) * b) <= 2 * a + b,
        2 * a == 2 * (nearest(a, b) * b) + b || 2 * (nearest(a, b) * b) == 2 * a + b
            ==> nearest(a, b) % 2 == 0,
{
    let q = a / b;
    let r = a % b;
    vstd::arithmetic::div_mod::lemma_fundamental_div_mod(a as int, b as int);
    vstd::arithmetic::div_mod::lemma_mod_bound(a as int, b as int);
    assert(a == q * b + r) by (nonlinear_arith)
        requires
            a == b * q + r,
    ;
    assert((q + 1) * b == q * b + b) by (nonlinear_arith);
}

/// Rounding gives a number of at most 53 significant bits, away from the ratio by at most
/// one part in 2^53; zero stays zero.
pub proof fn law_rounding_is_off_by_half_a_bit_at_most(x: Ratio)
    requires
        x.den > 0,
    ensures
        x.num == 0 ==> rounded(x) == x,
        x.num > 0 ==> {
            let y = rounded(x);
            &&& y.den > 0
            &&& 0x20_0000_0000_0000 * (y.num * x.den) <= 0x20_0000_0000_0000 * (x.num * y.den)
                + x.num * y.den
            &&& 0x20_0000_0000_0000 * (x.num * y.den) <= 0x20_0000_0000_0000 * (y.num * x.den)
                + x.num * y.den
            &&& exists|m: nat, e: int|
                0x10_0000_0000_0000 <= m <= 0x20_0000_0000_0000 && y.num == #[trigger] (m * down(e))
                    && y.den == up(e)
        },
{
    if x.num > 0 {
        let e = lemma_binade_exists(x);
        lemma_rounded_in(x, e);
        lemma_up_down_positive(e);
        let y = rounded(x);
        let a = x.num * up(e);
        let b = x.den * down(e);
        assert(b > 0) by (nonlinear_arith)
            requires
                b == x.den * down(e),
                x.den > 0,
                down(e) > 0,
        ;
        law_nearest_is_at_most_half_away(a, b);
        let m = nearest(a, b);
        assert(y.num * x.den == m * b) by (nonlinear_arith)
            requires
                y.num == m * down(e),
                b == x.den * down(e),
        ;
        assert(x.num * y.den == a);
        let lo: nat = 0x10_0000_0000_0000;
        let hi: nat = 0x20_0000_0000_0000;
        assert(lo <= m <= hi) by (nonlinear_arith)
            requires
                lo * b <= a < hi * b,
                2 * a <= 2 * (m * b) + b,
                2 * (m * b) <= 2 * a + b,
                b > 0,
        ;
        assert(y.num == m * down(e));
    }
}

/// Rounding does not take a ratio of at least `2^k` below `2^k`.
pub proof fn lemma_rounded_at_least(x: Ratio, k: nat)
    requires
        x.den > 0,
        x.num >= x.den * pow2(k),
    ensures
        rounded(x).den > 0,
        rounded(x).num >= rounded(x).den * pow2(k),
{
    lemma_pow2_pos(k);
    assert(x.num > 0) by (nonlinear_arith)
        requires
            x.num >= x.den * pow2(k),
            x.den > 0,
            pow2(k) > 0,
    ;
    let e = lemma_binade_exists(x);
    lemma_rounded_in(x, e);
    lemma_up_down_positive(e);
    let w = x.den * down(e);
    let t = x.num * up(e);
    assert(w > 0) by (nonlinear_arith)
        requires
            x.den > 0,
            down(e) > 0,
            w == x.den * down(e),
    ;
    let n = nearest(t, w);
    assert(n >= 0x10_0000_0000_0000) by {
        lemma_nearest_bounds(t, w);
        assert(n >= 0x10_0000_0000_0000) by (nonlinear_arith)
            requires
                2 * t <= 2 * n * w + w,
                0x10_0000_0000_0000 * w <= t,
                w > 0,
        ;
    }
    // 2^k <= x < 2^(53 + e)
    lemma2_to64();
    lemma2_to64_rest();
    if k as int > 52 + e {
        // then 2^k >= 2^(53 + e)
        let s = (k - 53 - e) as nat;
        lemma_scale(e, (53 + s) as nat);
        lemma_pow2_adds(53, s);
        lemma_pow2_pos(s);
        assert(e + (53 + s) as nat == k);
        assert(up(k as int) == 1 && down(k as int) == pow2(k));
        let p = pow2((53 + s) as nat);
        assert(pow2(k) * up(e) == p * down(e) * 1);
        assert(t >= 0x20_0000_0000_0000 * w) by (nonlinear_arith)
            requires
                x.num >= x.den * pow2(k),
                t == x.num * up(e),
                w == x.den * down(e),
                pow2(k) * up(e) == p * down(e) * 1,
                p >= 0x20_0000_0000_0000,
                up(e) > 0,
        {
            assert(x.num * up(e) >= (x.den * pow2(k)) * up(e));
            assert((x.den * pow2(k)) * up(e) == x.den * (pow2(k) * up(e)));
            assert(x.den * (p * down(e)) == p * (x.den * down(e)));
        }
        assert(p >= 0x20_0000_0000_0000) by (nonlinear_arith)
            requires
                p == 0x20_0000_0000_0000 * pow2(s),
                pow2(s) >= 1,
        ;
    } else {
        let s = (52 + e - k) as nat;
        lemma_scale(e, 52);
        // 2^52 * down(e) * up(e + 52) == down(e + 52) * up(e), and 2^k divides 2^(52 + e)
        lemma_pow2_adds(k, s);
        assert(up(e + 52) == 1 && down(e + 52) == pow2((e + 52) as nat));
        assert((e + 52) as nat == k + s);
        lemma_pow2_pos(s);
        assert(0x10_0000_0000_0000 * down(e) >= pow2(k) * up(e)) by (nonlinear_arith)
            requires
                (pow2(k) * pow2(s)) * up(e) == 0x10_0000_0000_0000 * down(e) * 1,
                pow2(s) >= 1,
                up(e) > 0,
                pow2(k) > 0,
        {
            assert((pow2(k) * pow2(s)) * up(e) == (pow2(k) * up(e)) * pow2(s));
        }
        assert(n * down(e) >= up(e) * pow2(k)) by (nonlinear_arith)
            requires
                n >= 0x10_0000_0000_0000,
                0x10_0000_0000_0000 * down(e) >= pow2(k) * up(e),
        ;
    }
}

/// Rounding takes a ratio of at most `2^-k` to one of at most `2^(1 - k)`.
pub proof fn lemma_rounded_at_most(x: Ratio, k: nat)
    requires
        x.den > 0,
        k > 0,
        x.num * pow2(k) <= x.den,
    ensures
        rounded(x).den > 0,
        rounded(x).num * pow2((k - 1) as nat) <= rounded(x).den,
{
    lemma_pow2_unfold(k);
    lemma_pow2_pos(k);
    lemma_pow2_pos((k - 1) as nat);
    if x.num == 0 {
        assert(0 * pow2((k - 1) as nat) == 0);
    } else {
        let e = lemma_binade_exists(x);
        lemma_rounded_in(x, e);
        lemma_up_down_positive(e);
        lemma2_to64();
        lemma2_to64_rest();
        let w = x.den * down(e);
        let t = x.num * up(e);
        assert(w > 0) by (nonlinear_arith)
            requires
                x.den > 0,
                down(e) > 0,
                w == x.den * down(e),
        ;
        let n = nearest(t, w);
        assert(n <= 0x20_0000_0000_0000) by {
            lemma_nearest_bounds(t, w);
            assert(n <= 0x20_0000_0000_0000) by (nonlinear_arith)
                requires
                    2 * n * w <= 2 * t + w,
                    t < 0x20_0000_0000_0000 * w,
                    w > 0,
            ;
        }
        // 2^(52 + e) <= x <= 2^-k, so 52 + e <= -k
        if 52 + e > -(k as int) {
            assert(false) by {
                if e >= 0 {
                    lemma_pow2_pos(e as nat);
                    assert(x.num * 1 == x.num);
                    assert(x.num > x.den) by (nonlinear_arith)
                        requires
                            0x10_0000_0000_0000 * (x.den * down(e)) <= x.num * 1,
                            down(e) >= 1,
                            x.den > 0,
                    ;
                    assert(x.num * pow2(k) > x.den) by (nonlinear_arith)
                        requires
                            x.num > x.den,
                            pow2(k) >= 1,
                    ;
                } else {
                    // up(e) = 2^-e with -e < 52 + k, so x * 2^-e < 2^52
                    let s = (52 + k + e - 1) as nat;
                    lemma_pow2_adds((s + 1) as nat, (-e) as nat);
                    lemma_pow2_adds(52, k);
                    assert((s + 1) as nat + (-e) as nat == 52 + k);
                    lemma_pow2_unfold((s + 1) as nat);
                    lemma_pow2_pos(s);
                    let u = up(e);
                    assert(x.den * 1 == x.den);
                    assert(false) by (nonlinear_arith)
                        requires
                            0x10_0000_0000_0000 * x.den <= x.num * u,
                            pow2((s + 1) as nat) * u == 0x10_0000_0000_0000 * pow2(k),
                            pow2((s + 1) as nat) >= 2,
                            x.num * pow2(k) <= x.den,
                            x.den > 0,
                            u > 0,
                            x.num > 0,
                    {
                        assert(x.num * (pow2((s + 1) as nat) * u) <= 0x10_0000_0000_0000 * x.den);
                        assert(x.num * (pow2((s + 1) as nat) * u) == pow2((s + 1) as nat) * (x.num
                            * u));
                        assert(pow2((s + 1) as nat) * (x.num * u) >= 2 * (x.num * u));
                    }
                }
            }
        }
        assert(e < 0);
        let s = (-e - 53 - (k - 1)) as nat;
        lemma_pow2_adds(53, (k - 1) as nat);
        lemma_pow2_adds((52 + k) as nat, s);
        assert((52 + k) as nat + s == (-e) as nat);
        lemma_pow2_pos(s);
        lemma_pow2_pos((52 + k) as nat);
        let h = pow2((k - 1) as nat);
        assert(n * down(e) == n);
        assert(n * h <= up(e)) by (nonlinear_arith)
            requires
                n <= 0x20_0000_0000_0000,
                up(e) == (0x20_0000_0000_0000 * h) * pow2(s),
                pow2(s) >= 1,
                h > 0,
        {
            assert(n * h <= 0x20_0000_0000_0000 * h);
        }
    }
}

/// Rounding depends on the ratio alone, not on how it is written.
pub proof fn lemma_rounded_ratio(x: Ratio, y: Ratio)
    requires
        x.den > 0,
        y.den > 0,
        x.num > 0,
        x.num * y.den == y.num * x.den,
    ensures
        rounded(x) == rounded(y),
{
    let e = lemma_binade_exists(x);
    lemma_up_down_positive(e);
    let u = up(e);
    let d = down(e);
    let t = x.num * u;
    let w = x.den * d;
    let t2 = y.num * u;
    let w2 = y.den * d;
    assert(w > 0 && w2 > 0) by (nonlinear_arith)
        requires
            x.den > 0,
            y.den > 0,
            d > 0,
            w == x.den * d,
            w2 == y.den * d,
    ;
    assert(t2 * w == t * w2) by (nonlinear_arith)
        requires
            x.num * y.den == y.num * x.den,
            t == x.num * u,
            w == x.den * d,
            t2 == y.num * u,
            w2 == y.den * d,
    {
        assert((y.num * u) * (x.den * d) == (y.num * x.den) * (u * d));
        assert((x.num * u) * (y.den * d) == (x.num * y.den) * (u * d));
    }
    lemma_compare_ratio(t2, w2, t, w, 0x10_0000_0000_0000);
    lemma_compare_ratio(t2, w2, t, w, 0x20_0000_0000_0000);
    lemma_rounded_in(x, e);
    lemma_rounded_in(y, e);
    lemma_nearest_ratio(t2, w2, t, w);
}

/// A number below `2^53` over a small one: rounding does not change the whole part,
/// and changes nothing where the divisor is one.
pub proof fn lemma_rounded_small(a: nat, b: nat)
    requires
        0 < a < 0x20_0000_0000_0000,
        0 < b <= 0x10_0000,
    ensures
        rounded(Ratio { num: a, den: b }).den > 0,
        floor(rounded(Ratio { num: a, den: b })) == a / b,
        b == 1 ==> rounded(Ratio { num: a, den: b }).num == a * rounded(
            Ratio { num: a, den: b },
        ).den,
{
    let x = Ratio { num: a, den: b };
    let e = lemma_binade_exists(x);
    lemma_up_down_positive(e);
    lemma_rounded_in(x, e);
    lemma2_to64();
    let u = up(e);
    if e > 0 {
        lemma_pow2_unfold(e as nat);
        lemma_pow2_pos((e - 1) as nat);
        assert(false) by (nonlinear_arith)
            requires
                0x10_0000_0000_0000 * (b * down(e)) <= a * 1,
                a < 0x20_0000_0000_0000,
                b >= 1,
                down(e) >= 2,
        ;
    }
    assert(down(e) == 1);
    assert(b * 1 == b);
    let m = nearest(a * u, b);
    assert(m * 1 == m);
    lemma_nearest_bounds(a * u, b);
    let n = a / b;
    vstd::arithmetic::div_mod::lemma_fundamental_div_mod(a as int, b as int);
    vstd::arithmetic::div_mod::lemma_mod_bound(a as int, b as int);
    assert(a >= n * b && a <= (n + 1) * b - 1) by (nonlinear_arith)
        requires
            a == b * n + a % b,
            0 <= a % b < b,
    ;
    assert(m >= n * u) by (nonlinear_arith)
        requires
            2 * (a * u) <= 2 * m * b + b,
            a >= n * b,
            b > 0,
    {
        assert(a * u >= (n * b) * u);
        assert(2 * ((n * u) * b) <= 2 * m * b + b);
    }
    assert(2 * u > b) by (nonlinear_arith)
        requires
            0x10_0000_0000_0000 * b <= a * u,
            a < 0x20_0000_0000_0000,
            u > 0,
    ;
    assert(m < (n + 1) * u) by (nonlinear_arith)
        requires
            2 * m * b <= 2 * (a * u) + b,
            a <= (n + 1) * b - 1,
            2 * u > b,
            b > 0,
    {
        assert(a * u <= ((n + 1) * b - 1) * u);
        assert(2 * m * b < 2 * (((n + 1) * u) * b));
    }
    assert(m / u == n) by {
        let r = m - n * u;
        assert(0 <= r < u) by (nonlinear_arith)
            requires
                r == m - n * u,
                m >= n * u,
                m < (n + 1) * u,
        ;
        vstd::arithmetic::div_mod::lemma_fundamental_div_mod_converse(
            m as int,
            u as int,
            n as int,
            r,
        );
    }
    if b == 1 {
        assert(2 * a * u * 1 == 2 * (a * u)) by (nonlinear_arith);
        lemma_nearest_is(a * u, 1, a * u);
    }
}

/// The number `mantissa * 2^exponent`.
#[derive(Clone, Copy)]
pub struct Binary {
    pub mantissa: u64,
    pub exponent: i32,
}

impl Binary {
    /// The number as a ratio.
    pub open spec fn ratio(self) -> Ratio {
        Ratio {
            num: self.mantissa as nat * down(self.exponent as int),
            den: up(self.exponent as int),
        }
    }

    /// Whether the mantissa has its full 53 bits, or is the power of two above them.
    pub open spec fn full(self) -> bool {
        0x10_0000_0000_0000 <= self.mantissa <= 0x20_0000_0000_0000
    }
}

/// Rounds a ratio that lies in `[q * 2^e, (q + 1) * 2^e)`, and is `q * 2^e` unless `inexact`.
pub(crate) fn round(q: u128, inexact: bool, e: i32, Ghost(x): Ghost<Ratio>) -> (r: Binary)
    requires
        x.den > 0,
        q > 0,
        inexact ==> q >= 0x20_0000_0000_0000,
        -10_000 <= e <= 10_000,
        q * (x.den * down(e as int)) <= x.num * up(e as int),
        x.num * up(e as int) < (q + 1) * (x.den * down(e as int)),
        inexact == (x.num * up(e as int) != q * (x.den * down(e as int))),
    ensures
        r.ratio() == rounded(x),
        r.full(),
        e - 60 <= r.exponent <= e + 80,
{
    let ghost w = x.den * down(e as int);
    let ghost t = x.num * up(e as int);
    proof {
        lemma_up_down_positive(e as int);
        lemma2_to64();
        lemma2_to64_rest();
        assert(w > 0) by (nonlinear_arith)
            requires
                x.den > 0,
                down(e as int) > 0,
                w == x.den * down(e as int),
        ;
    }
    if q < 0x10_0000_0000_0000 {
        let mut m: u64 = q as u64;
        let mut s: i32 = 0;
        proof {
            assert(q * 1 == q);
        }
        while m < 0x10_0000_0000_0000
            invariant
                0 < q < 0x10_0000_0000_0000,
                0 < m < 0x20_0000_0000_0000,
                0 <= s <= 52,
                m == q * pow2(s as nat),
                s > 0 ==> m >= pow2(s as nat),
                pow2(52) == 0x10_0000_0000_0000,
            decreases 52 - s,
        {
            proof {
                lemma_pow2_unfold((s + 1) as nat);
                lemma2_to64_rest();
                if s == 52 {
                    assert(m >= pow2(52)) by (nonlinear_arith)
                        requires
                            m == q * pow2(52),
                            q >= 1,
                    ;
                }
                assert(2 * m == q * pow2((s + 1) as nat)) by (nonlinear_arith)
                    requires
                        m == q * pow2(s as nat),
                        pow2((s + 1) as nat) == 2 * pow2(s as nat),
                ;
                assert(2 * m >= pow2((s + 1) as nat)) by (nonlinear_arith)
                    requires
                        2 * m == q * pow2((s + 1) as nat),
                        q >= 1,
                ;
            }
            m = m * 2;
            s = s + 1;
        }
        proof {
            let f = e - s;
            let p = pow2(s as nat);
            lemma_pow2_pos(s as nat);
            lemma_up_down_positive(f);
            lemma_rescale(x, f, s as nat);
            let w2 = x.den * down(f);
            let t2 = x.num * up(f);
            assert(f + s == e);
            assert(t * (p * w2) == t2 * w);
            assert(w2 > 0) by (nonlinear_arith)
                requires
                    x.den > 0,
                    down(f) > 0,
                    w2 == x.den * down(f),
            ;
            assert(t2 == m * w2) by (nonlinear_arith)
                requires
                    t * (p * w2) == t2 * w,
                    t == q * w,
                    m == q * p,
                    w > 0,
            {
                assert((q * w) * (p * w2) == (q * p * w2) * w);
            }
            assert(2 * m as nat * w2 == 2 * t2) by (nonlinear_arith)
                requires
                    t2 == m * w2,
            ;
            lemma_nearest_is(t2, w2, m as nat);
            assert(0x10_0000_0000_0000 * w2 <= t2 < 0x20_0000_0000_0000 * w2) by (nonlinear_arith)
                requires
                    t2 == m * w2,
                    0x10_0000_0000_0000 <= m < 0x20_0000_0000_0000,
                    w2 > 0,
            ;
            lemma_rounded_in(x, f);
        }
        Binary { mantissa: m, exponent: e - s }
    } else {
        let mut p: u128 = 1;
        let mut s: i32 = 0;
        while q / p >= 0x20_0000_0000_0000
            invariant
                q >= 0x10_0000_0000_0000,
                p > 0,
                0 <= s <= 75,
                p == pow2(s as nat),
                q / p >= 0x10_0000_0000_0000,
                s == 0 || q >= 0x20_0000_0000_0000,
            decreases 75 - s,
        {
            proof {
                lemma_pow2_unfold((s + 1) as nat);
                lemma2_to64();
                lemma2_to64_rest();
                assert(q / p * p <= q) by (nonlinear_arith)
                    requires
                        p > 0,
                ;
                assert(p < 0x800_0000_0000_0000_0000) by (nonlinear_arith)
                    requires
                        q / p * p <= q,
                        q / p >= 0x20_0000_0000_0000,
                        q <= 0xffff_ffff_ffff_ffff_ffff_ffff_ffff_ffff,
                ;
                if s >= 75 {
                    lemma_pow2_adds(64, 11);
                    assert(pow2(75) == 0x800_0000_0000_0000_0000);
                }
                assert(q as int / (2 * p) == (q as int / p as int) / 2) by {
                    vstd::arithmetic::div_mod::lemma_div_denominator(q as int, p as int, 2);
                    assert(p * 2 == 2 * p);
                }
                assert(q >= 0x20_0000_0000_0000) by (nonlinear_arith)
                    requires
                        q / p * p <= q,
                        q / p >= 0x20_0000_0000_0000,
                        p >= 1,
                ;
            }
            p = p * 2;
            s = s + 1;
        }
        let quotient: u64 = (q / p) as u64;
        let rest: u128 = q % p;
        let half: u128 = p / 2;
        let up_one: bool = rest > half || (rest == half && s > 0 && (inexact || quotient % 2 == 1));
        let m: u64 = if up_one {
            quotient + 1
        } else {
            quotient
        };
        proof {
            let f = e + s;
            lemma_rescale(x, e as int, s as nat);
            lemma_up_down_positive(f);
            let w2 = x.den * down(f);
            let t2 = x.num * up(f);
            let pw = p as nat * w;
            assert(w2 > 0) by (nonlinear_arith)
                requires
                    x.den > 0,
                    down(f) > 0,
                    w2 == x.den * down(f),
            ;
            assert(pw > 0) by (nonlinear_arith)
                requires
                    pw == p as nat * w,
                    p > 0,
                    w > 0,
            ;
            assert(t2 * pw == t * w2);
            vstd::arithmetic::div_mod::lemma_fundamental_div_mod(q as int, p as int);
            let g = t - q * w;
            assert(0 <= g < w) by (nonlinear_arith)
                requires
                    g == t - q * w,
                    q * w <= t,
                    t < (q + 1) * w,
            ;
            assert(t == quotient * pw + rest * w + g) by (nonlinear_arith)
                requires
                    g == t - q * w,
                    q == p * quotient + rest,
                    pw == p as nat * w,
            ;
            if s > 0 {
                lemma_pow2_unfold(s as nat);
                assert(p == 2 * half);
            } else {
                lemma2_to64();
                assert(p == 1 && rest == 0 && half == 0);
            }
            lemma_round_up_decision(
                t,
                w,
                pw,
                p as nat,
                quotient as nat,
                rest as nat,
                half as nat,
                g,
                s > 0,
                m as nat,
            );
            lemma_nearest_ratio(t2, w2, t, pw);
            assert(0 <= rest * w + g < pw) by (nonlinear_arith)
                requires
                    0 <= rest < p,
                    0 <= g < w,
                    pw == p as nat * w,
            ;
            lemma_compare_ratio(t2, w2, t, pw, 0x10_0000_0000_0000);
            lemma_compare_ratio(t2, w2, t, pw, 0x20_0000_0000_0000);
            assert(0x10_0000_0000_0000 * pw <= t < 0x20_0000_0000_0000 * pw) by (nonlinear_arith)
                requires
                    t == quotient * pw + (rest * w + g),
                    0 <= rest * w + g < pw,
                    0x10_0000_0000_0000 <= quotient < 0x20_0000_0000_0000,
                    pw > 0,
            ;
            lemma_rounded_in(x, f);
        }
        Binary { mantissa: m, exponent: e + s }
    }
}

impl Binary {
    /// The product with an integer, rounded.
    pub fn times(self, factor: u64) -> (r: Binary)
        requires
            self.full(),
            0 < factor <= 0x100_0000_0000,
            -5_000 <= self.exponent <= 5_000,
        ensures
            r.ratio() == rounded(
                Ratio { num: self.ratio().num * factor as nat, den: self.ratio().den },
            ),
            r.full(),
            self.exponent - 60 <= r.exponent <= self.exponent + 80,
    {
        let ghost e = self.exponent as int;
        let ghost x = Ratio { num: self.ratio().num * factor as nat, den: self.ratio().den };
        assert(0 < self.mantissa as u128 * factor as u128 <= 0x20_0000_0000_0000
            * 0x100_0000_0000) by (nonlinear_arith)
            requires
                0 < self.mantissa <= 0x20_0000_0000_0000,
                0 < factor <= 0x100_0000_0000,
        ;
        let q: u128 = self.mantissa as u128 * factor as u128;
        proof {
            lemma_up_down_positive(e);
            assert(x.num * up(e) == q * (x.den * down(e))) by (nonlinear_arith)
                requires
                    x.num == (self.mantissa as nat * down(e)) * factor as nat,
                    x.den == up(e),
                    q == self.mantissa * factor,
            ;
            assert(x.num * up(e) < (q + 1) * (x.den * down(e))) by (nonlinear_arith)
                requires
                    x.num * up(e) == q * (x.den * down(e)),
                    x.den == up(e),
                    up(e) > 0,
                    down(e) > 0,
            ;
        }
        round(q, false, self.exponent, Ghost(x))
    }

    /// The quotient by an integer, rounded.
    pub fn over(self, divisor: u64) -> (r: Binary)
        requires
            self.full(),
            0 < divisor <= 0x10_0000,
            -5_000 <= self.exponent <= 5_000,
        ensures
            r.ratio() == rounded(
                Ratio { num: self.ratio().num, den: self.ratio().den * divisor as nat },
            ),
            r.full(),
            self.exponent - 124 <= r.exponent <= self.exponent + 16,
    {
        let ghost e = self.exponent as int;
        let ghost x = Ratio { num: self.ratio().num, den: self.ratio().den * divisor as nat };
        let wide: u128 = self.mantissa as u128 * 0x1_0000_0000_0000_0000;
        let d: u128 = divisor as u128;
        let q: u128 = wide / d;
        let rest: u128 = wide % d;
        proof {
            let f = e - 64;
            lemma_up_down_positive(e);
            lemma_up_down_positive(f);
            lemma2_to64();
            lemma2_to64_rest();
            lemma_scale(f, 64);
            assert(f + 64 == e);
            let z = up(e) * down(f);
            assert(z > 0) by (nonlinear_arith)
                requires
                    up(e) > 0,
                    down(f) > 0,
                    z == up(e) * down(f),
            ;
            let t = x.num * up(f);
            let w = x.den * down(f);
            assert(t == wide * z) by (nonlinear_arith)
                requires
                    t == (self.mantissa as nat * down(e)) * up(f),
                    down(e) * up(f) == 0x1_0000_0000_0000_0000 * down(f) * up(e),
                    wide == self.mantissa * 0x1_0000_0000_0000_0000,
                    z == up(e) * down(f),
            {
                assert((self.mantissa as nat * down(e)) * up(f) == self.mantissa as nat * (down(e)
                    * up(f)));
            }
            assert(w == d * z) by (nonlinear_arith)
                requires
                    w == (up(e) * divisor as nat) * down(f),
                    z == up(e) * down(f),
                    d == divisor,
            ;
            vstd::arithmetic::div_mod::lemma_fundamental_div_mod(wide as int, d as int);
            assert(q * w + rest * z == t) by (nonlinear_arith)
                requires
                    t == wide * z,
                    w == d * z,
                    wide == d * q + rest,
            ;
            assert(0 <= rest * z && (rest == 0 <==> rest * z == 0) && rest * z < w)
                by (nonlinear_arith)
                requires
                    w == d * z,
                    0 <= rest < d,
                    z > 0,
            ;
            assert((q + 1) * w == q * w + w) by (nonlinear_arith);
            assert(q >= 0x20_0000_0000_0000) by (nonlinear_arith)
                requires
                    wide == d * q + rest,
                    rest < d,
                    d <= 0x10_0000,
                    wide >= 0x10_0000_0000_0000 * 0x1_0000_0000_0000_0000,
            ;
            assert(x.den > 0) by (nonlinear_arith)
                requires
                    x.den == up(e) * divisor as nat,
                    up(e) > 0,
                    divisor > 0,
            ;
        }
        round(q, rest != 0, self.exponent - 64, Ghost(x))
    }

    /// The whole part, at most the largest `u32`.
    pub fn whole(self) -> (r: u32)
        requires
            self.full(),
            -5_000 <= self.exponent <= 5_000,
        ensures
            r == if floor(self.ratio()) <= u32::MAX {
                floor(self.ratio()) as int
            } else {
                u32::MAX as int
            },
    {
        proof {
            lemma_up_down_positive(self.exponent as int);
            lemma2_to64();
        }
        if self.exponent >= 0 {
            proof {
                let n = self.mantissa as nat * down(self.exponent as int);
                assert(n >= 0x10_0000_0000_0000) by (nonlinear_arith)
                    requires
                        n == self.mantissa as nat * down(self.exponent as int),
                        self.mantissa >= 0x10_0000_0000_0000,
                        down(self.exponent as int) >= 1,
                ;
                assert(n / 1 == n);
            }
            u32::MAX
        } else {
            let mut v: u64 = self.mantissa;
            let mut left: i32 = -self.exponent;
            assert(self.mantissa as nat / 1 == self.mantissa);
            while left > 0
                invariant
                    0 <= left <= -self.exponent,
                    -5_000 <= self.exponent < 0,
                    v == self.mantissa as nat / pow2((-self.exponent - left) as nat),
                decreases left,
            {
                proof {
                    let j = (-self.exponent - left) as nat;
                    lemma_pow2_unfold(j + 1);
                    lemma_pow2_pos(j);
                    vstd::arithmetic::div_mod::lemma_div_denominator(
                        self.mantissa as int,
                        pow2(j) as int,
                        2,
                    );
                    assert(pow2(j) * 2 == pow2(j + 1));
                }
                v = v / 2;
                left = left - 1;
            }
            assert(self.mantissa as nat * 1 == self.mantissa);
            if v <= u32::MAX as u64 {
                v as u32
            } else {
                u32::MAX
            }
        }
    }
}

/// The integer nearest to `t / pw`, read off the quotient and the two remainders.
proof fn lemma_round_up_decision(
    t: nat,
    w: nat,
    pw: nat,
    p: nat,
    quotient: nat,
    rest: nat,
    half: nat,
    g: int,
    wide: bool,
    m: nat,
)
    requires
        w > 0,
        pw == p * w,
        pw > 0,
        0 <= g < w,
        rest < p,
        t == quotient * pw + rest * w + g,
        wide ==> p == 2 * half,
        !wide ==> p == 1 && rest == 0 && half == 0 && g == 0,
        m == if rest > half || (rest == half && wide && (g != 0 || quotient % 2 == 1)) {
            quotient + 1
        } else {
            quotient
        },
    ensures
        nearest(t, pw) == m,
{
    let r = rest * w + g;
    assert(2 * m * pw == 2 * (quotient * pw) + (if m == quotient { 0 } else { 2 * pw }))
        by (nonlinear_arith)
        requires
            m == quotient || m == quotient + 1,
    ;
    assert(0 <= r < pw) by (nonlinear_arith)
        requires
            r == rest * w + g,
            0 <= g < w,
            rest < p,
            pw == p * w,
    ;
    if wide {
        if rest < half {
            assert(2 * r < pw) by (nonlinear_arith)
                requires
                    r == rest * w + g,
                    0 <= g < w,
                    rest + 1 <= half,
                    p == 2 * half,
                    pw == p * w,
            ;
        } else if rest > half {
            assert(2 * r > pw) by (nonlinear_arith)
                requires
                    r == rest * w + g,
                    0 <= g < w,
                    rest >= half + 1,
                    p == 2 * half,
                    pw == p * w,
            ;
        } else {
            assert(2 * r == pw + 2 * g) by (nonlinear_arith)
                requires
                    r == rest * w + g,
                    rest == half,
                    p == 2 * half,
                    pw == p * w,
            ;
        }
    } else {
        assert(0 * w == 0);
    }
    lemma_nearest_is(t, pw, m);
}

} // verus!
