//! Kubernetes resource quantities: a numeral and a unit suffix.
//!
//! A quantity is read as a double-precision number, scaled by its unit with one
//! rounding per operation, and cut to a whole number. All of that is done here on
//! integers.

use crate::binary::{
    floor, lemma_rounded_at_least, lemma_rounded_at_most, round, rounded, Binary, Ratio,
};
use crate::decimal::{
    all_digits, decimal, digit, digits_value, numeral, parse_numeral, stands_for, ten_to, Numeral,
    ParsedNumeral,
};
use crate::text::{copied, trim, trimmed};
use vstd::arithmetic::power2::{lemma2_to64, lemma2_to64_rest, lemma_pow2_adds, pow2};
use vstd::prelude::*;

verus! {

/// The unit of a CPU quantity.
#[derive(Clone, Copy, Debug, PartialEq, Eq, Structural)]
pub enum CpuUnit {
    Core,
    Milli,
    Micro,
    Nano,
}

/// The unit of a memory quantity.
#[derive(Clone, Copy, Debug, PartialEq, Eq, Structural)]
pub enum MemoryUnit {
    Tebi,
    Gibi,
    Mebi,
    Kibi,
    Tera,
    Giga,
    Mega,
    Kilo,
    Byte,
}

/// Whether `s` ends with `suffix`.
pub open spec fn ends_with(s: Seq<char>, suffix: Seq<char>) -> bool {
    s.len() >= suffix.len() && s.skip(s.len() - suffix.len()) == suffix
}

/// `s` without its last `n` characters.
pub open spec fn without(s: Seq<char>, n: int) -> Seq<char> {
    s.take(s.len() - n)
}

/// The numeral and the unit of a CPU quantity.
pub open spec fn cpu_quantity(text: Seq<char>) -> (Seq<char>, CpuUnit) {
    let s = trim(text);
    if ends_with(s, seq!['m']) {
        (without(s, 1), CpuUnit::Milli)
    } else if ends_with(s, seq!['n']) {
        (without(s, 1), CpuUnit::Nano)
    } else if ends_with(s, seq!['u']) {
        (without(s, 1), CpuUnit::Micro)
    } else {
        (s, CpuUnit::Core)
    }
}

/// The numeral and the unit of a memory quantity.
pub open spec fn memory_quantity(text: Seq<char>) -> (Seq<char>, MemoryUnit) {
    let s = trim(text);
    if ends_with(s, seq!['T', 'i']) {
        (without(s, 2), MemoryUnit::Tebi)
    } else if ends_with(s, seq!['G', 'i']) {
        (without(s, 2), MemoryUnit::Gibi)
    } else if ends_with(s, seq!['M', 'i']) {
        (without(s, 2), MemoryUnit::Mebi)
    } else if ends_with(s, seq!['K', 'i']) {
        (without(s, 2), MemoryUnit::Kibi)
    } else if ends_with(s, seq!['T']) {
        (without(s, 1), MemoryUnit::Tera)
    } else if ends_with(s, seq!['G']) {
        (without(s, 1), MemoryUnit::Giga)
    } else if ends_with(s, seq!['M']) {
        (without(s, 1), MemoryUnit::Mega)
    } else if ends_with(s, seq!['k']) {
        (without(s, 1), MemoryUnit::Kilo)
    } else {
        (s, MemoryUnit::Byte)
    }
}

impl CpuUnit {
    /// One of this unit in millicores, as the factor and the divisor to apply in this order.
    pub open spec fn scale(self) -> (nat, nat) {
        match self {
            CpuUnit::Core => (1_000, 1),
            CpuUnit::Milli => (1, 1),
            CpuUnit::Micro => (1, 1_000),
            CpuUnit::Nano => (1, 1_000_000),
        }
    }
}

impl MemoryUnit {
    /// One of this unit in MiB, as the factor and the divisor to apply in this order.
    pub open spec fn scale(self) -> (nat, nat) {
        match self {
            MemoryUnit::Tebi => (1_048_576, 1),
            MemoryUnit::Gibi => (1_024, 1),
            MemoryUnit::Mebi => (1, 1),
            MemoryUnit::Kibi => (1, 1_024),
            MemoryUnit::Tera => (1_000_000_000_000, 1_048_576),
            MemoryUnit::Giga => (1_000_000_000, 1_048_576),
            MemoryUnit::Mega => (1_000_000, 1_048_576),
            MemoryUnit::Kilo => (1_000, 1_048_576),
            MemoryUnit::Byte => (1, 1_048_576),
        }
    }
}

/// `x` as a double-precision number, times `factor`, over `divisor`, rounded at each step.
pub open spec fn scaled(x: Ratio, factor: nat, divisor: nat) -> Ratio {
    let read = rounded(x);
    let product = rounded(Ratio { num: read.num * factor, den: read.den });
    rounded(Ratio { num: product.num, den: product.den * divisor })
}

/// The whole part of `x`, at most the largest `u32`.
pub open spec fn clamped(x: Ratio) -> u32 {
    if floor(x) <= u32::MAX {
        floor(x) as u32
    } else {
        u32::MAX
    }
}

/// A numeral times a unit, in whole units: zero for what is negative or no number.
pub open spec fn whole_units(n: Option<Numeral>, scale: (nat, nat)) -> u32 {
    match n {
        Some(Numeral::Finite { negative: false, digits, exponent }) => clamped(
            scaled(decimal(digits, exponent), scale.0, scale.1),
        ),
        Some(Numeral::Infinite { negative: false }) => u32::MAX,
        _ => 0,
    }
}

/// The whole millicores of a CPU quantity.
pub open spec fn whole_millicores(text: Seq<char>) -> u32 {
    whole_units(numeral(cpu_quantity(text).0), cpu_quantity(text).1.scale())
}

/// The whole MiB of a memory quantity.
pub open spec fn whole_mib(text: Seq<char>) -> u32 {
    whole_units(numeral(memory_quantity(text).0), memory_quantity(text).1.scale())
}

proof fn lemma_ten_to_adds(a: nat, b: nat)
    ensures
        ten_to(a + b) == ten_to(a) * ten_to(b),
    decreases a,
{
    if a == 0 {
        assert(1 * ten_to(b) == ten_to(b));
    } else {
        lemma_ten_to_adds((a - 1) as nat, b);
        assert((a - 1) as nat + b == (a + b - 1) as nat);
        assert(10 * (ten_to((a - 1) as nat) * ten_to(b)) == (10 * ten_to((a - 1) as nat)) * ten_to(
            b,
        )) by (nonlinear_arith);
    }
}

proof fn lemma_ten_to_positive(n: nat)
    ensures
        ten_to(n) > 0,
    decreases n,
{
    if n > 0 {
        lemma_ten_to_positive((n - 1) as nat);
    }
}

proof fn lemma_digits_concat(a: Seq<char>, b: Seq<char>)
    requires
        all_digits(a),
        all_digits(b),
    ensures
        digits_value(a + b) == digits_value(a) * ten_to(b.len()) + digits_value(b),
    decreases b.len(),
{
    if b.len() == 0 {
        assert(a + b == a);
        assert(digits_value(a) * 1 == digits_value(a));
    } else {
        let c = b.drop_last();
        lemma_digits_concat(a, c);
        assert((a + b).drop_last() == a + c);
        assert(digit(b.last()));
        let v = digits_value(a);
        let p = ten_to(c.len());
        assert(ten_to(b.len()) == 10 * p);
        assert(10 * (v * p) == v * (10 * p)) by (nonlinear_arith);
    }
}

proof fn lemma_digits_bound(s: Seq<char>)
    requires
        all_digits(s),
    ensures
        digits_value(s) < ten_to(s.len()),
    decreases s.len(),
{
    if s.len() > 0 {
        lemma_digits_bound(s.drop_last());
        assert(digit(s.last()));
    }
}

proof fn lemma_zero_digits(s: Seq<char>)
    requires
        forall|i: int| 0 <= i < s.len() ==> s[i] == '0',
    ensures
        digits_value(s) == 0,
    decreases s.len(),
{
    if s.len() > 0 {
        lemma_zero_digits(s.drop_last());
    }
}

proof fn lemma_nonzero_digits(s: Seq<char>, i: int)
    requires
        all_digits(s),
        0 <= i < s.len(),
        s[i] != '0',
    ensures
        digits_value(s) >= 1,
    decreases s.len(),
{
    assert(digit(s.last()));
    if i < s.len() - 1 {
        lemma_nonzero_digits(s.drop_last(), i);
    }
}

/// A number of at least `2^64` exceeds every `u32` after scaling.
proof fn lemma_large(x: Ratio, factor: nat, divisor: nat)
    requires
        x.den > 0,
        x.num >= x.den * pow2(64),
        factor > 0,
        0 < divisor <= 0x10_0000,
    ensures
        clamped(scaled(x, factor, divisor)) == u32::MAX,
{
    lemma_rounded_at_least(x, 64);
    let read = rounded(x);
    let y = Ratio { num: read.num * factor, den: read.den };
    assert(y.num >= y.den * pow2(64)) by (nonlinear_arith)
        requires
            read.num >= read.den * pow2(64),
            y.num == read.num * factor,
            y.den == read.den,
            factor >= 1,
    ;
    lemma_rounded_at_least(y, 64);
    let product = rounded(y);
    let z = Ratio { num: product.num, den: product.den * divisor };
    lemma2_to64();
    lemma2_to64_rest();
    lemma_pow2_adds(20, 44);
    assert(z.den > 0) by (nonlinear_arith)
        requires
            z.den == product.den * divisor,
            product.den > 0,
            divisor > 0,
    ;
    assert(z.num >= z.den * pow2(44)) by (nonlinear_arith)
        requires
            product.num >= product.den * pow2(64),
            z.num == product.num,
            z.den == product.den * divisor,
            divisor <= 0x10_0000,
            pow2(64) == 0x10_0000 * pow2(44),
    {
        assert(product.den * (0x10_0000 * pow2(44)) >= product.den * (divisor * pow2(44)));
    }
    lemma_rounded_at_least(z, 44);
    let r = rounded(z);
    assert(r.num / r.den >= pow2(44)) by {
        vstd::arithmetic::div_mod::lemma_div_is_ordered(
            (r.den * pow2(44)) as int,
            r.num as int,
            r.den as int,
        );
        vstd::arithmetic::div_mod::lemma_div_multiples_vanish(pow2(44) as int, r.den as int);
    }
}

/// A number of at most `2^-67` is below one after scaling.
proof fn lemma_tiny(x: Ratio, factor: nat, divisor: nat)
    requires
        x.den > 0,
        x.num * pow2(67) <= x.den,
        0 < factor <= 0x100_0000_0000,
        divisor > 0,
    ensures
        clamped(scaled(x, factor, divisor)) == 0,
{
    lemma2_to64();
    lemma2_to64_rest();
    lemma_rounded_at_most(x, 67);
    let read = rounded(x);
    let y = Ratio { num: read.num * factor, den: read.den };
    lemma_pow2_adds(40, 26);
    assert(y.num * pow2(26) <= y.den) by (nonlinear_arith)
        requires
            read.num * pow2(66) <= read.den,
            y.num == read.num * factor,
            y.den == read.den,
            factor <= 0x100_0000_0000,
            pow2(66) == 0x100_0000_0000 * pow2(26),
    {
        assert(read.num * (0x100_0000_0000 * pow2(26)) >= read.num * (factor * pow2(26)));
    }
    lemma_rounded_at_most(y, 26);
    let product = rounded(y);
    let z = Ratio { num: product.num, den: product.den * divisor };
    assert(z.den >= product.den) by (nonlinear_arith)
        requires
            z.den == product.den * divisor,
            divisor >= 1,
    ;
    lemma_rounded_at_most(z, 25);
    let r = rounded(z);
    assert(r.num < r.den) by (nonlinear_arith)
        requires
            r.num * pow2(24) <= r.den,
            pow2(24) == 0x100_0000,
            r.den > 0,
    ;
    vstd::arithmetic::div_mod::lemma_basic_div(r.num as int, r.den as int);
}

/// Zero stays zero.
proof fn lemma_nothing(x: Ratio, factor: nat, divisor: nat)
    requires
        x.num == 0,
        x.den > 0,
        divisor > 0,
    ensures
        clamped(scaled(x, factor, divisor)) == 0,
{
    assert(0 * factor == 0);
    assert(x.den * divisor > 0) by (nonlinear_arith)
        requires
            x.den > 0,
            divisor > 0,
    ;
    vstd::arithmetic::div_mod::lemma_basic_div(0, (x.den * divisor) as int);
}

/// The value of the digits, at most `2^64`.
fn capped_whole(digits: &Vec<char>) -> (v: u128)
    requires
        all_digits(digits@),
    ensures
        v == if digits_value(digits@) <= 0x1_0000_0000_0000_0000 {
            digits_value(digits@) as int
        } else {
            0x1_0000_0000_0000_0000int
        },
{
    let mut v: u128 = 0;
    let mut i: usize = 0;
    assert(digits@.take(0) == Seq::<char>::empty());
    while i < digits.len()
        invariant
            i <= digits.len(),
            all_digits(digits@),
            v == if digits_value(digits@.take(i as int)) <= 0x1_0000_0000_0000_0000 {
                digits_value(digits@.take(i as int)) as int
            } else {
                0x1_0000_0000_0000_0000int
            },
        decreases digits.len() - i,
    {
        assert(digits@.take(i + 1).drop_last() == digits@.take(i as int));
        assert(digit(digits@[i as int]));
        let d: u32 = digits[i] as u32 - '0' as u32;
        let w: u128 = v * 10 + d as u128;
        v = if w <= 0x1_0000_0000_0000_0000 {
            w
        } else {
            0x1_0000_0000_0000_0000
        };
        i += 1;
    }
    assert(digits@.take(digits@.len() as int) == digits@);
    v
}

/// The whole part of `unit` times the fraction that the digits after the point
/// write, and whether anything is left beyond it.
fn fraction_of(digits: &Vec<char>, unit: u128) -> (r: (u128, bool))
    requires
        all_digits(digits@),
        0 < unit <= 0x100_0000_0000_0000_0000_0000_0000_0000,
    ensures
        r.0 < unit,
        r.0 * ten_to(digits@.len()) <= unit * digits_value(digits@),
        unit * digits_value(digits@) < (r.0 + 1) * ten_to(digits@.len()),
        r.1 == (unit * digits_value(digits@) != r.0 * ten_to(digits@.len())),
{
    let mut g: u128 = 0;
    let mut inexact: bool = false;
    let mut i: usize = digits.len();
    proof {
        let tail = digits@.skip(digits@.len() as int);
        assert(tail.len() == 0);
        assert(unit * 0 == 0);
    }
    while i > 0
        invariant
            i <= digits.len(),
            all_digits(digits@),
            0 < unit <= 0x100_0000_0000_0000_0000_0000_0000_0000,
            g < unit,
            g * ten_to((digits@.len() - i) as nat) <= unit * digits_value(digits@.skip(i as int)),
            unit * digits_value(digits@.skip(i as int)) < (g + 1) * ten_to(
                (digits@.len() - i) as nat,
            ),
            inexact == (unit * digits_value(digits@.skip(i as int)) != g * ten_to(
                (digits@.len() - i) as nat,
            )),
        decreases i,
    {
        i -= 1;
        assert(digit(digits@[i as int]));
        let d: u32 = digits[i] as u32 - '0' as u32;
        assert(unit * d <= unit * 9) by (nonlinear_arith)
            requires
                d <= 9,
        ;
        let sum: u128 = unit * d as u128 + g;
        let ghost before = g;
        let ghost was_inexact = inexact;
        proof {
            let tail = digits@.skip(i + 1);
            let head = seq![digits@[i as int]];
            assert(head + tail == digits@.skip(i as int));
            assert(all_digits(head));
            assert(head.drop_last() == Seq::<char>::empty());
            assert(digits_value(head) == d) by {
                reveal_with_fuel(digits_value, 2);
            }
            lemma_digits_concat(head, tail);
            let p = ten_to(tail.len());
            lemma_ten_to_positive(tail.len());
            let n = digits_value(tail);
            let g2 = (sum / 10) as int;
            let r = (sum % 10) as int;
            let f = unit * n - before * p;
            assert(0 <= f < p) by (nonlinear_arith)
                requires
                    f == unit * n - before * p,
                    before * p <= unit * n,
                    unit * n < (before + 1) * p,
            ;
            let n2 = d * p + n;
            assert(unit * n2 == 10 * (g2 * p) + (r * p + f)) by (nonlinear_arith)
                requires
                    n2 == d * p + n,
                    f == unit * n - before * p,
                    unit * d + before == 10 * g2 + r,
            ;
            assert(0 <= r * p + f < 10 * p) by (nonlinear_arith)
                requires
                    0 <= r <= 9,
                    0 <= f < p,
            ;
            assert((r * p + f == 0) <==> (r == 0 && f == 0)) by (nonlinear_arith)
                requires
                    0 <= r <= 9,
                    0 <= f < p,
            ;
            assert(g2 * (10 * p) == 10 * (g2 * p)) by (nonlinear_arith);
            assert((g2 + 1) * (10 * p) == 10 * (g2 * p) + 10 * p) by (nonlinear_arith);
        }
        g = sum / 10;
        inexact = inexact || sum % 10 != 0;
    }
    assert(digits@.skip(0) == digits@);
    (g, inexact)
}

/// `n` zeros.
fn zeros(n: u64) -> (r: Vec<char>)
    ensures
        r@.len() == n,
        forall|i: int| 0 <= i < n ==> r@[i] == '0',
{
    let mut out: Vec<char> = Vec::new();
    let mut i: u64 = 0;
    while i < n
        invariant
            i <= n,
            out@.len() == i,
            forall|k: int| 0 <= k < i ==> out@[k] == '0',
        decreases n - i,
    {
        out.push('0');
        i += 1;
    }
    out
}

/// The whole part of the scaled number whose digits before and after the point are given.
fn clamped_scaled(whole: &Vec<char>, places: &Vec<char>, factor: u64, divisor: u64) -> (r: u32)
    requires
        all_digits(whole@),
        all_digits(places@),
        0 < factor <= 0x100_0000_0000,
        0 < divisor <= 0x10_0000,
    ensures
        r == clamped(
            scaled(
                Ratio {
                    num: digits_value(whole@) * ten_to(places@.len()) + digits_value(places@),
                    den: ten_to(places@.len()),
                },
                factor as nat,
                divisor as nat,
            ),
        ),
{
    let ghost p = ten_to(places@.len());
    let ghost n = digits_value(places@);
    let ghost v = digits_value(whole@);
    let ghost x = Ratio { num: v * p + n, den: p };
    proof {
        lemma_ten_to_positive(places@.len());
        lemma2_to64();
        lemma2_to64_rest();
    }
    let i: u128 = capped_whole(whole);
    if i >= 0x1_0000_0000_0000_0000 {
        proof {
            assert(x.num >= x.den * pow2(64)) by (nonlinear_arith)
                requires
                    x.num == v * p + n,
                    x.den == p,
                    v >= 0x1_0000_0000_0000_0000,
                    pow2(64) == 0x1_0000_0000_0000_0000,
            ;
            lemma_large(x, factor as nat, divisor as nat);
        }
        return u32::MAX;
    }
    let read: Binary = if i > 0 {
        let (g, inexact) = fraction_of(places, 0x8000_0000_0000_0000);
        let q: u128 = i * 0x8000_0000_0000_0000 + g;
        proof {
            let u = 0x8000_0000_0000_0000int;
            assert(x.num * u == q * p + (u * n - g * p)) by (nonlinear_arith)
                requires
                    x.num == v * p + n,
                    q == v * u + g,
            ;
            assert((q + 1) * p == q * p + p) by (nonlinear_arith);
            assert((g + 1) * p == g * p + p) by (nonlinear_arith);
            assert(x.den * 1 == x.den);
        }
        round(q, inexact, -63, Ghost(x))
    } else {
        let (g, inexact) = fraction_of(places, 0x100_0000_0000_0000_0000_0000_0000_0000);
        proof {
            lemma_pow2_adds(64, 56);
            assert(pow2(120) == 0x100_0000_0000_0000_0000_0000_0000_0000);
            assert(v * p == 0) by (nonlinear_arith)
                requires
                    v == 0,
            ;
            let u = 0x100_0000_0000_0000_0000_0000_0000_0000int;
            assert(x.num * u == u * n) by (nonlinear_arith)
                requires
                    x.num == n,
            ;
            assert(x.den * 1 == x.den);
        }
        if g < 0x20_0000_0000_0000 {
            proof {
                lemma_pow2_adds(64, 3);
                assert(pow2(67) == 0x8_0000_0000_0000_0000);
                assert(x.num * pow2(67) <= x.den) by (nonlinear_arith)
                    requires
                        0x100_0000_0000_0000_0000_0000_0000_0000 * x.num < (g + 1) * p,
                        g + 1 <= 0x20_0000_0000_0000,
                        x.den == p,
                        p > 0,
                        pow2(67) == 0x8_0000_0000_0000_0000,
                ;
                lemma_tiny(x, factor as nat, divisor as nat);
            }
            return 0;
        }
        round(g, inexact, -120, Ghost(x))
    };
    read.times(factor).over(divisor).whole()
}

/// A number whose exponent is above twenty is large, unless it is zero.
proof fn lemma_large_exponent(digits: Seq<char>, exponent: int, factor: nat, divisor: nat)
    requires
        digits_value(digits) >= 1,
        exponent > 20,
        factor > 0,
        0 < divisor <= 0x10_0000,
    ensures
        clamped(scaled(decimal(digits, exponent), factor, divisor)) == u32::MAX,
{
    let x = decimal(digits, exponent);
    let v = digits_value(digits);
    let more = (exponent - 20) as nat;
    lemma2_to64();
    lemma_ten_to_adds(20, more);
    assert(ten_to(20) == 100_000_000_000_000_000_000) by {
        reveal_with_fuel(ten_to, 21);
    }
    lemma_ten_to_positive((more - 1) as nat);
    let t = ten_to(exponent as nat);
    assert(x.num >= x.den * pow2(64)) by (nonlinear_arith)
        requires
            x.num == v * t,
            x.den == 1,
            v >= 1,
            t == 100_000_000_000_000_000_000 * ten_to(more),
            ten_to(more) >= 10,
            pow2(64) == 0x1_0000_0000_0000_0000,
    ;
    lemma_large(x, factor, divisor);
}

/// A number whose point lies more than twenty-one places before its digits is tiny.
proof fn lemma_tiny_exponent(digits: Seq<char>, exponent: int, factor: nat, divisor: nat)
    requires
        all_digits(digits),
        exponent < -(digits.len() as int) - 21,
        0 < factor <= 0x100_0000_0000,
        divisor > 0,
    ensures
        clamped(scaled(decimal(digits, exponent), factor, divisor)) == 0,
{
    let x = decimal(digits, exponent);
    let v = digits_value(digits);
    let n = digits.len();
    let rest = (-exponent - n) as nat;
    let more = (rest - 21) as nat;
    lemma2_to64();
    lemma_ten_to_adds(n, rest);
    lemma_ten_to_adds(21, more);
    lemma_ten_to_positive(more);
    lemma_ten_to_positive((-exponent) as nat);
    lemma_digits_bound(digits);
    assert(ten_to(21) == 1_000_000_000_000_000_000_000) by {
        reveal_with_fuel(ten_to, 22);
    }
    lemma_pow2_adds(64, 3);
    assert(n + rest == (-exponent) as nat);
    let t = ten_to(n);
    assert(x.num * pow2(67) <= x.den) by (nonlinear_arith)
        requires
            x.num == v,
            v < t,
            x.den == t * ten_to(rest),
            ten_to(rest) == 1_000_000_000_000_000_000_000 * ten_to(more),
            ten_to(more) >= 1,
            pow2(67) == 0x8_0000_0000_0000_0000,
    {
        assert(v * 0x8_0000_0000_0000_0000 <= t * 0x8_0000_0000_0000_0000);
        assert(t * ten_to(rest) >= t * 1_000_000_000_000_000_000_000);
    }
    lemma_tiny(x, factor, divisor);
}

/// Whether one of the digits is not zero.
fn is_nonzero(digits: &Vec<char>) -> (r: bool)
    requires
        all_digits(digits@),
    ensures
        r == (digits_value(digits@) >= 1),
{
    let mut i: usize = 0;
    while i < digits.len()
        invariant
            i <= digits.len(),
            all_digits(digits@),
            forall|k: int| 0 <= k < i ==> digits@[k] == '0',
        decreases digits.len() - i,
    {
        if digits[i] != '0' {
            proof {
                lemma_nonzero_digits(digits@, i as int);
            }
            return true;
        }
        i += 1;
    }
    proof {
        lemma_zero_digits(digits@);
    }
    false
}

/// Places the point: the digits before it and those after it.
fn place_point(digits: &Vec<char>, exponent: i128) -> (r: (Vec<char>, Vec<char>))
    requires
        all_digits(digits@),
        -(digits@.len() as int) - 21 <= exponent <= 20,
    ensures
        all_digits(r.0@),
        all_digits(r.1@),
        decimal(digits@, exponent as int) == (Ratio {
            num: digits_value(r.0@) * ten_to(r.1@.len()) + digits_value(r.1@),
            den: ten_to(r.1@.len()),
        }),
{
    let n: usize = digits.len();
    if exponent >= 0 {
        let mut pad = zeros(exponent as u64);
        let ghost z = pad@;
        let mut whole = copied(digits, 0, n);
        whole.append(&mut pad);
        proof {
            assert(digits@.subrange(0, n as int) == digits@);
            lemma_zero_digits(z);
            assert(all_digits(z));
            lemma_digits_concat(digits@, z);
            assert(whole@ == digits@ + z);
            assert(digits_value(whole@) * 1 + 0 == digits_value(whole@));
        }
        return (whole, Vec::new());
    }
    let shift: i128 = -exponent;
    if shift <= n as i128 {
        let cut: usize = n - shift as usize;
        let whole = copied(digits, 0, cut);
        let places = copied(digits, cut, n);
        proof {
            assert(digits@ == whole@ + places@);
            lemma_digits_concat(whole@, places@);
        }
        (whole, places)
    } else {
        let mut places = zeros((shift - n as i128) as u64);
        let ghost z = places@;
        let mut rest = copied(digits, 0, n);
        places.append(&mut rest);
        proof {
            assert(digits@.subrange(0, n as int) == digits@);
            lemma_zero_digits(z);
            assert(all_digits(z));
            assert(places@ == z + digits@);
            lemma_digits_concat(z, digits@);
            assert(0 * ten_to(n as nat) == 0);
            assert(0 * ten_to(places@.len()) == 0);
        }
        (Vec::new(), places)
    }
}

/// The whole part of a scaled number, given by its digits and its exponent.
fn clamped_number(
    digits: &Vec<char>,
    e: i128,
    factor: u64,
    divisor: u64,
    Ghost(exponent): Ghost<int>,
) -> (r: u32)
    requires
        all_digits(digits@),
        stands_for(e, exponent),
        0 < factor <= 0x100_0000_0000,
        0 < divisor <= 0x10_0000,
    ensures
        r == clamped(scaled(decimal(digits@, exponent), factor as nat, divisor as nat)),
{
    if !is_nonzero(digits) {
        proof {
            lemma_ten_to_positive((-exponent) as nat);
            assert(0 * ten_to(exponent as nat) == 0);
            lemma_nothing(decimal(digits@, exponent), factor as nat, divisor as nat);
        }
        return 0;
    }
    if e > 20 {
        proof {
            lemma_large_exponent(digits@, exponent, factor as nat, divisor as nat);
        }
        return u32::MAX;
    }
    if e < -(digits.len() as i128) - 21 {
        proof {
            lemma_tiny_exponent(digits@, exponent, factor as nat, divisor as nat);
        }
        return 0;
    }
    assert(e == exponent);
    let (whole, places) = place_point(digits, e);
    clamped_scaled(&whole, &places, factor, divisor)
}

/// The whole part of a numeral times a unit.
fn parse_whole(text: &str, factor: u64, divisor: u64) -> (r: u32)
    requires
        0 < factor <= 0x100_0000_0000,
        0 < divisor <= 0x10_0000,
    ensures
        r == whole_units(numeral(text@), (factor as nat, divisor as nat)),
{
    match parse_numeral(text) {
        Some(ParsedNumeral::Finite { negative, digits, exponent }) => {
            if negative {
                0
            } else {
                clamped_number(
                    &digits,
                    exponent,
                    factor,
                    divisor,
                    Ghost(numeral(text@)->0->Finite_exponent),
                )
            }
        },
        Some(ParsedNumeral::Infinite { negative }) => {
            if negative {
                0
            } else {
                u32::MAX
            }
        },
        _ => 0,
    }
}

/// Splits a CPU quantity into its numeral and its unit.
pub fn split_cpu_quantity(text: &str) -> (r: (&str, CpuUnit))
    ensures
        r.0@ == cpu_quantity(text@).0,
        r.1 == cpu_quantity(text@).1,
{
    let s: &str = trimmed(text);
    let n: usize = s.unicode_len();
    if n == 0 {
        return (s, CpuUnit::Core);
    }
    let last: char = s.get_char(n - 1);
    proof {
        lemma_ends_with_one(s@, 'm');
        lemma_ends_with_one(s@, 'n');
        lemma_ends_with_one(s@, 'u');
    }
    if last == 'm' {
        (s.substring_char(0, n - 1), CpuUnit::Milli)
    } else if last == 'n' {
        (s.substring_char(0, n - 1), CpuUnit::Nano)
    } else if last == 'u' {
        (s.substring_char(0, n - 1), CpuUnit::Micro)
    } else {
        (s, CpuUnit::Core)
    }
}

/// A text ends with a character exactly if that is its last one.
pub proof fn lemma_ends_with_one(s: Seq<char>, c: char)
    requires
        s.len() > 0,
    ensures
        ends_with(s, seq![c]) <==> s.last() == c,
        without(s, 1) == s.subrange(0, s.len() - 1),
{
    let tail = s.skip(s.len() - 1);
    assert(tail[0] == s.last());
    if s.last() == c {
        assert(tail == seq![c]);
    }
}

/// A text ends with two characters exactly if those are its last two.
pub proof fn lemma_ends_with_two(s: Seq<char>, a: char, b: char)
    ensures
        ends_with(s, seq![a, b]) <==> s.len() >= 2 && s[s.len() - 2] == a && s.last() == b,
        s.len() >= 2 ==> without(s, 2) == s.subrange(0, s.len() - 2),
{
    if s.len() >= 2 {
        let tail = s.skip(s.len() - 2);
        assert(tail[0] == s[s.len() - 2]);
        assert(tail[1] == s.last());
        if s[s.len() - 2] == a && s.last() == b {
            assert(tail == seq![a, b]);
        }
    }
}

/// Splits a memory quantity into its numeral and its unit.
pub fn split_memory_quantity(text: &str) -> (r: (&str, MemoryUnit))
    ensures
        r.0@ == memory_quantity(text@).0,
        r.1 == memory_quantity(text@).1,
{
    let s: &str = trimmed(text);
    let n: usize = s.unicode_len();
    if n == 0 {
        return (s, MemoryUnit::Byte);
    }
    proof {
        lemma_ends_with_two(s@, 'T', 'i');
        lemma_ends_with_two(s@, 'G', 'i');
        lemma_ends_with_two(s@, 'M', 'i');
        lemma_ends_with_two(s@, 'K', 'i');
        lemma_ends_with_one(s@, 'T');
        lemma_ends_with_one(s@, 'G');
        lemma_ends_with_one(s@, 'M');
        lemma_ends_with_one(s@, 'k');
    }
    let last: char = s.get_char(n - 1);
    if n >= 2 && last == 'i' {
        let before: char = s.get_char(n - 2);
        if before == 'T' {
            return (s.substring_char(0, n - 2), MemoryUnit::Tebi);
        } else if before == 'G' {
            return (s.substring_char(0, n - 2), MemoryUnit::Gibi);
        } else if before == 'M' {
            return (s.substring_char(0, n - 2), MemoryUnit::Mebi);
        } else if before == 'K' {
            return (s.substring_char(0, n - 2), MemoryUnit::Kibi);
        }
    }
    if last == 'T' {
        (s.substring_char(0, n - 1), MemoryUnit::Tera)
    } else if last == 'G' {
        (s.substring_char(0, n - 1), MemoryUnit::Giga)
    } else if last == 'M' {
        (s.substring_char(0, n - 1), MemoryUnit::Mega)
    } else if last == 'k' {
        (s.substring_char(0, n - 1), MemoryUnit::Kilo)
    } else {
        (s, MemoryUnit::Byte)
    }
}

/// Whole millicores, for the request and limit fields of the wire schema.
///
/// The quantity is cut to a whole number; what is negative, or no number, is zero,
/// and what no `u32` holds is the largest.
pub fn parse_cpu_to_millicores(s: &str) -> (r: u32)
    ensures
        r == whole_millicores(s@),
{
    let (numeral_text, unit) = split_cpu_quantity(s);
    match unit {
        CpuUnit::Core => parse_whole(numeral_text, 1_000, 1),
        CpuUnit::Milli => parse_whole(numeral_text, 1, 1),
        CpuUnit::Micro => parse_whole(numeral_text, 1, 1_000),
        CpuUnit::Nano => parse_whole(numeral_text, 1, 1_000_000),
    }
}

/// Whole MiB, for the request and limit fields of the wire schema.
///
/// The quantity is cut to a whole number; what is negative, or no number, is zero,
/// and what no `u32` holds is the largest.
pub fn parse_memory_to_mib(s: &str) -> (r: u32)
    ensures
        r == whole_mib(s@),
{
    let (numeral_text, unit) = split_memory_quantity(s);
    match unit {
        MemoryUnit::Tebi => parse_whole(numeral_text, 1_048_576, 1),
        MemoryUnit::Gibi => parse_whole(numeral_text, 1_024, 1),
        MemoryUnit::Mebi => parse_whole(numeral_text, 1, 1),
        MemoryUnit::Kibi => parse_whole(numeral_text, 1, 1_024),
        MemoryUnit::Tera => parse_whole(numeral_text, 1_000_000_000_000, 1_048_576),
        MemoryUnit::Giga => parse_whole(numeral_text, 1_000_000_000, 1_048_576),
        MemoryUnit::Mega => parse_whole(numeral_text, 1_000_000, 1_048_576),
        MemoryUnit::Kilo => parse_whole(numeral_text, 1_000, 1_048_576),
        MemoryUnit::Byte => parse_whole(numeral_text, 1, 1_048_576),
    }
}

} // verus!
