//! What holds of resource quantities.

use crate::binary::{
    law_rounding_is_off_by_half_a_bit_at_most, lemma_rounded_at_least, lemma_rounded_ratio,
    lemma_rounded_small, rounded, Ratio,
};
use crate::decimal::{
    all_digits, decimal, digit, digits_value, exponent_part, lemma_leading_digits, minus, numeral,
    signed, ten_to, Numeral,
};
use crate::quantity::{
    clamped, cpu_quantity, lemma_ends_with_one, lemma_ends_with_two, memory_quantity, scaled,
    whole_mib, whole_millicores, whole_units, without, CpuUnit, MemoryUnit,
};
use crate::text::{same_ignoring_case, same_letter, trim, white_space};
use crate::text_laws::law_trimming_takes_only_white_space;
use vstd::arithmetic::power2::{lemma2_to64, lemma2_to64_rest};
use vstd::prelude::*;

verus! {

/// `n`, at most the largest `u32`.
pub open spec fn at_most_u32(n: nat) -> u32 {
    if n <= u32::MAX {
        n as u32
    } else {
        u32::MAX
    }
}

/// The suffix that writes a CPU unit.
pub open spec fn cpu_suffix(unit: CpuUnit) -> Seq<char> {
    match unit {
        CpuUnit::Core => seq![],
        CpuUnit::Milli => seq!['m'],
        CpuUnit::Micro => seq!['u'],
        CpuUnit::Nano => seq!['n'],
    }
}

/// The suffix that writes a memory unit.
pub open spec fn memory_suffix(unit: MemoryUnit) -> Seq<char> {
    match unit {
        MemoryUnit::Tebi => seq!['T', 'i'],
        MemoryUnit::Gibi => seq!['G', 'i'],
        MemoryUnit::Mebi => seq!['M', 'i'],
        MemoryUnit::Kibi => seq!['K', 'i'],
        MemoryUnit::Tera => seq!['T'],
        MemoryUnit::Giga => seq!['G'],
        MemoryUnit::Mega => seq!['M'],
        MemoryUnit::Kilo => seq!['k'],
        MemoryUnit::Byte => seq![],
    }
}

/// Digits alone are the numeral of their value.
proof fn lemma_digits_are_a_numeral(text: Seq<char>)
    requires
        text.len() > 0,
        all_digits(text),
    ensures
        numeral(text) == Some(Numeral::Finite { negative: false, digits: text, exponent: 0 }),
{
    reveal_strlit("inf");
    reveal_strlit("infinity");
    reveal_strlit("nan");
    reveal(exponent_part);
    assert(digit(text[0]));
    assert(!signed(text));
    assert(!same_letter(text[0], 'i') && !same_letter(text[0], 'n'));
    assert("inf"@[0] == 'i' && "infinity"@[0] == 'i' && "nan"@[0] == 'n');
    lemma_leading_digits(text, text.len());
    let after = text.skip(text.len() as int);
    assert(after.len() == 0);
    assert(text.take(text.len() as int) == text);
    assert(after.take(0) == Seq::<char>::empty());
    assert(after.skip(0).len() == 0);
    assert(text + Seq::<char>::empty() == text);
}

/// A product of at least `2^53` exceeds every `u32`, over any divisor of a unit.
proof fn lemma_large_product(x: Ratio, factor: nat, divisor: nat)
    requires
        x.den > 0,
        rounded(x).den > 0,
        rounded(x).num * factor >= rounded(x).den * 0x20_0000_0000_0000,
        0 < divisor <= 0x10_0000,
    ensures
        clamped(scaled(x, factor, divisor)) == u32::MAX,
{
    lemma2_to64();
    lemma2_to64_rest();
    let read = rounded(x);
    let y = Ratio { num: read.num * factor, den: read.den };
    lemma_rounded_at_least(y, 53);
    let product = rounded(y);
    let z = Ratio { num: product.num, den: product.den * divisor };
    assert(z.den > 0 && z.num >= z.den * 0x2_0000_0000) by (nonlinear_arith)
        requires
            z.num == product.num,
            z.den == product.den * divisor,
            product.den > 0,
            product.num >= product.den * 0x20_0000_0000_0000,
            0 < divisor <= 0x10_0000,
    ;
    lemma_rounded_at_least(z, 33);
    let r = rounded(z);
    assert(r.num / r.den >= 0x2_0000_0000) by (nonlinear_arith)
        requires
            r.den > 0,
            r.num >= r.den * 0x2_0000_0000,
    ;
}

/// The value of a whole numeral times a unit is its exact product and quotient, cut
/// to a whole number, at most the largest `u32`.
pub proof fn law_whole_numerals_scale_exactly(text: Seq<char>, factor: nat, divisor: nat)
    requires
        text.len() > 0,
        all_digits(text),
        0 < factor,
        0 < divisor <= 0x10_0000,
    ensures
        whole_units(numeral(text), (factor, divisor)) == at_most_u32(
            digits_value(text) * factor / divisor,
        ),
{
    lemma_digits_are_a_numeral(text);
    let v = digits_value(text);
    let x = decimal(text, 0);
    assert(v * 1 == v);
    assert(x == Ratio { num: v, den: 1 });
    if v == 0 {
        assert(0 * factor == 0);
        assert(1 * divisor == divisor);
        assert(0nat / divisor == 0) by {
            vstd::arithmetic::div_mod::lemma_div_basics(divisor as int);
        }
    } else if v * factor >= 0x20_0000_0000_0000 {
        lemma2_to64();
        lemma2_to64_rest();
        let p = v * factor;
        if v >= 0x20_0000_0000_0000 {
            lemma_rounded_at_least(x, 53);
        } else {
            lemma_rounded_small(v, 1);
        }
        let read = rounded(x);
        assert(read.num * factor >= read.den * 0x20_0000_0000_0000) by (nonlinear_arith)
            requires
                read.num >= read.den * 0x20_0000_0000_0000 || read.num == v * read.den,
                read.den > 0,
                v * factor >= 0x20_0000_0000_0000,
                factor >= 1,
        ;
        lemma_large_product(x, factor, divisor);
        assert(p / divisor >= 0x2_0000_0000) by (nonlinear_arith)
            requires
                p >= 0x20_0000_0000_0000,
                0 < divisor <= 0x10_0000,
        ;
    } else {
        assert(v < 0x20_0000_0000_0000) by (nonlinear_arith)
            requires
                v * factor < 0x20_0000_0000_0000,
                factor >= 1,
        ;
        lemma_rounded_small(v, 1);
        let read = rounded(x);
        let y = Ratio { num: read.num * factor, den: read.den };
        let p = v * factor;
        let whole = Ratio { num: p, den: 1 };
        assert(p > 0) by (nonlinear_arith)
            requires
                p == v * factor,
                v > 0,
                factor > 0,
        ;
        assert(whole.num * y.den == y.num * whole.den) by (nonlinear_arith)
            requires
                whole.num == v * factor,
                whole.den == 1,
                y.num == read.num * factor,
                y.den == read.den,
                read.num == v * read.den,
        ;
        lemma_rounded_ratio(whole, y);
        lemma_rounded_small(p, 1);
        let product = rounded(y);
        let z = Ratio { num: product.num, den: product.den * divisor };
        let quotient = Ratio { num: p, den: divisor };
        assert(product.den * divisor > 0) by (nonlinear_arith)
            requires
                product.den > 0,
                divisor > 0,
        ;
        assert(quotient.num * z.den == z.num * quotient.den) by (nonlinear_arith)
            requires
                quotient.num == p,
                quotient.den == divisor,
                z.num == product.num,
                z.den == product.den * divisor,
                product.num == p * product.den,
        ;
        lemma_rounded_ratio(quotient, z);
        lemma_rounded_small(p, divisor);
    }
}

proof fn lemma_nothing_to_trim(s: Seq<char>)
    requires
        s.len() > 0 ==> !white_space(s[0]) && !white_space(s.last()),
    ensures
        trim(s) == s,
{
}

/// A whole CPU quantity in any unit is converted exactly and cut to whole millicores.
pub proof fn law_whole_cpu_quantities_are_exact(digits: Seq<char>, unit: CpuUnit)
    requires
        digits.len() > 0,
        all_digits(digits),
    ensures
        whole_millicores(digits + cpu_suffix(unit)) == at_most_u32(
            digits_value(digits) * unit.scale().0 / unit.scale().1,
        ),
{
    let text = digits + cpu_suffix(unit);
    assert(digit(digits[0]) && digit(digits.last()));
    assert(text[0] == digits[0]);
    match unit {
        CpuUnit::Core => {
            assert(text == digits);
        },
        CpuUnit::Milli => {
            assert(text.last() == 'm');
        },
        CpuUnit::Micro => {
            assert(text.last() == 'u');
        },
        CpuUnit::Nano => {
            assert(text.last() == 'n');
        },
    }
    lemma_nothing_to_trim(text);
    lemma_ends_with_one(text, 'm');
    lemma_ends_with_one(text, 'n');
    lemma_ends_with_one(text, 'u');
    assert(cpu_quantity(text) == (digits, unit)) by {
        if unit != CpuUnit::Core {
            assert(without(text, 1) == digits);
        }
    }
    law_whole_numerals_scale_exactly(digits, unit.scale().0, unit.scale().1);
}

/// A whole memory quantity in any unit is converted exactly and cut to whole MiB.
pub proof fn law_whole_memory_quantities_are_exact(digits: Seq<char>, unit: MemoryUnit)
    requires
        digits.len() > 0,
        all_digits(digits),
    ensures
        whole_mib(digits + memory_suffix(unit)) == at_most_u32(
            digits_value(digits) * unit.scale().0 / unit.scale().1,
        ),
{
    let suffix = memory_suffix(unit);
    let text = digits + suffix;
    let n = suffix.len();
    assert(digit(digits[0]) && digit(digits.last()));
    assert(text[0] == digits[0]);
    if n == 0 {
        assert(text == digits);
    } else {
        assert(text.last() == suffix.last());
    }
    if n == 2 {
        assert(text[text.len() - 2] == suffix[0]);
    } else if n == 1 && text.len() >= 2 {
        assert(text[text.len() - 2] == digits.last());
    }
    lemma_nothing_to_trim(text);
    lemma_ends_with_two(text, 'T', 'i');
    lemma_ends_with_two(text, 'G', 'i');
    lemma_ends_with_two(text, 'M', 'i');
    lemma_ends_with_two(text, 'K', 'i');
    lemma_ends_with_one(text, 'T');
    lemma_ends_with_one(text, 'G');
    lemma_ends_with_one(text, 'M');
    lemma_ends_with_one(text, 'k');
    assert(without(text, n as int) == digits);
    assert(memory_quantity(text) == (digits, unit));
    law_whole_numerals_scale_exactly(digits, unit.scale().0, unit.scale().1);
}

/// A quantity with a minus sign never wraps around: it is zero.
pub proof fn law_negative_quantities_are_zero(text: Seq<char>)
    ensures
        minus(cpu_quantity(text).0) ==> whole_millicores(text) == 0,
        minus(memory_quantity(text).0) ==> whole_mib(text) == 0,
{
}

/// A text that is no numeral counts as zero.
pub proof fn law_garbage_is_zero(text: Seq<char>)
    ensures
        numeral(cpu_quantity(text).0) is None ==> whole_millicores(text) == 0,
        numeral(memory_quantity(text).0) is None ==> whole_mib(text) == 0,
{
}

/// A thousand of a CPU unit make one of the next; a core is a thousand millicores. Memory
/// units are powers of 1024 with an `i`, and of 1000 without, of bytes.
pub proof fn law_units_are_powers()
    ensures
        CpuUnit::Milli.scale() == (1nat, 1nat),
        CpuUnit::Core.scale() == (1_000nat, 1nat),
        CpuUnit::Micro.scale() == (1nat, 1_000nat),
        CpuUnit::Nano.scale() == (1nat, 1_000_000nat),
        MemoryUnit::Mebi.scale() == (1nat, 1nat),
        MemoryUnit::Gibi.scale() == (1_024nat, 1nat),
        MemoryUnit::Tebi.scale() == (1_024 * 1_024nat, 1nat),
        MemoryUnit::Kibi.scale() == (1nat, 1_024nat),
        MemoryUnit::Byte.scale() == (1nat, 1_024 * 1_024nat),
        MemoryUnit::Kilo.scale() == (1_000nat, 1_024 * 1_024nat),
        MemoryUnit::Mega.scale() == (1_000_000nat, 1_024 * 1_024nat),
        MemoryUnit::Giga.scale() == (1_000_000_000nat, 1_024 * 1_024nat),
        MemoryUnit::Tera.scale() == (1_000_000_000_000nat, 1_024 * 1_024nat),
{
}

/// White space around a quantity does not matter.
pub proof fn law_space_around_quantities_does_not_matter(text: Seq<char>)
    ensures
        whole_millicores(text) == whole_millicores(trim(text)),
        whole_mib(text) == whole_mib(trim(text)),
{
    law_trimming_takes_only_white_space(text);
    lemma_nothing_to_trim(trim(text));
}

/// A CPU quantity is a numeral and a suffix, whatever the numeral looks like. Without one
/// of the suffixes all of it is the numeral.
pub proof fn law_cpu_suffixes_are_split_off(number: Seq<char>, unit: CpuUnit)
    requires
        number.len() > 0,
        !white_space(number[0]),
        unit is Core ==> !white_space(number.last()) && number.last() != 'm' && number.last() != 'u'
            && number.last() != 'n',
    ensures
        cpu_quantity(number + cpu_suffix(unit)) == (number, unit),
{
    let text = number + cpu_suffix(unit);
    assert(text[0] == number[0]);
    if unit is Core {
        assert(text == number);
    } else {
        assert(text.last() == cpu_suffix(unit)[0]);
        assert(without(text, 1) == number);
    }
    lemma_nothing_to_trim(text);
    lemma_ends_with_one(text, 'm');
    lemma_ends_with_one(text, 'n');
    lemma_ends_with_one(text, 'u');
}

/// A memory quantity is a numeral and a suffix, whatever the numeral looks like.
pub proof fn law_memory_suffixes_are_split_off(number: Seq<char>, unit: MemoryUnit)
    requires
        number.len() > 0,
        !white_space(number[0]),
        unit is Byte ==> digit(number.last()),
    ensures
        memory_quantity(number + memory_suffix(unit)) == (number, unit),
{
    let suffix = memory_suffix(unit);
    let text = number + suffix;
    let n = suffix.len();
    assert(text[0] == number[0]);
    if n == 0 {
        assert(text == number);
    } else {
        assert(text.last() == suffix.last());
        assert(without(text, n as int) == number);
        if n == 2 {
            assert(text[text.len() - 2] == suffix[0]);
        }
    }
    lemma_nothing_to_trim(text);
    lemma_ends_with_two(text, 'T', 'i');
    lemma_ends_with_two(text, 'G', 'i');
    lemma_ends_with_two(text, 'M', 'i');
    lemma_ends_with_two(text, 'K', 'i');
    lemma_ends_with_one(text, 'T');
    lemma_ends_with_one(text, 'G');
    lemma_ends_with_one(text, 'M');
    lemma_ends_with_one(text, 'k');
}

/// Digits with a point among them are the digits, over ten for each of those behind the
/// point. Either side may be empty, but not both.
pub proof fn law_digits_behind_the_point_are_fractions(whole: Seq<char>, fraction: Seq<char>)
    requires
        all_digits(whole),
        all_digits(fraction),
        whole.len() + fraction.len() > 0,
    ensures
        numeral(whole + seq!['.'] + fraction) == Some(
            (Numeral::Finite {
                negative: false,
                digits: whole + fraction,
                exponent: -(fraction.len() as int),
            }),
        ),
{
    let text = whole + seq!['.'] + fraction;
    let n = whole.len();
    reveal_strlit("inf");
    reveal_strlit("infinity");
    reveal_strlit("nan");
    reveal(exponent_part);
    assert(text[n as int] == '.');
    if n > 0 {
        assert(digit(whole[0]));
        assert(text[0] == whole[0]);
    }
    assert(!signed(text));
    assert(!same_letter(text[0], 'i') && !same_letter(text[0], 'n'));
    assert("inf"@[0] == 'i' && "infinity"@[0] == 'i' && "nan"@[0] == 'n');
    assert forall|k: int| 0 <= k < n implies digit(text[k]) by {
        assert(text[k] == whole[k]);
        assert(digit(whole[k]));
    }
    lemma_leading_digits(text, n);
    let after = text.skip(n as int);
    assert(after[0] == '.');
    let rest = after.skip(1);
    assert(rest == fraction);
    lemma_leading_digits(fraction, fraction.len());
    assert(text.take(n as int) == whole);
    assert(fraction.take(fraction.len() as int) == fraction);
    assert(fraction.skip(fraction.len() as int).len() == 0);
}

/// A minus sign in front makes a number negative, a plus sign leaves it as it is.
pub proof fn law_signs_stand_in_front(text: Seq<char>, digits: Seq<char>, exponent: int)
    requires
        !signed(text),
        numeral(text) == Some((Numeral::Finite { negative: false, digits, exponent })),
    ensures
        numeral(seq!['-'] + text) == Some((Numeral::Finite { negative: true, digits, exponent })),
        numeral(seq!['+'] + text) == Some((Numeral::Finite { negative: false, digits, exponent })),
{
    assert((seq!['-'] + text).skip(1) == text);
    assert((seq!['+'] + text).skip(1) == text);
}

/// An exponent behind the digits shifts the point: to the right, or with a minus sign to
/// the left.
pub proof fn law_exponents_shift_the_point(digits: Seq<char>, exponent: Seq<char>)
    requires
        digits.len() > 0,
        all_digits(digits),
        exponent.len() > 0,
        all_digits(exponent),
    ensures
        numeral(digits + seq!['e'] + exponent) == Some(
            (Numeral::Finite { negative: false, digits, exponent: digits_value(exponent) as int }),
        ),
        numeral(digits + seq!['E'] + exponent) == numeral(digits + seq!['e'] + exponent),
        numeral(digits + seq!['e', '+'] + exponent) == numeral(digits + seq!['e'] + exponent),
        numeral(digits + seq!['e', '-'] + exponent) == Some(
            (Numeral::Finite {
                negative: false,
                digits,
                exponent: -(digits_value(exponent) as int),
            }),
        ),
{
    assert(digit(exponent[0]));
    lemma_exponent(digits, seq!['e'], exponent);
    lemma_exponent(digits, seq!['E'], exponent);
    lemma_exponent(digits, seq!['e', '+'], exponent);
    lemma_exponent(digits, seq!['e', '-'], exponent);
}

proof fn lemma_exponent(digits: Seq<char>, mark: Seq<char>, exponent: Seq<char>)
    requires
        digits.len() > 0,
        all_digits(digits),
        exponent.len() > 0,
        all_digits(exponent),
        1 <= mark.len() <= 2,
        mark[0] == 'e' || mark[0] == 'E',
        mark.len() == 2 ==> mark[1] == '+' || mark[1] == '-',
    ensures
        numeral(digits + mark + exponent) == Some(
            (Numeral::Finite {
                negative: false,
                digits,
                exponent: if mark.len() == 2 && mark[1] == '-' {
                    -(digits_value(exponent) as int)
                } else {
                    digits_value(exponent) as int
                },
            }),
        ),
{
    let text = digits + mark + exponent;
    let n = digits.len();
    reveal_strlit("inf");
    reveal_strlit("infinity");
    reveal_strlit("nan");
    reveal(exponent_part);
    assert(digit(digits[0]));
    assert(text[0] == digits[0]);
    assert(!signed(text));
    assert(!same_letter(text[0], 'i') && !same_letter(text[0], 'n'));
    assert("inf"@[0] == 'i' && "infinity"@[0] == 'i' && "nan"@[0] == 'n');
    assert(text[n as int] == mark[0]);
    assert forall|k: int| 0 <= k < n implies digit(text[k]) by {
        assert(text[k] == digits[k]);
        assert(digit(digits[k]));
    }
    lemma_leading_digits(text, n);
    let after = text.skip(n as int);
    assert(after == mark + exponent);
    assert(after[0] == mark[0]);
    assert(after.skip(0) == after);
    assert(after.take(0) == Seq::<char>::empty());
    assert(text.take(n as int) == digits);
    assert(digits + Seq::<char>::empty() == digits);
    let tail = after.skip(1);
    assert(digit(exponent[0]));
    if mark.len() == 1 {
        assert(tail == exponent);
    } else {
        assert(tail[0] == mark[1]);
        assert(tail.skip(1) == exponent);
    }
}

/// The value of digits is read from left to right: what stands in front counts ten times
/// for each digit behind it.
pub proof fn law_digits_are_positional(a: Seq<char>, b: Seq<char>, c: char)
    requires
        digit(c),
        all_digits(a),
        all_digits(b),
    ensures
        digits_value(a.push(c)) == 10 * digits_value(a) + (c as int - '0' as int),
        digits_value(Seq::empty()) == 0,
        digits_value(a + b) == digits_value(a) * ten_to(b.len()) + digits_value(b),
    decreases b.len(),
{
    assert(a.push(c).drop_last() == a);
    if b.len() == 0 {
        assert(a + b == a);
        assert(digits_value(a) * 1 == digits_value(a));
    } else {
        let init = b.drop_last();
        assert((a + b).drop_last() == a + init);
        assert(digit(b[b.len() - 1]));
        assert forall|i: int| 0 <= i < init.len() implies digit(init[i]) by {
            assert(digit(b[i]));
        }
        law_digits_are_positional(a, init, c);
        let v = digits_value(a);
        let t = ten_to(init.len());
        assert(ten_to(b.len()) == 10 * t);
        assert(10 * (v * t) == v * (10 * t)) by (nonlinear_arith);
    }
}

/// What is infinite counts as the largest number, or zero where it is negative; what is no
/// number counts as zero.
pub proof fn law_infinity_is_the_largest(scale: (nat, nat))
    ensures
        whole_units(Some((Numeral::Infinite { negative: false })), scale) == u32::MAX,
        whole_units(Some((Numeral::Infinite { negative: true })), scale) == 0,
        whole_units(Some(Numeral::Nan), scale) == 0,
        whole_units(None, scale) == 0,
{
}

/// Infinity and what is no number can be spelled in any case.
pub proof fn law_infinity_is_spelled_in_any_case(text: Seq<char>)
    requires
        !signed(text),
    ensures
        same_ignoring_case(text, "inf"@) || same_ignoring_case(text, "infinity"@) ==> numeral(text)
            == Some((Numeral::Infinite { negative: false })),
        same_ignoring_case(text, "nan"@) ==> numeral(text) == Some(Numeral::Nan),
{
    reveal_strlit("inf");
    reveal_strlit("infinity");
    reveal_strlit("nan");
    if same_ignoring_case(text, "nan"@) {
        assert(same_letter(text[0], "nan"@[0]));
        assert("inf"@[0] == 'i' && "infinity"@[0] == 'i' && "nan"@[0] == 'n');
        assert(!same_letter(text[0], 'i'));
    }
}

/// Whether `a` is away from `b` by at most `k` parts in 2^53.
spec fn close(a: Ratio, b: Ratio, k: nat) -> bool {
    &&& 0x20_0000_0000_0000 * (a.num * b.den) <= 0x20_0000_0000_0000 * (b.num * a.den) + k * (b.num
        * a.den)
    &&& 0x20_0000_0000_0000 * (b.num * a.den) <= 0x20_0000_0000_0000 * (a.num * b.den) + k * (b.num
        * a.den)
}

proof fn lemma_rounded_close(x: Ratio)
    requires
        x.den > 0,
    ensures
        rounded(x).den > 0,
        close(rounded(x), x, 1),
{
    law_rounding_is_off_by_half_a_bit_at_most(x);
}

proof fn lemma_close_scaled(a: Ratio, b: Ratio, k: nat, factor: nat, divisor: nat)
    requires
        close(a, b, k),
    ensures
        close(
            Ratio { num: a.num * factor, den: a.den },
            Ratio { num: b.num * factor, den: b.den },
            k,
        ),
        close(
            Ratio { num: a.num, den: a.den * divisor },
            Ratio { num: b.num, den: b.den * divisor },
            k,
        ),
{
    let p = a.num * b.den;
    let q = b.num * a.den;
    let m: nat = 0x20_0000_0000_0000;
    assert((a.num * factor) * b.den == p * factor) by (nonlinear_arith)
        requires
            p == a.num * b.den,
    ;
    assert((b.num * factor) * a.den == q * factor) by (nonlinear_arith)
        requires
            q == b.num * a.den,
    ;
    assert(a.num * (b.den * divisor) == p * divisor) by (nonlinear_arith)
        requires
            p == a.num * b.den,
    ;
    assert(b.num * (a.den * divisor) == q * divisor) by (nonlinear_arith)
        requires
            q == b.num * a.den,
    ;
    assert forall|c: nat|
        m * #[trigger] (p * c) <= m * (q * c) + k * (q * c) && m * (q * c) <= m * (p * c) + k * (q
            * c) by {
        assert(m * (p * c) <= m * (q * c) + k * (q * c) && m * (q * c) <= m * (p * c) + k * (q * c))
            by (nonlinear_arith)
            requires
                m * p <= m * q + k * q,
                m * q <= m * p + k * q,
        ;
    }
    assert(m * (p * factor) <= m * (q * factor) + k * (q * factor));
    assert(m * (p * divisor) <= m * (q * divisor) + k * (q * divisor));
}

proof fn lemma_close_on(z: Ratio, y: Ratio, x: Ratio, k: nat)
    requires
        z.den > 0,
        y.den > 0,
        x.den > 0,
        close(z, y, 1),
        close(y, x, k),
        k <= 100,
    ensures
        close(z, x, k + 2),
{
    let m: int = 0x20_0000_0000_0000;
    let zy = z.num * y.den;
    let yz = y.num * z.den;
    let yx = y.num * x.den;
    let xy = x.num * y.den;
    let zx = z.num * x.den;
    let xz = x.num * z.den;
    let d = y.den;
    assert(zx * d == x.den * zy) by (nonlinear_arith)
        requires
            zx == z.num * x.den,
            zy == z.num * y.den,
            d == y.den,
    ;
    assert(x.den * yz == z.den * yx) by (nonlinear_arith)
        requires
            yz == y.num * z.den,
            yx == y.num * x.den,
    ;
    assert(xz * d == z.den * xy) by (nonlinear_arith)
        requires
            xz == x.num * z.den,
            xy == x.num * y.den,
            d == y.den,
    ;
    assert(m * (x.den * zy) <= m * (x.den * yz) + x.den * yz) by (nonlinear_arith)
        requires
            m * zy <= m * yz + yz,
    ;
    assert(m * (x.den * yz) <= m * (x.den * zy) + x.den * yz) by (nonlinear_arith)
        requires
            m * yz <= m * zy + yz,
    ;
    assert(m * (z.den * yx) <= m * (z.den * xy) + k * (z.den * xy)) by (nonlinear_arith)
        requires
            m * yx <= m * xy + k * xy,
    ;
    assert(m * (z.den * xy) <= m * (z.den * yx) + k * (z.den * xy)) by (nonlinear_arith)
        requires
            m * xy <= m * yx + k * xy,
    ;
    let u = z.den * yx;
    let v = z.den * xy;
    assert(u <= 2 * v) by (nonlinear_arith)
        requires
            m * u <= m * v + k * v,
            k <= 100,
            m == 0x20_0000_0000_0000int,
            v >= 0,
    ;
    assert((k + 2) * v == k * v + 2 * v) by (nonlinear_arith);
    assert(m * (zx * d) <= m * (xz * d) + (k + 2) * (xz * d));
    assert(m * (xz * d) <= m * (zx * d) + (k + 2) * (xz * d));
    assert(m * zx <= m * xz + (k + 2) * xz && m * xz <= m * zx + (k + 2) * xz) by (nonlinear_arith)
        requires
            m * (zx * d) <= m * (xz * d) + (k + 2) * (xz * d),
            m * (xz * d) <= m * (zx * d) + (k + 2) * (xz * d),
            d > 0,
    ;
}

proof fn lemma_close_floor(a: Ratio, b: Ratio)
    requires
        a.den > 0,
        b.den > 0,
        close(a, b, 5),
    ensures
        b.num / b.den <= u32::MAX ==> a.num / a.den <= b.num / b.den + 1 && b.num / b.den <= a.num
            / a.den + 1,
        b.num / b.den > u32::MAX + 1 ==> a.num / a.den > u32::MAX,
{
    let m: int = 0x20_0000_0000_0000;
    let f = (b.num / b.den) as int;
    let g = (a.num / a.den) as int;
    vstd::arithmetic::div_mod::lemma_fundamental_div_mod(b.num as int, b.den as int);
    vstd::arithmetic::div_mod::lemma_mod_bound(b.num as int, b.den as int);
    vstd::arithmetic::div_mod::lemma_fundamental_div_mod(a.num as int, a.den as int);
    vstd::arithmetic::div_mod::lemma_mod_bound(a.num as int, a.den as int);
    let bn = b.num as int;
    let bd = b.den as int;
    let an = a.num as int;
    let ad = a.den as int;
    assert(f * bd <= bn < (f + 1) * bd) by (nonlinear_arith)
        requires
            bn == bd * f + bn % bd,
            0 <= bn % bd < bd,
    ;
    assert(g * ad <= an < (g + 1) * ad) by (nonlinear_arith)
        requires
            an == ad * g + an % ad,
            0 <= an % ad < ad,
    ;
    let p = an * bd;
    let q = bn * ad;
    let w = ad * bd;
    assert(w > 0) by (nonlinear_arith)
        requires
            w == ad * bd,
            ad > 0,
            bd > 0,
    ;
    assert(f * w <= q < (f + 1) * w) by (nonlinear_arith)
        requires
            f * bd <= bn < (f + 1) * bd,
            q == bn * ad,
            w == ad * bd,
            ad > 0,
    ;
    assert(g * w <= p < (g + 1) * w) by (nonlinear_arith)
        requires
            g * ad <= an < (g + 1) * ad,
            p == an * bd,
            w == ad * bd,
            bd > 0,
    ;
    assert(m * p <= m * q + 5 * q && m * q <= m * p + 5 * q);
    if f <= u32::MAX {
        assert(5 * q < m * w) by (nonlinear_arith)
            requires
                q < (f + 1) * w,
                f <= 0xffff_ffff,
                w > 0,
                m == 0x20_0000_0000_0000int,
        ;
        assert(p < q + w && q < p + w);
        assert(g < f + 2) by (nonlinear_arith)
            requires
                g * w <= p,
                p < q + w,
                q < (f + 1) * w,
                w > 0,
        ;
        assert(f < g + 2) by (nonlinear_arith)
            requires
                f * w <= q,
                q < p + w,
                p < (g + 1) * w,
                w > 0,
        ;
    }
    if f > u32::MAX + 1 {
        assert(g > u32::MAX) by (nonlinear_arith)
            requires
                f >= 0x1_0000_0001,
                f * w <= q,
                m * q <= m * p + 5 * q,
                p < (g + 1) * w,
                w > 0,
                m == 0x20_0000_0000_0000int,
        ;
    }
}

/// A quantity that is not negative is its digits times its power of ten times its unit, cut
/// to a whole number. Double precision puts it off by one at most, however many digits
/// there are; what is beyond the range is the largest number.
pub proof fn law_quantities_are_off_by_one_at_most(
    digits: Seq<char>,
    exponent: int,
    factor: nat,
    divisor: nat,
)
    requires
        divisor > 0,
    ensures
        ({
            let shift = if exponent >= 0 {
                ten_to(exponent as nat)
            } else {
                1
            };
            let cut = if exponent >= 0 {
                1
            } else {
                ten_to((-exponent) as nat)
            };
            let exact = (digits_value(digits) * shift * factor) / (cut * divisor);
            let whole = whole_units(
                Some((Numeral::Finite { negative: false, digits, exponent })),
                (factor, divisor),
            );
            &&& exact < u32::MAX ==> whole <= exact + 1 && exact <= whole + 1
            &&& exact > u32::MAX + 1 ==> whole == u32::MAX
        }),
{
    let x = decimal(digits, exponent);
    lemma_ten_to_positive(exponent as nat);
    lemma_ten_to_positive((-exponent) as nat);
    assert(digits_value(digits) * 1 == digits_value(digits)) by (nonlinear_arith);
    assert(1 * divisor == divisor);
    let read = rounded(x);
    lemma_rounded_close(x);
    let product = Ratio { num: read.num * factor, den: read.den };
    let exact_product = Ratio { num: x.num * factor, den: x.den };
    lemma_close_scaled(read, x, 1, factor, divisor);
    lemma_rounded_close(product);
    let second = rounded(product);
    lemma_close_on(second, product, exact_product, 1);
    let quotient = Ratio { num: second.num, den: second.den * divisor };
    let exact = Ratio { num: exact_product.num, den: exact_product.den * divisor };
    lemma_close_scaled(second, exact_product, 3, factor, divisor);
    assert(quotient.den > 0 && exact.den > 0) by (nonlinear_arith)
        requires
            quotient.den == second.den * divisor,
            exact.den == exact_product.den * divisor,
            second.den > 0,
            exact_product.den > 0,
            divisor > 0,
    ;
    lemma_rounded_close(quotient);
    let third = rounded(quotient);
    lemma_close_on(third, quotient, exact, 3);
    lemma_close_floor(third, exact);
    assert(third == scaled(x, factor, divisor));
}

proof fn lemma_ten_to_positive(n: nat)
    ensures
        ten_to(n) > 0,
    decreases n,
{
    if n > 0 {
        lemma_ten_to_positive((n - 1) as nat);
    }
}

} // verus!
