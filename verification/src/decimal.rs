//! Decimal numerals: the notation that Rust reads as a number, and what it denotes.

use crate::binary::Ratio;
use crate::text::{chars_of, copied, same_text_ignoring_case};
use vstd::prelude::*;

verus! {

/// What a text denotes in the notation of decimal numbers.
pub enum Numeral {
    Nan,
    Infinite { negative: bool },
    /// The number that `digits` write, times ten to the `exponent`.
    Finite { negative: bool, digits: Seq<char>, exponent: int },
}

/// `10^n`.
pub open spec fn ten_to(n: nat) -> nat
    decreases n,
{
    if n == 0 {
        1
    } else {
        10 * ten_to((n - 1) as nat)
    }
}

/// Whether `c` is a decimal digit.
pub open spec fn digit(c: char) -> bool {
    '0' <= c <= '9'
}

/// Whether `s` is made of decimal digits.
pub open spec fn all_digits(s: Seq<char>) -> bool {
    forall|i: int| 0 <= i < s.len() ==> digit(s[i])
}

/// The number that the digits `s` write.
pub open spec fn digits_value(s: Seq<char>) -> nat
    decreases s.len(),
{
    if s.len() == 0 {
        0
    } else {
        (10 * digits_value(s.drop_last()) + (s.last() as int - '0' as int)) as nat
    }
}

/// How many digits `s` starts with.
#[verifier::opaque]
pub open spec fn leading_digits(s: Seq<char>) -> nat
    decreases s.len(),
{
    if s.len() > 0 && digit(s[0]) {
        1 + leading_digits(s.skip(1))
    } else {
        0
    }
}

/// Whether `s` starts with a sign.
pub open spec fn signed(s: Seq<char>) -> bool {
    s.len() > 0 && (s[0] == '+' || s[0] == '-')
}

/// `s` without its sign.
pub open spec fn unsigned(s: Seq<char>) -> Seq<char> {
    if signed(s) {
        s.skip(1)
    } else {
        s
    }
}

/// Whether `s` starts with a minus sign.
pub open spec fn minus(s: Seq<char>) -> bool {
    s.len() > 0 && s[0] == '-'
}

/// The exponent that `s` writes: nothing for zero, else `e` or `E`, a sign or none, and digits.
#[verifier::opaque]
pub open spec fn exponent_part(s: Seq<char>) -> Option<int> {
    if s.len() == 0 {
        Some(0)
    } else if s[0] == 'e' || s[0] == 'E' {
        let digits = unsigned(s.skip(1));
        if digits.len() > 0 && all_digits(digits) {
            if minus(s.skip(1)) {
                Some(-(digits_value(digits) as int))
            } else {
                Some(digits_value(digits) as int)
            }
        } else {
            None
        }
    } else {
        None
    }
}

/// The number that `s` writes without a sign: digits with a point among them or
/// none, at least one digit in all, then an exponent part.
pub open spec fn unsigned_number(s: Seq<char>, negative: bool) -> Option<Numeral> {
    let whole = leading_digits(s);
    let after = s.skip(whole as int);
    let pointed = after.len() > 0 && after[0] == '.';
    let rest = if pointed {
        after.skip(1)
    } else {
        after
    };
    let places = if pointed {
        leading_digits(rest)
    } else {
        0
    };
    if whole + places == 0 {
        None
    } else {
        match exponent_part(rest.skip(places as int)) {
            None => None,
            Some(e) => Some(
                Numeral::Finite {
                    negative,
                    digits: s.take(whole as int) + rest.take(places as int),
                    exponent: e - places,
                },
            ),
        }
    }
}

/// What `s` denotes: `inf`, `infinity` and `nan` in any case, or a number, with a
/// sign or none. `None` where `s` is no numeral.
pub open spec fn numeral(s: Seq<char>) -> Option<Numeral> {
    let body = unsigned(s);
    if crate::text::same_ignoring_case(body, "inf"@) || crate::text::same_ignoring_case(
        body,
        "infinity"@,
    ) {
        Some(Numeral::Infinite { negative: minus(s) })
    } else if crate::text::same_ignoring_case(body, "nan"@) {
        Some(Numeral::Nan)
    } else {
        unsigned_number(body, minus(s))
    }
}

/// The number that `digits` write, times ten to the `exponent`.
pub open spec fn decimal(digits: Seq<char>, exponent: int) -> Ratio {
    if exponent >= 0 {
        Ratio { num: digits_value(digits) * ten_to(exponent as nat), den: 1 }
    } else {
        Ratio { num: digits_value(digits), den: ten_to((-exponent) as nat) }
    }
}

/// A numeral as read: its exponent is exact up to a magnitude far beyond any use.
pub enum ParsedNumeral {
    Nan,
    Infinite { negative: bool },
    Finite { negative: bool, digits: Vec<char>, exponent: i128 },
}

/// Whether `e` is `exponent`, or both are out of every relevant range on the same side.
pub open spec fn stands_for(e: i128, exponent: int) -> bool {
    ||| e == exponent
    ||| e >= 100_000_000_000_000_000_000_000_000_000i128 && exponent
        >= 100_000_000_000_000_000_000_000_000_000i128
    ||| e <= -100_000_000_000_000_000_000_000_000_000i128 && exponent
        <= -100_000_000_000_000_000_000_000_000_000i128
}

impl ParsedNumeral {
    /// Whether this is `n`.
    pub open spec fn reads(self, n: Numeral) -> bool {
        match (self, n) {
            (ParsedNumeral::Nan, Numeral::Nan) => true,
            (
                ParsedNumeral::Infinite { negative: a },
                Numeral::Infinite { negative: b },
            ) => a == b,
            (
                ParsedNumeral::Finite { negative: a, digits: d, exponent: e },
                Numeral::Finite { negative: b, digits, exponent },
            ) => a == b && d@ == digits && all_digits(digits) && stands_for(e, exponent),
            _ => false,
        }
    }
}

/// The run of digits at the start of `s` ends where a character is no digit.
pub proof fn lemma_leading_digits(s: Seq<char>, n: nat)
    requires
        n <= s.len(),
        forall|k: int| 0 <= k < n ==> digit(s[k]),
        n < s.len() ==> !digit(s[n as int]),
    ensures
        leading_digits(s) == n,
    decreases n,
{
    reveal(leading_digits);
    if n > 0 {
        lemma_leading_digits(s.skip(1), (n - 1) as nat);
    }
}

fn is_digit(c: char) -> (r: bool)
    ensures
        r == digit(c),
{
    '0' <= c && c <= '9'
}

/// The end of the run of digits that starts at `from`.
fn digits_end(chars: &Vec<char>, from: usize) -> (end: usize)
    requires
        from <= chars.len(),
    ensures
        from <= end <= chars.len(),
        end - from == leading_digits(chars@.skip(from as int)),
        forall|k: int| from <= k < end ==> digit(chars@[k]),
{
    let mut i: usize = from;
    while i < chars.len() && is_digit(chars[i])
        invariant
            from <= i <= chars.len(),
            forall|k: int| from <= k < i ==> digit(chars@[k]),
        decreases chars.len() - i,
    {
        i += 1;
    }
    proof {
        lemma_leading_digits(chars@.skip(from as int), (i - from) as nat);
    }
    i
}

/// The value of the digits from `from` on, at most `10^30`.
fn capped_value(chars: &Vec<char>, from: usize) -> (v: i128)
    requires
        from <= chars.len(),
        all_digits(chars@.skip(from as int)),
    ensures
        v == if digits_value(chars@.skip(from as int))
            <= 1_000_000_000_000_000_000_000_000_000_000i128 {
            digits_value(chars@.skip(from as int)) as int
        } else {
            1_000_000_000_000_000_000_000_000_000_000int
        },
{
    let mut v: i128 = 0;
    let mut i: usize = from;
    let ghost tail = chars@.skip(from as int);
    assert(tail.take(0) == Seq::<char>::empty());
    while i < chars.len()
        invariant
            from <= i <= chars.len(),
            tail == chars@.skip(from as int),
            all_digits(tail),
            v == if digits_value(tail.take(i - from))
                <= 1_000_000_000_000_000_000_000_000_000_000i128 {
                digits_value(tail.take(i - from)) as int
            } else {
                1_000_000_000_000_000_000_000_000_000_000int
            },
        decreases chars.len() - i,
    {
        let ghost next = tail.take(i + 1 - from);
        assert(next.drop_last() == tail.take(i - from));
        assert(digit(tail[i - from]));
        let d: u32 = chars[i] as u32 - '0' as u32;
        let w: i128 = v * 10 + d as i128;
        v = if w <= 1_000_000_000_000_000_000_000_000_000_000 {
            w
        } else {
            1_000_000_000_000_000_000_000_000_000_000
        };
        i += 1;
    }
    assert(tail.take(tail.len() as int) == tail);
    v
}

/// Reads the exponent part that starts at `from`.
fn parse_exponent(chars: &Vec<char>, from: usize) -> (r: Option<i128>)
    requires
        from <= chars.len(),
    ensures
        match (r, exponent_part(chars@.skip(from as int))) {
            (None, None) => true,
            (Some(e), Some(exponent)) => {
                ||| e == exponent
                ||| e == 1_000_000_000_000_000_000_000_000_000_000i128 && exponent >= e
                ||| e == -1_000_000_000_000_000_000_000_000_000_000i128 && exponent <= e
            },
            _ => false,
        },
        r matches Some(e) ==> -1_000_000_000_000_000_000_000_000_000_000i128 <= e
            <= 1_000_000_000_000_000_000_000_000_000_000i128,
{
    reveal(exponent_part);
    let ghost s = chars@.skip(from as int);
    let n: usize = chars.len();
    if from == n {
        return Some(0);
    }
    assert(s[0] == chars@[from as int]);
    if chars[from] != 'e' && chars[from] != 'E' {
        return None;
    }
    let mut start: usize = from + 1;
    let mut negative: bool = false;
    assert(s.skip(1) == chars@.skip(from + 1));
    if start < n && (chars[start] == '+' || chars[start] == '-') {
        negative = chars[start] == '-';
        start += 1;
        assert(s.skip(1).skip(1) == chars@.skip(start as int));
    }
    let ghost digits = unsigned(s.skip(1));
    assert(digits == chars@.skip(start as int));
    let end: usize = digits_end(chars, start);
    if start == n || end != n {
        proof {
            if start < n {
                assert(digits[end - start] == chars@[end as int]);
                assert(!digit(chars@[end as int])) by {
                    if digit(chars@[end as int]) {
                        lemma_longer_run(digits, (end - start) as nat);
                    }
                }
            }
        }
        return None;
    }
    assert(all_digits(digits));
    let v: i128 = capped_value(chars, start);
    if negative {
        Some(-v)
    } else {
        Some(v)
    }
}

proof fn lemma_longer_run(s: Seq<char>, n: nat)
    requires
        n == leading_digits(s),
        n < s.len(),
    ensures
        !digit(s[n as int]),
    decreases s.len(),
{
    reveal(leading_digits);
    if digit(s[0]) {
        lemma_longer_run(s.skip(1), (n - 1) as nat);
    }
}

/// Reads what `s` writes after its sign as a number.
fn parse_unsigned(chars: &Vec<char>, start: usize, negative: bool) -> (r: Option<ParsedNumeral>)
    requires
        start <= chars.len(),
    ensures
        match (r, unsigned_number(chars@.skip(start as int), negative)) {
            (None, None) => true,
            (Some(p), Some(n)) => p.reads(n),
            _ => false,
        },
{
    let ghost s = chars@.skip(start as int);
    let n: usize = chars.len();
    let whole_end: usize = digits_end(chars, start);
    let ghost after = s.skip(whole_end - start);
    assert(after == chars@.skip(whole_end as int));
    let pointed: bool = whole_end < n && chars[whole_end] == '.';
    let rest_start: usize = if pointed {
        whole_end + 1
    } else {
        whole_end
    };
    let ghost rest = if pointed {
        after.skip(1)
    } else {
        after
    };
    assert(rest == chars@.skip(rest_start as int));
    let rest_end: usize = if pointed {
        digits_end(chars, rest_start)
    } else {
        rest_start
    };
    let whole: usize = whole_end - start;
    let places: usize = rest_end - rest_start;
    if whole == 0 && places == 0 {
        return None;
    }
    assert(rest.skip(places as int) == chars@.skip(rest_end as int));
    let e: i128 = match parse_exponent(chars, rest_end) {
        None => {
            return None;
        },
        Some(e) => e,
    };
    let mut digits: Vec<char> = copied(chars, start, whole_end);
    let mut more: Vec<char> = copied(chars, rest_start, rest_end);
    digits.append(&mut more);
    proof {
        assert(s.take(whole as int) == chars@.subrange(start as int, whole_end as int));
        assert(rest.take(places as int) == chars@.subrange(rest_start as int, rest_end as int));
        let exponent = exponent_part(rest.skip(places as int))->0;
        assert(stands_for((e - places) as i128, exponent - places));
        assert forall|k: int| 0 <= k < digits@.len() implies digit(digits@[k]) by {
            if k < whole {
                assert(digits@[k] == chars@[start + k]);
            } else {
                assert(digits@[k] == chars@[rest_start + (k - whole)]);
            }
        }
        assert(unsigned_number(s, negative) == Some(
            Numeral::Finite { negative, digits: digits@, exponent: exponent - places },
        ));
    }
    Some(ParsedNumeral::Finite { negative, digits, exponent: e - places as i128 })
}

/// Reads `text` as a numeral.
pub fn parse_numeral(text: &str) -> (r: Option<ParsedNumeral>)
    ensures
        match (r, numeral(text@)) {
            (None, None) => true,
            (Some(p), Some(n)) => p.reads(n),
            _ => false,
        },
{
    let chars = chars_of(text);
    let n: usize = chars.len();
    let mut start: usize = 0;
    let mut negative: bool = false;
    assert(text@.skip(0) == text@);
    if n > 0 && (chars[0] == '+' || chars[0] == '-') {
        negative = chars[0] == '-';
        start = 1;
    }
    let body = text.substring_char(start, n);
    assert(text@.subrange(start as int, n as int) == text@.skip(start as int));
    if same_text_ignoring_case(body, "inf") || same_text_ignoring_case(body, "infinity") {
        Some(ParsedNumeral::Infinite { negative })
    } else if same_text_ignoring_case(body, "nan") {
        Some(ParsedNumeral::Nan)
    } else {
        parse_unsigned(&chars, start, negative)
    }
}

} // verus!
