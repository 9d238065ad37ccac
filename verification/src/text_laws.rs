//! What holds of operations on text.

use crate::text::{
    find, joined, lemma_trim_ends, precedes, same_ignoring_case, trim, trim_end, trim_start,
    views, white_space,
};
use vstd::prelude::*;

verus! {

/// The code point `c` in lower case, where it is an ASCII capital letter.
pub open spec fn lower(c: char) -> int {
    if 65 <= c as int <= 90 {
        c as int + 32
    } else {
        c as int
    }
}

/// Two texts are the same but for case exactly where they are the same in lower case.
pub proof fn law_case_is_all_that_is_ignored(a: Seq<char>, b: Seq<char>)
    ensures
        same_ignoring_case(a, b) <==> a.len() == b.len() && forall|i: int|
            0 <= i < a.len() ==> #[trigger] lower(a[i]) == #[trigger] lower(b[i]),
{
    if same_ignoring_case(a, b) {
        assert forall|i: int| 0 <= i < a.len() implies #[trigger] lower(a[i]) == #[trigger] lower(
            b[i],
        ) by {
            assert(crate::text::same_letter(a[i], b[i]));
        }
    }
    if a.len() == b.len() && forall|i: int|
        0 <= i < a.len() ==> #[trigger] lower(a[i]) == #[trigger] lower(b[i]) {
        assert forall|i: int| 0 <= i < a.len() implies crate::text::same_letter(a[i], b[i]) by {
            assert(lower(a[i]) == lower(b[i]));
        }
    }
}

/// Strings are ordered by the first character in which they differ.
pub proof fn law_order_is_decided_by_the_first_difference(a: Seq<char>, b: Seq<char>, k: int)
    requires
        0 <= k < a.len(),
        k < b.len(),
        a.take(k) == b.take(k),
        a[k] != b[k],
    ensures
        precedes(a, b) <==> (a[k] as int) < (b[k] as int),
    decreases k,
{
    if k > 0 {
        assert forall|i: int| 0 <= i < k implies a[i] == b[i] by {
            assert(a.take(k)[i] == a[i] && b.take(k)[i] == b[i]);
        }
        let c = a.subrange(1, a.len() as int);
        let d = b.subrange(1, b.len() as int);
        assert forall|i: int| 0 <= i < k - 1 implies c[i] == d[i] by {
            assert(a[i + 1] == b[i + 1]);
        }
        assert(c.take(k - 1) == d.take(k - 1));
        law_order_is_decided_by_the_first_difference(c, d, k - 1);
    }
}

/// A text comes before everything that prolongs it, and after nothing that it prolongs.
pub proof fn law_prefixes_come_first(a: Seq<char>, tail: Seq<char>)
    ensures
        precedes(a, a + tail) <==> tail.len() > 0,
        !precedes(a + tail, a),
    decreases a.len(),
{
    if a.len() > 0 {
        let c = a.subrange(1, a.len() as int);
        assert((a + tail).subrange(1, (a + tail).len() as int) == c + tail);
        law_prefixes_come_first(c, tail);
    } else {
        assert(a + tail == tail);
    }
}

/// White space is the blank, the tab, the line breaks, and Unicode's other spaces.
pub proof fn law_white_space(c: char)
    ensures
        (c as int) < 128 ==> (white_space(c) <==> 9 <= c as int <= 13 || c as int == 32),
        128 <= c as int ==> (white_space(c) <==> c as int == 0x85 || c as int == 0xa0 || c as int
            == 0x1680 || 0x2000 <= c as int <= 0x200a || c as int == 0x2028 || c as int == 0x2029
            || c as int == 0x202f || c as int == 0x205f || c as int == 0x3000),
{
}

proof fn lemma_start(s: Seq<char>) -> (i: int)
    ensures
        0 <= i <= s.len(),
        trim_start(s) == s.skip(i),
        forall|k: int| 0 <= k < i ==> white_space(#[trigger] s[k]),
    decreases s.len(),
{
    if s.len() > 0 && white_space(s[0]) {
        let t = s.subrange(1, s.len() as int);
        let i = lemma_start(t);
        assert(t.skip(i) == s.skip(i + 1));
        assert forall|k: int| 0 <= k < i + 1 implies white_space(#[trigger] s[k]) by {
            if k > 0 {
                assert(t[k - 1] == s[k]);
            }
        }
        i + 1
    } else {
        assert(s.skip(0) == s);
        0
    }
}

proof fn lemma_end(s: Seq<char>) -> (j: int)
    ensures
        0 <= j <= s.len(),
        trim_end(s) == s.take(j),
        forall|k: int| j <= k < s.len() ==> white_space(#[trigger] s[k]),
    decreases s.len(),
{
    if s.len() > 0 && white_space(s.last()) {
        let j = lemma_end(s.drop_last());
        assert(s.drop_last().take(j) == s.take(j));
        assert forall|k: int| j <= k < s.len() implies white_space(#[trigger] s[k]) by {
            if k < s.len() - 1 {
                assert(s.drop_last()[k] == s[k]);
            }
        }
        j
    } else {
        assert(s.take(s.len() as int) == s);
        s.len() as int
    }
}

/// Trimming takes white space off both ends and nothing else: the text is white space,
/// the trimmed text, and white space, and the trimmed text has none at its ends.
pub proof fn law_trimming_takes_only_white_space(s: Seq<char>)
    ensures
        exists|i: int, j: int|
            0 <= i <= j <= s.len() && trim(s) == #[trigger] s.subrange(i, j) && (forall|k: int|
                0 <= k < i || j <= k < s.len() ==> white_space(#[trigger] s[k])),
        trim(s).len() > 0 ==> !white_space(trim(s)[0]) && !white_space(trim(s).last()),
{
    let i = lemma_start(s);
    let t = s.skip(i);
    let j = lemma_end(t);
    assert(t.take(j) == s.subrange(i, i + j));
    assert forall|k: int| 0 <= k < i || i + j <= k < s.len() implies white_space(
        #[trigger] s[k],
    ) by {
        if k >= i {
            assert(t[k - i] == s[k]);
        }
    }
    lemma_trim_ends(s);
}

/// The place that is found holds the pattern, and no earlier one does; where nothing is
/// found, no place does.
pub proof fn law_first_occurrence_is_found(s: Seq<char>, pattern: Seq<char>)
    ensures
        match find(s, pattern) {
            Some(i) => {
                &&& 0 <= i && i + pattern.len() <= s.len()
                &&& s.subrange(i, i + pattern.len()) == pattern
                &&& forall|j: int| 0 <= j < i ==> #[trigger] s.subrange(j, j + pattern.len()) != pattern
            },
            None => forall|j: int|
                0 <= j && j + pattern.len() <= s.len() ==> #[trigger] s.subrange(
                    j,
                    j + pattern.len(),
                ) != pattern,
        },
    decreases s.len(),
{
    let n = pattern.len() as int;
    if s.len() >= n {
        assert(s.take(n) == s.subrange(0, n));
        if s.take(n) != pattern && s.len() > 0 {
            let t = s.skip(1);
            law_first_occurrence_is_found(t, pattern);
            match find(t, pattern) {
                Some(i) => {
                    assert(t.subrange(i, i + n) == s.subrange(i + 1, i + 1 + n));
                    assert forall|j: int| 0 <= j < i + 1 implies #[trigger] s.subrange(j, j + n)
                        != pattern by {
                        if j > 0 {
                            assert(t.subrange(j - 1, j - 1 + n) == s.subrange(j, j + n));
                        }
                    }
                },
                None => {
                    assert forall|j: int| 0 <= j && j + n <= s.len() implies #[trigger] s.subrange(
                        j,
                        j + n,
                    ) != pattern by {
                        if j > 0 {
                            assert(t.subrange(j - 1, j - 1 + n) == s.subrange(j, j + n));
                        }
                    }
                },
            }
        }
    }
}

/// Joining two lists is joining each, with a separator between the two.
pub proof fn law_joining_is_piecewise(a: Seq<Seq<char>>, b: Seq<Seq<char>>, separator: Seq<char>)
    ensures
        joined(Seq::empty(), separator) == Seq::<char>::empty(),
        a.len() == 1 ==> joined(a, separator) == a[0],
        a.len() > 0 && b.len() > 0 ==> joined(a + b, separator) == joined(a, separator) + separator
            + joined(b, separator),
    decreases b.len(),
{
    if a.len() > 0 && b.len() > 0 {
        assert((a + b).drop_last() == a + b.drop_last());
        assert((a + b).last() == b.last());
        if b.len() == 1 {
            assert(a + b.drop_last() == a);
        } else {
            law_joining_is_piecewise(a, b.drop_last(), separator);
            assert(joined(a + b, separator) =~= joined(a, separator) + separator + joined(
                b,
                separator,
            ));
        }
    }
}

/// The views of strings are theirs, one by one.
pub proof fn law_views_are_taken_one_by_one(s: Seq<String>, i: int)
    ensures
        views(s).len() == s.len(),
        0 <= i < s.len() ==> views(s)[i] == s[i]@,
{
}

} // verus!
