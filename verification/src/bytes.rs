//! Byte-sequence primitives: substring search, prefix tests, ASCII case
//! folding and decimal parsing, each specified against a direct mathematical
//! definition.

use vstd::prelude::*;
use vstd::slice::slice_index_get;

verus! {

/// `pat` occurs in `text` at position `i`.
pub open spec fn match_at(text: Seq<u8>, pat: Seq<u8>, i: int) -> bool {
    &&& 0 <= i
    &&& i + pat.len() <= text.len()
    &&& text.subrange(i, i + pat.len()) == pat
}

/// The position of the first occurrence of `pat` in `text` at or after `from`.
pub open spec fn find_from(text: Seq<u8>, pat: Seq<u8>, from: int) -> Option<int>
    decreases text.len() - from
        when 0 <= from && 1 <= pat.len()
{
    if from + pat.len() > text.len() {
        None
    } else if match_at(text, pat, from) {
        Some(from)
    } else {
        find_from(text, pat, from + 1)
    }
}

/// `pat` occurs somewhere in `text`.
pub open spec fn contains_sub(text: Seq<u8>, pat: Seq<u8>) -> bool {
    exists|i: int| match_at(text, pat, i)
}

/// `find_from` returns the first match: a position at or after `from` that
/// matches, with no match before it; `None` only when nothing at or after
/// `from` matches.
pub proof fn lemma_find_from_first(text: Seq<u8>, pat: Seq<u8>, from: int)
    requires
        0 <= from,
        1 <= pat.len(),
    ensures
        (match find_from(text, pat, from) {
            Some(i) => {
                &&& from <= i
                &&& match_at(text, pat, i)
                &&& forall|j: int| from <= j < i ==> !match_at(text, pat, j)
            },
            None => forall|j: int| from <= j ==> !match_at(text, pat, j),
        }),
    decreases text.len() - from,
{
    if from + pat.len() > text.len() {
    } else if match_at(text, pat, from) {
    } else {
        lemma_find_from_first(text, pat, from + 1);
    }
}

/// A match at `i` with no match at or after `from` before it pins
/// `find_from` down to `i`.
pub proof fn lemma_find_from_exact(text: Seq<u8>, pat: Seq<u8>, from: int, i: int)
    requires
        0 <= from <= i,
        1 <= pat.len(),
        match_at(text, pat, i),
        forall|j: int| from <= j < i ==> !match_at(text, pat, j),
    ensures
        find_from(text, pat, from) == Some(i),
{
    lemma_find_from_first(text, pat, from);
    match find_from(text, pat, from) {
        None => {
            assert(!match_at(text, pat, i));
        },
        Some(i2) => {
            if i2 < i {
                assert(!match_at(text, pat, i2));
            }
            if i2 > i {
                assert(!match_at(text, pat, i));
            }
        },
    }
}

/// A match position beyond an untouched prefix matches in the suffix alone.
pub proof fn lemma_match_shift(a: Seq<u8>, b: Seq<u8>, pat: Seq<u8>, j: int)
    requires
        0 <= j,
    ensures
        match_at(a + b, pat, a.len() + j) == match_at(b, pat, j),
{
    if j + pat.len() <= b.len() {
        assert((a + b).subrange(a.len() + j, a.len() + j + pat.len()) =~= b.subrange(
            j,
            j + pat.len(),
        ));
    }
}

/// The first match beyond an untouched prefix is the suffix's first match,
/// shifted by the prefix's length.
pub proof fn lemma_find_shift(a: Seq<u8>, b: Seq<u8>, pat: Seq<u8>, k: int)
    requires
        0 <= k,
        1 <= pat.len(),
    ensures
        (match find_from(b, pat, k) {
            Some(i) => find_from(a + b, pat, a.len() + k) == Some(a.len() + i),
            None => find_from(a + b, pat, a.len() + k) is None,
        }),
{
    lemma_find_from_first(b, pat, k);
    match find_from(b, pat, k) {
        Some(i) => {
            lemma_match_shift(a, b, pat, i);
            assert forall|j: int| a.len() + k <= j < a.len() + i implies !match_at(
                a + b,
                pat,
                j,
            ) by {
                lemma_match_shift(a, b, pat, j - a.len());
            }
            lemma_find_from_exact(a + b, pat, a.len() + k, a.len() + i);
        },
        None => {
            lemma_find_from_first(a + b, pat, a.len() + k);
            match find_from(a + b, pat, a.len() + k) {
                Some(m) => {
                    lemma_match_shift(a, b, pat, m - a.len());
                    assert(!match_at(b, pat, m - a.len()));
                },
                None => {},
            }
        },
    }
}

/// `pat` occurs at position `i` of `text`, checked byte by byte.
pub fn is_match_at(text: &[u8], pat: &[u8], i: usize) -> (r: bool)
    requires
        i + pat@.len() <= text@.len(),
    ensures
        r == match_at(text@, pat@, i as int),
{
    let n = text.len();
    let m = pat.len();
    let mut k: usize = 0;
    while k < m
        invariant
            0 <= k <= m,
            m == pat@.len(),
            n == text@.len(),
            i + m <= n,
            forall|j: int| 0 <= j < k ==> text@[i + j] == pat@[j],
        decreases m - k,
    {
        if *slice_index_get(text, i + k) != *slice_index_get(pat, k) {
            assert(text@.subrange(i as int, i + m) != pat@) by {
                assert(text@.subrange(i as int, i + m)[k as int] != pat@[k as int]);
            }
            return false;
        }
        k = k + 1;
    }
    assert(text@.subrange(i as int, i + m) =~= pat@);
    true
}

/// First occurrence of `pat` in `text` at or after `from`, by forward scan.
pub fn find_sub(text: &[u8], pat: &[u8], from: usize) -> (r: Option<usize>)
    requires
        1 <= pat@.len(),
    ensures
        (match r {
            Some(i) => find_from(text@, pat@, from as int) == Some(i as int),
            None => find_from(text@, pat@, from as int) is None,
        }),
{
    let n = text.len();
    let m = pat.len();
    if m > n {
        return None;
    }
    let mut i = from;
    while i <= n - m
        invariant
            from <= i,
            m <= n,
            n == text@.len(),
            m == pat@.len(),
            1 <= m,
            find_from(text@, pat@, from as int) == find_from(text@, pat@, i as int),
        decreases n - i,
    {
        if is_match_at(text, pat, i) {
            return Some(i);
        }
        i = i + 1;
    }
    None
}

/// `pat` occurs somewhere in `text`, by forward scan.
pub fn has_sub(text: &[u8], pat: &[u8]) -> (r: bool)
    requires
        1 <= pat@.len(),
    ensures
        r == contains_sub(text@, pat@),
{
    proof {
        lemma_find_from_first(text@, pat@, 0);
    }
    match find_sub(text, pat, 0) {
        Some(i) => {
            assert(match_at(text@, pat@, i as int));
            true
        },
        None => {
            assert(forall|j: int| match_at(text@, pat@, j) ==> 0 <= j);
            false
        },
    }
}

/// `pre` is a prefix of `s`.
pub open spec fn prefix_of(pre: Seq<u8>, s: Seq<u8>) -> bool {
    match_at(s, pre, 0)
}

/// `pre` is a prefix of `s`, checked byte by byte.
pub fn is_prefix(pre: &[u8], s: &[u8]) -> (r: bool)
    ensures
        r == prefix_of(pre@, s@),
{
    if pre.len() > s.len() {
        return false;
    }
    is_match_at(s, pre, 0)
}

/// One byte folded to ASCII lower case.
pub open spec fn fold_byte(c: u8) -> u8 {
    if 'A' as u8 <= c && c <= 'Z' as u8 {
        (c + 32) as u8
    } else {
        c
    }
}

/// A byte sequence folded to ASCII lower case.
pub open spec fn fold_lower(s: Seq<u8>) -> Seq<u8> {
    s.map(|_i: int, c: u8| fold_byte(c))
}

/// Folds every byte of `s` to ASCII lower case.
pub fn fold_lower_vec(s: &[u8]) -> (r: Vec<u8>)
    ensures
        r@ == fold_lower(s@),
{
    let n = s.len();
    let mut out: Vec<u8> = Vec::new();
    let mut i: usize = 0;
    while i < n
        invariant
            0 <= i <= n,
            n == s@.len(),
            out@.len() == i,
            forall|j: int| 0 <= j < i ==> out@[j] == fold_byte(s@[j]),
        decreases n - i,
    {
        let c = *slice_index_get(s, i);
        if 65 <= c && c <= 90 {
            out.push(c + 32);
        } else {
            out.push(c);
        }
        i = i + 1;
    }
    assert(out@ =~= fold_lower(s@));
    out
}

/// `c` is an ASCII decimal digit.
pub open spec fn is_digit(c: u8) -> bool {
    '0' as u8 <= c && c <= '9' as u8
}

/// The value of the digit `c`.
pub open spec fn digit_val(c: u8) -> int {
    c - '0' as u8
}

/// Every byte of `s` is an ASCII decimal digit.
pub open spec fn all_digits(s: Seq<u8>) -> bool {
    forall|i: int| 0 <= i < s.len() ==> is_digit(#[trigger] s[i])
}

/// The value of `s` read as a decimal numeral.
pub open spec fn dec_value(s: Seq<u8>) -> int
    decreases s.len(),
{
    if s.len() == 0 {
        0
    } else {
        dec_value(s.drop_last()) * 10 + digit_val(s.last())
    }
}

/// A decimal numeral's value is nonnegative.
pub proof fn lemma_dec_value_nonneg(s: Seq<u8>)
    requires
        all_digits(s),
    ensures
        dec_value(s) >= 0,
    decreases s.len(),
{
    if s.len() > 0 {
        lemma_dec_value_nonneg(s.drop_last());
    }
}

/// Extending a numeral on the right never decreases its value.
pub proof fn lemma_dec_value_extend(s: Seq<u8>, n: int)
    requires
        all_digits(s),
        0 <= n <= s.len(),
    ensures
        dec_value(s.subrange(0, n)) <= dec_value(s),
    decreases s.len() - n,
{
    if n < s.len() {
        lemma_dec_value_extend(s, n + 1);
        let t = s.subrange(0, n + 1);
        assert(t.drop_last() =~= s.subrange(0, n));
        lemma_dec_value_nonneg(t.drop_last());
        assert(dec_value(t) == dec_value(s.subrange(0, n)) * 10 + digit_val(t.last()));
    } else {
        assert(s.subrange(0, n) =~= s);
    }
}

/// The decimal numeral of `n`, most significant digit first.
pub open spec fn dec_digits(n: int) -> Seq<u8>
    decreases n
        when 0 <= n
{
    if n < 10 {
        seq![(48 + n) as u8]
    } else {
        dec_digits(n / 10).push((48 + (n % 10)) as u8)
    }
}

/// A decimal numeral holds digits only and reads back as its value.
pub proof fn lemma_dec_digits_value(n: int)
    requires
        0 <= n,
    ensures
        all_digits(dec_digits(n)),
        dec_digits(n).len() >= 1,
        dec_value(dec_digits(n)) == n,
    decreases n,
{
    if n < 10 {
        let d = dec_digits(n);
        assert(d == seq![(48 + n) as u8]);
        assert(d.drop_last() =~= Seq::<u8>::empty());
        assert(dec_value(d) == dec_value(d.drop_last()) * 10 + digit_val(d.last()));
        assert(forall|i: int| 0 <= i < d.len() ==> is_digit(#[trigger] d[i]));
    } else {
        lemma_dec_digits_value(n / 10);
        let p = dec_digits(n / 10);
        let c = (48 + (n % 10)) as u8;
        let d = dec_digits(n);
        assert(d == p.push(c));
        assert(p.push(c).drop_last() =~= p);
        assert(p.push(c).last() == c);
        assert(dec_value(d) == dec_value(p) * 10 + digit_val(c));
        assert(dec_value(d) == n);
        assert forall|i: int| 0 <= i < d.len() implies is_digit(#[trigger] d[i]) by {
            if i < p.len() {
                assert(p.push(c)[i] == p[i]);
            } else {
                assert(p.push(c)[p.len() as int] == c);
            }
        }
    }
}

/// Appends the decimal numeral of `n`, most significant digit first.
pub fn push_decimal(n: usize, out: &mut Vec<u8>)
    ensures
        final(out)@ == old(out)@ + dec_digits(n as int),
    decreases n,
{
    if n < 10 {
        out.push(48 + (n as u8));
        proof {
            assert(out@ =~= old(out)@ + dec_digits(n as int));
        }

    } else {
        push_decimal(n / 10, out);
        out.push(48 + ((n % 10) as u8));
        proof {
            assert(out@ =~= old(out)@ + dec_digits(n as int));
        }
    }
}

/// Reads `s` as a decimal numeral. Returns the value exactly when `s` is
/// nonempty, holds digits only, and its value fits in `usize`.
pub fn parse_usize(s: &[u8]) -> (r: Option<usize>)
    ensures
        (match r {
            Some(v) => {
                &&& s@.len() >= 1
                &&& all_digits(s@)
                &&& v as int == dec_value(s@)
            },
            None => s@.len() == 0 || !all_digits(s@) || dec_value(s@) > usize::MAX,
        }),
{
    let n = s.len();
    if n == 0 {
        return None;
    }
    let mut acc: usize = 0;
    let mut i: usize = 0;
    while i < n
        invariant
            0 <= i <= n,
            n == s@.len(),
            all_digits(s@.subrange(0, i as int)),
            acc as int == dec_value(s@.subrange(0, i as int)),
        decreases n - i,
    {
        let c = *slice_index_get(s, i);
        if c < 48 || c > 57 {
            assert(!all_digits(s@)) by {
                assert(!is_digit(s@[i as int]));
            }
            return None;
        }
        let d = (c - 48) as usize;
        proof {
            assert(s@.subrange(0, i + 1).drop_last() =~= s@.subrange(0, i as int));
            assert(all_digits(s@.subrange(0, i + 1)));
        }
        if acc > (usize::MAX - d) / 10 {
            proof {
                assert((acc as int) * 10 + d as int > usize::MAX as int) by (nonlinear_arith)
                    requires
                        acc as int > (usize::MAX as int - d as int) / 10,
                        0 <= d as int <= 9,
                {}
                if all_digits(s@) {
                    lemma_dec_value_extend(s@, i + 1);
                }
            }
            return None;
        }
        proof {
            assert((acc as int) * 10 + d as int <= usize::MAX as int) by (nonlinear_arith)
                requires
                    acc as int <= (usize::MAX as int - d as int) / 10,
                    0 <= d as int <= 9,
            {}
        }
        acc = acc * 10 + d;
        i = i + 1;
    }
    proof {
        assert(s@.subrange(0, n as int) =~= s@);
    }
    Some(acc)
}

} // verus!
