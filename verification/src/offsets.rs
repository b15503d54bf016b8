//! Derivation of the segment-boundary offsets: the companion index is a
//! line-oriented text, each line `offset:auxiliary-fields`; the offsets are
//! the line prefixes, consecutive duplicates collapsed.  A cache artifact
//! holds one offset per line.

use vstd::prelude::*;
use vstd::slice::{slice_index_get, slice_subrange};
use crate::bytes::{
    all_digits, dec_digits, dec_value, find_from, find_sub, is_digit, lemma_find_from_first,
    match_at, parse_usize, push_decimal,
};
use crate::decompress::{bz_decompress, bz_ok_of, bz_plain_of};
use crate::error::DumpError;

verus! {

/// The newline byte, as a pattern.
pub open spec fn nl_pat() -> Seq<u8> {
    seq![10u8]
}

/// The offset/auxiliary separator byte, as a pattern.
pub open spec fn colon_pat() -> Seq<u8> {
    seq![58u8]
}

/// `line` with one trailing carriage-return byte removed.
pub open spec fn strip_cr(line: Seq<u8>) -> Seq<u8> {
    if line.len() >= 1 && line.last() == 13u8 {
        line.drop_last()
    } else {
        line
    }
}

/// The lines of `s` at or after position `pos`: split at each newline byte,
/// a carriage return stripped before it; a final line without a newline is
/// kept as it stands.
pub open spec fn lines_from(s: Seq<u8>, pos: int) -> Seq<Seq<u8>>
    decreases s.len() - pos
        when 0 <= pos
{
    if pos >= s.len() {
        Seq::empty()
    } else {
        match find_from(s, nl_pat(), pos) {
            Some(i) => {
                proof {
                    lemma_find_from_first(s, nl_pat(), pos);
                }
                seq![strip_cr(s.subrange(pos, i))] + lines_from(s, i + 1)
            },
            None => seq![s.subrange(pos, s.len() as int)],
        }
    }
}

/// The offset stated by one companion-index line: the digits before the
/// first separator, read as a decimal numeral; nothing when the separator
/// is missing, the prefix is not a numeral, or the value does not fit.
pub open spec fn line_offset(line: Seq<u8>) -> Option<usize> {
    match find_from(line, colon_pat(), 0) {
        None => None,
        Some(i) => {
            let digits = line.subrange(0, i);
            if digits.len() >= 1 && all_digits(digits) && dec_value(digits) <= usize::MAX {
                Some(dec_value(digits) as usize)
            } else {
                None
            }
        },
    }
}

/// The offsets stated by the companion-index lines, in order; nothing when
/// any line is malformed.
pub open spec fn index_offsets(lines: Seq<Seq<u8>>) -> Option<Seq<usize>>
    decreases lines.len(),
{
    if lines.len() == 0 {
        Some(Seq::empty())
    } else {
        match line_offset(lines[0]) {
            None => None,
            Some(n) => match index_offsets(lines.drop_first()) {
                None => None,
                Some(v) => Some(seq![n] + v),
            },
        }
    }
}

/// `s` with each run of consecutive equal values collapsed to one.
pub open spec fn dedup_consec(s: Seq<usize>) -> Seq<usize>
    decreases s.len(),
{
    if s.len() == 0 {
        Seq::empty()
    } else if s.len() >= 2 && s[s.len() - 2] == s.last() {
        dedup_consec(s.drop_last())
    } else {
        dedup_consec(s.drop_last()).push(s.last())
    }
}

/// The offset sequence derived from the plain (decompressed) companion
/// index: the per-line offsets with consecutive duplicates collapsed.
/// Nothing when a line is malformed, or when the index states no offset at
/// all: a usable sequence has at least one element.
pub open spec fn offsets_of_plain(plain: Seq<u8>) -> Option<Seq<usize>> {
    match index_offsets(lines_from(plain, 0)) {
        None => None,
        Some(ns) => if ns.len() == 0 {
            None
        } else {
            Some(dedup_consec(ns))
        },
    }
}

/// The offsets stated by the cache-artifact lines, one numeral per line;
/// nothing when any line is not a numeral that fits.
pub open spec fn cache_offsets(lines: Seq<Seq<u8>>) -> Option<Seq<usize>>
    decreases lines.len(),
{
    if lines.len() == 0 {
        Some(Seq::empty())
    } else {
        let line = lines[0];
        if line.len() >= 1 && all_digits(line) && dec_value(line) <= usize::MAX {
            match cache_offsets(lines.drop_first()) {
                None => None,
                Some(v) => Some(seq![dec_value(line) as usize] + v),
            }
        } else {
            None
        }
    }
}

/// The offset sequence stated by the cache artifact's bytes.
pub open spec fn cache_of_plain(s: Seq<u8>) -> Option<Seq<usize>> {
    cache_offsets(lines_from(s, 0))
}

/// A nonempty prefix of `s` deduplicates to a nonempty sequence that ends
/// in the last value of the prefix.
pub proof fn lemma_dedup_last(s: Seq<usize>)
    requires
        s.len() >= 1,
    ensures
        dedup_consec(s).len() >= 1,
        dedup_consec(s).last() == s.last(),
        dedup_consec(s).len() <= s.len(),
    decreases s.len(),
{
    reveal_with_fuel(dedup_consec, 2);
    if s.len() >= 2 {
        lemma_dedup_last(s.drop_last());
    }
}

/// No value of `s` enters the deduplicated sequence twice in a row: over a
/// nondecreasing input the result is strictly ascending.
pub proof fn lemma_dedup_strictly_ascending(s: Seq<usize>)
    requires
        forall|i: int, j: int| 0 <= i <= j < s.len() ==> #[trigger] s[i] <= #[trigger] s[j],
    ensures
        strictly_ascending(dedup_consec(s)),
    decreases s.len(),
{
    reveal_with_fuel(dedup_consec, 2);
    if s.len() >= 1 {
        let dl = s.drop_last();
        lemma_dedup_strictly_ascending(dl);
        if s.len() >= 2 && s[s.len() - 2] == s.last() {
        } else {
            let d = dedup_consec(dl);
            if dl.len() >= 1 {
                lemma_dedup_last(dl);
                assert(dl.last() == s[s.len() - 2]);
                assert(s[s.len() - 2] <= s.last());
                assert(d.last() < s.last());
            }
            let p = d.push(s.last());
            assert forall|i: int| 0 <= i && i + 1 < p.len() implies #[trigger] p[i] < p[i + 1] by {
                if i + 1 < d.len() {
                    assert(d.push(s.last())[i] == d[i]);
                    assert(d.push(s.last())[i + 1] == d[i + 1]);
                } else {
                    assert(i == d.len() - 1);
                    assert(d.push(s.last())[d.len() as int] == s.last());
                    assert(d.push(s.last())[i] == d[i]);
                }
            }
        }
    }
}

/// Every value of `s` is strictly below its successor.
pub open spec fn strictly_ascending(s: Seq<usize>) -> bool {
    forall|i: int| 0 <= i && i + 1 < s.len() ==> #[trigger] s[i] < s[i + 1]
}

/// In a strictly ascending sequence, earlier values are no larger.
pub proof fn lemma_ascending_le(s: Seq<usize>, i: int, j: int)
    requires
        strictly_ascending(s),
        0 <= i <= j < s.len(),
    ensures
        s[i] <= s[j],
    decreases j - i,
{
    if i < j {
        lemma_ascending_le(s, i + 1, j);
    }
}

/// The half-open ranges between consecutive offsets tile the span from the
/// first offset to the last: every position in the span lies in exactly one
/// range.
pub proof fn lemma_range_coverage(s: Seq<usize>, pos: int)
    requires
        strictly_ascending(s),
        s.len() >= 1,
        s[0] <= pos < s.last(),
    ensures
        exists|i: int| 0 <= i < s.len() - 1 && #[trigger] s[i] <= pos < s[i + 1],
        forall|i: int, j: int|
            0 <= i < s.len() - 1 && 0 <= j < s.len() - 1 && #[trigger] s[i] <= pos < s[i + 1]
                && #[trigger] s[j] <= pos < s[j + 1] ==> i == j,
    decreases s.len(),
{
    if s.len() >= 2 {
        if s[s.len() - 2] <= pos {
            assert(s[s.len() - 2] <= pos < s[s.len() - 1]);
        } else {
            let dl = s.drop_last();
            assert(strictly_ascending(dl)) by {
                assert forall|i: int| 0 <= i && i + 1 < dl.len() implies #[trigger] dl[i] < dl[i + 1] by {
                    assert(s.drop_last()[i] == s[i]);
                    assert(s.drop_last()[i + 1] == s[i + 1]);
                }
            }
            assert(dl.last() == s[s.len() - 2]);
            lemma_range_coverage(dl, pos);
            let w = choose|i: int| 0 <= i < dl.len() - 1 && #[trigger] dl[i] <= pos < dl[i + 1];
            assert(dl[w] == s[w] && dl[w + 1] == s[w + 1]);
            assert(s[w] <= pos < s[w + 1]);
        }
    }
    assert forall|i: int, j: int|
        0 <= i < s.len() - 1 && 0 <= j < s.len() - 1 && #[trigger] s[i] <= pos < s[i + 1]
            && #[trigger] s[j] <= pos < s[j + 1] implies i == j by {
        if i < j {
            lemma_ascending_le(s, i + 1, j);
        }
        if j < i {
            lemma_ascending_le(s, j + 1, i);
        }
    }
}

/// The ranges of a derived sequence tile its span: when the raw index
/// values are nondecreasing, the sequence they deduplicate to is strictly
/// ascending, and every position from its first value to its last lies in
/// exactly one consecutive-pair range.
pub proof fn lemma_derived_ranges_tile(ns: Seq<usize>, v: Seq<usize>, pos: int)
    requires
        forall|i: int, j: int| 0 <= i <= j < ns.len() ==> #[trigger] ns[i] <= #[trigger] ns[j],
        v == dedup_consec(ns),
        v.len() >= 1,
        v[0] <= pos < v.last(),
    ensures
        strictly_ascending(v),
        exists|i: int| 0 <= i < v.len() - 1 && #[trigger] v[i] <= pos < v[i + 1],
        forall|i: int, j: int|
            0 <= i < v.len() - 1 && 0 <= j < v.len() - 1 && #[trigger] v[i] <= pos < v[i + 1]
                && #[trigger] v[j] <= pos < v[j + 1] ==> i == j,
{
    lemma_dedup_strictly_ascending(ns);
    lemma_range_coverage(v, pos);
}

/// Deriving the offsets is a pure function of the companion index's plain
/// bytes: two derivations from the same bytes state the same sequence.
pub proof fn lemma_derivation_deterministic(plain: Seq<u8>, r1: Seq<usize>, r2: Seq<usize>)
    requires
        offsets_of_plain(plain) == Some(r1),
        offsets_of_plain(plain) == Some(r2),
    ensures
        r1 == r2,
{
}

/// Line splitting beyond an untouched prefix splits the suffix alone.
pub proof fn lemma_lines_shift(a: Seq<u8>, b: Seq<u8>, k: int)
    requires
        0 <= k,
    ensures
        lines_from(a + b, a.len() + k) == lines_from(b, k),
    decreases b.len() - k,
{
    if k >= b.len() {
    } else {
        crate::bytes::lemma_find_shift(a, b, nl_pat(), k);
        match find_from(b, nl_pat(), k) {
            Some(i) => {
                lemma_find_from_first(b, nl_pat(), k);
                lemma_lines_shift(a, b, i + 1);
                assert((a + b).subrange(a.len() + k, a.len() + i) =~= b.subrange(k, i));
            },
            None => {
                assert((a + b).subrange(a.len() + k, (a + b).len() as int) =~= b.subrange(
                    k,
                    b.len() as int,
                ));
            },
        }
    }
}

/// The cache artifact's bytes for an offset sequence: one decimal numeral
/// per line, each line ended by a newline byte.
pub open spec fn cache_encoding(s: Seq<usize>) -> Seq<u8>
    decreases s.len(),
{
    if s.len() == 0 {
        Seq::empty()
    } else {
        dec_digits(s[0] as int) + seq![10u8] + cache_encoding(s.drop_first())
    }
}

/// Writes an offset sequence as cache-artifact bytes.
pub fn encode_offsets(s: &[usize]) -> (r: Vec<u8>)
    ensures
        r@ == cache_encoding(s@),
{
    let n = s.len();
    let mut out: Vec<u8> = Vec::new();
    let mut i: usize = 0;
    proof {
        assert(s@.subrange(0, n as int) =~= s@);
    }
    while i < n
        invariant
            0 <= i <= n,
            n == s@.len(),
            cache_encoding(s@) == out@ + cache_encoding(s@.subrange(i as int, n as int)),
        decreases n - i,
    {
        let ghost old_out = out@;
        let ghost tail = s@.subrange(i as int, n as int);
        push_decimal(*slice_index_get(s, i), &mut out);
        out.push(10);
        proof {
            assert(tail[0] == s@[i as int]);
            assert(tail.drop_first() =~= s@.subrange(i + 1, n as int));
            assert(out@ =~= old_out + dec_digits(s@[i as int] as int) + seq![10u8]);
            assert(old_out + cache_encoding(tail) =~= (old_out + dec_digits(
                s@[i as int] as int,
            ) + seq![10u8]) + cache_encoding(s@.subrange(i + 1, n as int)));
        }
        i = i + 1;
    }
    proof {
        assert(cache_encoding(s@) =~= out@);
    }
    out
}

/// What was written is read back unchanged: encoding a sequence and
/// loading the bytes yields the very sequence, so a run that persists its
/// derived offsets and a later run that loads them agree.
pub proof fn lemma_cache_round_trip(s: Seq<usize>)
    ensures
        cache_of_plain(cache_encoding(s)) == Some(s),
    decreases s.len(),
{
    if s.len() == 0 {
        assert(Seq::<usize>::empty() =~= s);
    } else {
        let d = dec_digits(s[0] as int);
        crate::bytes::lemma_dec_digits_value(s[0] as int);
        let rest = cache_encoding(s.drop_first());
        let enc = cache_encoding(s);
        assert(enc == d + seq![10u8] + rest);
        let dl = d.len() as int;
        assert((d + seq![10u8])[dl] == 10u8);
        assert(enc[dl] == (d + seq![10u8])[dl]);
        assert(match_at(enc, nl_pat(), dl)) by {
            assert(enc.subrange(dl, dl + 1) =~= nl_pat());
        }
        assert forall|j: int| 0 <= j < dl implies !match_at(enc, nl_pat(), j) by {
            assert((d + seq![10u8])[j] == d[j]);
            assert(enc[j] == d[j]);
            assert(is_digit(d[j]));
            if match_at(enc, nl_pat(), j) {
                assert(enc.subrange(j, j + 1)[0] == enc[j]);
                assert(enc[j] == 10u8);
            }
        }
        crate::bytes::lemma_find_from_exact(enc, nl_pat(), 0, dl);
        assert(enc.subrange(0, dl) =~= d);
        assert(is_digit(d[dl - 1]));
        assert(strip_cr(d) == d);
        assert(enc =~= (d + seq![10u8]) + rest);
        lemma_lines_shift(d + seq![10u8], rest, 0);
        assert(lines_from(enc, dl + 1) == lines_from(rest, 0));
        assert(lines_from(enc, 0) == seq![d] + lines_from(rest, 0));
        lemma_cache_round_trip(s.drop_first());
        let lines = seq![d] + lines_from(rest, 0);
        assert(lines[0] == d);
        assert(lines.drop_first() =~= lines_from(rest, 0));
        assert(dec_value(d) == s[0] as int && dec_value(d) <= usize::MAX);
        assert(cache_offsets(lines) == Some(seq![s[0]] + s.drop_first()));
        assert(seq![s[0]] + s.drop_first() =~= s);
    }
}

/// Derives the offsets from the plain companion-index text: per line the
/// digits before the first separator, consecutive duplicates collapsed.
/// Succeeds exactly when every line is well formed and at least one offset
/// is stated, and then returns at least one element.
pub fn offsets_from_plain(plain: &[u8]) -> (r: Result<Vec<usize>, DumpError>)
    ensures
        (match r {
            Ok(v) => offsets_of_plain(plain@) == Some(v@) && v@.len() >= 1,
            Err(e) => e == DumpError::MalformedIndexLine && offsets_of_plain(plain@) is None,
        }),
{
    let n = plain.len();
    let mut nl_v: Vec<u8> = Vec::new();
    nl_v.push(10);
    let mut colon_v: Vec<u8> = Vec::new();
    colon_v.push(58);
    proof {
        assert(nl_v@ =~= nl_pat());
        assert(colon_v@ =~= colon_pat());
    }
    let mut out: Vec<usize> = Vec::new();
    let ghost mut raw: Seq<usize> = Seq::empty();
    let mut pos: usize = 0;
    while pos < n
        invariant
            0 <= pos <= n,
            n == plain@.len(),
            nl_v@ == nl_pat(),
            colon_v@ == colon_pat(),
            out@ == dedup_consec(raw),
            (match index_offsets(lines_from(plain@, pos as int)) {
                Some(rest) => index_offsets(lines_from(plain@, 0)) == Some(raw + rest),
                None => index_offsets(lines_from(plain@, 0)) is None,
            }),
        decreases n - pos,
    {
        let fr = find_sub(plain, nl_v.as_slice(), pos);
        let line_end: usize;
        let next_pos: usize;
        match fr {
            Some(i) => {
                proof {
                    lemma_find_from_first(plain@, nl_pat(), pos as int);
                }
                line_end = i;
                next_pos = i + 1;
            },
            None => {
                line_end = n;
                next_pos = n;
            },
        }
        let full = slice_subrange(plain, pos, line_end);
        let line: &[u8];
        if fr.is_some() && full.len() >= 1 && *slice_index_get(full, full.len() - 1) == 13 {
            line = slice_subrange(plain, pos, line_end - 1);
        } else {
            line = full;
        }
        let ghost lseq: Seq<u8> = if fr is Some {
            strip_cr(plain@.subrange(pos as int, line_end as int))
        } else {
            plain@.subrange(pos as int, n as int)
        };
        proof {
            if fr is Some && full@.len() >= 1 && full@.last() == 13 {
                assert(plain@.subrange(pos as int, line_end as int).drop_last() =~= plain@
                    .subrange(pos as int, line_end - 1));
            }
            assert(line@ == lseq);
            assert(lines_from(plain@, pos as int) == seq![lseq] + lines_from(
                plain@,
                next_pos as int,
            )) by {
                if fr is None {
                    assert(seq![lseq] + lines_from(plain@, next_pos as int) =~= seq![lseq]);
                }
            }
            assert((seq![lseq] + lines_from(plain@, next_pos as int))[0] == lseq);
            assert((seq![lseq] + lines_from(plain@, next_pos as int)).drop_first() =~= lines_from(
                plain@,
                next_pos as int,
            ));
        }
        let co = find_sub(line, colon_v.as_slice(), 0);
        if co.is_none() {
            proof {
                assert(line_offset(lseq) is None);
                assert(index_offsets(lines_from(plain@, pos as int)) is None);
            }
            return Err(DumpError::MalformedIndexLine);
        }
        let ci = co.unwrap();
        proof {
            lemma_find_from_first(lseq, colon_pat(), 0);
        }
        let digits = slice_subrange(line, 0, ci);
        let pv = parse_usize(digits);
        if pv.is_none() {
            proof {
                assert(line_offset(lseq) is None);
                assert(index_offsets(lines_from(plain@, pos as int)) is None);
            }
            return Err(DumpError::MalformedIndexLine);
        }
        let v = pv.unwrap();
        proof {
            assert(line_offset(lseq) == Some(v));
        }
        proof {
            if raw.len() >= 1 {
                lemma_dedup_last(raw);
            }
        }
        let is_dup: bool;
        if out.len() >= 1 {
            is_dup = out[out.len() - 1] == v;
        } else {
            is_dup = false;
        }
        if !is_dup {
            out.push(v);
        }
        proof {
            assert(raw.push(v).drop_last() =~= raw);
            assert(raw.push(v).last() == v);
            if raw.len() >= 1 {
                assert(raw.push(v)[raw.len() - 1] == raw.last());
            }
            if is_dup {
                assert(dedup_consec(raw.push(v)) == dedup_consec(raw));
            } else {
                assert(dedup_consec(raw.push(v)) == dedup_consec(raw).push(v));
            }
            let rest_io = index_offsets(lines_from(plain@, next_pos as int));
            if rest_io is Some {
                assert(index_offsets(lines_from(plain@, pos as int)) == Some(
                    seq![v] + rest_io->0,
                ));
                assert(raw + (seq![v] + rest_io->0) =~= raw.push(v) + rest_io->0);
            }
            raw = raw.push(v);
        }
        pos = next_pos;
    }
    proof {
        assert(lines_from(plain@, pos as int) == Seq::<Seq<u8>>::empty());
        assert(raw + Seq::<usize>::empty() =~= raw);
        if raw.len() >= 1 {
            lemma_dedup_last(raw);
        }
    }
    if out.len() == 0 {
        return Err(DumpError::MalformedIndexLine);
    }
    Ok(out)
}

/// Reads the cache artifact's bytes back as an offset sequence: one decimal
/// numeral per line.  Succeeds exactly when every line is a numeral that
/// fits.
pub fn load_cached_offsets(cached: &[u8]) -> (r: Result<Vec<usize>, DumpError>)
    ensures
        (match r {
            Ok(v) => cache_of_plain(cached@) == Some(v@),
            Err(e) => e == DumpError::MalformedCache && cache_of_plain(cached@) is None,
        }),
{
    let n = cached.len();
    let mut nl_v: Vec<u8> = Vec::new();
    nl_v.push(10);
    proof {
        assert(nl_v@ =~= nl_pat());
    }
    let mut out: Vec<usize> = Vec::new();
    let mut pos: usize = 0;
    while pos < n
        invariant
            0 <= pos <= n,
            n == cached@.len(),
            nl_v@ == nl_pat(),
            (match cache_offsets(lines_from(cached@, pos as int)) {
                Some(rest) => cache_of_plain(cached@) == Some(out@ + rest),
                None => cache_of_plain(cached@) is None,
            }),
        decreases n - pos,
    {
        let fr = find_sub(cached, nl_v.as_slice(), pos);
        let line_end: usize;
        let next_pos: usize;
        match fr {
            Some(i) => {
                proof {
                    lemma_find_from_first(cached@, nl_pat(), pos as int);
                }
                line_end = i;
                next_pos = i + 1;
            },
            None => {
                line_end = n;
                next_pos = n;
            },
        }
        let full = slice_subrange(cached, pos, line_end);
        let line: &[u8];
        if fr.is_some() && full.len() >= 1 && *slice_index_get(full, full.len() - 1) == 13 {
            line = slice_subrange(cached, pos, line_end - 1);
        } else {
            line = full;
        }
        let ghost lseq: Seq<u8> = if fr is Some {
            strip_cr(cached@.subrange(pos as int, line_end as int))
        } else {
            cached@.subrange(pos as int, n as int)
        };
        proof {
            if fr is Some && full@.len() >= 1 && full@.last() == 13 {
                assert(cached@.subrange(pos as int, line_end as int).drop_last() =~= cached@
                    .subrange(pos as int, line_end - 1));
            }
            assert(line@ == lseq);
            assert(lines_from(cached@, pos as int) == seq![lseq] + lines_from(
                cached@,
                next_pos as int,
            )) by {
                if fr is None {
                    assert(seq![lseq] + lines_from(cached@, next_pos as int) =~= seq![lseq]);
                }
            }
            assert((seq![lseq] + lines_from(cached@, next_pos as int))[0] == lseq);
            assert((seq![lseq] + lines_from(cached@, next_pos as int)).drop_first()
                =~= lines_from(cached@, next_pos as int));
        }
        let pv = parse_usize(line);
        if pv.is_none() {
            proof {
                assert(cache_offsets(lines_from(cached@, pos as int)) is None);
            }
            return Err(DumpError::MalformedCache);
        }
        let v = pv.unwrap();
        out.push(v);
        proof {
            let rest_co = cache_offsets(lines_from(cached@, next_pos as int));
            if rest_co is Some {
                assert(cache_offsets(lines_from(cached@, pos as int)) == Some(
                    seq![v] + rest_co->0,
                ));
                assert(out@.drop_last() + (seq![v] + rest_co->0) =~= out@ + rest_co->0);
            }
        }
        pos = next_pos;
    }
    proof {
        assert(lines_from(cached@, pos as int) == Seq::<Seq<u8>>::empty());
        assert(out@ + Seq::<usize>::empty() =~= out@);
    }
    Ok(out)
}

/// Derives the offset sequence from the compressed companion index: it is
/// decompressed in full and read line by line.  Fails with the
/// decompression error exactly when the index's bytes do not decode, and
/// otherwise succeeds exactly when the plain text states a usable
/// sequence.
pub fn derive_offsets(compressed: &[u8]) -> (r: Result<Vec<usize>, DumpError>)
    ensures
        (match r {
            Ok(v) => bz_ok_of(compressed@) && offsets_of_plain(bz_plain_of(compressed@))
                == Some(v@) && v@.len() >= 1,
            Err(DumpError::Decompression) => !bz_ok_of(compressed@),
            Err(DumpError::MalformedIndexLine) => bz_ok_of(compressed@) && offsets_of_plain(
                bz_plain_of(compressed@),
            ) is None,
            Err(_) => false,
        }),
{
    match bz_decompress(compressed) {
        None => Err(DumpError::Decompression),
        Some(plain) => offsets_from_plain(plain.as_slice()),
    }
}

/// The offsets delimit segments of an archive of `archive_len` bytes: at
/// least one offset, strictly ascending, the last no further than the
/// archive's end.
pub open spec fn wf_offsets(s: Seq<usize>, archive_len: int) -> bool {
    &&& s.len() >= 1
    &&& strictly_ascending(s)
    &&& s.last() <= archive_len
}

/// Decides whether an offset sequence delimits segments of an archive of
/// `archive_len` bytes.
pub fn check_offsets(s: &[usize], archive_len: usize) -> (r: bool)
    ensures
        r == wf_offsets(s@, archive_len as int),
{
    let n = s.len();
    if n == 0 {
        return false;
    }
    if *slice_index_get(s, n - 1) > archive_len {
        return false;
    }
    let mut i: usize = 0;
    while i + 1 < n
        invariant
            0 <= i < n,
            n == s@.len(),
            forall|j: int| 0 <= j && j + 1 <= i ==> #[trigger] s@[j] < s@[j + 1],
        decreases n - i,
    {
        if *slice_index_get(s, i) >= *slice_index_get(s, i + 1) {
            assert(!strictly_ascending(s@));
            return false;
        }
        i = i + 1;
    }
    true
}

} // verus!
