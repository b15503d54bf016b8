//! The emission step applied to accepted records: entity-decoding through
//! an outside collaborator, then trimming of leading and trailing ASCII
//! whitespace, both fields.

use vstd::prelude::*;
use vstd::slice::{slice_index_get, slice_subrange, slice_to_vec};
use crate::scanner::{Record, RecordView};

verus! {

/// `c` is an ASCII whitespace byte.
pub open spec fn is_space(c: u8) -> bool {
    c == 32 || (9 <= c && c <= 13)
}

/// `s` without its leading whitespace bytes.
pub open spec fn trim_left(s: Seq<u8>) -> Seq<u8>
    decreases s.len(),
{
    if s.len() > 0 && is_space(s[0]) {
        trim_left(s.drop_first())
    } else {
        s
    }
}

/// `s` without its trailing whitespace bytes.
pub open spec fn trim_right(s: Seq<u8>) -> Seq<u8>
    decreases s.len(),
{
    if s.len() > 0 && is_space(s.last()) {
        trim_right(s.drop_last())
    } else {
        s
    }
}

/// `s` without leading and trailing whitespace bytes.
pub open spec fn trim_of(s: Seq<u8>) -> Seq<u8> {
    trim_right(trim_left(s))
}

/// Removes leading and trailing ASCII whitespace bytes.
pub fn trim_bytes(s: &[u8]) -> (r: Vec<u8>)
    ensures
        r@ == trim_of(s@),
{
    let n = s.len();
    let mut i: usize = 0;
    proof {
        assert(s@.subrange(0, n as int) =~= s@);
    }
    loop
        invariant
            0 <= i <= n,
            n == s@.len(),
            trim_left(s@) == trim_left(s@.subrange(i as int, n as int)),
        ensures
            0 <= i <= n,
            trim_left(s@) == s@.subrange(i as int, n as int),
        decreases n - i,
    {
        if i >= n {
            break;
        }
        let c = *slice_index_get(s, i);
        proof {
            assert(s@.subrange(i as int, n as int)[0] == s@[i as int]);
        }
        if !(c == 32 || (9 <= c && c <= 13)) {
            break;
        }
        proof {
            assert(s@.subrange(i as int, n as int).drop_first() =~= s@.subrange(
                i + 1,
                n as int,
            ));
        }
        i = i + 1;
    }
    let mut j: usize = n;
    loop
        invariant
            i <= j <= n,
            n == s@.len(),
            trim_left(s@) == s@.subrange(i as int, n as int),
            trim_right(s@.subrange(i as int, n as int)) == trim_right(
                s@.subrange(i as int, j as int),
            ),
        ensures
            i <= j <= n,
            trim_right(s@.subrange(i as int, n as int)) == s@.subrange(i as int, j as int),
        decreases j,
    {
        if j <= i {
            break;
        }
        let c = *slice_index_get(s, j - 1);
        proof {
            assert(s@.subrange(i as int, j as int).last() == s@[j - 1]);
        }
        if !(c == 32 || (9 <= c && c <= 13)) {
            break;
        }
        proof {
            assert(s@.subrange(i as int, j as int).drop_last() =~= s@.subrange(
                i as int,
                j - 1,
            ));
        }
        j = j - 1;
    }
    slice_to_vec(slice_subrange(s, i, j))
}

/// The entity-decoded form that the outside collaborator assigns to a raw
/// field: a function of its bytes alone.
pub uninterp spec fn unescape_of(s: Seq<u8>) -> Seq<u8>;

/// Relies on html_escape::decode_html_entities: the decoded text is a pure
/// function of the input text, here named `unescape_of`.
#[verifier::external_body]
pub(crate) fn unescape_bytes(s: &[u8]) -> (r: Vec<u8>)
    ensures
        r@ == unescape_of(s@),
{
    let text = String::from_utf8_lossy(s);
    html_escape::decode_html_entities(text.as_ref()).into_owned().into_bytes()
}

/// The emitted form of an accepted record: both fields entity-decoded,
/// then trimmed.
pub open spec fn emitted_of(rv: RecordView) -> RecordView {
    RecordView {
        key: trim_of(unescape_of(rv.key)),
        body: trim_of(unescape_of(rv.body)),
    }
}

/// Entity-decodes and trims both fields of an accepted record.
pub fn emit_record(rec: Record) -> (r: Record)
    ensures
        r@ == emitted_of(rec@),
{
    let key = trim_bytes(unescape_bytes(rec.key.as_slice()).as_slice());
    let body = trim_bytes(unescape_bytes(rec.body.as_slice()).as_slice());
    Record { key, body }
}

} // verus!
