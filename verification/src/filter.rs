//! The filter rules: a record is rejected when its key starts with an
//! exclusion prefix, and otherwise accepted exactly when its body, folded
//! to lower case, holds an inclusion marker.

use vstd::prelude::*;
use vstd::slice::slice_index_get;
use crate::bytes::{contains_sub, fold_lower, fold_lower_vec, has_sub, is_prefix, match_at,
    prefix_of};
use crate::scanner::{Record, RecordView};

verus! {

/// The key starts with one of the exclusion prefixes.
pub open spec fn key_excluded(key: Seq<u8>, prefixes: Seq<Seq<u8>>) -> bool {
    exists|i: int| 0 <= i < prefixes.len() && prefix_of(#[trigger] prefixes[i], key)
}

/// The body, folded to lower case, holds one of the inclusion markers.
pub open spec fn body_included(body: Seq<u8>, markers: Seq<Seq<u8>>) -> bool {
    exists|i: int|
        0 <= i < markers.len() && contains_sub(fold_lower(body), #[trigger] markers[i])
}

/// The filter's rule: exclusion wins; otherwise acceptance needs an
/// inclusion marker in the folded body.
pub open spec fn accepts_rec(rv: RecordView, markers: Seq<Seq<u8>>, prefixes: Seq<Seq<u8>>) -> bool {
    !key_excluded(rv.key, prefixes) && body_included(rv.body, markers)
}

/// Decides whether `rec` passes the inclusion and exclusion rules; a pure
/// function of the three inputs.
pub fn accepts(rec: &Record, markers: &[Vec<u8>], prefixes: &[Vec<u8>]) -> (r: bool)
    ensures
        r == accepts_rec(rec@, markers.deep_view(), prefixes.deep_view()),
{
    let np = prefixes.len();
    let mut i: usize = 0;
    while i < np
        invariant
            0 <= i <= np,
            np == prefixes@.len(),
            forall|j: int| 0 <= j < i ==> !prefix_of(
                #[trigger] prefixes.deep_view()[j],
                rec@.key,
            ),
        decreases np - i,
    {
        let p = slice_index_get(prefixes, i);
        if is_prefix(p.as_slice(), rec.key.as_slice()) {
            proof {
                assert(prefixes.deep_view()[i as int] == p@);
                assert(key_excluded(rec@.key, prefixes.deep_view()));
            }
            return false;
        }
        proof {
            assert(prefixes.deep_view()[i as int] == p@);
        }
        i = i + 1;
    }
    proof {
        assert(!key_excluded(rec@.key, prefixes.deep_view()));
    }
    let folded = fold_lower_vec(rec.body.as_slice());
    let nm = markers.len();
    let mut k: usize = 0;
    while k < nm
        invariant
            0 <= k <= nm,
            nm == markers@.len(),
            folded@ == fold_lower(rec@.body),
            !key_excluded(rec@.key, prefixes.deep_view()),
            forall|j: int| 0 <= j < k ==> !contains_sub(
                fold_lower(rec@.body),
                #[trigger] markers.deep_view()[j],
            ),
        decreases nm - k,
    {
        let m = slice_index_get(markers, k);
        proof {
            assert(markers.deep_view()[k as int] == m@);
        }
        if m.len() == 0 {
            proof {
                assert(fold_lower(rec@.body).subrange(0, 0) =~= m@);
                assert(match_at(fold_lower(rec@.body), m@, 0));
                assert(body_included(rec@.body, markers.deep_view()));
            }
            return true;
        }
        if has_sub(folded.as_slice(), m.as_slice()) {
            proof {
                assert(body_included(rec@.body, markers.deep_view()));
            }
            return true;
        }
        k = k + 1;
    }
    false
}

/// The fixed literal that turns a marker seed into a full marker.
pub open spec fn marker_prefix() -> Seq<u8> {
    seq![123u8, 123u8, 105u8, 110u8, 102u8, 111u8, 98u8, 111u8, 120u8, 32u8]
}

/// Builds a full inclusion marker from one seed line: the fixed literal
/// followed by the seed.
pub fn make_marker(seed: &[u8]) -> (r: Vec<u8>)
    ensures
        r@ == marker_prefix() + seed@,
{
    let mut v: Vec<u8> = Vec::new();
    v.push(123);
    v.push(123);
    v.push(105);
    v.push(110);
    v.push(102);
    v.push(111);
    v.push(98);
    v.push(111);
    v.push(120);
    v.push(32);
    proof {
        assert(v@ =~= marker_prefix());
    }
    let n = seed.len();
    let mut i: usize = 0;
    while i < n
        invariant
            0 <= i <= n,
            n == seed@.len(),
            v@ == marker_prefix() + seed@.subrange(0, i as int),
        decreases n - i,
    {
        v.push(*slice_index_get(seed, i));
        proof {
            assert(v@ =~= marker_prefix() + seed@.subrange(0, i + 1));
        }
        i = i + 1;
    }
    proof {
        assert(seed@.subrange(0, n as int) =~= seed@);
    }
    v
}

} // verus!
