//! The extraction pipeline: one segment's decompress-scan-filter-emit
//! step, and the whole run over consecutive offset ranges, the merged
//! output keeping segment order and, within a segment, document order.

use vstd::prelude::*;
use vstd::slice::{slice_index_get, slice_subrange};
use crate::decompress::{bz_decompress, bz_ok_of, bz_plain_of};
use crate::emit::{emit_record, emitted_of};
use crate::error::DumpError;
use crate::filter::{accepts, accepts_rec};
use crate::offsets::{lemma_ascending_le, wf_offsets};
use crate::scanner::{next_unit, scan_from, Record, RecordView};

verus! {

/// The filter rule over given markers and prefixes, as one predicate.
pub open spec fn accept_pred(markers: Seq<Seq<u8>>, prefixes: Seq<Seq<u8>>) -> spec_fn(
    RecordView,
) -> bool {
    |rv: RecordView| accepts_rec(rv, markers, prefixes)
}

/// Every record of a sequence in its emitted (decoded and trimmed) form.
pub open spec fn emit_map(s: Seq<RecordView>) -> Seq<RecordView> {
    s.map(|_i: int, rv: RecordView| emitted_of(rv))
}

/// The records of one segment's plain text that pass the filter, in
/// document order, each emitted entity-decoded and trimmed.  Filtering
/// reads the raw fields; only accepted records are decoded.
pub open spec fn matched_records(
    plain: Seq<u8>,
    markers: Seq<Seq<u8>>,
    prefixes: Seq<Seq<u8>>,
) -> Seq<RecordView> {
    emit_map(scan_from(plain, 0).filter(accept_pred(markers, prefixes)))
}

/// Filtering one record keeps it exactly when the predicate accepts it.
proof fn lemma_filter_one(rv: RecordView, pred: spec_fn(RecordView) -> bool)
    ensures
        seq![rv].filter(pred) == if pred(rv) {
            seq![rv]
        } else {
            Seq::<RecordView>::empty()
        },
{
    reveal_with_fuel(Seq::filter, 2);
    assert(seq![rv].drop_last() =~= Seq::<RecordView>::empty());
    assert(seq![rv].last() == rv);
    if pred(rv) {
        assert(Seq::<RecordView>::empty().push(rv) =~= seq![rv]);
    }
}

/// Scans `plain`, keeps the records that pass the filter, in document
/// order, skipping units that lack a field, and emits each kept record
/// entity-decoded and trimmed.  Filtering reads the raw fields.
pub fn extract_records(plain: &[u8], markers: &[Vec<u8>], prefixes: &[Vec<u8>]) -> (r: Vec<
    Record,
>)
    ensures
        r.deep_view() == matched_records(plain@, markers.deep_view(), prefixes.deep_view()),
{
    let ghost pred = accept_pred(markers.deep_view(), prefixes.deep_view());
    let n = plain.len();
    let mut out: Vec<Record> = Vec::new();
    let mut pos: usize = 0;
    loop
        invariant
            0 <= pos <= n,
            n == plain@.len(),
            pred == accept_pred(markers.deep_view(), prefixes.deep_view()),
            matched_records(plain@, markers.deep_view(), prefixes.deep_view()) == out.deep_view()
                + emit_map(scan_from(plain@, pos as int).filter(pred)),
        ensures
            matched_records(plain@, markers.deep_view(), prefixes.deep_view())
                == out.deep_view(),
        decreases n - pos,
    {
        match next_unit(plain, pos) {
            None => {
                proof {
                    reveal_with_fuel(Seq::filter, 1);
                    assert(emit_map(scan_from(plain@, pos as int).filter(pred))
                        =~= Seq::<RecordView>::empty());
                    assert(out.deep_view() + Seq::<RecordView>::empty() =~= out.deep_view());
                }
                break;
            },
            Some((key, body, p2)) => {
                match (key, body) {
                    (Some(k), Some(b)) => {
                        let rec = Record { key: k, body: b };
                        let ghost old_out = out.deep_view();
                        let ghost raw_rv = rec@;
                        let ghost rest_f = scan_from(plain@, p2 as int).filter(pred);
                        proof {
                            Seq::<RecordView>::filter_distributes_over_add(
                                seq![raw_rv],
                                scan_from(plain@, p2 as int),
                                pred,
                            );
                            lemma_filter_one(raw_rv, pred);
                        }
                        let acc = accepts(&rec, markers, prefixes);
                        if acc {
                            let emitted = emit_record(rec);
                            out.push(emitted);
                            proof {
                                assert(emit_map(seq![raw_rv] + rest_f) =~= seq![emitted_of(
                                    raw_rv,
                                )] + emit_map(rest_f));
                                assert(out.deep_view() =~= old_out.push(emitted_of(raw_rv)));
                                assert(old_out.push(emitted_of(raw_rv)) =~= old_out
                                    + seq![emitted_of(raw_rv)]);
                                assert((old_out + seq![emitted_of(raw_rv)]) + emit_map(rest_f)
                                    =~= old_out + (seq![emitted_of(raw_rv)] + emit_map(
                                    rest_f,
                                )));
                            }
                        } else {
                            proof {
                                assert(Seq::<RecordView>::empty() + rest_f =~= rest_f);
                            }
                        }
                    },
                    _ => {},
                }
                pos = p2;
            },
        }
    }
    out
}

/// Processes one segment: decompresses its bytes in full and extracts the
/// filtered, emitted records of the plain text, in document order.  Fails
/// with the decompression error exactly when the bytes are not a valid
/// standalone compressed stream.
pub fn process_segment(seg: &[u8], markers: &[Vec<u8>], prefixes: &[Vec<u8>]) -> (r: Result<
    Vec<Record>,
    DumpError,
>)
    ensures
        (match r {
            Ok(v) => bz_ok_of(seg@) && v.deep_view() == matched_records(
                bz_plain_of(seg@),
                markers.deep_view(),
                prefixes.deep_view(),
            ),
            Err(e) => e == DumpError::Decompression && !bz_ok_of(seg@),
        }),
{
    match bz_decompress(seg) {
        None => Err(DumpError::Decompression),
        Some(plain) => Ok(extract_records(plain.as_slice(), markers, prefixes)),
    }
}

/// The bytes of the segment between `offsets[i]` and `offsets[i + 1]`
/// form a valid standalone compressed stream.
pub open spec fn segment_ok(archive: Seq<u8>, offsets: Seq<usize>, i: int) -> bool {
    bz_ok_of(archive.subrange(offsets[i] as int, offsets[i + 1] as int))
}

/// The filtered, emitted records of the segment between `offsets[i]` and
/// `offsets[i + 1]`.
pub open spec fn segment_records(
    archive: Seq<u8>,
    offsets: Seq<usize>,
    markers: Seq<Seq<u8>>,
    prefixes: Seq<Seq<u8>>,
    i: int,
) -> Seq<RecordView> {
    matched_records(
        bz_plain_of(archive.subrange(offsets[i] as int, offsets[i + 1] as int)),
        markers,
        prefixes,
    )
}

/// The concatenation of the first `n` segments' records, in segment order.
pub open spec fn records_upto(
    archive: Seq<u8>,
    offsets: Seq<usize>,
    markers: Seq<Seq<u8>>,
    prefixes: Seq<Seq<u8>>,
    n: int,
) -> Seq<RecordView>
    decreases n,
{
    if n <= 0 {
        Seq::empty()
    } else {
        records_upto(archive, offsets, markers, prefixes, n - 1) + segment_records(
            archive,
            offsets,
            markers,
            prefixes,
            n - 1,
        )
    }
}

/// The whole run's output: every segment's filtered, emitted records,
/// concatenated in segment order.
pub open spec fn pipeline_records(
    archive: Seq<u8>,
    offsets: Seq<usize>,
    markers: Seq<Seq<u8>>,
    prefixes: Seq<Seq<u8>>,
) -> Seq<RecordView> {
    records_upto(archive, offsets, markers, prefixes, offsets.len() - 1)
}

/// Runs the pipeline over every consecutive offset range of the archive.
/// The merged output preserves segment order, and document order within a
/// segment.  The run succeeds exactly when every range's bytes decompress;
/// one segment that does not fails the whole run.
#[verifier::rlimit(60)]
pub fn run(
    archive: &[u8],
    offsets: &[usize],
    markers: &[Vec<u8>],
    prefixes: &[Vec<u8>],
) -> (r: Result<Vec<Record>, DumpError>)
    requires
        wf_offsets(offsets@, archive@.len() as int),
    ensures
        (match r {
            Ok(v) => (forall|i: int|
                0 <= i < offsets@.len() - 1 ==> #[trigger] segment_ok(archive@, offsets@, i))
                && v.deep_view() == pipeline_records(
                archive@,
                offsets@,
                markers.deep_view(),
                prefixes.deep_view(),
            ),
            Err(e) => e == DumpError::Decompression && exists|i: int|
                0 <= i < offsets@.len() - 1 && !#[trigger] segment_ok(archive@, offsets@, i),
        }),
{
    let k = offsets.len();
    let mut out: Vec<Record> = Vec::new();
    let mut i: usize = 0;
    while i + 1 < k
        invariant
            0 <= i <= k - 1,
            k == offsets@.len(),
            wf_offsets(offsets@, archive@.len() as int),
            forall|j: int| 0 <= j < i ==> #[trigger] segment_ok(archive@, offsets@, j),
            out.deep_view() == records_upto(
                archive@,
                offsets@,
                markers.deep_view(),
                prefixes.deep_view(),
                i as int,
            ),
        decreases k - i,
    {
        let st = *slice_index_get(offsets, i);
        let en = *slice_index_get(offsets, i + 1);
        proof {
            lemma_ascending_le(offsets@, i + 1, k - 1);
            assert(offsets@.last() == offsets@[k - 1]);
        }
        let seg = slice_subrange(archive, st, en);
        let mut recs = match process_segment(seg, markers, prefixes) {
            Err(e) => {
                proof {
                    assert(!segment_ok(archive@, offsets@, i as int));
                }
                return Err(e);
            },
            Ok(v) => v,
        };
        let ghost old_out = out.deep_view();
        let ghost recs_dv = recs.deep_view();
        out.append(&mut recs);
        proof {
            assert(segment_ok(archive@, offsets@, i as int));
            assert(out.deep_view() =~= old_out + recs_dv);
        }
        i = i + 1;
    }
    Ok(out)
}

} // verus!
