//! The streaming record scanner: locates outer units by their delimiters
//! and extracts the key and body fields from each, by plain substring
//! search, skipping units that lack a field and scanning on.

use vstd::prelude::*;
use vstd::slice::{slice_subrange, slice_to_vec};
use crate::bytes::{find_from, find_sub, lemma_find_from_first};

verus! {

/// One extracted unit: a key field and a body field, both raw and
/// undecoded.
#[derive(Debug)]
pub struct Record {
    pub key: Vec<u8>,
    pub body: Vec<u8>,
}

/// The mathematical content of a `Record`.
pub ghost struct RecordView {
    pub key: Seq<u8>,
    pub body: Seq<u8>,
}

impl View for Record {
    type V = RecordView;

    open spec fn view(&self) -> RecordView {
        RecordView { key: self.key@, body: self.body@ }
    }
}

impl DeepView for Record {
    type V = RecordView;

    open spec fn deep_view(&self) -> RecordView {
        self@
    }
}

/// The opening delimiter of the outer unit.
pub open spec fn page_open() -> Seq<u8> {
    seq![60u8, 112u8, 97u8, 103u8, 101u8]
}

/// The closing delimiter of the outer unit.
pub open spec fn page_close() -> Seq<u8> {
    seq![60u8, 47u8, 112u8, 97u8, 103u8, 101u8]
}

/// The opening delimiter of the key field.
pub open spec fn title_open() -> Seq<u8> {
    seq![60u8, 116u8, 105u8, 116u8, 108u8, 101u8]
}

/// The closing delimiter of the key field.
pub open spec fn title_close() -> Seq<u8> {
    seq![60u8, 47u8, 116u8, 105u8, 116u8, 108u8, 101u8]
}

/// The opening delimiter of the body field.
pub open spec fn text_open() -> Seq<u8> {
    seq![60u8, 116u8, 101u8, 120u8, 116u8]
}

/// The closing delimiter of the body field.
pub open spec fn text_close() -> Seq<u8> {
    seq![60u8, 47u8, 116u8, 101u8, 120u8, 116u8]
}

/// The byte that ends an opening tag.
pub open spec fn tag_end() -> Seq<u8> {
    seq![62u8]
}

/// The text of a field inside `unit`: after the first occurrence of
/// `open` comes the end of the opening tag, and the field runs from there
/// to the next closing delimiter; nothing when any of the three is
/// missing.
pub open spec fn field_between(unit: Seq<u8>, open: Seq<u8>, close: Seq<u8>) -> Option<Seq<u8>>
    recommends
        1 <= open.len(),
        1 <= close.len(),
{
    match find_from(unit, open, 0) {
        None => None,
        Some(o) => match find_from(unit, tag_end(), o + open.len()) {
            None => None,
            Some(g) => match find_from(unit, close, g + 1) {
                None => None,
                Some(c) => Some(unit.subrange(g + 1, c)),
            },
        },
    }
}

/// The record stated by one outer unit's text: its key and body fields;
/// nothing when either field is missing.
pub open spec fn unit_record(unit: Seq<u8>) -> Option<RecordView> {
    match field_between(unit, title_open(), title_close()) {
        None => None,
        Some(k) => match field_between(unit, text_open(), text_close()) {
            None => None,
            Some(b) => Some(RecordView { key: k, body: b }),
        },
    }
}

/// The records of `text` at or after position `pos`, in document order:
/// each outer unit between an opening delimiter, its tag end, and the next
/// closing delimiter yields its record, a unit with a missing field is
/// skipped, and the scan ends when no further complete unit exists.
pub open spec fn scan_from(text: Seq<u8>, pos: int) -> Seq<RecordView>
    decreases text.len() - pos
        when 0 <= pos
{
    match find_from(text, page_open(), pos) {
        None => Seq::empty(),
        Some(p) => {
            proof {
                lemma_find_from_first(text, page_open(), pos);
            }
            match find_from(text, tag_end(), p + page_open().len()) {
                None => Seq::empty(),
                Some(g) => {
                    proof {
                        lemma_find_from_first(text, tag_end(), p + page_open().len());
                    }
                    match find_from(text, page_close(), g + 1) {
                        None => Seq::empty(),
                        Some(c) => {
                            proof {
                                lemma_find_from_first(text, page_close(), g + 1);
                            }
                            let unit = text.subrange(g + 1, c);
                            let rest = scan_from(text, c + page_close().len());
                            match unit_record(unit) {
                                None => rest,
                                Some(rv) => seq![rv] + rest,
                            }
                        },
                    }
                },
            }
        },
    }
}

/// The skip-and-continue policy, stated of one scan step: a complete
/// outer unit with both fields yields its record and the scan resumes
/// past the closing delimiter; a unit with a missing field yields nothing
/// and the scan still resumes there, so the rest of the text loses no
/// records.
pub proof fn lemma_scan_step(text: Seq<u8>, pos: int, p: int, g: int, c: int)
    requires
        0 <= pos,
        find_from(text, page_open(), pos) == Some(p),
        find_from(text, tag_end(), p + 5) == Some(g),
        find_from(text, page_close(), g + 1) == Some(c),
    ensures
        scan_from(text, pos) == (match unit_record(text.subrange(g + 1, c)) {
            None => scan_from(text, c + 6),
            Some(rv) => seq![rv] + scan_from(text, c + 6),
        }),
{
    lemma_find_from_first(text, page_open(), pos);
    lemma_find_from_first(text, tag_end(), p + 5);
    lemma_find_from_first(text, page_close(), g + 1);
}

/// Builds the byte pattern `<page`.
fn page_open_vec() -> (r: Vec<u8>)
    ensures
        r@ == page_open(),
{
    let mut v: Vec<u8> = Vec::new();
    v.push(60);
    v.push(112);
    v.push(97);
    v.push(103);
    v.push(101);
    proof {
        assert(v@ =~= page_open());
    }
    v
}

/// Builds the byte pattern `</page`.
fn page_close_vec() -> (r: Vec<u8>)
    ensures
        r@ == page_close(),
{
    let mut v: Vec<u8> = Vec::new();
    v.push(60);
    v.push(47);
    v.push(112);
    v.push(97);
    v.push(103);
    v.push(101);
    proof {
        assert(v@ =~= page_close());
    }
    v
}

/// Builds the byte pattern `<title`.
fn title_open_vec() -> (r: Vec<u8>)
    ensures
        r@ == title_open(),
{
    let mut v: Vec<u8> = Vec::new();
    v.push(60);
    v.push(116);
    v.push(105);
    v.push(116);
    v.push(108);
    v.push(101);
    proof {
        assert(v@ =~= title_open());
    }
    v
}

/// Builds the byte pattern `</title`.
fn title_close_vec() -> (r: Vec<u8>)
    ensures
        r@ == title_close(),
{
    let mut v: Vec<u8> = Vec::new();
    v.push(60);
    v.push(47);
    v.push(116);
    v.push(105);
    v.push(116);
    v.push(108);
    v.push(101);
    proof {
        assert(v@ =~= title_close());
    }
    v
}

/// Builds the byte pattern `<text`.
fn text_open_vec() -> (r: Vec<u8>)
    ensures
        r@ == text_open(),
{
    let mut v: Vec<u8> = Vec::new();
    v.push(60);
    v.push(116);
    v.push(101);
    v.push(120);
    v.push(116);
    proof {
        assert(v@ =~= text_open());
    }
    v
}

/// Builds the byte pattern `</text`.
fn text_close_vec() -> (r: Vec<u8>)
    ensures
        r@ == text_close(),
{
    let mut v: Vec<u8> = Vec::new();
    v.push(60);
    v.push(47);
    v.push(116);
    v.push(101);
    v.push(120);
    v.push(116);
    proof {
        assert(v@ =~= text_close());
    }
    v
}

/// Builds the byte pattern `>`.
fn tag_end_vec() -> (r: Vec<u8>)
    ensures
        r@ == tag_end(),
{
    let mut v: Vec<u8> = Vec::new();
    v.push(62);
    proof {
        assert(v@ =~= tag_end());
    }
    v
}

/// Extracts one field from a unit's text by the two-step delimiter search.
fn extract_field(unit: &[u8], open: &[u8], close: &[u8], gt: &[u8]) -> (r: Option<Vec<u8>>)
    requires
        1 <= open@.len(),
        1 <= close@.len(),
        gt@ == tag_end(),
    ensures
        (match r {
            Some(f) => field_between(unit@, open@, close@) == Some(f@),
            None => field_between(unit@, open@, close@) is None,
        }),
{
    let n = unit.len();
    let o = match find_sub(unit, open, 0) {
        None => {
            return None;
        },
        Some(o) => o,
    };
    proof {
        lemma_find_from_first(unit@, open@, 0);
    }
    let g = match find_sub(unit, gt, o + open.len()) {
        None => {
            return None;
        },
        Some(g) => g,
    };
    proof {
        lemma_find_from_first(unit@, tag_end(), o + open@.len());
    }
    let c = match find_sub(unit, close, g + 1) {
        None => {
            return None;
        },
        Some(c) => c,
    };
    proof {
        lemma_find_from_first(unit@, close@, g + 1);
    }
    Some(slice_to_vec(slice_subrange(unit, g + 1, c)))
}

/// One scan step: locates the next complete outer unit at or after `pos`
/// and extracts its fields; nothing when no complete unit remains.  The
/// fields may each be missing; the returned position is past the unit's
/// closing delimiter either way.
pub(crate) fn next_unit(text: &[u8], pos: usize) -> (r: Option<
    (Option<Vec<u8>>, Option<Vec<u8>>, usize),
>)
    requires
        pos <= text@.len(),
    ensures
        (match r {
            None => scan_from(text@, pos as int) == Seq::<RecordView>::empty(),
            Some((key, body, p2)) => {
                &&& pos < p2 <= text@.len()
                &&& (match (key, body) {
                    (Some(k), Some(b)) => scan_from(text@, pos as int) == seq![(RecordView {
                        key: k@,
                        body: b@,
                    })] + scan_from(text@, p2 as int),
                    _ => scan_from(text@, pos as int) == scan_from(text@, p2 as int),
                })
            },
        }),
{
    let p_open = page_open_vec();
    let p_close = page_close_vec();
    let t_open = title_open_vec();
    let t_close = title_close_vec();
    let x_open = text_open_vec();
    let x_close = text_close_vec();
    let gt = tag_end_vec();
    let _n = text.len();
    let p = match find_sub(text, p_open.as_slice(), pos) {
        None => {
            return None;
        },
        Some(p) => p,
    };
    proof {
        lemma_find_from_first(text@, page_open(), pos as int);
    }
    let g = match find_sub(text, gt.as_slice(), p + 5) {
        None => {
            return None;
        },
        Some(g) => g,
    };
    proof {
        lemma_find_from_first(text@, tag_end(), p + 5);
    }
    let c = match find_sub(text, p_close.as_slice(), g + 1) {
        None => {
            return None;
        },
        Some(c) => c,
    };
    proof {
        lemma_find_from_first(text@, page_close(), g + 1);
    }
    let unit = slice_subrange(text, g + 1, c);
    let key = extract_field(unit, t_open.as_slice(), t_close.as_slice(), gt.as_slice());
    let body = extract_field(unit, x_open.as_slice(), x_close.as_slice(), gt.as_slice());
    proof {
        assert((match (key, body) {
            (Some(k), Some(b)) => unit_record(unit@) == Some(RecordView { key: k@, body: b@ }),
            _ => unit_record(unit@) is None,
        }));
    }
    Some((key, body, c + 6))
}

/// Scans `text` for records, in document order, skipping units that lack a
/// field.
pub fn scan_records(text: &[u8]) -> (r: Vec<Record>)
    ensures
        r.deep_view() == scan_from(text@, 0),
{
    let n = text.len();
    let mut out: Vec<Record> = Vec::new();
    let mut pos: usize = 0;
    loop
        invariant
            0 <= pos <= n,
            n == text@.len(),
            scan_from(text@, 0) == out.deep_view() + scan_from(text@, pos as int),
        ensures
            scan_from(text@, 0) == out.deep_view(),
        decreases n - pos,
    {
        match next_unit(text, pos) {
            None => {
                proof {
                    assert(out.deep_view() + scan_from(text@, pos as int) =~= out.deep_view());
                }
                break;
            },
            Some((key, body, p2)) => {
                let ghost old_out = out.deep_view();
                match (key, body) {
                    (Some(k), Some(b)) => {
                        let rec = Record { key: k, body: b };
                        out.push(rec);
                        proof {
                            assert(out.deep_view() =~= old_out.push((RecordView {
                                key: k@,
                                body: b@,
                            })));
                            assert(old_out + (seq![(RecordView { key: k@, body: b@ })]
                                + scan_from(text@, p2 as int)) =~= out.deep_view() + scan_from(
                                text@,
                                p2 as int,
                            ));
                        }
                    },
                    _ => {},
                }
                pos = p2;
            },
        }
    }
    out
}

} // verus!
