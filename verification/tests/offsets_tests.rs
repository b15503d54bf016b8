use dumper::error::DumpError;
use dumper::offsets::{
    check_offsets, derive_offsets, encode_offsets, load_cached_offsets, offsets_from_plain,
};
use std::io::Write;

fn bz(data: &[u8]) -> Vec<u8> {
    let mut enc = bzip2::write::BzEncoder::new(Vec::new(), bzip2::Compression::new(6));
    enc.write_all(data).unwrap();
    enc.finish().unwrap()
}

#[test]
fn offsets_dedup_consecutive() {
    let plain = b"5:10:First\n5:20:Second\n30:30:Third\n30:40:Fourth\n90:50:Fifth\n";
    let offs = offsets_from_plain(plain).unwrap();
    assert_eq!(offs, vec![5, 30, 90]);
}

#[test]
fn offsets_monotone_on_sorted_input() {
    let plain = b"0:a\n0:b\n17:c\n17:d\n17:e\n230:f\n";
    let offs = offsets_from_plain(plain).unwrap();
    assert_eq!(offs, vec![0, 17, 230]);
    for w in offs.windows(2) {
        assert!(w[0] < w[1]);
    }
}

#[test]
fn offsets_keep_nonadjacent_repeats() {
    let plain = b"1:a\n2:b\n1:c\n";
    let offs = offsets_from_plain(plain).unwrap();
    assert_eq!(offs, vec![1, 2, 1]);
}

#[test]
fn offsets_missing_separator_fails() {
    assert_eq!(
        offsets_from_plain(b"5:a\n30\n"),
        Err(DumpError::MalformedIndexLine)
    );
}

#[test]
fn offsets_bad_prefix_fails() {
    assert_eq!(
        offsets_from_plain(b"5:a\nx7:b\n"),
        Err(DumpError::MalformedIndexLine)
    );
    assert_eq!(
        offsets_from_plain(b":empty\n"),
        Err(DumpError::MalformedIndexLine)
    );
}

#[test]
fn offsets_empty_input_fails() {
    assert_eq!(offsets_from_plain(b""), Err(DumpError::MalformedIndexLine));
}

#[test]
fn derive_empty_index_fails() {
    let compressed = bz(b"");
    assert_eq!(derive_offsets(&compressed), Err(DumpError::MalformedIndexLine));
}

#[test]
fn offsets_crlf_lines() {
    let plain = b"5:a\r\n9:b\r\n";
    assert_eq!(offsets_from_plain(plain).unwrap(), vec![5, 9]);
}

#[test]
fn offsets_final_line_without_newline() {
    let plain = b"5:a\n9:b";
    assert_eq!(offsets_from_plain(plain).unwrap(), vec![5, 9]);
}

#[test]
fn derive_from_compressed_index() {
    let compressed = bz(b"4:one\n4:two\n77:three\n");
    let offs = derive_offsets(&compressed).unwrap();
    assert_eq!(offs, vec![4, 77]);
}

#[test]
fn derive_rejects_garbage_stream() {
    assert_eq!(
        derive_offsets(b"this is not a compressed stream"),
        Err(DumpError::Decompression)
    );
}

#[test]
fn derivation_is_repeatable() {
    let compressed = bz(b"0:a\n0:b\n50:c\n900:d\n900:e\n");
    let first = derive_offsets(&compressed).unwrap();
    let second = derive_offsets(&compressed).unwrap();
    assert_eq!(first, second);
    assert_eq!(first, vec![0, 50, 900]);
}

#[test]
fn cache_loads_one_offset_per_line() {
    let cached = b"0\n50\n900\n";
    assert_eq!(load_cached_offsets(cached).unwrap(), vec![0, 50, 900]);
}

#[test]
fn cache_rejects_non_numeral() {
    assert_eq!(
        load_cached_offsets(b"0\nfifty\n"),
        Err(DumpError::MalformedCache)
    );
    assert_eq!(
        load_cached_offsets(b"12:3\n"),
        Err(DumpError::MalformedCache)
    );
}

#[test]
fn cache_round_trips_derived_offsets() {
    let compressed = bz(b"4:one\n4:two\n77:three\n");
    let offs = derive_offsets(&compressed).unwrap();
    let artifact = encode_offsets(&offs);
    assert_eq!(load_cached_offsets(&artifact).unwrap(), offs);
}

#[test]
fn encode_writes_one_numeral_per_line() {
    assert_eq!(encode_offsets(&[]).as_slice(), b"");
    assert_eq!(encode_offsets(&[0]).as_slice(), b"0\n");
    assert_eq!(encode_offsets(&[5, 30, 901]).as_slice(), b"5\n30\n901\n");
    assert_eq!(
        load_cached_offsets(&encode_offsets(&[1, 1, 2])).unwrap(),
        vec![1, 1, 2]
    );
}

#[test]
fn check_offsets_validates() {
    assert!(check_offsets(&[0, 5, 9], 9));
    assert!(check_offsets(&[3], 9));
    assert!(!check_offsets(&[], 9));
    assert!(!check_offsets(&[0, 5, 5], 9));
    assert!(!check_offsets(&[5, 0], 9));
    assert!(!check_offsets(&[0, 10], 9));
}
