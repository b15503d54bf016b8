use dumper::error::DumpError;
use dumper::pipeline::{extract_records, process_segment, run};
use std::io::Write;

fn bz(data: &[u8]) -> Vec<u8> {
    let mut enc = bzip2::write::BzEncoder::new(Vec::new(), bzip2::Compression::new(6));
    enc.write_all(data).unwrap();
    enc.finish().unwrap()
}

fn unit(title: &str, text: &str) -> String {
    format!("<page><title>{}</title><text>{}</text></page>", title, text)
}

fn words(ws: &[&str]) -> Vec<Vec<u8>> {
    ws.iter().map(|w| w.as_bytes().to_vec()).collect()
}

#[test]
fn extract_keeps_only_accepted_records() {
    let doc = format!(
        "{}{}{}",
        unit("A", "has {{infobox x}} stuff"),
        unit("Draft:B", "has {{infobox x}} stuff"),
        unit("C", "nothing relevant")
    );
    let recs = extract_records(doc.as_bytes(), &words(&["{{infobox x"]), &words(&["Draft:"]));
    assert_eq!(recs.len(), 1);
    assert_eq!(recs[0].key.as_slice(), b"A");
    assert_eq!(recs[0].body.as_slice(), b"has {{infobox x}} stuff");
}

#[test]
fn accepted_records_are_decoded_and_trimmed() {
    let doc = unit(" A &amp; B ", " uses {{infobox x}} &lt;tag&gt; ");
    let recs = extract_records(doc.as_bytes(), &words(&["{{infobox x"]), &words(&[]));
    assert_eq!(recs.len(), 1);
    assert_eq!(recs[0].key.as_slice(), b"A & B");
    assert_eq!(recs[0].body.as_slice(), b"uses {{infobox x}} <tag>");
}

#[test]
fn filtering_reads_the_raw_undecoded_body() {
    let doc = unit("A", "uses &#123;&#123;infobox x only entity-encoded");
    let recs = extract_records(doc.as_bytes(), &words(&["{{infobox x"]), &words(&[]));
    assert_eq!(recs.len(), 0);
}

#[test]
fn process_segment_decompresses_then_extracts() {
    let seg = bz(unit("Kept", "with {{infobox x}} inside").as_bytes());
    let recs = process_segment(&seg, &words(&["{{infobox x"]), &words(&[])).unwrap();
    assert_eq!(recs.len(), 1);
    assert_eq!(recs[0].key.as_slice(), b"Kept");
}

#[test]
fn process_segment_rejects_bad_stream() {
    let r = process_segment(b"not compressed", &words(&["m"]), &words(&[]));
    assert_eq!(r.unwrap_err(), DumpError::Decompression);
}

#[test]
fn run_preserves_segment_order() {
    let seg_texts: Vec<String> = (0..5)
        .map(|i| unit(&format!("Title{}", i), &format!("body {} {{{{infobox x}}}}", i)))
        .collect();
    let mut archive: Vec<u8> = Vec::new();
    let mut offsets: Vec<usize> = Vec::new();
    for t in &seg_texts {
        offsets.push(archive.len());
        archive.extend_from_slice(&bz(t.as_bytes()));
    }
    offsets.push(archive.len());
    let recs = run(&archive, &offsets, &words(&["{{infobox x"]), &words(&[])).unwrap();
    assert_eq!(recs.len(), 5);
    for (i, r) in recs.iter().enumerate() {
        assert_eq!(r.key, format!("Title{}", i).into_bytes());
    }
}

#[test]
fn run_end_to_end_scenario() {
    let seg1 = bz(unit("A", "has {{infobox x}} stuff").as_bytes());
    let seg2 = bz(unit("Draft:B", "has {{infobox x}} stuff").as_bytes());
    let mut archive = seg1.clone();
    let offsets = vec![0usize, seg1.len(), seg1.len() + seg2.len()];
    archive.extend_from_slice(&seg2);
    let recs = run(&archive, &offsets, &words(&["{{infobox x"]), &words(&["Draft:"])).unwrap();
    assert_eq!(recs.len(), 1);
    assert_eq!(recs[0].key.as_slice(), b"A");
    assert_eq!(recs[0].body.as_slice(), b"has {{infobox x}} stuff");
}

#[test]
fn run_fails_when_a_segment_is_corrupt() {
    let seg1 = bz(unit("A", "{{infobox x}}").as_bytes());
    let mut archive = seg1.clone();
    archive.extend_from_slice(b"garbage tail that is no stream");
    let offsets = vec![0usize, seg1.len(), archive.len()];
    let r = run(&archive, &offsets, &words(&["{{infobox x"]), &words(&[]));
    assert_eq!(r.unwrap_err(), DumpError::Decompression);
}

#[test]
fn run_single_offset_yields_nothing() {
    let archive = bz(b"anything");
    let offsets = vec![0usize];
    let recs = run(&archive, &offsets, &words(&["m"]), &words(&[])).unwrap();
    assert_eq!(recs.len(), 0);
}
