use dumper::scanner::{scan_records, Record};

fn unit(title: &str, text: &str) -> String {
    format!(
        "<page><title>{}</title><revision><text bytes=\"1\">{}</text></revision></page>",
        title, text
    )
}

#[test]
fn scan_extracts_fields_in_document_order() {
    let doc = format!("prefix{}{}suffix", unit("First", "body one"), unit("Second", "body two"));
    let recs: Vec<Record> = scan_records(doc.as_bytes());
    assert_eq!(recs.len(), 2);
    assert_eq!(recs[0].key.as_slice(), b"First");
    assert_eq!(recs[0].body.as_slice(), b"body one");
    assert_eq!(recs[1].key.as_slice(), b"Second");
    assert_eq!(recs[1].body.as_slice(), b"body two");
}

#[test]
fn scan_skips_unit_missing_body_and_continues() {
    let malformed = "<page><title>NoBody</title></page>";
    let doc = format!(
        "{}{}{}{}",
        unit("A", "one"),
        unit("B", "two"),
        malformed,
        unit("C", "three")
    );
    let recs = scan_records(doc.as_bytes());
    assert_eq!(recs.len(), 3);
    assert_eq!(recs[0].key.as_slice(), b"A");
    assert_eq!(recs[1].key.as_slice(), b"B");
    assert_eq!(recs[2].key.as_slice(), b"C");
}

#[test]
fn scan_skips_unit_missing_key() {
    let malformed = "<page><revision><text>stray</text></revision></page>";
    let doc = format!("{}{}", malformed, unit("Kept", "payload"));
    let recs = scan_records(doc.as_bytes());
    assert_eq!(recs.len(), 1);
    assert_eq!(recs[0].key.as_slice(), b"Kept");
    assert_eq!(recs[0].body.as_slice(), b"payload");
}

#[test]
fn scan_empty_and_unitless_text() {
    assert_eq!(scan_records(b"").len(), 0);
    assert_eq!(scan_records(b"no units here at all").len(), 0);
    assert_eq!(scan_records(b"<page><title>Unclosed</title>").len(), 0);
}

#[test]
fn scan_title_without_attributes() {
    let doc = "<page x=\"1\"><title>T</title><text>B</text></page>";
    let recs = scan_records(doc.as_bytes());
    assert_eq!(recs.len(), 1);
    assert_eq!(recs[0].key.as_slice(), b"T");
    assert_eq!(recs[0].body.as_slice(), b"B");
}
