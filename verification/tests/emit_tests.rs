use dumper::emit::{emit_record, trim_bytes};
use dumper::scanner::Record;

#[test]
fn trim_strips_ascii_whitespace() {
    assert_eq!(trim_bytes(b"  a b \t\r\n").as_slice(), b"a b");
    assert_eq!(trim_bytes(b"").as_slice(), b"");
    assert_eq!(trim_bytes(b" \n\t ").as_slice(), b"");
    assert_eq!(trim_bytes(b"xyz").as_slice(), b"xyz");
    assert_eq!(trim_bytes(b"a  b").as_slice(), b"a  b");
}

#[test]
fn emit_decodes_entities_then_trims() {
    let rec = Record {
        key: b" A &amp; B ".to_vec(),
        body: b"\t&lt;kept&gt; &#65; ".to_vec(),
    };
    let out = emit_record(rec);
    assert_eq!(out.key.as_slice(), b"A & B");
    assert_eq!(out.body.as_slice(), b"<kept> A");
}

#[test]
fn emit_leaves_plain_text_alone() {
    let rec = Record { key: b"Plain".to_vec(), body: b"no entities here".to_vec() };
    let out = emit_record(rec);
    assert_eq!(out.key.as_slice(), b"Plain");
    assert_eq!(out.body.as_slice(), b"no entities here");
}
