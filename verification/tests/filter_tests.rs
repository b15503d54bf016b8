use dumper::filter::{accepts, make_marker};
use dumper::scanner::Record;

fn rec(key: &str, body: &str) -> Record {
    Record { key: key.as_bytes().to_vec(), body: body.as_bytes().to_vec() }
}

fn words(ws: &[&str]) -> Vec<Vec<u8>> {
    ws.iter().map(|w| w.as_bytes().to_vec()).collect()
}

#[test]
fn exclusion_wins_over_inclusion() {
    let markers = words(&["{{infobox person"]);
    let prefixes = words(&["Draft:"]);
    let r = rec("Draft:Example", "something {{infobox person}} more");
    assert!(!accepts(&r, &markers, &prefixes));
}

#[test]
fn marker_in_body_accepts() {
    let markers = words(&["{{infobox person"]);
    let prefixes = words(&["Draft:"]);
    let r = rec("Example", "something {{infobox person}} more");
    assert!(accepts(&r, &markers, &prefixes));
}

#[test]
fn no_marker_rejects() {
    let markers = words(&["{{infobox person"]);
    let prefixes = words(&["Draft:"]);
    let r = rec("Example", "plain prose with no template");
    assert!(!accepts(&r, &markers, &prefixes));
}

#[test]
fn inclusion_is_case_insensitive() {
    let markers = words(&["{{infobox person"]);
    let prefixes = words(&[]);
    let r = rec("Example", "leading {{Infobox Person|name=x}} trailing");
    assert!(accepts(&r, &markers, &prefixes));
}

#[test]
fn key_match_is_case_sensitive() {
    let markers = words(&["{{infobox person"]);
    let prefixes = words(&["Draft:"]);
    let r = rec("draft:Lower", "has {{infobox person}}");
    assert!(accepts(&r, &markers, &prefixes));
}

#[test]
fn any_of_several_markers_accepts() {
    let markers = words(&["{{infobox person", "{{infobox place"]);
    let prefixes = words(&[]);
    let r = rec("Example", "uses {{infobox place}} only");
    assert!(accepts(&r, &markers, &prefixes));
}

#[test]
fn no_markers_rejects_everything() {
    let markers = words(&[]);
    let prefixes = words(&[]);
    let r = rec("Example", "anything");
    assert!(!accepts(&r, &markers, &prefixes));
}

#[test]
fn empty_marker_matches_any_body() {
    let markers = words(&[""]);
    let prefixes = words(&["Draft:"]);
    assert!(accepts(&rec("X", "anything at all"), &markers, &prefixes));
    assert!(!accepts(&rec("Draft:X", "anything at all"), &markers, &prefixes));
}

#[test]
fn make_marker_prefixes_seed() {
    let m = make_marker(b"person");
    assert_eq!(m.as_slice(), b"{{infobox person");
    let empty = make_marker(b"");
    assert_eq!(empty.as_slice(), b"{{infobox ");
}
