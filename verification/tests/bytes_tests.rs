use dumper::bytes::{find_sub, fold_lower_vec, has_sub, is_prefix, parse_usize};

#[test]
fn find_sub_first_occurrence() {
    let text = b"abcabc";
    assert_eq!(find_sub(text, b"abc", 0), Some(0));
    assert_eq!(find_sub(text, b"abc", 1), Some(3));
    assert_eq!(find_sub(text, b"bc", 0), Some(1));
    assert_eq!(find_sub(text, b"cab", 0), Some(2));
    assert_eq!(find_sub(text, b"x", 0), None);
    assert_eq!(find_sub(text, b"abcabca", 0), None);
}

#[test]
fn find_sub_past_end() {
    let text = b"ab";
    assert_eq!(find_sub(text, b"ab", 1), None);
    assert_eq!(find_sub(b"", b"a", 0), None);
}

#[test]
fn has_sub_basic() {
    assert!(has_sub(b"hello world", b"o w"));
    assert!(!has_sub(b"hello world", b"ow"));
    assert!(has_sub(b"aaa", b"aaa"));
    assert!(!has_sub(b"aa", b"aaa"));
}

#[test]
fn is_prefix_basic() {
    assert!(is_prefix(b"", b"anything"));
    assert!(is_prefix(b"Dra", b"Draft:Example"));
    assert!(!is_prefix(b"draft", b"Draft:Example"));
    assert!(!is_prefix(b"longer", b"long"));
}

#[test]
fn fold_lower_ascii_only() {
    let folded = fold_lower_vec(b"Abc{{XYZ}}-09\xC3\x84");
    assert_eq!(folded.as_slice(), b"abc{{xyz}}-09\xC3\x84");
}

#[test]
fn parse_usize_basic() {
    assert_eq!(parse_usize(b"0"), Some(0));
    assert_eq!(parse_usize(b"42"), Some(42));
    assert_eq!(parse_usize(b"007"), Some(7));
    assert_eq!(parse_usize(b""), None);
    assert_eq!(parse_usize(b"4 2"), None);
    assert_eq!(parse_usize(b"-1"), None);
    assert_eq!(parse_usize(b"+1"), None);
}

#[test]
fn parse_usize_bounds() {
    let max = usize::MAX.to_string();
    assert_eq!(parse_usize(max.as_bytes()), Some(usize::MAX));
    let over = format!("{}0", usize::MAX);
    assert_eq!(parse_usize(over.as_bytes()), None);
}
