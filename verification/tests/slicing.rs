use fuzzywuzzy::slice_utf8;

#[test]
fn slice_at_the_end() {
    let s = "this is a test"; // No Unicode
    assert_eq!(slice_utf8(s, 3, s.len()), &s[3..(s.len())]);
}

#[test]
fn slice_in_the_utf8() {
    let s = "ϵthiϕś αβ a test"; // Unicode
    assert_eq!(slice_utf8(s, 2, 6), "hiϕś");
}

#[test]
fn short() {
    assert_eq!(slice_utf8("ö", 0, 1), "ö");
}

#[test]
fn arabic() {
    let s = "من"; // entire string is unicode
    assert_eq!(slice_utf8(s, 0, 2), s);
}

#[test]
fn empty() {
    let s = "abcd";
    assert_eq!(slice_utf8(s, 2, 2), &s[2..2]);
}

#[test]
fn split_cluster() {
    let s = "y̆es";
    assert_eq!(slice_utf8(s, 0, 1), "y");
    assert_eq!(slice_utf8(s, 1, 4), "\u{0306}es");
}

#[test]
#[should_panic]
fn overlarge() {
    let s = "abcde";
    slice_utf8(s, 0, 10);
}

#[test]
#[should_panic]
fn low_greater_then_high() {
    let s = "abcde";
    slice_utf8(s, 4, 2);
}

#[test]
fn slice_whole_string() {
    let s = "αβγ";
    assert_eq!(slice_utf8(s, 0, 3), s);
}

#[test]
fn slice_empty_string() {
    assert_eq!(slice_utf8("", 0, 0), "");
}
