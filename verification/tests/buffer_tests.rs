use notecore::buffer::{string_chars, RangeError, TextBuffer};

fn chars(s: &str) -> Vec<char> {
    s.chars().collect()
}

fn text_of(b: &TextBuffer) -> String {
    b.slice(0, b.length()).unwrap().into_iter().collect()
}

#[test]
fn buffer_length_counts_characters() {
    let b = TextBuffer::from_chars(chars("héllo🦀"));
    assert_eq!(b.length(), 6);
}

#[test]
fn buffer_slice_returns_range() {
    let b = TextBuffer::from_chars(chars("Teh cat sat."));
    let s = b.slice(4, 7).unwrap();
    assert_eq!(s, chars("cat"));
}

#[test]
fn buffer_slice_rejects_bad_range() {
    let b = TextBuffer::from_chars(chars("abc"));
    assert_eq!(b.slice(2, 1), Err(RangeError));
    assert_eq!(b.slice(0, 4), Err(RangeError));
}

#[test]
fn buffer_splice_replaces_range() {
    let mut b = TextBuffer::from_chars(chars("Teh cat sat."));
    let r = b.splice(0, 3, &chars("The"));
    assert_eq!(r, Ok(()));
    assert_eq!(text_of(&b), "The cat sat.");
    assert_eq!(b.length(), 12);
}

#[test]
fn buffer_splice_changes_length_exactly() {
    let mut b = TextBuffer::from_chars(chars("abc"));
    b.splice(1, 2, &chars("xyz")).unwrap();
    assert_eq!(text_of(&b), "axyzc");
    assert_eq!(b.length(), 5);
    b.splice(1, 4, &chars("")).unwrap();
    assert_eq!(text_of(&b), "ac");
    assert_eq!(b.length(), 2);
}

#[test]
fn buffer_splice_rejects_bad_range_and_leaves_text() {
    let mut b = TextBuffer::from_chars(chars("abc"));
    assert_eq!(b.splice(2, 1, &chars("x")), Err(RangeError));
    assert_eq!(b.splice(0, 9, &chars("x")), Err(RangeError));
    assert_eq!(text_of(&b), "abc");
}

#[test]
fn buffer_splice_by_character_offsets_not_bytes() {
    // Multi-byte characters: offsets still count scalar values, so a
    // splice can never cut a code point in half.
    let mut b = TextBuffer::from_chars(chars("héllo🦀!"));
    b.splice(5, 6, &chars("??")).unwrap();
    assert_eq!(text_of(&b), "héllo??!");
}

#[test]
fn string_chars_matches_chars() {
    let v = string_chars(&String::from("a🦀\nb"));
    assert_eq!(v, chars("a🦀\nb"));
}
