use small_text::{BoundaryViolation, InvalidArgument, TextBuffer, INLINE_CAPACITY};
use std::cmp::Ordering;

#[test]
fn empty_buffer_is_inline() {
    let s = TextBuffer::new();
    assert_eq!(s.len(), 0);
    assert_eq!(s.capacity(), 23);
    assert_eq!(s.capacity(), INLINE_CAPACITY);
    assert!(!s.overflowed());
}

#[test]
fn short_input_stays_inline() {
    let s = TextBuffer::from_str("twenty-three bytes max!");
    assert_eq!(s.len(), 23);
    assert!(!s.overflowed());
    assert_eq!(s.capacity(), 23);
}

#[test]
fn long_input_gets_power_of_two_capacity() {
    let s = TextBuffer::from_str("abcdefghijklmnopqrstuvwxyz");
    assert!(s.overflowed());
    assert_eq!(s.capacity(), 32);

    let t = TextBuffer::from_str("twenty-four bytes long!!");
    assert_eq!(t.len(), 24);
    assert!(t.overflowed());
    assert_eq!(t.capacity(), 32);
}

#[test]
fn with_capacity_doubles_when_full() {
    let mut s = TextBuffer::with_capacity(10);
    assert!(s.overflowed());
    for _ in 0..10 {
        s.push('a');
    }
    assert_eq!(s.capacity(), 10);
    s.push('a');
    assert_eq!(s.capacity(), 20);
    assert_eq!(s.len(), 11);
}

#[test]
fn zero_capacity_is_invalid() {
    assert_eq!(TextBuffer::try_with_capacity(0).unwrap_err(), InvalidArgument);
    assert_eq!(TextBuffer::try_with_capacity(8).unwrap().capacity(), 8);
}

#[test]
fn from_utf8_reports_first_invalid_byte() {
    let err = TextBuffer::from_utf8(vec![0x00, 0x9F]).unwrap_err();
    assert_eq!(err.utf8_error().valid_up_to(), 1);
    assert_eq!(err.as_bytes(), &[0x00, 0x9F]);
    assert_eq!(err.into_bytes(), vec![0x00, 0x9F]);
}

#[test]
fn from_utf8_adopts_heap_storage() {
    let s = TextBuffer::from_utf8(vec![104, 105]).unwrap();
    assert_eq!(s.as_str(), "hi");
    assert!(s.overflowed());
    assert_eq!(s.capacity(), 2);
}

#[test]
fn from_utf8_rejects_overlong_and_surrogates() {
    // 0xC0 0x80 is an overlong encoding of NUL.
    assert_eq!(TextBuffer::from_utf8(vec![0xC0, 0x80]).unwrap_err().utf8_error().valid_up_to(), 0);
    // 0xED 0xA0 0x80 encodes the surrogate U+D800.
    let err = TextBuffer::from_utf8(vec![97, 0xED, 0xA0, 0x80]).unwrap_err();
    assert_eq!(err.utf8_error().valid_up_to(), 1);
}

#[test]
fn from_utf8_unchecked_adopts_bytes() {
    let s = TextBuffer::from_utf8_unchecked(vec![104, 101, 121]);
    assert_eq!(s.as_str(), "hey");
    assert!(s.overflowed());
}

#[test]
fn from_string_adopts_host_string() {
    let s = TextBuffer::from_string(String::from("voil\u{e0}!"));
    assert_eq!(s.as_str(), "voil\u{e0}!");
    assert!(s.overflowed());
}

#[test]
fn truncate_ascii_keeps_prefix() {
    let mut s = TextBuffer::from_str("hello");
    s.truncate(2);
    assert_eq!(s.as_str(), "he");
    assert_eq!(s.len(), 2);
}

#[test]
fn truncate_inside_character_is_rejected() {
    // "a" then a two-byte e-acute: offset 2 splits the encoding.
    let mut s = TextBuffer::from_str("a\u{e9}");
    assert_eq!(s.try_truncate(2), Err(BoundaryViolation));
    assert_eq!(s.as_str(), "a\u{e9}");
    assert_eq!(s.try_truncate(1), Ok(()));
    assert_eq!(s.as_str(), "a");
}

#[test]
fn truncate_beyond_length_is_noop() {
    let mut s = TextBuffer::from_str("hi");
    s.truncate(10);
    assert_eq!(s.as_str(), "hi");
}

#[test]
fn push_then_pop_round_trips() {
    let mut s = TextBuffer::from_str("h\u{e9}llo");
    let before = s.len();
    s.push('\u{df}');
    assert_eq!(s.pop(), Some('\u{df}'));
    assert_eq!(s.len(), before);
    assert_eq!(s.as_str(), "h\u{e9}llo");
}

#[test]
fn pop_walks_back_through_characters() {
    let mut s = TextBuffer::from_str("foo");
    assert_eq!(s.pop(), Some('o'));
    assert_eq!(s.pop(), Some('o'));
    assert_eq!(s.pop(), Some('f'));
    assert_eq!(s.pop(), None);
}

#[test]
fn pop_multibyte() {
    let mut s = TextBuffer::from_str("a\u{1F600}");
    assert_eq!(s.pop(), Some('\u{1F600}'));
    assert_eq!(s.as_str(), "a");
}

#[test]
fn remove_shifts_later_bytes() {
    let mut s = TextBuffer::from_str("foo");
    assert_eq!(s.remove(0), 'f');
    assert_eq!(s.remove(1), 'o');
    assert_eq!(s.remove(0), 'o');
    assert_eq!(s.len(), 0);
}

#[test]
fn remove_multibyte_reduces_length_by_width() {
    let mut s = TextBuffer::from_str("\u{e9}ab");
    assert_eq!(s.len(), 4);
    assert_eq!(s.remove(0), '\u{e9}');
    assert_eq!(s.len(), 2);
    assert_eq!(s.as_str(), "ab");
}

#[test]
fn remove_bad_offset_is_rejected() {
    let mut s = TextBuffer::from_str("a\u{e9}b");
    assert_eq!(s.try_remove(2), Err(BoundaryViolation));
    assert_eq!(s.try_remove(9), Err(BoundaryViolation));
    assert_eq!(s.try_remove(1), Ok('\u{e9}'));
    assert_eq!(s.as_str(), "ab");
}

#[test]
fn retain_filters_characters() {
    let mut s = TextBuffer::from_str("f_o_ob_ar");
    s.retain(|c| c != '_');
    assert_eq!(s.as_str(), "foobar");
}

#[test]
fn retain_true_is_identity_and_keeps_capacity() {
    let mut s = TextBuffer::from_str("abcdefghijklmnopqrstuvwxyz");
    let cap = s.capacity();
    s.retain(|_| true);
    assert_eq!(s.as_str(), "abcdefghijklmnopqrstuvwxyz");
    assert_eq!(s.capacity(), cap);
}

#[test]
fn retain_false_empties_but_keeps_heap_capacity() {
    let mut s = TextBuffer::from_str("abcdefghijklmnopqrstuvwxyz");
    let cap = s.capacity();
    s.retain(|_| false);
    assert_eq!(s.len(), 0);
    assert!(s.overflowed());
    assert_eq!(s.capacity(), cap);
}

#[test]
fn reserve_uses_bulk_rule() {
    let mut s = TextBuffer::new();
    s.reserve(10);
    assert_eq!(s.capacity(), 23);
    assert!(!s.overflowed());
    s.reserve(30);
    assert!(s.overflowed());
    assert_eq!(s.capacity(), 32);

    let mut t = TextBuffer::with_capacity(10);
    t.push('a');
    t.push('b');
    t.reserve(8);
    assert_eq!(t.capacity(), 10);
}

#[test]
fn shrink_to_fit_reallocates_heap_only() {
    let mut s = TextBuffer::from_str("abcdefghijklmnopqrstuvwxyz");
    assert_eq!(s.capacity(), 32);
    s.shrink_to_fit();
    assert_eq!(s.capacity(), 26);
    assert_eq!(s.as_str(), "abcdefghijklmnopqrstuvwxyz");

    let mut t = TextBuffer::from_str("hello!");
    assert_eq!(t.capacity(), 23);
    t.shrink_to_fit();
    assert_eq!(t.capacity(), 23);
}

#[test]
fn escalation_is_permanent() {
    let mut s = TextBuffer::from_str("abcdefghijklmnopqrstuvwxyz");
    assert!(s.overflowed());
    s.clear();
    assert!(s.overflowed());
    s.truncate(0);
    assert!(s.overflowed());
    s.push('a');
    while s.pop().is_some() {}
    assert!(s.overflowed());
    s.retain(|_| false);
    assert!(s.overflowed());
    s.shrink_to_fit();
    assert!(s.overflowed());
}

#[test]
fn equality_ignores_representation() {
    let inline = TextBuffer::from_str("hi");
    let heap = TextBuffer::from_utf8(vec![104, 105]).unwrap();
    assert!(!inline.overflowed());
    assert!(heap.overflowed());
    assert_eq!(inline, heap);
}

#[test]
fn clone_of_short_heap_content_reoptimises() {
    let original = TextBuffer::from_utf8(vec![104, 105]).unwrap();
    assert!(original.overflowed());
    let copy = original.clone();
    assert!(!copy.overflowed());
    assert_eq!(copy.capacity(), 23);
    assert_eq!(copy, original);
    assert!(original.overflowed());
}

#[test]
fn clone_of_long_heap_content_keeps_capacity() {
    let original = TextBuffer::from_str("abcdefghijklmnopqrstuvwxyz");
    let copy = original.clone();
    assert!(copy.overflowed());
    assert_eq!(copy.capacity(), original.capacity());
    assert_eq!(copy, original);
}

#[test]
fn ordering_is_lexicographic_on_bytes() {
    let ab = TextBuffer::from_str("ab");
    let b = TextBuffer::from_str("b");
    let ab2 = TextBuffer::from_str("ab");
    assert_eq!(ab.partial_cmp(&b), Some(Ordering::Less));
    assert_eq!(b.partial_cmp(&ab), Some(Ordering::Greater));
    assert_eq!(ab.partial_cmp(&ab2), Some(Ordering::Equal));
    assert_eq!(ab.partial_cmp(&TextBuffer::from_str("abc")), Some(Ordering::Less));
}

#[test]
fn non_ascii_encoding_matches_utf8() {
    let s = TextBuffer::from_str("\u{e9}");
    assert_eq!(s.as_bytes(), &[0xC3, 0xA9]);
    let mut t = TextBuffer::new();
    t.push('\u{1F600}');
    assert_eq!(t.as_bytes(), &[0xF0, 0x9F, 0x98, 0x80]);
    assert_eq!(t.pop(), Some('\u{1F600}'));
}

#[test]
fn is_char_boundary_tracks_characters() {
    let s = TextBuffer::from_str("a\u{e9}b");
    assert!(s.is_char_boundary(0));
    assert!(s.is_char_boundary(1));
    assert!(!s.is_char_boundary(2));
    assert!(s.is_char_boundary(3));
    assert!(s.is_char_boundary(4));
    assert!(!s.is_char_boundary(5));
}

#[test]
fn push_onto_empty_adoption_grows_from_zero() {
    let mut s = TextBuffer::from_utf8(Vec::new()).unwrap();
    assert!(s.overflowed());
    assert_eq!(s.capacity(), 0);
    s.push('a');
    assert_eq!(s.as_str(), "a");
    assert!(s.overflowed());
}

#[test]
fn into_bytes_returns_exactly_the_content() {
    assert_eq!(TextBuffer::new().into_bytes(), Vec::<u8>::new());
    let mut s = TextBuffer::from_str("hello");
    s.truncate(2);
    assert_eq!(s.into_bytes(), vec![104, 101]);
}

#[test]
fn default_is_empty_inline() {
    let s = TextBuffer::default();
    assert_eq!(s.len(), 0);
    assert_eq!(s.capacity(), 23);
    assert!(!s.overflowed());
}
