use small_text::TextBuffer;

#[test]
fn str_under_24() {
    assert_eq!("hello", TextBuffer::from_str("hello").as_str())
}

#[test]
fn str_over_24() {
    assert_eq!(
        "abcdefghijklmnopqrstuvwxyz",
        TextBuffer::from_str("abcdefghijklmnopqrstuvwxyz").as_str()
    )
}

#[test]
fn sort() {
    let mut v = vec![
        TextBuffer::from_str("c"),
        TextBuffer::from_str("b"),
        TextBuffer::from_str("a"),
        TextBuffer::from_str("d"),
        TextBuffer::from_str("e"),
    ];
    v.sort_by(|a, b| a.partial_cmp(b).unwrap());
    assert_eq!(
        v,
        [
            TextBuffer::from_str("a"),
            TextBuffer::from_str("b"),
            TextBuffer::from_str("c"),
            TextBuffer::from_str("d"),
            TextBuffer::from_str("e")
        ]
    );
}

#[test]
fn clone_stack() {
    let a = TextBuffer::from_str("hello");
    assert_eq!(a.clone(), a);
}

#[test]
fn clone_heap() {
    let a = TextBuffer::from_str("abcdefghijklmnopqrstuvwxyz");
    assert_eq!(a.clone(), a);
}

#[test]
fn push_stack() {
    let mut a = TextBuffer::from_str("hell");
    a.push('o');
    assert_eq!("hello", a.as_str())
}

#[test]
fn push_stack_to_heap() {
    let mut a = TextBuffer::from_str("abcdefghijklmnopqrstuvw");
    a.push('x');
    assert_eq!("abcdefghijklmnopqrstuvwx", a.as_str())
}

#[test]
fn push_heap() {
    let mut a = TextBuffer::from_str("abcdefghijklmnopqrstuvwxy");
    a.push('z');
    assert_eq!("abcdefghijklmnopqrstuvwxyz", a.as_str())
}

#[test]
fn push_str_stack() {
    let mut a = TextBuffer::from_str("h");
    a.push_str("ello");
    assert_eq!("hello", a.as_str())
}

#[test]
fn push_str_heap() {
    let mut a = TextBuffer::from_str("abcdefghijklmnopqrstuvwxyz");
    a.push_str(" hello");
    assert_eq!("abcdefghijklmnopqrstuvwxyz hello", a.as_str())
}

#[test]
fn push_str_stack_to_heap() {
    let mut a = TextBuffer::from_str("abcdefghijkl");
    a.push_str("mnopqrstuvwxyz hello");
    assert_eq!("abcdefghijklmnopqrstuvwxyz hello", a.as_str())
}

#[test]
fn grow_heap() {
    let mut a = TextBuffer::from_str("abcdefghijklmnopqrstuvwxyz");
    a.push_str(" hello thing");
    assert_eq!("abcdefghijklmnopqrstuvwxyz hello thing", a.as_str())
}

#[test]
fn into_bytes_stack() {
    let a = TextBuffer::from_str("hello");
    assert_eq!(a.into_bytes(), vec![104, 101, 108, 108, 111])
}

#[test]
fn into_bytes_heap() {
    let a = TextBuffer::from_str("abcdefghijklmnopqrstuvwxyz");
    assert_eq!(
        a.into_bytes(),
        vec![
            97, 98, 99, 100, 101, 102, 103, 104, 105, 106, 107, 108, 109, 110, 111, 112, 113, 114,
            115, 116, 117, 118, 119, 120, 121, 122
        ]
    )
}

#[test]
fn clear_heap() {
    let mut a = TextBuffer::from_str("abcdefghijklmnopqrstuvwxyz");
    let original_capacity = a.capacity();
    a.clear();
    assert_eq!(a.as_str(), "");
    assert_eq!(a.capacity(), original_capacity);
}
