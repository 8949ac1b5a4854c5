use word_index::mt::{MtDeque, RealSize, DEQUE_SIZE_LIMIT_BYTES, SENTINEL_SIZE_BYTES};

#[test]
fn queue_pops_in_push_order() {
    let mut q: MtDeque<Option<String>> = MtDeque::new();
    q.push_back(Some(String::from("a")));
    q.push_back(Some(String::from("b")));
    q.push_back(Some(String::from("c")));
    assert_eq!(q.len(), 3);
    assert_eq!(q.pop_front(), Some(String::from("a")));
    assert_eq!(q.pop_front(), Some(String::from("b")));
    assert_eq!(q.pop_front(), Some(String::from("c")));
    assert_eq!(q.len(), 0);
}

#[test]
fn queue_front_and_back_ends() {
    let mut q: MtDeque<Option<String>> = MtDeque::new();
    q.push_back(Some(String::from("middle")));
    q.push_front(Some(String::from("first")));
    q.push_back(Some(String::from("last")));
    assert_eq!(q.pop_back(), Some(String::from("last")));
    assert_eq!(q.pop_front(), Some(String::from("first")));
    assert_eq!(q.pop_front(), Some(String::from("middle")));
}

#[test]
fn queue_tracks_byte_size() {
    let mut q: MtDeque<Option<String>> = MtDeque::new();
    assert_eq!(q.size_bytes(), 0);
    assert_eq!(q.capacity(), DEQUE_SIZE_LIMIT_BYTES);
    q.push_back(Some(String::from("abcd")));
    assert_eq!(q.size_bytes(), 4);
    q.push_back(None);
    assert_eq!(q.size_bytes(), 4 + SENTINEL_SIZE_BYTES);
    let popped = q.pop_front();
    assert_eq!(popped, Some(String::from("abcd")));
    assert_eq!(q.size_bytes(), SENTINEL_SIZE_BYTES);
    q.pop_front();
    assert_eq!(q.size_bytes(), 0);
}

#[test]
fn queue_size_stays_under_custom_capacity() {
    let mut q: MtDeque<Option<String>> = MtDeque::with_capacity(100);
    assert_eq!(q.capacity(), 100);
    q.push_back(Some(String::from("0123456789")));
    q.push_back(Some(String::from("0123456789")));
    assert!(q.size_bytes() < q.capacity());
}

#[test]
fn string_payload_is_measured_in_utf8_bytes() {
    let two_byte_char = Some(String::from("\u{00e9}"));
    assert_eq!(two_byte_char.get_real_size(), 2);
    let sentinel: Option<String> = None;
    assert_eq!(sentinel.get_real_size(), SENTINEL_SIZE_BYTES);
}

#[test]
fn queue_roundtrip_returns_batch_in_order() {
    let items = vec![
        Some(String::from("first")),
        None,
        Some(String::from("second")),
        Some(String::from("third")),
    ];
    let out = word_index::mt::queue_fifo_roundtrip(items.clone());
    assert_eq!(out, items);
}
