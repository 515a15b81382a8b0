use log_buffer::LogBuffer;

#[test]
fn writes_within_capacity_round_trip() {
    let mut buffer = LogBuffer::new(vec![0u8; 16]);
    buffer.write_str("ab");
    buffer.write_str("cd");
    buffer.write_str("ef");
    assert_eq!(buffer.extract(), "abcdef");
}

#[test]
fn overflow_keeps_most_recent_suffix() {
    let mut buffer = LogBuffer::new(vec![0u8; 16]);
    buffer.write_str("abcdefghij");
    buffer.write_str("klmnopqrst");
    // 20 bytes through a 16-byte buffer: the last 16 survive.
    assert_eq!(buffer.extract(), "efghijklmnopqrst");
}

#[test]
fn many_laps_keep_most_recent_suffix() {
    let mut buffer = LogBuffer::new(vec![0u8; 8]);
    for _ in 0..5 {
        buffer.write_str("0123456789");
    }
    // 50 bytes through an 8-byte buffer: the last 8 survive.
    assert_eq!(buffer.extract(), "23456789");
}

#[test]
fn clear_then_extract_is_empty() {
    let mut buffer = LogBuffer::new(vec![0u8; 16]);
    buffer.write_str("some text");
    assert_eq!(buffer.is_empty(), false);
    buffer.clear();
    assert_eq!(buffer.is_empty(), true);
    assert_eq!(buffer.extract(), "");
    assert_eq!(buffer.extract_lines(), Vec::<String>::new());
}

#[test]
fn full_lap_is_not_empty() {
    let mut buffer = LogBuffer::new(vec![0u8; 4]);
    // Exactly one lap returns the cursor to zero, but the last slot no
    // longer holds the sentinel.
    buffer.write_str("wxyz");
    assert_eq!(buffer.is_empty(), false);
    assert_eq!(buffer.extract(), "wxyz");
}

#[test]
fn extract_is_idempotent() {
    let mut buffer = LogBuffer::new(vec![0u8; 16]);
    buffer.write_str("repeatable");
    let first = buffer.extract();
    let second = buffer.extract();
    assert_eq!(first, second);
    assert_eq!(second, "repeatable");
}

#[test]
fn extract_lines_is_idempotent() {
    let mut buffer = LogBuffer::new(vec![0u8; 16]);
    buffer.write_str("\na\nb\n");
    assert_eq!(buffer.extract_lines(), vec!["a", "b"]);
    assert_eq!(buffer.extract_lines(), vec!["a", "b"]);
}

#[test]
fn lines_strip_carriage_returns() {
    let mut buffer = LogBuffer::new(vec![0u8; 16]);
    buffer.write_str("\nab\r\n");
    assert_eq!(buffer.extract_lines(), vec!["ab"]);
}

#[test]
fn line_feed_in_last_slot_yields_no_line() {
    let mut buffer = LogBuffer::new(vec![0u8; 16]);
    // The only line feed lands in the last slot: no index after it begins
    // a complete line.
    buffer.write_str("ab\n");
    assert_eq!(buffer.extract_lines(), Vec::<String>::new());
}

#[test]
fn unterminated_final_line_is_kept() {
    let mut buffer = LogBuffer::new(vec![0u8; 16]);
    buffer.write_str("\na\nbc");
    assert_eq!(buffer.extract_lines(), vec!["a", "bc"]);
}

#[test]
fn zero_capacity_accepts_and_returns_nothing() {
    let mut buffer = LogBuffer::new(Vec::new());
    assert_eq!(buffer.is_empty(), true);
    buffer.write_str("abc");
    assert_eq!(buffer.extract(), "");
    assert_eq!(buffer.extract_lines(), Vec::<String>::new());
}

#[test]
fn uninitialized_holds_storage_until_cleared() {
    let mut buffer = LogBuffer::uninitialized(vec![b'x'; 8]);
    // Uncleared storage reads back as-is: these bytes look like text.
    assert_eq!(buffer.extract(), "xxxxxxxx");
    buffer.clear();
    assert_eq!(buffer.extract(), "");
    buffer.write_str("ok");
    assert_eq!(buffer.extract(), "ok");
}
