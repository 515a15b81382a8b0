use log_buffer::LogBuffer;

#[test]
fn basic() {
    let mut buffer = LogBuffer::new(vec![0u8; 16]);

    assert_eq!(buffer.is_empty(), true);
    assert_eq!(buffer.extract(), "");
    assert_eq!(buffer.is_empty(), true);

    buffer.write_str("foo");
    assert_eq!(buffer.is_empty(), false);
    assert_eq!(buffer.extract(), "foo");
    assert_eq!(buffer.is_empty(), false);

    buffer.write_str("bar");
    assert_eq!(buffer.extract(), "foobar");

    buffer.write_str("verylongthing");
    assert_eq!(buffer.is_empty(), false);
    assert_eq!(buffer.extract(), "barverylongthing");
    assert_eq!(buffer.is_empty(), false);

    buffer.clear();
    assert_eq!(buffer.is_empty(), true);
}

#[test]
fn exhaustive() {
    for i in 0..17 {
        let mut buffer = LogBuffer::new(vec![0u8; 16]);

        for _ in 0..i {
            buffer.write_str("x");
        }
        buffer.write_str("abcdefghijklmnop");
        assert_eq!(buffer.extract(), "abcdefghijklmnop");
    }
}

#[test]
fn cut_off_utf8() {
    let mut buffer = LogBuffer::new(vec![0u8; 16]);

    // two code units
    buffer.write_str("ййййййййa");
    assert_eq!(buffer.extract(), "йййййййa");

    // three code units
    buffer.write_str("ああああああa");
    assert_eq!(buffer.extract(), "あああああa");

    // four code units
    buffer.write_str("😊😊😊😊a");
    assert_eq!(buffer.extract(), "😊😊😊a");
}

#[test]
fn lines() {
    let mut buffer = LogBuffer::new(vec![0u8; 16]);

    assert_eq!(buffer.extract(), "");

    buffer.write_str("\n1,hoge\n");
    assert_eq!(buffer.extract_lines(), vec!["1,hoge"]);

    buffer.write_str("2,fuga\n");
    buffer.write_str("3,piyo\n");
    assert_eq!(buffer.extract_lines(), vec!["2,fuga", "3,piyo"]);
}
