use zero2prod::logs::TracingConsumer;

#[test]
fn log_text_decodes_utf8() {
    assert_eq!(TracingConsumer.log_text("héllo\n".as_bytes()), "héllo\n");
}

#[test]
fn log_text_replaces_invalid_bytes() {
    assert_eq!(TracingConsumer.log_text(&[b'a', 0xff, b'b']), "a\u{FFFD}b");
}

