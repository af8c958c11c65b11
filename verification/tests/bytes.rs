use archive_ui::bytes::read_text;

#[test]
fn bytes_as_text() {
    assert_eq!(read_text(b""), "");
    assert_eq!(read_text("naïve …".as_bytes()), "naïve …");
    assert_eq!(read_text(b"a\xffb\xe2\x82"), "a\u{fffd}b\u{fffd}");
}
