use utf8_stream::Utf8Stream;

#[test]
fn test_get_ascii() {
    let stream = Utf8Stream::new("test");
    assert_eq!(stream.get(1).as_deref(), Some("e"));
    assert_eq!(stream.get(0).as_deref(), Some("t"));
    assert_eq!(stream.get(2).as_deref(), Some("s"));
    assert_eq!(stream.get(3).as_deref(), Some("t"));
    assert_eq!(stream.get(4).as_deref(), None);
}
