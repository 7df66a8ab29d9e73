use utf8_stream::{get_utf8_at_index, Utf8Stream};

#[test]
fn internal_test_pop_utf8_esoteric() {
    let stream = Utf8Stream::new("👩🏽‍🚒");
    let (string, index, offset, count) = get_utf8_at_index(&stream, 0);
    assert_eq!(string, "👩🏽‍🚒", "👩🏽‍🚒");
    assert_eq!(index, 0, "index");
    assert_eq!(offset, 15, "offset");
    // The window may close at the end of the content, but no byte past the
    // end is ever counted.
    assert_eq!(count, 15, "count");
}

#[test]
fn internal_test_pop_utf8_single() {
    let stream = Utf8Stream::new("❤️");
    let (string, index, offset, count) = get_utf8_at_index(&stream, 0);
    assert_eq!(string, "❤️", "❤️");
    assert_eq!(index, 0, "index");
    assert_eq!(offset, 6, "offset");
    assert_eq!(count, 6, "count");
}

#[test]
fn internal_test_pop_utf8_short() {
    let stream = Utf8Stream::new("d❤️h");
    let (string, index, offset, count) = get_utf8_at_index(&stream, 1);
    assert_eq!(string, "❤️", "❤️");
    assert_eq!(index, 1, "index");
    assert_eq!(offset, 6, "offset");
    assert_eq!(count, 6, "count");
}

#[test]
fn internal_test_pop_utf8_long() {
    let stream = Utf8Stream::new("red❤️heart");
    let (string, index, offset, count) = get_utf8_at_index(&stream, 3);
    assert_eq!(string, "❤️", "❤️");
    assert_eq!(index, 3, "index");
    assert_eq!(offset, 8, "offset");
    assert_eq!(count, 6, "count");
}
