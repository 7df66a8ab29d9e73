use utf8_stream::{get_utf8_at_index, Utf8Stream};

#[test]
fn heuristics_test_pop_utf8_esoteric() {
    let stream = Utf8Stream::new("ðŸ‘©ðŸ½â€ðŸš’");
    let (string, index, offset, count) = get_utf8_at_index(&stream, 0);
    assert_eq!(string, "ðŸ‘©ðŸ½â€ðŸš’", "ðŸ‘©ðŸ½â€ðŸš’");
    assert_eq!(index, 0, "index");
    assert_eq!(offset, 29, "offset");
    assert_eq!(count, 29, "count");
}

#[test]
fn heuristics_test_pop_utf8_single() {
    let stream = Utf8Stream::new("â¤ï¸");
    let (string, index, offset, count) = get_utf8_at_index(&stream, 0);
    assert_eq!(string, "â¤ï¸", "â¤ï¸");
    assert_eq!(index, 0, "index");
    assert_eq!(offset, 8, "offset");
    assert_eq!(count, 8, "count");
}

#[test]
fn heuristics_test_pop_utf8_short() {
    let stream = Utf8Stream::new("dâ¤ï¸h");
    let (string, index, offset, count) = get_utf8_at_index(&stream, 1);
    assert_eq!(string, "â¤ï¸", "â¤ï¸");
    assert_eq!(index, 1, "index");
    assert_eq!(offset, 8, "offset");
    assert_eq!(count, 8, "count");
}

#[test]
fn heuristics_test_pop_utf8_long() {
    let stream = Utf8Stream::new("redâ¤ï¸heart");
    let (string, index, offset, count) = get_utf8_at_index(&stream, 3);
    assert_eq!(string, "â¤ï¸", "â¤ï¸");
    assert_eq!(index, 3, "index");
    assert_eq!(offset, 10, "offset");
    assert_eq!(count, 8, "count");
}
