use utf8_stream::{
    get_byte_at_index, get_byte_slice_of, get_str_slice_of, get_utf8_at_index,
    is_ascii_printable_byte, is_not_ascii_byte, Utf8Stream,
};

fn forward(stream: &mut Utf8Stream) -> Vec<String> {
    let mut units = Vec::new();
    while let Some(unit) = stream.next() {
        units.push(unit);
    }
    units
}

fn pops(stream: &mut Utf8Stream) -> Vec<String> {
    let mut units = Vec::new();
    while let Some(unit) = stream.pop() {
        units.push(unit);
    }
    units
}

#[test]
fn ascii_units_forward_and_popped_in_reverse() {
    let mut stream = Utf8Stream::new("hello, world");
    let units = forward(&mut stream);
    assert_eq!(units, vec!["h", "e", "l", "l", "o", ",", " ", "w", "o", "r", "l", "d"]);
    let mut reversed = units.clone();
    reversed.reverse();
    assert_eq!(pops(&mut stream), reversed);
    assert_eq!(stream.len(), 0);
}

#[test]
fn iterate_then_pop_test() {
    let mut stream = Utf8Stream::new("test");
    assert_eq!(forward(&mut stream), vec!["t", "e", "s", "t"]);
    assert_eq!(stream.pop().as_deref(), Some("t"));
    assert_eq!(stream.pop().as_deref(), Some("s"));
    assert_eq!(stream.pop().as_deref(), Some("e"));
    assert_eq!(stream.as_str(), "t");
    assert_eq!(stream.as_bytes(), b"t");
}

#[test]
fn red_heart_get_and_iterate() {
    let mut stream = Utf8Stream::new("red❤️heart");
    assert_eq!(stream.len(), 14);
    assert_eq!(stream.get(0).as_deref(), Some("r"));
    assert_eq!(stream.get(3).as_deref(), Some("❤️"));
    assert_eq!(stream.get(13).as_deref(), Some("t"));
    assert_eq!(forward(&mut stream), vec!["r", "e", "d", "❤️", "h", "e", "a", "r", "t"]);
}

#[test]
fn red_heart_pops_every_unit() {
    let mut stream = Utf8Stream::new("red❤️heart");
    assert_eq!(pops(&mut stream), vec!["t", "r", "a", "e", "h", "❤️", "d", "e", "r"]);
    assert!(stream.is_empty());
}

#[test]
fn fire_fighter_is_one_cluster() {
    let mut stream = Utf8Stream::new("👩🏽‍🚒");
    assert_eq!(stream.len(), 15);
    assert_eq!(stream.get(0).as_deref(), Some("👩🏽‍🚒"));
    assert_eq!(stream.next().as_deref(), Some("👩🏽‍🚒"));
    assert_eq!(stream.next().as_deref(), None);
    assert_eq!(stream.next_back().as_deref(), Some("👩🏽‍🚒"));
    assert_eq!(stream.next_back().as_deref(), None);
}

#[test]
fn push_appends_bytes() {
    let mut pushed = Utf8Stream::new("red❤️");
    pushed.push("heart");
    let whole = Utf8Stream::new("red❤️heart");
    assert_eq!(pushed.as_bytes(), whole.as_bytes());
    assert_eq!(pushed.as_str(), "red❤️heart");
    assert!(pushed == whole);
}

#[test]
fn push_keeps_cursor() {
    let mut stream = Utf8Stream::new("ab");
    assert_eq!(stream.next().as_deref(), Some("a"));
    stream.push("c");
    assert_eq!(forward(&mut stream), vec!["b", "c"]);
}

#[test]
fn round_trip_concatenates_to_as_str() {
    for text in ["fire👩🏽‍🚒fighter", "plain ascii", "d❤️h", ""] {
        let mut stream = Utf8Stream::new(text);
        let joined: String = forward(&mut stream).concat();
        assert_eq!(joined, stream.as_str());
        assert_eq!(joined, text);
    }
}

#[test]
fn clear_then_push_is_fresh() {
    let mut stream = Utf8Stream::new("test");
    assert_eq!(stream.next().as_deref(), Some("t"));
    assert_eq!(stream.next().as_deref(), Some("e"));
    stream.clear();
    assert_eq!(stream.len(), 0);
    assert!(stream.is_empty());
    assert_eq!(stream.next().as_deref(), None);
    stream.push("s");
    assert!(stream == Utf8Stream::new("s"));
    assert_eq!(stream.next().as_deref(), Some("s"));
}

#[test]
fn rewind_restarts_iteration() {
    let mut stream = Utf8Stream::new("d❤️h");
    let first = forward(&mut stream);
    stream.rewind();
    let again = forward(&mut stream);
    let mut fresh = Utf8Stream::new("d❤️h");
    assert_eq!(first, again);
    assert_eq!(again, forward(&mut fresh));
    assert_eq!(again, vec!["d", "❤️", "h"]);
}

#[test]
fn empty_stream_has_nothing() {
    let mut stream = Utf8Stream::default();
    assert_eq!(stream.len(), 0);
    assert!(stream.is_empty());
    assert_eq!(stream.get(0), None);
    assert_eq!(stream.last_printable(), None);
    assert_eq!(stream.next(), None);
    assert_eq!(stream.next_back(), None);
    assert_eq!(stream.pop(), None);
    assert_eq!(stream.as_str(), "");
    let (text, start, end, count) = get_utf8_at_index(&stream, 3);
    assert_eq!((text.as_str(), start, end, count), ("", 3, 0, 0));
}

#[test]
fn get_past_the_end_and_on_nul() {
    let stream = Utf8Stream::new("a\0b");
    assert_eq!(stream.get(0).as_deref(), Some("a"));
    assert_eq!(stream.get(1), None);
    assert_eq!(stream.get(2).as_deref(), Some("b"));
    assert_eq!(stream.get(3), None);
    assert_eq!(stream.get(usize::MAX), None);
}

#[test]
fn ascii_fast_path_reports_one_byte() {
    let stream = Utf8Stream::new("xyz");
    let (text, start, end, count) = get_utf8_at_index(&stream, 1);
    assert_eq!((text.as_str(), start, end, count), ("y", 1, 2, 1));
}

#[test]
fn last_printable_unit() {
    assert_eq!(Utf8Stream::new("red❤️heart").last_printable().as_deref(), Some("t"));
    assert_eq!(Utf8Stream::new("ab\0").last_printable().as_deref(), Some("b"));
    assert_eq!(Utf8Stream::new("\0").last_printable(), None);
}

#[test]
fn contains_is_a_substring_test() {
    let mut stream = Utf8Stream::new("red❤️heart");
    assert!(stream.contains("❤️"));
    assert!(stream.contains("heart"));
    assert!(stream.contains("d❤"));
    assert!(stream.contains(""));
    assert!(!stream.contains("hearts"));
    assert!(!stream.contains("xyz"));
    assert_eq!(stream.as_str(), "red❤️heart");
}

#[test]
fn equality_ignores_cursor() {
    let mut a = Utf8Stream::new("abc");
    let b = Utf8Stream::from("abc");
    assert_eq!(a.next().as_deref(), Some("a"));
    assert!(a == b);
    assert!(a != Utf8Stream::new("abd"));
}

#[test]
fn byte_classes() {
    assert!(is_ascii_printable_byte(b'a'));
    assert!(is_ascii_printable_byte(b'\t'));
    assert!(is_ascii_printable_byte(12));
    assert!(!is_ascii_printable_byte(13));
    assert!(!is_ascii_printable_byte(b'~'));
    assert!(!is_ascii_printable_byte(0));
    assert!(is_not_ascii_byte(0));
    assert!(is_not_ascii_byte(0xE2));
    assert!(!is_not_ascii_byte(b'z'));
}

#[test]
fn str_slices_decode_or_are_empty() {
    let bytes = "❤️x".as_bytes();
    assert_eq!(get_str_slice_of(bytes, 0, 3), "❤");
    assert_eq!(get_str_slice_of(bytes, 0, 2), "");
    assert_eq!(get_str_slice_of(bytes, 6, 5), "x");
    assert_eq!(get_str_slice_of(bytes, 9, 1), "");
}

#[test]
fn order_follows_bytes() {
    let mut a = Utf8Stream::new("abc");
    let b = Utf8Stream::new("abd");
    let prefix = Utf8Stream::new("ab");
    assert!(a < b);
    assert!(prefix < a);
    assert!(b > prefix);
    assert_eq!(a.next().as_deref(), Some("a"));
    assert_eq!(a.partial_cmp(&Utf8Stream::new("abc")), Some(std::cmp::Ordering::Equal));
    assert!(Utf8Stream::new("") < prefix);
}

#[test]
fn byte_reads_are_bounds_checked() {
    let bytes = "ab".as_bytes();
    assert_eq!(get_byte_at_index(bytes, 1), b'b');
    assert_eq!(get_byte_at_index(bytes, 2), 0);
    assert_eq!(get_byte_slice_of(bytes, 1, 5), b"b");
    assert_eq!(get_byte_slice_of(bytes, 3, 1), b"");
}

#[test]
fn clone_is_a_deep_copy() {
    let source = Utf8Stream::new("d❤️h");
    let mut copy = source.clone();
    assert_eq!(copy.pop().as_deref(), Some("h"));
    assert_eq!(source.as_str(), "d❤️h");
    assert_eq!(copy.as_str(), "d❤️");
}

#[test]
fn clusters_follow_the_index() {
    let mut stream = Utf8Stream::new("éaé");
    for (index, start, end, count) in [(0, 0, 1, 2), (1, 0, 1, 2), (3, 3, 5, 2), (4, 3, 5, 2)] {
        let (text, s, e, c) = get_utf8_at_index(&stream, index);
        assert_eq!((text.as_str(), s, e, c), ("é", start, end, count));
    }
    assert_eq!(stream.get(3).as_deref(), Some("é"));
    assert_eq!(stream.get(2).as_deref(), Some("a"));
    assert_eq!(forward(&mut stream), vec!["é", "a", "é"]);
    assert_eq!(stream.pop().as_deref(), Some("é"));
    assert_eq!(stream.as_str(), "éa");
    assert_eq!(stream.pop().as_deref(), Some("a"));
    assert_eq!(stream.pop().as_deref(), Some("é"));
    assert_eq!(stream.pop(), None);
}

#[test]
fn round_trip_with_several_runs() {
    for text in ["❤️a❤️", "éaé", "x👩🏽‍🚒y❤️z", "é\u{1}é", "ab\rcd"] {
        let mut stream = Utf8Stream::new(text);
        let joined: String = forward(&mut stream).concat();
        assert_eq!(joined, text);
        let mut popped = pops(&mut Utf8Stream::new(text));
        popped.reverse();
        assert_eq!(popped.concat(), text);
    }
}

#[test]
fn nul_inside_text_is_kept() {
    let mut stream = Utf8Stream::new("é\0é");
    assert_eq!(forward(&mut stream).concat(), "é\0é");
    assert_eq!(stream.get(3).as_deref(), Some("é"));
}
