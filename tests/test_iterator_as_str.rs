use utf8_stream::Utf8Stream;

fn collect_units(mut stream: Utf8Stream) -> Vec<String> {
    let mut units = Vec::new();
    while let Some(unit) = stream.next() {
        units.push(unit);
    }
    units
}

#[test]
fn test_iterator_as_str_test_utf8_esoteric() {
    let mut stream = Utf8Stream::new("ğŸ‘©ğŸ½â€ğŸš’");
    assert_eq!(stream.as_str(), "ğŸ‘©ğŸ½â€ğŸš’");
    assert_eq!(stream.get(0).as_deref(), Some("ğŸ‘©ğŸ½â€ğŸš’"));
    assert_eq!(stream.next().as_deref(), Some("ğŸ‘©ğŸ½â€ğŸš’"));
    assert_eq!(stream.next_back().as_deref(), Some("ğŸ‘©ğŸ½â€ğŸš’"));
}

#[test]
fn test_iterator_as_str_test_iter_new() {
    let mut stream = Utf8Stream::new("test");
    assert_eq!(stream.as_str(), "test");
    assert_eq!(stream.as_bytes(), b"test");
    assert_eq!(stream.next().as_deref(), Some("t"));
    assert_eq!(stream.next().as_deref(), Some("e"));
    assert_eq!(stream.next_back().as_deref(), Some("e"));
    assert_eq!(stream.next_back().as_deref(), Some("t"));
    assert_eq!(
        collect_units(stream),
        vec!["t", "e", "s", "t"]
    );
}

#[test]
fn test_iterator_as_str_test_utf8_heart() {
    let stream = Utf8Stream::new("â¤ï¸");
    assert_eq!(stream.as_str(), "â¤ï¸");
    assert_eq!(
        collect_units(stream),
        vec!["â¤ï¸"]
    );
}

#[test]
fn test_iterator_as_str_test_utf8_redheart() {
    let stream = Utf8Stream::new("redâ¤ï¸heart");
    assert_eq!(stream.as_str(), "redâ¤ï¸heart");
    assert_eq!(
        collect_units(stream),
        vec!["r", "e", "d", "â¤ï¸", "h", "e", "a", "r", "t"]
    );
}

#[test]
fn test_iterator_as_str_test_utf8_fire_fighter() {
    let stream = Utf8Stream::new("fireğŸ‘©ğŸ½â€ğŸš’fighter");
    assert_eq!(stream.as_str(), "fireğŸ‘©ğŸ½â€ğŸš’fighter");
    assert_eq!(
        collect_units(stream),
        vec!["f", "i", "r", "e", "ğŸ‘©ğŸ½â€ğŸš’", "f", "i", "g", "h", "t", "e", "r"]
    );
}
