use oneko::pointer::cursor_fields;

// The same with the standard library.
fn expected(text: &str) -> (String, Option<String>) {
    let mut parts = text.trim().splitn(2, ", ");
    (parts.next().unwrap().to_string(), parts.next().map(str::to_string))
}

#[test]
fn usual_position() {
    assert_eq!(cursor_fields("812, 340\n"), ("812", Some("340")));
    assert_eq!(cursor_fields("-5, 0"), ("-5", Some("0")));
}

#[test]
fn missing_second_number() {
    assert_eq!(cursor_fields(""), ("", None));
    assert_eq!(cursor_fields(" \t\n"), ("", None));
    assert_eq!(cursor_fields("12"), ("12", None));
    assert_eq!(cursor_fields("12,7"), ("12,7", None));
    assert_eq!(cursor_fields("12,"), ("12,", None));
}

#[test]
fn only_the_first_comma_divides() {
    assert_eq!(cursor_fields("1, 2, 3"), ("1", Some("2, 3")));
    assert_eq!(cursor_fields(",, 3"), (",", Some("3")));
    assert_eq!(cursor_fields(", 3"), ("", Some("3")));
    // The space behind the comma is white space at the end of the line.
    assert_eq!(cursor_fields("3, "), ("3,", None));
    assert_eq!(cursor_fields("3,  4"), ("3", Some(" 4")));
}

#[test]
fn fields_agree_with_the_standard_library() {
    for text in [
        "a, b",
        "\u{a0}1, 2\u{3000}",
        "\u{2003}\u{85}é, ü\u{1680}\u{202f}",
        "\u{200b}1, 2",
        "\u{1c}1, 2\u{1f}",
        " , ",
        " ,  , ",
        "1,\u{a0}2",
        "Couldn't connect, is it running?",
        "\u{b}\u{c}\r\n7, 8\r\n",
    ] {
        let (x, y) = cursor_fields(text);
        assert_eq!((x.to_string(), y.map(str::to_string)), expected(text), "{text:?}");
    }
    // All characters, as white space or not.
    for n in 0..=0x10_ffffu32 {
        if let Some(c) = char::from_u32(n) {
            if c.is_whitespace() || n % 1000 == 0 || n < 0x300 || (0x2000..0x3100).contains(&n) {
                let text = format!("{c}1, 2{c}");
                let (x, y) = cursor_fields(&text);
                assert_eq!((x.to_string(), y.map(str::to_string)), expected(&text), "{n:#x}");
            }
        }
    }
}
