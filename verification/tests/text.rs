use web_stream::text::{char_width, chars_of, is_blank, is_white_space};

/// White space is what the standard library takes for it.
#[test]
fn white_space_of_every_character() {
    for code in 0..=0x10FFFFu32 {
        if let Some(c) = char::from_u32(code) {
            assert_eq!(is_white_space(c), c.is_whitespace(), "{:?}", c);
            assert_eq!(char_width(c), c.len_utf8(), "{:?}", c);
        }
    }
}

#[test]
fn blank_is_what_trims_to_nothing() {
    for text in ["", " ", "\r\n\t ", "\u{a0}\u{3000}", ",", " , ", " a", "a ", "\u{200b}"] {
        assert_eq!(is_blank(text), text.trim().is_empty(), "{:?}", text);
    }
}

#[test]
fn chars_in_order() {
    assert_eq!(chars_of("aé😀"), vec!['a', 'é', '😀']);
    assert!(chars_of("").is_empty());
}
