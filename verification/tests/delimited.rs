use web_stream::delimited::split_text;
use web_stream::process_buff_string_delimited;

fn process(text: &str, partial: &mut Option<String>, delimiter: &str) -> (Vec<String>, Option<String>) {
    let buff = process_buff_string_delimited(text.to_string(), partial, delimiter).unwrap();
    assert!(partial.is_none());
    assert!(buff.first_message.is_some() || buff.next_messages.is_none());
    assert!(buff.next_messages.as_ref().map_or(true, |list| !list.is_empty()));
    let mut all: Vec<String> = buff.first_message.into_iter().collect();
    all.extend(buff.next_messages.unwrap_or_default());
    (all, buff.candidate_message)
}

#[test]
fn splits_as_the_standard_library() {
    let texts = ["", "a", "\n", "a\nb", "a\n\n\n\nb\n", "\n\na", "aaa", "aaaa", "abab", "é€\n😀", "a--b---c-"];
    let delimiters = ["\n", "\n\n", "aa", "aba", "--", "", "é", "€\n", "longer than the text"];
    for text in texts {
        for delimiter in delimiters {
            let parts: Vec<String> = text.split(delimiter).map(|s| s.to_string()).collect();
            assert_eq!(split_text(text, delimiter), parts, "{:?} at {:?}", text, delimiter);
        }
    }
}

#[test]
fn first_message_stands_apart() {
    let mut partial = None;
    let buff = process_buff_string_delimited("a\nb\nc\nd".to_string(), &mut partial, "\n").unwrap();
    assert_eq!(buff.first_message.as_deref(), Some("a"));
    assert_eq!(buff.next_messages, Some(vec!["b".to_string(), "c".to_string()]));
    assert_eq!(buff.candidate_message.as_deref(), Some("d"));
    assert_eq!(partial, None);
}

#[test]
fn one_message_has_no_next() {
    let mut partial = None;
    let buff = process_buff_string_delimited("a\n".to_string(), &mut partial, "\n").unwrap();
    assert_eq!(buff.first_message.as_deref(), Some("a"));
    assert_eq!(buff.next_messages, None);
    assert_eq!(buff.candidate_message.as_deref(), Some(""));
}

#[test]
fn text_without_delimiter_is_unfinished() {
    let mut partial = None;
    let (messages, rest) = process("abc", &mut partial, "\n");
    assert!(messages.is_empty());
    assert_eq!(rest.as_deref(), Some("abc"));
}

#[test]
fn empty_messages_are_left_out() {
    let mut partial = None;
    let (messages, rest) = process("\n\n\n\na\n\n\nb\n\n", &mut partial, "\n");
    assert_eq!(messages, vec!["a", "b"]);
    assert_eq!(rest.as_deref(), Some(""));
}

#[test]
fn kept_text_goes_in_front() {
    let mut partial = Some("ab".to_string());
    let (messages, rest) = process("c\nd", &mut partial, "\n");
    assert_eq!(messages, vec!["abc"]);
    assert_eq!(rest.as_deref(), Some("d"));
}

#[test]
fn delimiter_cut_in_two() {
    let mut partial = None;
    let (messages, rest) = process("a\r", &mut partial, "\r\n");
    assert!(messages.is_empty());
    partial = rest;
    let (messages, rest) = process("\nb", &mut partial, "\r\n");
    assert_eq!(messages, vec!["a"]);
    assert_eq!(rest.as_deref(), Some("b"));
}

#[test]
fn empty_delimiter_gives_characters() {
    let mut partial = None;
    let (messages, rest) = process("aé", &mut partial, "");
    assert_eq!(messages, vec!["a", "é"]);
    assert_eq!(rest.as_deref(), Some(""));
}

/// Where the text is cut does not matter.
#[test]
fn any_cut_gives_the_same_messages() {
    let text = "one\n\ntwo\nthree\n\n\nfour";
    for delimiter in ["\n", "\n\n", "o", ""] {
        let (whole, left) = process(text, &mut None, delimiter);
        for i in 0..=text.len() {
            let (mut messages, mut partial) = process(&text[..i], &mut None, delimiter);
            let (more, rest) = process(&text[i..], &mut partial, delimiter);
            messages.extend(more);
            assert_eq!(messages, whole);
            assert_eq!(rest, left);
        }
    }
}

/// The parts with the delimiter put back are the text, and none holds the delimiter.
#[test]
fn parts_join_to_the_text() {
    for (text, delimiter) in [("a,b,,c", ","), ("aaaa", "aa"), ("", "x"), ("x", "x")] {
        let parts = split_text(text, delimiter);
        assert_eq!(parts.join(delimiter), text);
        assert!(parts.iter().all(|part| !part.contains(delimiter)));
    }
    assert_eq!(split_text("abc", "").join(""), "abc");
}
