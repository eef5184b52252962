use web_stream::json_array::{array_response, scan_array, Block};
use web_stream::new_with_pretty_json_array;

fn process(text: &str, partial: &mut Option<String>) -> (Vec<String>, Option<String>) {
    let buff = new_with_pretty_json_array(text.to_string(), partial).unwrap();
    assert!(partial.is_none());
    let mut all: Vec<String> = buff.first_message.into_iter().collect();
    all.extend(buff.next_messages.unwrap_or_default());
    (all, buff.candidate_message)
}

#[test]
fn array_of_objects() {
    let (messages, rest) = process("[{\"a\": 1},\r\n{\"b\": {\"c\": [2]}}\n]\n", &mut None);
    assert_eq!(messages, vec!["[", "{\"a\": 1}", "{\"b\": {\"c\": [2]}}", "]"]);
    assert_eq!(rest, None);
}

#[test]
fn first_array_message_stands_apart() {
    let buff = new_with_pretty_json_array("[{}]".to_string(), &mut None).unwrap();
    assert_eq!(buff.first_message.as_deref(), Some("["));
    assert_eq!(buff.next_messages, Some(vec!["{}".to_string(), "]".to_string()]));
    assert_eq!(buff.candidate_message, None);
}

#[test]
fn object_cut_in_two() {
    let mut partial = None;
    let (messages, rest) = process("[{\"a\":", &mut partial);
    assert_eq!(messages, vec!["["]);
    assert_eq!(rest.as_deref(), Some("{\"a\":"));
    partial = rest;
    let (messages, rest) = process(" 1}", &mut partial);
    assert_eq!(messages, vec!["{\"a\": 1}"]);
    assert_eq!(rest, None);
}

#[test]
fn braces_and_quotes_in_strings() {
    let object = "{\"a\": \"}]{[\\\"}\\\\\"}";
    let (messages, rest) = process(object, &mut None);
    assert_eq!(messages, vec![object]);
    assert_eq!(rest, None);
}

#[test]
fn what_is_not_json_is_left_out() {
    let (messages, rest) = process("[{not json},{\"a\":1}]", &mut None);
    assert_eq!(messages, vec!["[", "{\"a\":1}", "]"]);
    assert_eq!(rest, None);
}

#[test]
fn blank_rest_is_not_kept() {
    assert_eq!(process("[ \r\n", &mut None), (vec!["[".to_string()], None));
    assert_eq!(process("{} ,", &mut None), (vec!["{}".to_string()], Some(" ,".to_string())));
    assert_eq!(process("", &mut None), (vec![], None));
}

/// A closing brace too many: no block begins before it is made up for.
#[test]
fn brace_too_many() {
    let (messages, rest) = process("}{}[", &mut None);
    assert!(messages.is_empty());
    assert_eq!(rest.as_deref(), Some("}{}["));
    let (messages, rest) = process("}{{}}", &mut None);
    assert_eq!(messages, vec!["{}"]);
    assert_eq!(rest.as_deref(), Some("}"));
}

#[test]
fn characters_of_many_bytes() {
    let (messages, rest) = process("é[{\"ключ\": \"😀\"}]ю", &mut None);
    assert_eq!(messages, vec!["[", "{\"ключ\": \"😀\"}", "]"]);
    assert_eq!(rest.as_deref(), Some("ю"));
}

#[test]
fn nested_too_deep_for_json() {
    let deep = "{\"a\":".repeat(200) + "1" + &"}".repeat(200);
    assert!(process(&deep, &mut None).0.is_empty());
    let flat = "{\"a\":".repeat(100) + "1" + &"}".repeat(100);
    assert_eq!(process(&flat, &mut None).0, vec![flat]);
}

#[test]
fn verdicts_choose_the_objects() {
    let scan = scan_array("[{1},{2}] ,");
    assert!(matches!(scan.blocks[0], Block::OpenArray));
    assert!(matches!(&scan.blocks[1], Block::Object(text) if text == "{1}"));
    assert!(matches!(&scan.blocks[2], Block::Object(text) if text == "{2}"));
    assert!(matches!(scan.blocks[3], Block::CloseArray));
    assert_eq!(scan.blocks.len(), 4);
    assert_eq!(scan.rest, " ,");
    let buff = array_response(scan, &vec![false, false, true, false]);
    assert_eq!(buff.first_message.as_deref(), Some("["));
    assert_eq!(buff.next_messages, Some(vec!["{2}".to_string(), "]".to_string()]));
    assert_eq!(buff.candidate_message.as_deref(), Some(" ,"));
}

/// Where the text is cut does not matter to the messages.
#[test]
fn any_cut_gives_the_same_array_messages() {
    let text = " [ {\"a\": \"x\\\"}\"} ,\n {\"b\": [1, {}]}, {oops} ] ";
    let (whole, left) = process(text, &mut None);
    assert_eq!(whole.len(), 4);
    for i in 0..=text.len() {
        for j in i..=text.len() {
            let mut messages = Vec::new();
            let mut partial = None;
            for piece in [&text[..i], &text[i..j], &text[j..]] {
                let (more, rest) = process(piece, &mut partial);
                messages.extend(more);
                partial = rest;
            }
            assert_eq!(messages, whole);
            assert_eq!(partial, left);
        }
    }
}

/// White space in front of the unfinished text is all that a cut can change of it.
#[test]
fn cut_may_drop_white_space() {
    assert_eq!(process("[ {", &mut None).1.as_deref(), Some(" {"));
    let (_, mut partial) = process("[ ", &mut None);
    assert_eq!(partial, None);
    assert_eq!(process("{", &mut partial).1.as_deref(), Some("{"));
}

/// However the array is printed, its brackets and objects are the messages.
#[test]
fn pretty_printed_array() {
    let text = "\n\t[\n  {\n    \"a\": [1, 2]\n  },\n  {\"b\": {}}\r\n,{\"c\": \"]\"}\n]\n \n";
    let (messages, rest) = process(text, &mut None);
    let first = "{\n    \"a\": [1, 2]\n  }";
    assert_eq!(messages, vec!["[", first, "{\"b\": {}}", "{\"c\": \"]\"}", "]"]);
    assert_eq!(rest, None);
    assert_eq!(process(" [\n ] ", &mut None), (vec!["[".to_string(), "]".to_string()], None));
}

/// Either bracket may be missing.
#[test]
fn brackets_are_optional() {
    assert_eq!(process(" {\"a\": 1} , {}\n", &mut None).0, vec!["{\"a\": 1}", "{}"]);
    assert_eq!(process("[ {\"a\": 1} ,", &mut None).0, vec!["[", "{\"a\": 1}"]);
    assert_eq!(process(", {oops}, {} ] ", &mut None).0, vec!["{}", "]"]);
}
