use web_stream::{Error, InvalidUtf8, StreamAction, StreamEvent, WebStream};

/// Opens the body of a new stream.
fn open(mut stream: WebStream) -> WebStream {
    assert!(matches!(stream.poll_next(StreamEvent::Poll), StreamAction::SendRequest));
    assert!(matches!(stream.poll_next(StreamEvent::Response(200)), StreamAction::PollBody));
    stream
}

/// Feeds the chunks and polls until there is no further item.
fn drain(mut stream: WebStream, chunks: &[&[u8]]) -> Vec<String> {
    let mut items = Vec::new();
    let mut next = 0;
    let mut action = stream.poll_next(StreamEvent::NotReady);
    loop {
        let event = match action {
            StreamAction::Yield(message) => {
                items.push(message);
                StreamEvent::Poll
            }
            StreamAction::PollBody => {
                if next < chunks.len() {
                    next += 1;
                    StreamEvent::Chunk(chunks[next - 1].to_vec())
                } else {
                    StreamEvent::BodyEnded
                }
            }
            StreamAction::Wait => StreamEvent::Poll,
            StreamAction::Finish => return items,
            other => panic!("{:?}", other),
        };
        action = stream.poll_next(event);
    }
}

#[test]
fn delimited_body() {
    let stream = open(WebStream::new_with_delimiter("\n"));
    let items = drain(stream, &[b"one\ntw", b"o\n\n\nthree\nfour\nfi", b"ve"]);
    assert_eq!(items, vec!["one", "two", "three", "four", "five"]);
}

#[test]
fn delimited_body_without_rest() {
    let items = drain(open(WebStream::new_with_delimiter("\n")), &[b"one\n"]);
    assert_eq!(items, vec!["one"]);
    assert!(drain(open(WebStream::new_with_delimiter("\n")), &[]).is_empty());
}

#[test]
fn array_body() {
    let stream = open(WebStream::new_with_pretty_json_array());
    let items = drain(stream, &[b"[{\"a\"", b": 1}\n", b",\n{\"b\": 2}", b"\n]\n"]);
    assert_eq!(items, vec!["[", "{\"a\": 1}", "{\"b\": 2}", "]"]);
}

#[test]
fn truncated_array_body() {
    let items = drain(open(WebStream::new_with_pretty_json_array()), &[b"[{\"a\": 1},{\"b\""]);
    assert_eq!(items, vec!["[", "{\"a\": 1}", ",{\"b\""]);
}

/// However the body is cut, the items are the same.
#[test]
fn any_chunks_give_the_same_items() {
    let body = "[{\"é\": \"😀}\"},\n{\"b\": {}}]".as_bytes();
    let whole = drain(open(WebStream::new_with_pretty_json_array()), &[body]);
    assert_eq!(whole, vec!["[", "{\"é\": \"😀}\"}", "{\"b\": {}}", "]"]);
    for size in 1..body.len() {
        let chunks: Vec<&[u8]> = body.chunks(size).collect();
        assert_eq!(drain(open(WebStream::new_with_pretty_json_array()), &chunks), whole);
    }
    let body = "één\n\ntwee\n😀\nvier".as_bytes();
    for size in 1..body.len() {
        let chunks: Vec<&[u8]> = body.chunks(size).collect();
        let items = drain(open(WebStream::new_with_delimiter("\n")), &chunks);
        assert_eq!(items, vec!["één", "twee", "😀", "vier"]);
    }
}

#[test]
fn waiting_messages_come_first() {
    let mut stream = open(WebStream::new_with_delimiter("\n"));
    let action = stream.poll_next(StreamEvent::Chunk(b"a\nb\nc\n".to_vec()));
    assert!(matches!(action, StreamAction::Yield(message) if message == "a"));
    assert!(matches!(stream.poll_next(StreamEvent::Poll), StreamAction::Yield(message) if message == "b"));
    assert!(matches!(stream.poll_next(StreamEvent::Poll), StreamAction::Yield(message) if message == "c"));
    assert!(matches!(stream.poll_next(StreamEvent::Poll), StreamAction::PollBody));
}

#[test]
fn not_ready_waits() {
    let mut stream = WebStream::new_with_delimiter("\n");
    assert!(matches!(stream.poll_next(StreamEvent::Poll), StreamAction::SendRequest));
    assert!(matches!(stream.poll_next(StreamEvent::NotReady), StreamAction::Wait));
    assert!(matches!(stream.poll_next(StreamEvent::Poll), StreamAction::PollResponse));
    assert!(matches!(stream.poll_next(StreamEvent::Response(204)), StreamAction::PollBody));
    assert!(matches!(stream.poll_next(StreamEvent::NotReady), StreamAction::Wait));
    assert!(matches!(stream.poll_next(StreamEvent::Poll), StreamAction::PollBody));
}

#[test]
fn refused_request() {
    let mut stream = WebStream::new_with_pretty_json_array();
    assert!(matches!(stream.poll_next(StreamEvent::Poll), StreamAction::SendRequest));
    assert!(matches!(stream.poll_next(StreamEvent::Response(401)), StreamAction::ReadErrorBody));
    assert!(matches!(stream.poll_next(StreamEvent::NotReady), StreamAction::Wait));
    assert!(matches!(stream.poll_next(StreamEvent::Poll), StreamAction::PollResponse));
    match stream.poll_next(StreamEvent::ErrorBody(401, Ok("bad key".to_string()))) {
        StreamAction::Fail(Error::HttpError { status, canonical_reason, body }) => {
            assert_eq!(status, 401);
            assert_eq!(canonical_reason, "Unauthorized");
            assert_eq!(body, "bad key");
        }
        other => panic!("{:?}", other),
    }
    assert!(matches!(stream.poll_next(StreamEvent::Poll), StreamAction::Finish));
    assert!(matches!(stream.poll_next(StreamEvent::Poll), StreamAction::Finish));
}

#[test]
fn failed_request() {
    let mut stream = WebStream::new_with_delimiter("\n");
    assert!(matches!(stream.poll_next(StreamEvent::Poll), StreamAction::SendRequest));
    assert!(matches!(stream.poll_next(StreamEvent::ResponseFailed), StreamAction::FailTransport));
    assert!(matches!(stream.poll_next(StreamEvent::Poll), StreamAction::Finish));
}

#[test]
fn failed_body_can_go_on() {
    let mut stream = open(WebStream::new_with_delimiter("\n"));
    assert!(matches!(stream.poll_next(StreamEvent::BodyFailed), StreamAction::FailTransport));
    assert!(matches!(stream.poll_next(StreamEvent::Poll), StreamAction::PollBody));
}

#[test]
fn invalid_bytes_fail_and_the_text_stays() {
    let mut stream = open(WebStream::new_with_delimiter("\n"));
    assert!(matches!(stream.poll_next(StreamEvent::Chunk(b"ab".to_vec())), StreamAction::PollBody));
    match stream.poll_next(StreamEvent::Chunk(vec![0x63, 0xFF])) {
        StreamAction::Fail(Error::InvalidUtf8(fault)) => {
            assert_eq!(fault, InvalidUtf8 { valid_up_to: 1, error_len: 1 });
        }
        other => panic!("{:?}", other),
    }
    assert!(matches!(stream.poll_next(StreamEvent::Poll), StreamAction::PollBody));
    let action = stream.poll_next(StreamEvent::Chunk(b"d\n".to_vec()));
    assert!(matches!(action, StreamAction::Yield(message) if message == "abd"));
}

#[test]
fn part_of_a_character_yields_nothing() {
    let mut stream = open(WebStream::new_with_delimiter("\n"));
    assert!(matches!(stream.poll_next(StreamEvent::Chunk(vec![0xD1])), StreamAction::PollBody));
    assert_eq!(stream.undecoded_bytes(), &[0xD1]);
    let action = stream.poll_next(StreamEvent::Chunk(vec![0x84, 0x0A]));
    assert!(matches!(action, StreamAction::Yield(message) if message == "ф"));
    assert!(stream.undecoded_bytes().is_empty());
}

#[test]
fn truncated_character_is_dropped_at_the_end() {
    let items = drain(open(WebStream::new_with_delimiter("\n")), &[b"a\nb", &[0xF0, 0x9F]]);
    assert_eq!(items, vec!["a", "b"]);
}

/// A pretty-printed array, cut anywhere.
#[test]
fn pretty_array_body() {
    let body: &[u8] = b"\n[\n  {\n    \"a\": 1\n  },\n  {\"b\": [{}]}\n]\n";
    for size in 1..=body.len() {
        let chunks: Vec<&[u8]> = body.chunks(size).collect();
        let items = drain(open(WebStream::new_with_pretty_json_array()), &chunks);
        assert_eq!(items, vec!["[", "{\n    \"a\": 1\n  }", "{\"b\": [{}]}", "]"]);
    }
}

/// Behind the end there is nothing but the end.
#[test]
fn end_stays_the_end() {
    let mut stream = open(WebStream::new_with_delimiter("\n"));
    assert!(matches!(stream.poll_next(StreamEvent::BodyEnded), StreamAction::Finish));
    for _ in 0..3 {
        assert!(matches!(stream.poll_next(StreamEvent::Poll), StreamAction::Finish));
    }
}

/// Waiting changes nothing of what comes out.
#[test]
fn waits_do_not_matter() {
    let mut plain = open(WebStream::new_with_delimiter("\n"));
    let mut waiting = open(WebStream::new_with_delimiter("\n"));
    for chunk in [&b"a"[..], b"b\nc", b"\n"] {
        for _ in 0..2 {
            assert!(matches!(waiting.poll_next(StreamEvent::NotReady), StreamAction::Wait));
            assert!(matches!(waiting.poll_next(StreamEvent::Poll), StreamAction::PollBody));
        }
        let expected = format!("{:?}", plain.poll_next(StreamEvent::Chunk(chunk.to_vec())));
        let action = format!("{:?}", waiting.poll_next(StreamEvent::Chunk(chunk.to_vec())));
        assert_eq!(action, expected);
        assert_eq!(format!("{:?}", waiting.poll_next(StreamEvent::Poll)), "PollBody");
        assert_eq!(format!("{:?}", plain.poll_next(StreamEvent::Poll)), "PollBody");
    }
}
