use web_stream::error::{http_error, http_error_with, is_success};
use web_stream::Error;

fn fields(error: Error) -> (u16, String, String) {
    match error {
        Error::HttpError { status, canonical_reason, body } => (status, canonical_reason, body),
        other => panic!("{:?}", other),
    }
}

fn all(status: u16, reason: &str, body: &str) -> (u16, String, String) {
    (status, reason.to_string(), body.to_string())
}

#[test]
fn known_status() {
    let error = http_error(404, Ok("no such model".to_string()));
    assert_eq!(fields(error), all(404, "Not Found", "no such model"));
    let error = http_error(429, Ok(String::new()));
    assert_eq!(fields(error), all(429, "Too Many Requests", ""));
}

#[test]
fn unknown_status() {
    assert_eq!(fields(http_error(599, Ok("x".to_string()))), all(599, "Unknown", "x"));
    assert_eq!(fields(http_error(42, Ok("x".to_string()))), all(42, "Unknown", "x"));
    assert_eq!(fields(http_error(1000, Ok("x".to_string()))), all(1000, "Unknown", "x"));
}

#[test]
fn unreadable_body() {
    let error = http_error(500, Err("connection closed".to_string()));
    assert_eq!(
        fields(error),
        all(500, "Internal Server Error", "Failed to read error body: connection closed")
    );
}

#[test]
fn phrase_as_given() {
    assert_eq!(fields(http_error_with(418, Some("Short"), Ok("b".to_string()))), all(418, "Short", "b"));
    assert_eq!(fields(http_error_with(200, None, Ok("b".to_string()))), all(200, "Unknown", "b"));
}

#[test]
fn success_is_two_hundred_and_up() {
    for status in 0..=1100u16 {
        let expected = reqwest::StatusCode::from_u16(status).map_or(false, |code| code.is_success());
        assert_eq!(is_success(status), expected, "{}", status);
    }
}
