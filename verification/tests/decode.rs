use web_stream::{decode_chunk, InvalidUtf8};

/// A two-byte character that two chunks share: the text in front of it comes first, and its
/// front is held back.
#[test]
fn carries_split_two_byte_char() {
    let full = "аф".as_bytes();
    let split = full.len() - 1;
    let mut partial = Vec::new();

    let first = decode_chunk(&mut partial, &full[..split]).unwrap();
    assert_eq!(first, "а");
    assert_eq!(partial.len(), 1);

    let second = decode_chunk(&mut partial, &full[split..]).unwrap();
    assert_eq!(second, "ф");
    assert!(partial.is_empty());
}

/// A four-byte character that comes one byte at a time.
#[test]
fn carries_split_four_byte_char_byte_by_byte() {
    let emoji = "😀".as_bytes();
    assert_eq!(emoji.len(), 4);
    let mut partial = Vec::new();
    let mut out = String::new();
    for b in emoji {
        out.push_str(&decode_chunk(&mut partial, &[*b]).unwrap());
    }
    assert_eq!(out, "😀");
    assert!(partial.is_empty());
}

/// A whole chunk with nothing carried.
#[test]
fn whole_chunk_fast_path() {
    let mut partial = Vec::new();
    assert_eq!(decode_chunk(&mut partial, b"hello").unwrap(), "hello");
    assert!(partial.is_empty());
}

/// A byte that no text holds is an error and is not held back.
#[test]
fn rejects_invalid_bytes() {
    let mut partial = Vec::new();
    assert!(decode_chunk(&mut partial, &[0x68, 0xFF, 0x69]).is_err());
}

#[test]
fn fault_says_where_it_is() {
    let mut partial = Vec::new();
    let fault = decode_chunk(&mut partial, &[0x68, 0xFF, 0x69]).unwrap_err();
    assert_eq!(fault, InvalidUtf8 { valid_up_to: 1, error_len: 1 });
    assert!(partial.is_empty());

    let fault = decode_chunk(&mut partial, &[0x68, 0xE2, 0x82, 0x28]).unwrap_err();
    assert_eq!(fault, InvalidUtf8 { valid_up_to: 1, error_len: 2 });
}

/// The carried bytes count in the place of a fault, and a fault drops them.
#[test]
fn fault_drops_the_carry() {
    let mut partial = vec![0xE2, 0x82];
    let fault = decode_chunk(&mut partial, b"(").unwrap_err();
    assert_eq!(fault, InvalidUtf8 { valid_up_to: 0, error_len: 2 });
    assert!(partial.is_empty());
}

/// A character that can still come is waited for; one that cannot is a fault at once.
#[test]
fn waits_only_for_what_can_come() {
    for front in [&[0xC3u8][..], &[0xE0, 0xA0], &[0xED, 0x9F], &[0xF0, 0x90, 0x80], &[0xF4, 0x8F]] {
        let mut partial = Vec::new();
        assert_eq!(decode_chunk(&mut partial, front).unwrap(), "");
        assert_eq!(partial, front);
    }
    for never in [&[0xC0u8][..], &[0x80], &[0xE0, 0x80], &[0xED, 0xA0], &[0xF0, 0x80], &[0xF4, 0x90], &[0xF5]] {
        let mut partial = Vec::new();
        assert!(decode_chunk(&mut partial, never).is_err());
        assert!(partial.is_empty());
    }
}

#[test]
fn empty_chunk_keeps_the_carry() {
    let mut partial = vec![0xD1];
    assert_eq!(decode_chunk(&mut partial, b"").unwrap(), "");
    assert_eq!(partial, vec![0xD1]);
}

/// A text cut in two anywhere comes out whole.
#[test]
fn any_cut_gives_the_same_text() {
    let text = "aé€😀\u{10FFFF}\u{0}z";
    let bytes = text.as_bytes();
    for i in 0..=bytes.len() {
        for j in i..=bytes.len() {
            let mut partial = Vec::new();
            let mut out = String::new();
            for piece in [&bytes[..i], &bytes[i..j], &bytes[j..]] {
                out.push_str(&decode_chunk(&mut partial, piece).unwrap());
                assert!(partial.len() <= 3);
            }
            assert_eq!(out, text);
            assert!(partial.is_empty());
        }
    }
}

/// Every front of every character is waited for, and gives the character in the end.
#[test]
fn every_character_can_be_cut() {
    let mut code: u32 = 0;
    while code <= 0x10FFFF {
        if let Some(c) = char::from_u32(code) {
            let text = c.to_string();
            let bytes = text.as_bytes();
            for cut in 1..bytes.len() {
                let mut partial = Vec::new();
                assert_eq!(decode_chunk(&mut partial, &bytes[..cut]).unwrap(), "");
                assert_eq!(partial, &bytes[..cut]);
                assert_eq!(decode_chunk(&mut partial, &bytes[cut..]).unwrap(), text);
            }
        }
        code += 1;
    }
}
