//! Decoding a byte stream into text, chunk by chunk.

use vstd::prelude::*;
use vstd::slice::slice_subrange;
use vstd::slice::slice_to_vec;
use vstd::string::*;
use vstd::utf8::*;

verus! {

/// Bytes that are not UTF-8 and that no further bytes can complete.
#[derive(Clone, Copy, Debug, PartialEq, Eq, Structural)]
pub struct InvalidUtf8 {
    /// How many bytes in front of the invalid ones are UTF-8.
    pub valid_up_to: usize,
    /// How many bytes the invalid sequence takes.
    pub error_len: usize,
}

/// Why a byte string is not UTF-8.
#[derive(Debug)]
struct Utf8Failure {
    /// How many bytes in front of the failure are UTF-8.
    valid_up_to: usize,
    /// How many bytes the invalid sequence takes, or `None` where the bytes end
    /// inside a character.
    error_len: Option<usize>,
}

/// `tail` begins the encoding of `c` and stops short of its end.
pub open spec fn truncates(tail: Seq<u8>, c: char) -> bool {
    let whole = encode_scalar(c as u32);
    0 < tail.len() < whole.len() && tail == whole.take(tail.len() as int)
}

/// `tail` is a character that was cut off before its last byte.
pub open spec fn is_truncated_char(tail: Seq<u8>) -> bool {
    exists|c: char| #[trigger] truncates(tail, c)
}

/// The length of the longest prefix of `bytes` that is UTF-8.
pub open spec fn valid_up_to(bytes: Seq<u8>) -> int
    decreases bytes.len(),
{
    if valid_first_scalar(bytes) {
        length_of_first_scalar(bytes) + valid_up_to(pop_first_scalar(bytes))
    } else {
        0
    }
}

/// The bytes behind the longest prefix of `bytes` that is UTF-8.
pub open spec fn undecoded(bytes: Seq<u8>) -> Seq<u8> {
    bytes.skip(valid_up_to(bytes))
}

/// Bytes that can be carried into the next chunk: none, or the front of a character.
pub open spec fn is_carry(bytes: Seq<u8>) -> bool {
    bytes.len() == 0 || is_truncated_char(bytes)
}

/// `Utf8Error::error_len` of the error that `std::str::from_utf8` gives on `bytes`.
pub uninterp spec fn utf8_error_len(bytes: Seq<u8>) -> Option<usize>;

/// What one chunk decodes to behind the bytes carried into it: the text and the
/// bytes carried out of it, or the fault that makes the bytes undecodable.
pub open spec fn decoded(carry: Seq<u8>, chunk: Seq<u8>) -> Result<
    (Seq<char>, Seq<u8>),
    InvalidUtf8,
> {
    let bytes = carry + chunk;
    if is_carry(undecoded(bytes)) {
        Ok((decode_utf8(bytes.take(valid_up_to(bytes))), undecoded(bytes)))
    } else {
        Err(
            InvalidUtf8 {
                valid_up_to: valid_up_to(bytes) as usize,
                error_len: utf8_error_len(bytes)->0,
            },
        )
    }
}

/// `fault` is the fault of `bytes`: it stands where the longest valid prefix ends, its length
/// is what the standard library gives for it, one byte at least, and it lies within `bytes`.
pub open spec fn is_fault_of(fault: InvalidUtf8, bytes: Seq<u8>) -> bool {
    &&& !is_carry(undecoded(bytes))
    &&& fault.valid_up_to == valid_up_to(bytes)
    &&& utf8_error_len(bytes) == Some(fault.error_len)
    &&& 1 <= fault.error_len
    &&& fault.valid_up_to + fault.error_len <= bytes.len()
}

/// Calls `std::str::from_utf8`. It gives the text exactly when the bytes are UTF-8.
/// Otherwise `Utf8Error::valid_up_to` is the greatest index up to which they are,
/// and `Utf8Error::error_len` is `None` exactly when the bytes behind it run out
/// inside a character; else it is the length of the invalid sequence found there.
/// How long that sequence is taken to be is left to the name.
#[verifier::external_body]
fn parse_utf8(bytes: &[u8]) -> (res: Result<&str, Utf8Failure>)
    ensures
        res is Ok <==> valid_utf8(bytes@),
        res matches Ok(text) ==> text@ == decode_utf8(bytes@),
        res matches Err(failure) ==> {
            &&& partial_valid_utf8(bytes@, failure.valid_up_to as int)
            &&& forall|i: int| failure.valid_up_to < i ==> !partial_valid_utf8(bytes@, i)
            &&& failure.error_len is None <==> is_truncated_char(
                bytes@.skip(failure.valid_up_to as int),
            )
            &&& failure.error_len == utf8_error_len(bytes@)
            &&& failure.error_len matches Some(n) ==> 1 <= n && failure.valid_up_to + n
                <= bytes@.len()
        },
{
    match std::str::from_utf8(bytes) {
        Ok(text) => Ok(text),
        Err(e) => Err(Utf8Failure { valid_up_to: e.valid_up_to(), error_len: e.error_len() }),
    }
}

/// The prefix counted by `valid_up_to` is UTF-8, and nothing longer is.
pub proof fn lemma_valid_up_to(bytes: Seq<u8>)
    ensures
        partial_valid_utf8(bytes, valid_up_to(bytes)),
        forall|i: int| valid_up_to(bytes) < i ==> !partial_valid_utf8(bytes, i),
        valid_up_to(bytes) == bytes.len() <==> valid_utf8(bytes),
    decreases bytes.len(),
{
    if valid_first_scalar(bytes) {
        let n = length_of_first_scalar(bytes);
        let rest = pop_first_scalar(bytes);
        lemma_valid_up_to(rest);
        let v = bytes.subrange(0, valid_up_to(bytes));
        assert(pop_first_scalar(v) =~= rest.subrange(0, valid_up_to(rest)));
        assert forall|i: int| valid_up_to(bytes) < i implies !partial_valid_utf8(bytes, i) by {
            if i <= bytes.len() {
                let w = bytes.subrange(0, i);
                assert(pop_first_scalar(w) =~= rest.subrange(0, i - n));
                assert(!partial_valid_utf8(rest, i - n));
            }
        }
    } else {
        assert(bytes.subrange(0, 0).len() == 0);
        assert forall|i: int| 0 < i implies !partial_valid_utf8(bytes, i) by {
            if i <= bytes.len() {
                let w = bytes.subrange(0, i);
                assert(valid_first_scalar(w) ==> valid_first_scalar(bytes));
            }
        }
    }
}

/// Where the longest valid prefix ends is fixed by its being the longest.
proof fn lemma_valid_up_to_unique(bytes: Seq<u8>, n: int)
    requires
        partial_valid_utf8(bytes, n),
        forall|i: int| n < i ==> !partial_valid_utf8(bytes, i),
    ensures
        n == valid_up_to(bytes),
{
    lemma_valid_up_to(bytes);
    assert(partial_valid_utf8(bytes, valid_up_to(bytes)));
}

/// Decodes what was carried and then `bytes`, and carries the front of a character
/// that the chunk's end cut off.
///
/// - The bytes carried from the call before come first.
/// - A buffer of whole characters decodes fully and leaves nothing carried.
/// - A buffer that ends inside a character gives the text in front of it and carries
///   its bytes (the text may be empty).
/// - Bytes that nothing can complete give an error, and nothing is carried.
pub fn decode_chunk(partial_bytes: &mut Vec<u8>, bytes: &[u8]) -> (res: Result<String, InvalidUtf8>)
    ensures
        match res {
            Ok(text) => decoded(old(partial_bytes)@, bytes@) == Ok::<_, InvalidUtf8>(
                (text@, final(partial_bytes)@),
            ),
            Err(fault) => {
                &&& decoded(old(partial_bytes)@, bytes@) == Err::<(Seq<char>, Seq<u8>), _>(fault)
                &&& is_fault_of(fault, old(partial_bytes)@ + bytes@)
                &&& final(partial_bytes)@.len() == 0
            },
        },
        res is Ok <==> exists|more: Seq<u8>| #[trigger]
            valid_utf8(old(partial_bytes)@ + bytes@ + more),
        res matches Ok(text) ==> {
            &&& encode_utf8(text@) + final(partial_bytes)@ == old(partial_bytes)@ + bytes@
            &&& forall|front: Seq<char>| #[trigger]
                encode_utf8(front).is_prefix_of(old(partial_bytes)@ + bytes@)
                    ==> front.is_prefix_of(text@)
        },
        res matches Err(fault) ==> {
            &&& partial_valid_utf8(old(partial_bytes)@ + bytes@, fault.valid_up_to as int)
            &&& forall|i: int|
                fault.valid_up_to < i ==> !partial_valid_utf8(old(partial_bytes)@ + bytes@, i)
            &&& utf8_error_len(old(partial_bytes)@ + bytes@) == Some(fault.error_len)
        },
{
    proof {
        let carry = partial_bytes@;
        law_fault_is_final(carry, bytes@);
        law_no_byte_lost(carry, bytes@);
        lemma_valid_up_to(carry + bytes@);
        if decoded(carry, bytes@) is Ok {
            assert forall|front: Seq<char>| #[trigger]
                encode_utf8(front).is_prefix_of(carry + bytes@) implies front.is_prefix_of(
                decoded(carry, bytes@)->Ok_0.0,
            ) by {
                law_longest_text(carry, bytes@, front);
            }
        }
    }
    // Nothing carried: decode in place.
    if partial_bytes.is_empty() {
        proof {
            assert(partial_bytes@ + bytes@ =~= bytes@);
        }
        return decode_buffer(partial_bytes, bytes);
    }
    let mut buf: Vec<u8> = Vec::new();
    buf.append(partial_bytes);
    buf.extend_from_slice(bytes);
    proof {
        assert(buf@ =~= old(partial_bytes)@ + bytes@);
    }
    decode_buffer(partial_bytes, buf.as_slice())
}

/// Decodes `buf` and leaves in `partial_bytes` the front of a character at its end.
fn decode_buffer(partial_bytes: &mut Vec<u8>, buf: &[u8]) -> (res: Result<String, InvalidUtf8>)
    requires
        old(partial_bytes)@.len() == 0,
    ensures
        match res {
            Ok(text) => decoded(Seq::empty(), buf@) == Ok::<_, InvalidUtf8>(
                (text@, final(partial_bytes)@),
            ),
            Err(fault) => {
                &&& decoded(Seq::empty(), buf@) == Err::<(Seq<char>, Seq<u8>), _>(fault)
                &&& is_fault_of(fault, buf@)
                &&& final(partial_bytes)@.len() == 0
            },
        },
{
    proof {
        assert(Seq::<u8>::empty() + buf@ =~= buf@);
        lemma_valid_up_to(buf@);
    }
    match parse_utf8(buf) {
        Ok(text) => {
            assert(buf@.take(buf@.len() as int) =~= buf@);
            assert(undecoded(buf@) =~= partial_bytes@);
            Ok(text.to_string())
        },
        Err(failure) => {
            proof {
                lemma_valid_up_to_unique(buf@, failure.valid_up_to as int);
            }
            match failure.error_len {
                None => {
                    let valid = failure.valid_up_to;
                    let tail = slice_subrange(buf, valid, buf.len());
                    assert(tail@ =~= undecoded(buf@));
                    *partial_bytes = slice_to_vec(tail);
                    let head = slice_subrange(buf, 0, valid);
                    assert(head@ =~= buf@.take(valid as int));
                    assert(head@ =~= buf@.subrange(0, valid as int));
                    Ok(parse_utf8(head).unwrap().to_string())
                },
                Some(error_len) => Err(
                    InvalidUtf8 { valid_up_to: failure.valid_up_to, error_len },
                ),
            }
        },
    }
}

/// The first character of `bytes`, where `bytes` begins with one.
proof fn lemma_first_char(bytes: Seq<u8>) -> (c: char)
    requires
        valid_first_scalar(bytes),
    ensures
        encode_scalar(c as u32) == take_first_scalar(bytes),
{
    let first = take_first_scalar(bytes);
    reveal_with_fuel(valid_utf8, 2);
    assert(valid_utf8(first));
    decode_utf8_first_scalar(first);
    assert(take_first_scalar(first) =~= first);
    decode_first_scalar(first) as char
}

/// A truncated character is at most three bytes, and no character begins it.
proof fn lemma_truncated_char(tail: Seq<u8>)
    requires
        is_truncated_char(tail),
    ensures
        1 <= tail.len() <= 3,
        !valid_first_scalar(tail),
        undecoded(tail) == tail,
{
    let c = choose|c: char| #[trigger] truncates(tail, c);
    let one = seq![c];
    encode_utf8_first_scalar(one);
    lemma_one_char(c);
    assert(tail[0] == encode_scalar(c as u32)[0]);
    assert(undecoded(tail) =~= tail);
}

/// The encoding of a text of one character.
proof fn lemma_one_char(c: char)
    ensures
        encode_utf8(seq![c]) == encode_scalar(c as u32),
{
    let one = seq![c];
    assert(one.drop_first() =~= Seq::<char>::empty());
    reveal_with_fuel(encode_utf8, 2);
    assert(encode_utf8(one) =~= encode_scalar(c as u32));
}

/// Behind valid bytes the search for the longest valid prefix goes on afresh.
proof fn lemma_valid_up_to_concat(head: Seq<u8>, tail: Seq<u8>)
    requires
        valid_utf8(head),
    ensures
        valid_up_to(head + tail) == head.len() + valid_up_to(tail),
        undecoded(head + tail) == undecoded(tail),
    decreases head.len(),
{
    lemma_valid_up_to(tail);
    if head.len() == 0 {
        assert(head + tail =~= tail);
    } else {
        assert(pop_first_scalar(head + tail) =~= pop_first_scalar(head) + tail);
        lemma_valid_up_to_concat(pop_first_scalar(head), tail);
        assert(valid_first_scalar(head + tail));
    }
    assert(undecoded(head + tail) =~= undecoded(tail));
}

/// Valid bytes decode to the text of the first part and the text of the second.
proof fn lemma_decode_concat(a: Seq<u8>, b: Seq<u8>)
    requires
        valid_utf8(a),
        valid_utf8(b),
    ensures
        valid_utf8(a + b),
        decode_utf8(a + b) == decode_utf8(a) + decode_utf8(b),
{
    valid_utf8_concat(a, b);
    let ta = decode_utf8(a);
    let tb = decode_utf8(b);
    decode_utf8_encode_utf8(a);
    decode_utf8_encode_utf8(b);
    crate::text::lemma_encode_concat(ta, tb);
    encode_utf8_decode_utf8(ta + tb);
}

/// Bytes that neither begin with a character nor are the front of one stay so
/// whatever comes behind them.
proof fn lemma_fault_stays(tail: Seq<u8>, more: Seq<u8>)
    requires
        !valid_first_scalar(tail),
        !is_carry(tail),
    ensures
        undecoded(tail + more) == tail + more,
        !is_carry(tail + more),
{
    let all = tail + more;
    if valid_first_scalar(all) {
        let c = lemma_first_char(all);
        let whole = encode_scalar(c as u32);
        if whole.len() <= tail.len() {
            assert(valid_first_scalar(tail));
        } else {
            assert(tail =~= whole.take(tail.len() as int));
            assert(truncates(tail, c));
        }
    }
    assert(undecoded(all) =~= all);
    if is_truncated_char(all) {
        let c = choose|c: char| #[trigger] truncates(all, c);
        let whole = encode_scalar(c as u32);
        assert(tail =~= whole.take(tail.len() as int));
        assert(truncates(tail, c));
    }
}

/// What is behind the longest valid prefix does not begin with a character.
proof fn lemma_undecoded(bytes: Seq<u8>)
    ensures
        !valid_first_scalar(undecoded(bytes)),
        bytes == bytes.take(valid_up_to(bytes)) + undecoded(bytes),
        valid_utf8(bytes.take(valid_up_to(bytes))),
        undecoded(undecoded(bytes)) == undecoded(bytes),
{
    let n = valid_up_to(bytes);
    lemma_valid_up_to(bytes);
    assert(bytes.take(n) =~= bytes.subrange(0, n));
    assert(bytes =~= bytes.take(n) + undecoded(bytes));
    assert(undecoded(bytes) =~= bytes.subrange(n, bytes.len() as int));
    if valid_first_scalar(undecoded(bytes)) {
        partial_valid_utf8_extend(bytes, n);
    }
    assert(undecoded(undecoded(bytes)) =~= undecoded(bytes));
}

/// A byte is neither lost nor made up: the text's encoding and the bytes carried on
/// are the bytes carried in and the chunk. What is carried is nothing or the front of
/// one character, so three bytes at most.
pub proof fn law_no_byte_lost(carry: Seq<u8>, chunk: Seq<u8>)
    ensures
        decoded(carry, chunk) matches Ok((text, rest)) ==> {
            &&& encode_utf8(text) + rest == carry + chunk
            &&& is_carry(rest)
            &&& rest.len() <= 3
        },
{
    let bytes = carry + chunk;
    lemma_undecoded(bytes);
    decode_utf8_encode_utf8(bytes.take(valid_up_to(bytes)));
    if is_truncated_char(undecoded(bytes)) {
        lemma_truncated_char(undecoded(bytes));
    }
}

/// The text is all that can be had of the bytes: every text whose encoding they begin with
/// is the front of it.
pub proof fn law_longest_text(carry: Seq<u8>, chunk: Seq<u8>, front: Seq<char>)
    requires
        encode_utf8(front).is_prefix_of(carry + chunk),
    ensures
        decoded(carry, chunk) matches Ok((text, _)) ==> front.is_prefix_of(text),
{
    let bytes = carry + chunk;
    let n = valid_up_to(bytes);
    let head = encode_utf8(front);
    encode_utf8_valid_utf8(front);
    encode_utf8_decode_utf8(front);
    lemma_valid_up_to(bytes);
    lemma_undecoded(bytes);
    assert(bytes.subrange(0, head.len() as int) =~= head);
    assert(partial_valid_utf8(bytes, head.len() as int));
    let valid = bytes.take(n);
    let tail = valid.skip(head.len() as int);
    assert(valid =~= head + tail);
    lemma_valid_up_to_concat(head, tail);
    lemma_valid_up_to(valid);
    lemma_valid_up_to(tail);
    lemma_decode_concat(head, tail);
}

/// A fault stands where the longest front of the bytes that is UTF-8 ends, and is as long as
/// the standard library finds it.
pub proof fn law_fault_place(carry: Seq<u8>, chunk: Seq<u8>)
    requires
        carry.len() + chunk.len() <= usize::MAX,
    ensures
        decoded(carry, chunk) matches Err(fault) ==> {
            &&& partial_valid_utf8(carry + chunk, fault.valid_up_to as int)
            &&& forall|i: int| fault.valid_up_to < i ==> !partial_valid_utf8(carry + chunk, i)
            &&& utf8_error_len(carry + chunk) matches Some(n) ==> fault.error_len == n
        },
{
    lemma_valid_up_to(carry + chunk);
}

/// Where a chunk is split does not matter: two chunks one after the other decode to
/// the text of the joined chunk and carry on the same bytes, and they fail exactly
/// when the joined chunk does.
pub proof fn law_split_chunk(carry: Seq<u8>, first: Seq<u8>, second: Seq<u8>)
    ensures
        match decoded(carry, first) {
            Err(_) => decoded(carry, first + second) is Err,
            Ok((text1, middle)) => match decoded(middle, second) {
                Err(_) => decoded(carry, first + second) is Err,
                Ok((text2, rest)) => decoded(carry, first + second) == Ok::<_, InvalidUtf8>(
                    (text1 + text2, rest),
                ),
            },
        },
{
    let x = carry + first;
    let tail = undecoded(x);
    let head = x.take(valid_up_to(x));
    let z = tail + second;
    assert(carry + (first + second) =~= x + second);
    lemma_undecoded(x);
    assert(x + second =~= head + z);
    lemma_valid_up_to_concat(head, z);
    if !is_carry(tail) {
        lemma_fault_stays(tail, second);
    } else {
        lemma_undecoded(z);
        let n = valid_up_to(z);
        lemma_valid_up_to(z);
        lemma_decode_concat(head, z.take(n));
        assert((head + z).take(head.len() + n) =~= head + z.take(n));
    }
}

/// A buffer of whole characters decodes fully and leaves nothing carried.
pub proof fn law_whole_text(carry: Seq<u8>, chunk: Seq<u8>, text: Seq<char>)
    requires
        carry + chunk == encode_utf8(text),
    ensures
        decoded(carry, chunk) == Ok::<_, InvalidUtf8>((text, Seq::<u8>::empty())),
{
    let bytes = carry + chunk;
    encode_utf8_valid_utf8(text);
    encode_utf8_decode_utf8(text);
    lemma_valid_up_to(bytes);
    assert(bytes.take(bytes.len() as int) =~= bytes);
    assert(undecoded(bytes) =~= Seq::<u8>::empty());
}

/// What can be carried can be completed: some bytes behind it make a text of it all.
proof fn lemma_completion(bytes: Seq<u8>) -> (more: Seq<u8>)
    requires
        is_carry(undecoded(bytes)),
    ensures
        valid_utf8(bytes + more),
{
    let head = bytes.take(valid_up_to(bytes));
    let tail = undecoded(bytes);
    lemma_undecoded(bytes);
    if tail.len() == 0 {
        assert(bytes + Seq::<u8>::empty() =~= head);
        Seq::empty()
    } else {
        let c = choose|c: char| #[trigger] truncates(tail, c);
        let whole = encode_scalar(c as u32);
        let more = whole.skip(tail.len() as int);
        lemma_one_char(c);
        encode_utf8_valid_utf8(seq![c]);
        assert(tail + more =~= whole);
        valid_utf8_concat(head, whole);
        assert(bytes + more =~= head + whole);
        more
    }
}

/// What cannot be carried cannot be completed.
proof fn lemma_no_completion(bytes: Seq<u8>, more: Seq<u8>)
    requires
        !is_carry(undecoded(bytes)),
    ensures
        !valid_utf8(bytes + more),
{
    let head = bytes.take(valid_up_to(bytes));
    let tail = undecoded(bytes);
    lemma_undecoded(bytes);
    lemma_fault_stays(tail, more);
    lemma_valid_up_to_concat(head, tail + more);
    assert(bytes + more =~= head + (tail + more));
    lemma_valid_up_to(bytes + more);
}

/// Bytes fail exactly when nothing that may come behind them makes a text of them.
#[verifier::spinoff_prover]
pub proof fn law_fault_is_final(carry: Seq<u8>, chunk: Seq<u8>)
    ensures
        decoded(carry, chunk) is Ok <==> exists|more: Seq<u8>| #[trigger]
            valid_utf8(carry + chunk + more),
{
    let bytes = carry + chunk;
    if is_carry(undecoded(bytes)) {
        let more = lemma_completion(bytes);
        assert(valid_utf8(carry + chunk + more));
    } else {
        assert forall|more: Seq<u8>| !#[trigger] valid_utf8(carry + chunk + more) by {
            lemma_no_completion(bytes, more);
        }
    }
}

/// What a sequence of chunks decodes to, one after the other, up to the first fault.
pub open spec fn decoded_all(carry: Seq<u8>, chunks: Seq<Seq<u8>>) -> Result<
    (Seq<char>, Seq<u8>),
    InvalidUtf8,
>
    decreases chunks.len(),
{
    if chunks.len() == 0 {
        Ok((Seq::empty(), carry))
    } else {
        match decoded_all(carry, chunks.drop_last()) {
            Err(fault) => Err(fault),
            Ok((text, middle)) => match decoded(middle, chunks.last()) {
                Err(fault) => Err(fault),
                Ok((more, rest)) => Ok((text + more, rest)),
            },
        }
    }
}

/// Nothing that is carried changes when an empty chunk arrives.
pub proof fn law_empty_chunk(carry: Seq<u8>)
    requires
        is_carry(carry),
    ensures
        decoded(carry, Seq::empty()) == Ok::<_, InvalidUtf8>((Seq::<char>::empty(), carry)),
{
    assert(carry + Seq::<u8>::empty() =~= carry);
    if carry.len() > 0 {
        lemma_truncated_char(carry);
    } else {
        assert(undecoded(carry) =~= carry);
    }
    assert(carry.take(0) =~= Seq::<u8>::empty());
}

/// However the chunks of a stream are cut, they decode to what their concatenation
/// decodes to, and they fail exactly when it does.
pub proof fn law_any_chunks(carry: Seq<u8>, chunks: Seq<Seq<u8>>)
    requires
        is_carry(carry),
    ensures
        decoded_all(carry, chunks) is Ok <==> decoded(carry, chunks.flatten()) is Ok,
        decoded_all(carry, chunks) is Ok ==> decoded_all(carry, chunks) == decoded(
            carry,
            chunks.flatten(),
        ),
    decreases chunks.len(),
{
    if chunks.len() == 0 {
        law_empty_chunk(carry);
        assert(chunks.flatten() =~= Seq::<u8>::empty());
    } else {
        law_any_chunks(carry, chunks.drop_last());
        assert(chunks =~= chunks.drop_last().push(chunks.last()));
        chunks.drop_last().lemma_flatten_push(chunks.last());
        law_split_chunk(carry, chunks.drop_last().flatten(), chunks.last());
    }
}

/// A text that arrives in any chunks whatever, cut inside characters or not, comes out
/// whole, and nothing is left over.
pub proof fn law_text_in_chunks(text: Seq<char>, chunks: Seq<Seq<u8>>)
    requires
        chunks.flatten() == encode_utf8(text),
    ensures
        decoded_all(Seq::empty(), chunks) == Ok::<_, InvalidUtf8>((text, Seq::<u8>::empty())),
{
    assert(Seq::<u8>::empty() + chunks.flatten() =~= encode_utf8(text));
    law_whole_text(Seq::empty(), chunks.flatten(), text);
    law_any_chunks(Seq::empty(), chunks);
}

} // verus!
