//! Characters, byte offsets and white space of strings.

use vstd::prelude::*;
use vstd::string::*;
use vstd::utf8::*;

verus! {

/// How many bytes the UTF-8 encoding of `text` takes.
pub open spec fn byte_len(text: Seq<char>) -> nat {
    encode_utf8(text).len()
}

/// The encoding of a concatenation is the concatenation of the encodings.
pub proof fn lemma_encode_concat(a: Seq<char>, b: Seq<char>)
    ensures
        encode_utf8(a + b) == encode_utf8(a) + encode_utf8(b),
    decreases a.len(),
{
    if a.len() == 0 {
        assert(a + b =~= b);
        assert(encode_utf8(a) + encode_utf8(b) =~= encode_utf8(b));
    } else {
        assert((a + b).drop_first() =~= a.drop_first() + b);
        lemma_encode_concat(a.drop_first(), b);
        assert(encode_scalar(a[0] as u32) + (encode_utf8(a.drop_first()) + encode_utf8(b))
            =~= (encode_scalar(a[0] as u32) + encode_utf8(a.drop_first())) + encode_utf8(b));
    }
}

/// A prefix and one more character take the prefix's bytes and the character's.
pub proof fn lemma_byte_len_step(text: Seq<char>, i: int)
    requires
        0 <= i < text.len(),
    ensures
        byte_len(text.take(i + 1)) == byte_len(text.take(i)) + encode_scalar(text[i] as u32).len(),
{
    let one = seq![text[i]];
    assert(text.take(i + 1) =~= text.take(i) + one);
    lemma_encode_concat(text.take(i), one);
    assert(one.drop_first() =~= Seq::<char>::empty());
    reveal_with_fuel(encode_utf8, 2);
    assert(encode_utf8(one) =~= encode_scalar(text[i] as u32));
}

/// A prefix takes no more bytes than the whole text.
pub proof fn lemma_byte_len_prefix(text: Seq<char>, i: int)
    requires
        0 <= i <= text.len(),
    ensures
        byte_len(text.take(i)) <= byte_len(text),
{
    assert(text.take(i) + text.skip(i) =~= text);
    lemma_encode_concat(text.take(i), text.skip(i));
}

/// The end of an encoded text is a character boundary of what it begins.
proof fn lemma_boundary(a: Seq<char>, b: Seq<char>)
    ensures
        is_char_boundary(encode_utf8(a + b), byte_len(a) as int),
    decreases a.len(),
{
    encode_utf8_valid_utf8(a + b);
    if a.len() > 0 {
        let whole = encode_utf8(a + b);
        encode_utf8_first_scalar(a + b);
        assert((a + b).drop_first() =~= a.drop_first() + b);
        let first = encode_scalar(a[0] as u32);
        assert(pop_first_scalar(whole) =~= encode_utf8(a.drop_first() + b));
        lemma_boundary(a.drop_first(), b);
        lemma_encode_concat(a, b);
    }
}

/// Two texts with the same encoding are the same.
proof fn lemma_encode_injective(a: Seq<char>, b: Seq<char>)
    requires
        encode_utf8(a) == encode_utf8(b),
    ensures
        a == b,
{
    encode_utf8_decode_utf8(a);
    encode_utf8_decode_utf8(b);
}

/// How many bytes `c` takes in UTF-8.
pub fn char_width(c: char) -> (width: usize)
    ensures
        width == encode_scalar(c as u32).len(),
{
    if c <= '\u{7f}' {
        1
    } else if c <= '\u{7ff}' {
        2
    } else if c <= '\u{ffff}' {
        3
    } else {
        4
    }
}

/// The characters of `text`, in order.
pub fn chars_of(text: &str) -> (chars: Vec<char>)
    ensures
        chars@ == text@,
{
    let mut chars: Vec<char> = Vec::new();
    for c in it: text.chars()
        invariant
            it.seq() == text@,
            chars@ == text@.take(it.index() as int),
    {
        assert(text@.take(it.index() + 1) =~= text@.take(it.index() as int).push(c));
        chars.push(c);
    }
    assert(text@.take(text@.len() as int) =~= text@);
    chars
}

/// The characters from `from` to `to` of `text`, which start at the byte offsets
/// `start` and `end`.
pub(crate) fn cut(
    text: &str,
    start: usize,
    end: usize,
    Ghost(from): Ghost<int>,
    Ghost(to): Ghost<int>,
) -> (piece: String)
    requires
        0 <= from <= to <= text@.len(),
        start == byte_len(text@.take(from)),
        end == byte_len(text@.take(to)),
    ensures
        piece@ == text@.subrange(from, to),
{
    let ghost head_chars = text@.take(to);
    proof {
        assert(head_chars + text@.skip(to) =~= text@);
        lemma_boundary(head_chars, text@.skip(to));
        lemma_encode_concat(head_chars, text@.skip(to));
        assert(head_chars.take(from) =~= text@.take(from));
        assert(head_chars.take(from) + head_chars.skip(from) =~= head_chars);
        lemma_boundary(head_chars.take(from), head_chars.skip(from));
        lemma_encode_concat(head_chars.take(from), head_chars.skip(from));
    }
    let (head, _) = text.split_at(end);
    proof {
        assert(head.spec_bytes() =~= encode_utf8(head_chars));
        lemma_encode_injective(head@, head_chars);
    }
    let (_, piece) = head.split_at(start);
    proof {
        assert(piece.spec_bytes() =~= encode_utf8(head_chars.skip(from)));
        lemma_encode_injective(piece@, head_chars.skip(from));
        assert(head_chars.skip(from) =~= text@.subrange(from, to));
    }
    piece.to_string()
}

/// The characters with Unicode's `White_Space` property.
pub open spec fn white_space(c: char) -> bool {
    ||| '\u{9}' <= c <= '\u{d}'
    ||| c == ' '
    ||| c == '\u{85}'
    ||| c == '\u{a0}'
    ||| c == '\u{1680}'
    ||| '\u{2000}' <= c <= '\u{200a}'
    ||| c == '\u{2028}'
    ||| c == '\u{2029}'
    ||| c == '\u{202f}'
    ||| c == '\u{205f}'
    ||| c == '\u{3000}'
}

/// White space are these characters, by their code points, and no others.
pub proof fn law_white_space(c: char)
    ensures
        white_space(c) <==> {
            let code = c as u32;
            9 <= code <= 13 || code == 32 || code == 0x85 || code == 0xa0 || code == 0x1680
                || 0x2000 <= code <= 0x200a || code == 0x2028 || code == 0x2029 || code == 0x202f
                || code == 0x205f || code == 0x3000
        },
{
}

/// A text that is nothing but white space.
pub open spec fn blank(text: Seq<char>) -> bool {
    forall|i: int| 0 <= i < text.len() ==> white_space(#[trigger] text[i])
}

/// Whether `c` is white space.
pub fn is_white_space(c: char) -> (res: bool)
    ensures
        res == white_space(c),
        res <==> {
            let code = c as u32;
            9 <= code <= 13 || code == 32 || code == 0x85 || code == 0xa0 || code == 0x1680
                || 0x2000 <= code <= 0x200a || code == 0x2028 || code == 0x2029 || code == 0x202f
                || code == 0x205f || code == 0x3000
        },
{
    ('\u{9}' <= c && c <= '\u{d}') || c == ' ' || c == '\u{85}' || c == '\u{a0}' || c == '\u{1680}'
        || ('\u{2000}' <= c && c <= '\u{200a}') || c == '\u{2028}' || c == '\u{2029}'
        || c == '\u{202f}' || c == '\u{205f}' || c == '\u{3000}'
}

/// Whether `text` is nothing but white space.
pub fn is_blank(text: &str) -> (res: bool)
    ensures
        res == blank(text@),
        res <==> forall|i: int| 0 <= i < text@.len() ==> white_space(#[trigger] text@[i]),
{
    let chars = chars_of(text);
    for i in 0..chars.len()
        invariant
            chars@ == text@,
            blank(text@.take(i as int)),
    {
        if !is_white_space(chars[i]) {
            assert(!white_space(text@[i as int]));
            return false;
        }
        assert(text@.take(i + 1) =~= text@.take(i as int).push(chars[i as int]));
    }
    assert(text@.take(text@.len() as int) =~= text@);
    true
}

/// The text kept from before, if any, with `text` behind it.
pub open spec fn continued(kept: Option<Seq<char>>, text: Seq<char>) -> Seq<char> {
    match kept {
        Some(kept) => kept + text,
        None => text,
    }
}

/// A kept text stands in front of what continues it, whole, and nothing else does.
pub proof fn law_continued(kept: Seq<char>, text: Seq<char>)
    ensures
        continued(Some(kept), text) == kept + text,
        continued(None, text) == text,
{
}

/// Texts that come one after the other are put together in any grouping.
pub proof fn law_continued_twice(kept: Option<Seq<char>>, first: Seq<char>, second: Seq<char>)
    ensures
        continued(Some(continued(kept, first)), second) == continued(kept, first + second),
{
    assert(continued(Some(continued(kept, first)), second) =~= continued(kept, first + second));
}

/// The view of an optional string.
pub open spec fn opt_view(text: Option<String>) -> Option<Seq<char>> {
    match text {
        Some(text) => Some(text@),
        None => None,
    }
}

/// The views of a list of strings.
pub open spec fn views(texts: Seq<String>) -> Seq<Seq<char>> {
    texts.map_values(|text: String| text@)
}

/// Views keep the strings they are of: each one, in its place.
pub proof fn law_views(texts: Seq<String>, text: Option<String>)
    ensures
        views(texts).len() == texts.len(),
        forall|i: int| 0 <= i < texts.len() ==> #[trigger] views(texts)[i] == texts[i]@,
        text is Some <==> opt_view(text) is Some,
        text matches Some(t) ==> opt_view(text) == Some(t@),
{
}

/// Takes the kept text, if any, and puts `text` behind it.
pub(crate) fn continue_text(kept: &mut Option<String>, text: String) -> (full: String)
    ensures
        full@ == continued(opt_view(*old(kept)), text@),
        *old(kept) matches Some(front) ==> full@ == front@ + text@,
        *old(kept) is None ==> full@ == text@,
        *final(kept) is None,
{
    match kept.take() {
        Some(mut full) => {
            full.append(text.as_str());
            full
        },
        None => text,
    }
}

} // verus!
