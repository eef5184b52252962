//! Messages that end at a delimiter.

use vstd::prelude::*;

use crate::error::Error;
use crate::response::{response, BuffResponse};
use crate::text::{
    byte_len, char_width, chars_of, continue_text, continued, cut, lemma_byte_len_prefix,
    lemma_byte_len_step, opt_view, views,
};

verus! {

/// `delimiter` stands in `text` at index `i`.
pub open spec fn matches_at(text: Seq<char>, delimiter: Seq<char>, i: int) -> bool {
    0 <= i && i + delimiter.len() <= text.len() && text.subrange(i, i + delimiter.len())
        == delimiter
}

/// The first place where `delimiter` stands in `text` is index `i`.
pub open spec fn first_match(text: Seq<char>, delimiter: Seq<char>, i: int) -> bool {
    matches_at(text, delimiter, i) && forall|j: int| j < i ==> !matches_at(text, delimiter, j)
}

/// Somewhere in `text` stands `delimiter`.
pub open spec fn has_match(text: Seq<char>, delimiter: Seq<char>) -> bool {
    exists|i: int| first_match(text, delimiter, i)
}

/// The parts of `text` between the delimiters, which are found from left to right and do
/// not overlap. An empty delimiter stands in front of, between and behind all characters.
pub open spec fn parts(text: Seq<char>, delimiter: Seq<char>) -> Seq<Seq<char>>
    decreases text.len(),
{
    if delimiter.len() == 0 {
        seq![Seq::<char>::empty()] + text.map_values(|c: char| seq![c])
            + seq![Seq::<char>::empty()]
    } else if has_match(text, delimiter) {
        let i = choose|i: int| first_match(text, delimiter, i);
        seq![text.take(i)] + parts(text.skip(i + delimiter.len()), delimiter)
    } else {
        seq![text]
    }
}

/// The parts that are not empty.
pub open spec fn non_empty(parts: Seq<Seq<char>>) -> Seq<Seq<char>> {
    parts.filter(|part: Seq<char>| part.len() > 0)
}

/// The messages of `text`: the parts that a delimiter ends and that are not empty.
pub open spec fn messages(text: Seq<char>, delimiter: Seq<char>) -> Seq<Seq<char>> {
    non_empty(parts(text, delimiter).drop_last())
}

/// What is behind the last delimiter of `text`.
pub open spec fn unfinished(text: Seq<char>, delimiter: Seq<char>) -> Seq<char> {
    parts(text, delimiter).last()
}

/// A text is split at its first delimiter, and then behind it.
pub proof fn lemma_parts_at_match(text: Seq<char>, delimiter: Seq<char>, i: int)
    requires
        delimiter.len() > 0,
        first_match(text, delimiter, i),
    ensures
        parts(text, delimiter) == seq![text.take(i)] + parts(
            text.skip(i + delimiter.len()),
            delimiter,
        ),
{
    let k = choose|k: int| first_match(text, delimiter, k);
    assert(first_match(text, delimiter, k));
    assert(k == i);
}

/// A text without a delimiter is one part.
pub proof fn lemma_parts_without_match(text: Seq<char>, delimiter: Seq<char>)
    requires
        delimiter.len() > 0,
        forall|i: int| !matches_at(text, delimiter, i),
    ensures
        parts(text, delimiter) == seq![text],
{
    if has_match(text, delimiter) {
        let i = choose|i: int| first_match(text, delimiter, i);
        assert(matches_at(text, delimiter, i));
    }
}

/// Whether the delimiter stands at index `i`.
fn delimiter_at(text: &Vec<char>, delimiter: &Vec<char>, i: usize) -> (res: bool)
    requires
        i + delimiter@.len() <= text@.len(),
    ensures
        res == matches_at(text@, delimiter@, i as int),
{
    let total = text.len();
    for k in 0..delimiter.len()
        invariant
            total == text@.len(),
            i + delimiter@.len() <= total,
            forall|j: int| 0 <= j < k ==> text@[i + j] == delimiter@[j],
    {
        if text[i + k] != delimiter[k] {
            let ghost there = text@.subrange(i as int, i + delimiter@.len());
            assert(there[k as int] != delimiter@[k as int]);
            return false;
        }
    }
    assert(text@.subrange(i as int, i + delimiter@.len()) =~= delimiter@);
    true
}

/// The parts of `text` between the delimiters, the last one being what is behind the
/// last delimiter.
pub fn split_text(text: &str, delimiter: &str) -> (res: Vec<String>)
    ensures
        views(res@) == parts(text@, delimiter@),
        res@.len() == parts(text@, delimiter@).len(),
        forall|i: int|
            0 <= i < res@.len() ==> #[trigger] res@[i]@ == parts(text@, delimiter@)[i],
{
    let chars = chars_of(text);
    let marks = chars_of(delimiter);
    if marks.len() == 0 {
        return split_every_char(text, Ghost(delimiter@));
    }
    let mut res: Vec<String> = Vec::new();
    let total = text.as_bytes().len();
    let count = chars.len();
    // The part under way starts at `start`; the search stands at `i`. Both are kept as
    // character indices and as byte offsets.
    let mut start: usize = 0;
    let mut start_byte: usize = 0;
    let mut i: usize = 0;
    let mut i_byte: usize = 0;
    proof {
        assert(text@.skip(0) =~= text@);
        assert(views(res@) + parts(text@, delimiter@) =~= parts(text@, delimiter@));
        assert(text@.take(0) =~= Seq::<char>::empty());
    }
    while count - i >= marks.len()
        invariant
            chars@ == text@,
            count == chars@.len(),
            marks@ == delimiter@,
            marks@.len() > 0,
            total == byte_len(text@),
            start <= i <= chars@.len(),
            start_byte == byte_len(text@.take(start as int)),
            i_byte == byte_len(text@.take(i as int)),
            parts(text@, delimiter@) == views(res@) + parts(text@.skip(start as int), delimiter@),
            forall|j: int| j < i - start ==> !matches_at(text@.skip(start as int), delimiter@, j),
        decreases chars@.len() - i,
    {
        let ghost rest = text@.skip(start as int);
        let ghost at = i - start;
        proof {
            if i + delimiter@.len() <= text@.len() {
                assert(rest.subrange(at, at + delimiter@.len()) =~= text@.subrange(
                    i as int,
                    i + delimiter@.len(),
                ));
            }
        }
        if delimiter_at(&chars, &marks, i) {
            let ghost before = views(res@);
            res.push(cut(text, start_byte, i_byte, Ghost(start as int), Ghost(i as int)));
            let mut k: usize = 0;
            while k < marks.len()
                invariant
                    chars@ == text@,
                    marks@ == delimiter@,
                    total == byte_len(text@),
                    k <= marks@.len(),
                    count == chars@.len(),
                    i + marks@.len() <= count,
                    i_byte == byte_len(text@.take(i + k)),
                decreases marks@.len() - k,
            {
                proof {
                    lemma_byte_len_step(text@, i + k);
                    lemma_byte_len_prefix(text@, i + k + 1);
                }
                i_byte = i_byte + char_width(chars[i + k]);
                k = k + 1;
            }
            i = i + marks.len();
            proof {
                assert(first_match(rest, delimiter@, at));
                lemma_parts_at_match(rest, delimiter@, at);
                assert(rest.take(at) =~= text@.subrange(start as int, start + at));
                assert(rest.skip(at + delimiter@.len()) =~= text@.skip(i as int));
                assert(views(res@) =~= before.push(rest.take(at)));
                assert(before + (seq![rest.take(at)] + parts(text@.skip(i as int), delimiter@))
                    =~= views(res@) + parts(text@.skip(i as int), delimiter@));
            }
            start = i;
            start_byte = i_byte;
        } else {
            proof {
                lemma_byte_len_step(text@, i as int);
                lemma_byte_len_prefix(text@, i + 1);
            }
            i_byte = i_byte + char_width(chars[i]);
            i = i + 1;
        }
    }
    proof {
        let rest = text@.skip(start as int);
        lemma_parts_without_match(rest, delimiter@);
        assert(text@.take(text@.len() as int) =~= text@);
        assert(text@.subrange(start as int, text@.len() as int) =~= rest);
    }
    let ghost before = views(res@);
    res.push(cut(text, start_byte, total, Ghost(start as int), Ghost(text@.len() as int)));
    proof {
        assert(views(res@) =~= before + seq![text@.skip(start as int)]);
    }
    res
}

/// The parts of `text` around an empty delimiter.
fn split_every_char(text: &str, Ghost(delimiter): Ghost<Seq<char>>) -> (res: Vec<String>)
    requires
        delimiter.len() == 0,
    ensures
        views(res@) == parts(text@, delimiter),
{
    let chars = chars_of(text);
    let total = text.as_bytes().len();
    let mut res: Vec<String> = Vec::new();
    res.push(String::new());
    let mut at: usize = 0;
    let ghost singles = text@.map_values(|c: char| seq![c]);
    proof {
        assert(text@.take(0) =~= Seq::<char>::empty());
        assert(views(res@) =~= seq![Seq::<char>::empty()] + singles.take(0));
    }
    for i in 0..chars.len()
        invariant
            chars@ == text@,
            total == byte_len(text@),
            at == byte_len(text@.take(i as int)),
            singles == text@.map_values(|c: char| seq![c]),
            views(res@) == seq![Seq::<char>::empty()] + singles.take(i as int),
    {
        proof {
            lemma_byte_len_step(text@, i as int);
            lemma_byte_len_prefix(text@, i + 1);
        }
        let next = at + char_width(chars[i]);
        let ghost before = views(res@);
        res.push(cut(text, at, next, Ghost(i as int), Ghost(i + 1)));
        proof {
            assert(text@.subrange(i as int, i + 1) =~= singles[i as int]);
            assert(views(res@) =~= before.push(singles[i as int]));
            assert(views(res@) =~= seq![Seq::<char>::empty()] + singles.take(i + 1));
        }
        at = next;
    }
    let ghost before = views(res@);
    res.push(String::new());
    proof {
        assert(singles.take(singles.len() as int) =~= singles);
        assert(views(res@) =~= before + seq![Seq::<char>::empty()]);
    }
    res
}

/// Splits the text kept from before and `buff_string` at the delimiter. Empty messages,
/// as between two delimiters, are left out.
pub fn process_buff_string_delimited(
    buff_string: String,
    partial_message: &mut Option<String>,
    delimiter: &str,
) -> (res: Result<BuffResponse, Error>)
    ensures
        res is Ok,
        res matches Ok(buff) ==> {
            let text = continued(opt_view(*old(partial_message)), buff_string@);
            buff@ == response(messages(text, delimiter@), Some(unfinished(text, delimiter@)))
        },
        res matches Ok(buff) ==> {
            let text = match *old(partial_message) {
                Some(partial) => partial@ + buff_string@,
                None => buff_string@,
            };
            let all = messages(text, delimiter@);
            &&& buff.first_message is Some <==> all.len() > 0
            &&& buff.first_message matches Some(first) ==> first@ == all[0]
            &&& buff.next_messages is Some <==> all.len() > 1
            &&& buff.next_messages matches Some(next) ==> {
                &&& next@.len() == all.len() - 1
                &&& forall|i: int| 0 <= i < next@.len() ==> #[trigger] next@[i]@ == all[i + 1]
            }
            &&& buff.candidate_message matches Some(candidate) && candidate@ == unfinished(
                text,
                delimiter@,
            )
        },
        *final(partial_message) is None,
{
    let full_string = continue_text(partial_message, buff_string);
    let mut split = split_text(full_string.as_str(), delimiter);
    let ghost all = parts(full_string@, delimiter@);
    proof {
        lemma_parts_not_empty(full_string@, delimiter@);
        assert(all.last() == split@.last()@);
    }
    // What is behind the last delimiter is not finished yet.
    let candidate_message = split.pop();
    let mut found: Vec<String> = Vec::new();
    proof {
        assert(views(split@) =~= all.drop_last());
        assert(non_empty(all.drop_last().take(0)) =~= Seq::<Seq<char>>::empty());
    }
    for i in 0..split.len()
        invariant
            views(split@) == all.drop_last(),
            views(found@) == non_empty(all.drop_last().take(i as int)),
    {
        let ghost before = views(found@);
        proof {
            assert(all.drop_last().take(i + 1) =~= all.drop_last().take(i as int).push(
                split@[i as int]@,
            ));
            lemma_non_empty_push(all.drop_last().take(i as int), split@[i as int]@);
        }
        if !split[i].as_str().is_empty() {
            let message = split[i].clone();
            found.push(message);
            assert(views(found@) =~= before.push(message@));
        }
    }
    assert(all.drop_last().take(all.drop_last().len() as int) =~= all.drop_last());
    proof {
        let listed = messages(full_string@, delimiter@);
        assert(found@.len() == listed.len());
        assert forall|i: int| 0 <= i < found@.len() implies #[trigger] found@[i]@ == listed[i] by {
            assert(views(found@)[i] == listed[i]);
        }
    }
    Ok(BuffResponse::new(found, candidate_message))
}

proof fn lemma_non_empty_push(list: Seq<Seq<char>>, part: Seq<char>)
    ensures
        non_empty(list.push(part)) == if part.len() > 0 {
            non_empty(list).push(part)
        } else {
            non_empty(list)
        },
{
    reveal(Seq::filter);
    assert(list.push(part).drop_last() =~= list);
}

/// An empty text has no message and leaves nothing unfinished.
pub proof fn lemma_empty_text(delimiter: Seq<char>)
    ensures
        messages(Seq::empty(), delimiter) == Seq::<Seq<char>>::empty(),
        unfinished(Seq::empty(), delimiter) == Seq::<char>::empty(),
{
    let nothing = Seq::<char>::empty();
    if delimiter.len() == 0 {
        lemma_empty_delimiter(nothing, delimiter);
        assert(messages(nothing, delimiter) =~= Seq::<Seq<char>>::empty());
    } else {
        lemma_parts_without_match(nothing, delimiter);
        assert(parts(nothing, delimiter).drop_last() =~= Seq::<Seq<char>>::empty());
        reveal(Seq::filter);
        assert(messages(nothing, delimiter) =~= Seq::<Seq<char>>::empty());
    }
}

/// There is always a part: what is behind the last delimiter.
pub proof fn lemma_parts_not_empty(text: Seq<char>, delimiter: Seq<char>)
    ensures
        parts(text, delimiter).len() > 0,
{
}

/// The first match of a text is the first match of the text with more behind it.
proof fn lemma_first_match_extends(text: Seq<char>, more: Seq<char>, delimiter: Seq<char>, i: int)
    requires
        first_match(text, delimiter, i),
    ensures
        first_match(text + more, delimiter, i),
{
    let all = text + more;
    assert(all.subrange(i, i + delimiter.len()) =~= text.subrange(i, i + delimiter.len()));
    assert forall|j: int| j < i implies !matches_at(all, delimiter, j) by {
        if matches_at(all, delimiter, j) {
            assert(text.subrange(j, j + delimiter.len()) =~= all.subrange(j, j + delimiter.len()));
            assert(matches_at(text, delimiter, j));
        }
    }
}

/// Splitting a text that arrives in two pieces: the finished parts of the first piece
/// come first, then the parts of its unfinished rest with the second piece behind it.
proof fn lemma_parts_of_two_pieces(first: Seq<char>, second: Seq<char>, delimiter: Seq<char>)
    requires
        delimiter.len() > 0,
    ensures
        parts(first + second, delimiter) == parts(first, delimiter).drop_last() + parts(
            unfinished(first, delimiter) + second,
            delimiter,
        ),
    decreases first.len(),
{
    if has_match(first, delimiter) {
        let i = choose|i: int| first_match(first, delimiter, i);
        lemma_first_match_extends(first, second, delimiter, i);
        lemma_parts_at_match(first + second, delimiter, i);
        let rest = first.skip(i + delimiter.len());
        assert((first + second).take(i) =~= first.take(i));
        assert((first + second).skip(i + delimiter.len()) =~= rest + second);
        lemma_parts_of_two_pieces(rest, second, delimiter);
        lemma_parts_not_empty(rest, delimiter);
        assert(parts(first, delimiter).drop_last() =~= seq![first.take(i)] + parts(
            rest,
            delimiter,
        ).drop_last());
        assert(parts(first + second, delimiter) =~= parts(first, delimiter).drop_last() + parts(
            unfinished(first, delimiter) + second,
            delimiter,
        ));
    } else {
        assert(parts(first, delimiter).drop_last() =~= Seq::<Seq<char>>::empty());
        assert(parts(first + second, delimiter) =~= parts(first, delimiter).drop_last() + parts(
            unfinished(first, delimiter) + second,
            delimiter,
        ));
    }
}

proof fn lemma_non_empty_concat(a: Seq<Seq<char>>, b: Seq<Seq<char>>)
    ensures
        non_empty(a + b) == non_empty(a) + non_empty(b),
    decreases b.len(),
{
    if b.len() == 0 {
        assert(a + b =~= a);
        reveal(Seq::filter);
        assert(non_empty(b) =~= Seq::<Seq<char>>::empty());
        assert(non_empty(a) + non_empty(b) =~= non_empty(a));
    } else {
        lemma_non_empty_concat(a, b.drop_last());
        assert(a + b =~= (a + b.drop_last()).push(b.last()));
        assert(b =~= b.drop_last().push(b.last()));
        lemma_non_empty_push(a + b.drop_last(), b.last());
        lemma_non_empty_push(b.drop_last(), b.last());
        assert(non_empty(a + b) =~= non_empty(a) + non_empty(b));
    }
}

/// The messages around an empty delimiter are the single characters.
proof fn lemma_empty_delimiter(text: Seq<char>, delimiter: Seq<char>)
    requires
        delimiter.len() == 0,
    ensures
        messages(text, delimiter) == text.map_values(|c: char| seq![c]),
        unfinished(text, delimiter) == Seq::<char>::empty(),
    decreases text.len(),
{
    let f = |c: char| seq![c];
    let nothing = seq![Seq::<char>::empty()];
    assert(parts(text, delimiter).drop_last() =~= nothing + text.map_values(f));
    lemma_non_empty_concat(nothing, text.map_values(f));
    assert(nothing =~= Seq::<Seq<char>>::empty().push(Seq::<char>::empty()));
    lemma_non_empty_push(Seq::empty(), Seq::<char>::empty());
    reveal(Seq::filter);
    assert(non_empty(nothing) =~= Seq::<Seq<char>>::empty());
    lemma_singles_not_empty(text);
    assert(messages(text, delimiter) =~= text.map_values(f));
}

proof fn lemma_singles_not_empty(text: Seq<char>)
    ensures
        non_empty(text.map_values(|c: char| seq![c])) == text.map_values(|c: char| seq![c]),
    decreases text.len(),
{
    let f = |c: char| seq![c];
    if text.len() == 0 {
        reveal(Seq::filter);
        assert(non_empty(text.map_values(f)) =~= text.map_values(f));
    } else {
        lemma_singles_not_empty(text.drop_last());
        assert(text.map_values(f) =~= text.drop_last().map_values(f).push(seq![text.last()]));
        lemma_non_empty_push(text.drop_last().map_values(f), seq![text.last()]);
    }
}

/// Where a text is cut into pieces does not matter: its messages are those of the first
/// piece and then those of the unfinished rest with the second piece behind it, and the
/// same text stays unfinished.
pub proof fn law_split_text(first: Seq<char>, second: Seq<char>, delimiter: Seq<char>)
    ensures
        messages(first + second, delimiter) == messages(first, delimiter) + messages(
            unfinished(first, delimiter) + second,
            delimiter,
        ),
        unfinished(first + second, delimiter) == unfinished(
            unfinished(first, delimiter) + second,
            delimiter,
        ),
{
    let rest = unfinished(first, delimiter);
    if delimiter.len() == 0 {
        let f = |c: char| seq![c];
        lemma_empty_delimiter(first, delimiter);
        lemma_empty_delimiter(first + second, delimiter);
        assert(rest + second =~= second);
        lemma_empty_delimiter(second, delimiter);
        assert((first + second).map_values(f) =~= first.map_values(f) + second.map_values(f));
    } else {
        lemma_parts_of_two_pieces(first, second, delimiter);
        lemma_parts_not_empty(rest + second, delimiter);
        assert(parts(first + second, delimiter).drop_last() =~= parts(first, delimiter).drop_last()
            + parts(rest + second, delimiter).drop_last());
        lemma_non_empty_concat(
            parts(first, delimiter).drop_last(),
            parts(rest + second, delimiter).drop_last(),
        );
    }
}

/// The parts with the delimiter put back between them.
pub open spec fn joined(list: Seq<Seq<char>>, delimiter: Seq<char>) -> Seq<char>
    decreases list.len(),
{
    if list.len() == 0 {
        Seq::empty()
    } else if list.len() == 1 {
        list[0]
    } else {
        list[0] + delimiter + joined(list.drop_first(), delimiter)
    }
}

proof fn lemma_join_singles(text: Seq<char>, delimiter: Seq<char>)
    requires
        delimiter.len() == 0,
    ensures
        joined(
            text.map_values(|c: char| seq![c]) + seq![Seq::<char>::empty()],
            delimiter,
        ) == text,
    decreases text.len(),
{
    let f = |c: char| seq![c];
    let list = text.map_values(f) + seq![Seq::<char>::empty()];
    if text.len() == 0 {
        assert(list[0] =~= text);
    } else {
        lemma_join_singles(text.drop_first(), delimiter);
        assert(list.drop_first() =~= text.drop_first().map_values(f) + seq![Seq::<char>::empty()]);
        assert(seq![text[0]] + delimiter + text.drop_first() =~= text);
    }
}

/// Splitting loses nothing: the parts with the delimiter put back are the text.
pub proof fn law_join_parts(text: Seq<char>, delimiter: Seq<char>)
    ensures
        joined(parts(text, delimiter), delimiter) == text,
    decreases text.len(),
{
    if delimiter.len() == 0 {
        let list = parts(text, delimiter);
        lemma_join_singles(text, delimiter);
        assert(list.drop_first() =~= text.map_values(|c: char| seq![c]) + seq![
            Seq::<char>::empty(),
        ]);
        assert(list[0] + delimiter + text =~= text);
    } else if has_match(text, delimiter) {
        let i = choose|i: int| first_match(text, delimiter, i);
        let rest = text.skip(i + delimiter.len());
        law_join_parts(rest, delimiter);
        lemma_parts_not_empty(rest, delimiter);
        assert(parts(text, delimiter).drop_first() =~= parts(rest, delimiter));
        assert(text =~= text.take(i) + text.subrange(i, i + delimiter.len()) + rest);
    }
}

/// No part holds the delimiter, the unfinished one included.
pub proof fn law_parts_hold_no_delimiter(text: Seq<char>, delimiter: Seq<char>, k: int)
    requires
        delimiter.len() > 0,
        0 <= k < parts(text, delimiter).len(),
    ensures
        forall|j: int| !matches_at(parts(text, delimiter)[k], delimiter, j),
    decreases text.len(),
{
    if has_match(text, delimiter) {
        let i = choose|i: int| first_match(text, delimiter, i);
        let rest = text.skip(i + delimiter.len());
        if k == 0 {
            let part = text.take(i);
            assert forall|j: int| !matches_at(part, delimiter, j) by {
                if matches_at(part, delimiter, j) {
                    assert(text.subrange(j, j + delimiter.len()) =~= part.subrange(
                        j,
                        j + delimiter.len(),
                    ));
                    assert(matches_at(text, delimiter, j));
                }
            }
        } else {
            assert(parts(text, delimiter)[k] == parts(rest, delimiter)[k - 1]);
            law_parts_hold_no_delimiter(rest, delimiter, k - 1);
        }
    } else {
        assert forall|j: int| !matches_at(text, delimiter, j) by {
            if matches_at(text, delimiter, j) {
                lemma_first_match_exists(text, delimiter, j);
            }
        }
    }
}

/// No message holds the delimiter.
pub proof fn law_messages_hold_no_delimiter(text: Seq<char>, delimiter: Seq<char>, k: int)
    requires
        delimiter.len() > 0,
        0 <= k < messages(text, delimiter).len(),
    ensures
        forall|j: int| !matches_at(messages(text, delimiter)[k], delimiter, j),
{
    let all = parts(text, delimiter);
    let i = lemma_from_list(all.drop_last(), k);
    law_parts_hold_no_delimiter(text, delimiter, i);
}

/// What is not empty stood in the list.
proof fn lemma_from_list(list: Seq<Seq<char>>, k: int) -> (i: int)
    requires
        0 <= k < non_empty(list).len(),
    ensures
        0 <= i < list.len(),
        non_empty(list)[k] == list[i],
    decreases list.len(),
{
    reveal(Seq::filter);
    if k < non_empty(list.drop_last()).len() {
        lemma_from_list(list.drop_last(), k)
    } else {
        list.len() - 1
    }
}

/// Where there is a match there is a first one.
proof fn lemma_first_match_exists(text: Seq<char>, delimiter: Seq<char>, j: int)
    requires
        matches_at(text, delimiter, j),
    ensures
        has_match(text, delimiter),
    decreases j,
{
    if exists|k: int| k < j && matches_at(text, delimiter, k) {
        let k = choose|k: int| k < j && matches_at(text, delimiter, k);
        lemma_first_match_exists(text, delimiter, k);
    } else {
        assert(first_match(text, delimiter, j));
    }
}

/// Texts that are each followed by the delimiter, with more text behind the last one, are
/// taken apart again: the parts are the texts and what is behind them, the messages are the
/// texts that are not empty, each as it is and in order, and what is behind them is
/// unfinished. The texts may hold anything but the delimiter, and it may not begin in one of
/// them and end in the delimiter that follows.
pub proof fn law_terminated_texts(texts: Seq<Seq<char>>, last: Seq<char>, delimiter: Seq<char>)
    requires
        delimiter.len() > 0,
        forall|k: int, j: int|
            0 <= k < texts.len() && 0 <= j < texts[k].len() ==> !delimiter.is_prefix_of(
                #[trigger] (texts[k] + delimiter).skip(j),
            ),
        forall|j: int|
            0 <= j <= last.len() ==> !delimiter.is_prefix_of(#[trigger] last.skip(j)),
    ensures
        ({
            let text = texts.map_values(|t: Seq<char>| t + delimiter).flatten() + last;
            &&& parts(text, delimiter) == texts.push(last)
            &&& messages(text, delimiter) == texts.filter(|t: Seq<char>| t.len() > 0)
            &&& unfinished(text, delimiter) == last
        }),
    decreases texts.len(),
{
    let f = |t: Seq<char>| t + delimiter;
    let n = delimiter.len() as int;
    let text = texts.map_values(f).flatten() + last;
    if texts.len() == 0 {
        assert(text =~= last);
        assert forall|i: int| !matches_at(last, delimiter, i) by {
            if matches_at(last, delimiter, i) {
                assert(last.skip(i).subrange(0, n) =~= last.subrange(i, i + n));
            }
        }
        lemma_parts_without_match(last, delimiter);
        assert(parts(text, delimiter) =~= texts.push(last));
    } else {
        let first = texts[0];
        let others = texts.drop_first();
        let at = first.len() as int;
        assert forall|k: int, j: int|
            0 <= k < others.len() && 0 <= j < others[k].len() implies !delimiter.is_prefix_of(
            #[trigger] (others[k] + delimiter).skip(j),
        ) by {
            assert(others[k] == texts[k + 1]);
        }
        law_terminated_texts(others, last, delimiter);
        let behind = others.map_values(f).flatten() + last;
        assert(texts.map_values(f).first() == first + delimiter);
        assert(texts.map_values(f).drop_first() =~= others.map_values(f));
        assert(text =~= (first + delimiter) + behind);
        assert(text.subrange(at, at + n) =~= delimiter);
        assert forall|j: int| j < at implies !matches_at(text, delimiter, j) by {
            if matches_at(text, delimiter, j) {
                let there = (texts[0] + delimiter).skip(j);
                assert(there.subrange(0, n) =~= text.subrange(j, j + n));
            }
        }
        assert(first_match(text, delimiter, at));
        lemma_parts_at_match(text, delimiter, at);
        assert(text.take(at) =~= first);
        assert(text.skip(at + n) =~= behind);
        assert(parts(text, delimiter) =~= texts.push(last));
    }
    assert(texts.push(last).drop_last() =~= texts);
}

/// Every text is made of its parts: each but the last one followed by the delimiter, which
/// begins nowhere earlier in it, and the last one without a delimiter in it.
pub proof fn law_text_of_parts(text: Seq<char>, delimiter: Seq<char>)
    requires
        delimiter.len() > 0,
    ensures
        ({
            let finished = parts(text, delimiter).drop_last();
            let last = unfinished(text, delimiter);
            &&& text == finished.map_values(|t: Seq<char>| t + delimiter).flatten() + last
            &&& forall|k: int, j: int|
                0 <= k < finished.len() && 0 <= j < finished[k].len() ==> !delimiter.is_prefix_of(
                    #[trigger] (finished[k] + delimiter).skip(j),
                )
            &&& forall|j: int|
                0 <= j <= last.len() ==> !delimiter.is_prefix_of(#[trigger] last.skip(j))
        }),
    decreases text.len(),
{
    let f = |t: Seq<char>| t + delimiter;
    let n = delimiter.len() as int;
    let finished = parts(text, delimiter).drop_last();
    let last = unfinished(text, delimiter);
    if has_match(text, delimiter) {
        let i = choose|i: int| first_match(text, delimiter, i);
        let front = text.take(i);
        let rest = text.skip(i + n);
        let others = parts(rest, delimiter).drop_last();
        law_text_of_parts(rest, delimiter);
        lemma_parts_at_match(text, delimiter, i);
        lemma_parts_not_empty(rest, delimiter);
        assert(finished.drop_first() =~= others);
        assert(finished.map_values(f).drop_first() =~= others.map_values(f));
        assert(finished.map_values(f).first() == front + delimiter);
        assert(text =~= (front + text.subrange(i, i + n)) + rest);
        assert(text =~= finished.map_values(f).flatten() + last);
        assert forall|k: int, j: int|
            0 <= k < finished.len() && 0 <= j < finished[k].len() implies !delimiter.is_prefix_of(
            #[trigger] (finished[k] + delimiter).skip(j),
        ) by {
            if k == 0 {
                let there = (front + delimiter).skip(j);
                if delimiter.is_prefix_of(there) {
                    assert(front + delimiter =~= text.take(i + n));
                    assert(there.subrange(0, n) =~= text.subrange(j, j + n));
                    assert(matches_at(text, delimiter, j));
                }
            } else {
                assert(finished[k] == others[k - 1]);
            }
        }
    } else {
        assert(finished =~= Seq::<Seq<char>>::empty());
        assert(text =~= finished.map_values(f).flatten() + last);
        assert forall|j: int| 0 <= j <= last.len() implies !delimiter.is_prefix_of(
            #[trigger] last.skip(j),
        ) by {
            if delimiter.is_prefix_of(last.skip(j)) {
                assert(last.skip(j).subrange(0, n) =~= text.subrange(j, j + n));
                lemma_first_match_exists(text, delimiter, j);
            }
        }
    }
}

/// Texts without the delimiter's first character, each followed by the delimiter, come out
/// again: none that is not empty is lost, whatever else it holds, and nothing is unfinished.
pub proof fn law_lines(texts: Seq<Seq<char>>, delimiter: Seq<char>)
    requires
        delimiter.len() > 0,
        forall|k: int| 0 <= k < texts.len() ==> !(#[trigger] texts[k]).contains(delimiter[0]),
    ensures
        ({
            let text = texts.map_values(|t: Seq<char>| t + delimiter).flatten();
            &&& messages(text, delimiter) == texts.filter(|t: Seq<char>| t.len() > 0)
            &&& (forall|k: int| 0 <= k < texts.len() ==> (#[trigger] texts[k]).len() > 0)
                ==> messages(text, delimiter) == texts
            &&& unfinished(text, delimiter).len() == 0
        }),
{
    let text = texts.map_values(|t: Seq<char>| t + delimiter).flatten();
    let last = Seq::<char>::empty();
    assert forall|k: int, j: int|
        0 <= k < texts.len() && 0 <= j < texts[k].len() implies !delimiter.is_prefix_of(
        #[trigger] (texts[k] + delimiter).skip(j),
    ) by {
        let there = (texts[k] + delimiter).skip(j);
        assert(there[0] == texts[k][j]);
        assert(texts[k].contains(texts[k][j]));
        if delimiter.is_prefix_of(there) {
            assert(there.subrange(0, delimiter.len() as int)[0] == there[0]);
        }
    }
    law_terminated_texts(texts, last, delimiter);
    assert(text + last =~= text);
    if forall|k: int| 0 <= k < texts.len() ==> (#[trigger] texts[k]).len() > 0 {
        lemma_none_empty(texts);
    }
}

proof fn lemma_none_empty(texts: Seq<Seq<char>>)
    requires
        forall|k: int| 0 <= k < texts.len() ==> (#[trigger] texts[k]).len() > 0,
    ensures
        texts.filter(|t: Seq<char>| t.len() > 0) == texts,
    decreases texts.len(),
{
    reveal(Seq::filter);
    if texts.len() > 0 {
        lemma_none_empty(texts.drop_last());
        assert(texts[texts.len() - 1].len() > 0);
        assert(texts =~= texts.drop_last().push(texts.last()));
    } else {
        assert(texts.filter(|t: Seq<char>| t.len() > 0) =~= texts);
    }
}

/// No part that a delimiter ends is lost, unless it is empty: it is a message.
pub proof fn law_no_part_lost(text: Seq<char>, delimiter: Seq<char>, k: int)
    requires
        0 <= k < parts(text, delimiter).len() - 1,
        parts(text, delimiter)[k].len() > 0,
    ensures
        messages(text, delimiter).contains(parts(text, delimiter)[k]),
{
    lemma_kept_in_list(parts(text, delimiter).drop_last(), k);
}

proof fn lemma_kept_in_list(list: Seq<Seq<char>>, k: int)
    requires
        0 <= k < list.len(),
        list[k].len() > 0,
    ensures
        non_empty(list).contains(list[k]),
    decreases list.len(),
{
    let front = list.drop_last();
    assert(list =~= front.push(list.last()));
    lemma_non_empty_push(front, list.last());
    if k < front.len() {
        lemma_kept_in_list(front, k);
        let i = choose|i: int|
            0 <= i < non_empty(front).len() && non_empty(front)[i] == front[k];
        assert(non_empty(list)[i] == list[k]);
    } else {
        assert(non_empty(list).last() == list[k]);
    }
}

/// Nothing is made up: every message is a part that a delimiter ends.
pub proof fn law_messages_are_parts(text: Seq<char>, delimiter: Seq<char>, k: int)
    requires
        0 <= k < messages(text, delimiter).len(),
    ensures
        exists|i: int|
            0 <= i < parts(text, delimiter).len() - 1 && #[trigger] parts(text, delimiter)[i]
                == messages(text, delimiter)[k],
{
    let i = lemma_from_list(parts(text, delimiter).drop_last(), k);
    assert(parts(text, delimiter)[i] == messages(text, delimiter)[k]);
}

/// A text that does not hold the delimiter completes no message and stays unfinished as it is.
pub proof fn law_no_delimiter(text: Seq<char>, delimiter: Seq<char>)
    requires
        delimiter.len() > 0,
        forall|j: int|
            0 <= j <= text.len() ==> !delimiter.is_prefix_of(#[trigger] text.skip(j)),
    ensures
        messages(text, delimiter).len() == 0,
        unfinished(text, delimiter) == text,
{
    let texts = Seq::<Seq<char>>::empty();
    let f = |t: Seq<char>| t + delimiter;
    law_terminated_texts(texts, text, delimiter);
    assert(texts.map_values(f).flatten() + text =~= text);
    reveal(Seq::filter);
}

/// With an empty delimiter each character is a message, and nothing is unfinished.
pub proof fn law_empty_delimiter(text: Seq<char>, delimiter: Seq<char>)
    requires
        delimiter.len() == 0,
    ensures
        messages(text, delimiter).len() == text.len(),
        forall|k: int|
            0 <= k < text.len() ==> #[trigger] messages(text, delimiter)[k] == seq![text[k]],
        unfinished(text, delimiter).len() == 0,
        parts(text, delimiter).len() == text.len() + 2,
        parts(text, delimiter)[0].len() == 0,
{
    lemma_empty_delimiter(text, delimiter);
}

/// No message is empty, however many delimiters follow one another.
pub proof fn law_no_empty_message(text: Seq<char>, delimiter: Seq<char>)
    ensures
        forall|k: int|
            0 <= k < messages(text, delimiter).len() ==> (#[trigger] messages(
                text,
                delimiter,
            )[k]).len() > 0,
{
    let list = parts(text, delimiter).drop_last();
    let keep = |part: Seq<char>| part.len() > 0;
    broadcast use vstd::seq_lib::group_filter_ensures;

    assert forall|k: int| 0 <= k < messages(text, delimiter).len() implies #[trigger] messages(
        text,
        delimiter,
    )[k].len() > 0 by {
        assert(keep(list.filter(keep)[k]));
    }
}

} // verus!
