//! The text of a JSON array as tokens, and what its blocks and messages are in terms of them.

use vstd::prelude::*;

use crate::json_array::{
    array_text, blocks, depth_at, filler, is_object, json_text, law_blocks_are_objects,
    law_messages_of_blocks, law_one_more_char, law_pretty_array, law_split_blocks,
    lemma_empty_text, lemma_messages_concat, lemma_push, messages, place_at, rest, Block, Place,
};

verus! {

/// A token of the text of an array.
pub enum Token {
    /// A character that begins and ends nothing.
    Plain(char),
    /// A string, as the units between its quotes.
    Text(Seq<Seq<char>>),
    /// `{`
    OpenBrace,
    /// `}`
    CloseBrace,
    /// `[`
    OpenBracket,
    /// `]`
    CloseBracket,
}

/// A unit of a string: one character that is neither a quote nor a backslash, or a backslash
/// and any character behind it.
pub open spec fn is_unit(unit: Seq<char>) -> bool {
    ||| unit.len() == 1 && unit[0] != '"' && unit[0] != '\\'
    ||| unit.len() == 2 && unit[0] == '\\'
}

/// Every unit is one.
pub open spec fn are_units(units: Seq<Seq<char>>) -> bool {
    forall|k: int| 0 <= k < units.len() ==> is_unit(#[trigger] units[k])
}

/// A plain character is no quote, brace or bracket, and a string is made of units.
pub open spec fn is_token(token: Token) -> bool {
    match token {
        Token::Plain(c) => c != '"' && c != '{' && c != '}' && c != '[' && c != ']',
        Token::Text(units) => are_units(units),
        _ => true,
    }
}

/// Every token is one.
pub open spec fn are_tokens(tokens: Seq<Token>) -> bool {
    forall|k: int| 0 <= k < tokens.len() ==> is_token(#[trigger] tokens[k])
}

/// The text of a token.
pub open spec fn token_text(token: Token) -> Seq<char> {
    match token {
        Token::Plain(c) => seq![c],
        Token::Text(units) => seq!['"'] + units.flatten() + seq!['"'],
        Token::OpenBrace => seq!['{'],
        Token::CloseBrace => seq!['}'],
        Token::OpenBracket => seq!['['],
        Token::CloseBracket => seq![']'],
    }
}

/// The text of tokens.
pub open spec fn tokens_text(tokens: Seq<Token>) -> Seq<char>
    decreases tokens.len(),
{
    if tokens.len() == 0 {
        Seq::empty()
    } else {
        tokens_text(tokens.drop_last()) + token_text(tokens.last())
    }
}

/// How many more opening than closing braces there are.
pub open spec fn level(tokens: Seq<Token>) -> int
    decreases tokens.len(),
{
    if tokens.len() == 0 {
        0
    } else {
        level(tokens.drop_last()) + match tokens.last() {
            Token::OpenBrace => 1int,
            Token::CloseBrace => -1,
            _ => 0,
        }
    }
}

/// The braces among the tokens match.
pub open spec fn balanced(tokens: Seq<Token>) -> bool {
    &&& level(tokens) == 0
    &&& forall|k: int| 0 <= k <= tokens.len() ==> level(#[trigger] tokens.take(k)) >= 0
}

/// The tokens in braces.
pub open spec fn braced(inner: Seq<Token>) -> Seq<char> {
    seq!['{'] + tokens_text(inner) + seq!['}']
}

/// Nothing of the blocks changes with one more character in a string, or with a quote or a
/// character that begins and ends nothing.
proof fn lemma_quiet_char(text: Seq<char>, c: char)
    requires
        place_at(text, text.len() as int) !is Bare || (c != '{' && c != '}' && c != '[' && c
            != ']'),
    ensures
        ({
            let n = text.len() as int;
            let after = text.push(c);
            &&& depth_at(after, n + 1) == depth_at(text, n)
            &&& forall|i: int| 0 <= i <= n ==> #[trigger] depth_at(after, i) == depth_at(text, i)
            &&& blocks(after) == blocks(text)
            &&& rest(after) == rest(text).push(c)
            &&& place_at(after, n + 1) == match place_at(text, n) {
                Place::Bare => if c == '"' {
                    Place::Quoted
                } else {
                    Place::Bare
                },
                Place::Quoted => if c == '\\' {
                    Place::Escaped
                } else if c == '"' {
                    Place::Bare
                } else {
                    Place::Quoted
                },
                Place::Escaped => Place::Quoted,
            }
        }),
{
    lemma_push(text, c);
    law_one_more_char(text, c);
}

/// The units of a string stay inside of it.
proof fn lemma_units(text: Seq<char>, units: Seq<Seq<char>>)
    requires
        place_at(text, text.len() as int) is Quoted,
        are_units(units),
    ensures
        ({
            let after = text + units.flatten();
            &&& place_at(after, after.len() as int) is Quoted
            &&& depth_at(after, after.len() as int) == depth_at(text, text.len() as int)
            &&& forall|i: int|
                text.len() <= i <= after.len() ==> #[trigger] depth_at(after, i) == depth_at(
                    text,
                    text.len() as int,
                )
            &&& forall|i: int|
                0 <= i <= text.len() ==> #[trigger] depth_at(after, i) == depth_at(text, i)
            &&& blocks(after) == blocks(text)
            &&& rest(after) == rest(text) + units.flatten()
        }),
    decreases units.len(),
{
    let after = text + units.flatten();
    if units.len() == 0 {
        assert(units.flatten() =~= Seq::<char>::empty());
        assert(after =~= text);
        assert(rest(text) + units.flatten() =~= rest(text));
    } else {
        let front = units.drop_last();
        let unit = units.last();
        lemma_units(text, front);
        assert(units =~= front.push(unit));
        front.lemma_flatten_push(unit);
        assert(is_unit(units[units.len() - 1]));
        let before = text + front.flatten();
        lemma_quiet_char(before, unit[0]);
        let one = before.push(unit[0]);
        if unit.len() == 1 {
            assert(after =~= one);
            assert(rest(before).push(unit[0]) =~= rest(text) + units.flatten());
        } else {
            lemma_quiet_char(one, unit[1]);
            assert(after =~= one.push(unit[1]));
            assert(rest(before).push(unit[0]).push(unit[1]) =~= rest(text) + units.flatten());
        }
    }
}

/// A string, in which anything may stand, adds no block and changes no depth.
proof fn lemma_string(text: Seq<char>, units: Seq<Seq<char>>)
    requires
        place_at(text, text.len() as int) is Bare,
        are_units(units),
    ensures
        ({
            let after = text + token_text(Token::Text(units));
            &&& place_at(after, after.len() as int) is Bare
            &&& depth_at(after, after.len() as int) == depth_at(text, text.len() as int)
            &&& forall|i: int|
                text.len() <= i <= after.len() ==> #[trigger] depth_at(after, i) == depth_at(
                    text,
                    text.len() as int,
                )
            &&& forall|i: int|
                0 <= i <= text.len() ==> #[trigger] depth_at(after, i) == depth_at(text, i)
            &&& blocks(after) == blocks(text)
            &&& rest(after) == rest(text) + token_text(Token::Text(units))
        }),
{
    lemma_quiet_char(text, '"');
    let begun = text.push('"');
    lemma_units(begun, units);
    let inside = begun + units.flatten();
    lemma_quiet_char(inside, '"');
    assert(inside.push('"') =~= text + token_text(Token::Text(units)));
    assert((rest(text).push('"') + units.flatten()).push('"') =~= rest(text) + token_text(
        Token::Text(units),
    ));
}

/// Behind tokens the text is outside of strings, and its depth is the tokens' level.
pub proof fn law_tokens(tokens: Seq<Token>)
    requires
        are_tokens(tokens),
    ensures
        place_at(tokens_text(tokens), tokens_text(tokens).len() as int) is Bare,
        depth_at(tokens_text(tokens), tokens_text(tokens).len() as int) == level(tokens),
    decreases tokens.len(),
{
    if tokens.len() > 0 {
        let before = tokens_text(tokens.drop_last());
        law_tokens(tokens.drop_last());
        assert(is_token(tokens[tokens.len() - 1]));
        match tokens.last() {
            Token::Text(units) => lemma_string(before, units),
            _ => {
                let c = token_text(tokens.last())[0];
                lemma_push(before, c);
                assert(tokens_text(tokens) =~= before.push(c));
            },
        }
    }
}

/// What one more token does to the blocks of a text. A bracket where the braces match is a
/// block. The `}` that matches the last open `{` ends one. Behind a block nothing is left. Any
/// other token, a string with whatever is in it among them, adds no block and is left with
/// what was left.
pub proof fn law_one_more_token(tokens: Seq<Token>, token: Token)
    requires
        are_tokens(tokens),
        is_token(token),
    ensures
        ({
            let before = tokens_text(tokens);
            let after = before + token_text(token);
            if token is OpenBracket && level(tokens) == 0 {
                &&& blocks(after) == blocks(before).push(Block::OpenArray)
                &&& rest(after).len() == 0
            } else if token is CloseBracket && level(tokens) == 0 {
                &&& blocks(after) == blocks(before).push(Block::CloseArray)
                &&& rest(after).len() == 0
            } else if token is CloseBrace && level(tokens) == 1 {
                &&& blocks(after).len() == blocks(before).len() + 1
                &&& blocks(after).drop_last() == blocks(before)
                &&& blocks(after).last() is Object
                &&& rest(after).len() == 0
            } else {
                &&& blocks(after) == blocks(before)
                &&& rest(after) == rest(before) + token_text(token)
            }
        }),
{
    let before = tokens_text(tokens);
    let after = before + token_text(token);
    law_tokens(tokens);
    match token {
        Token::Text(units) => lemma_string(before, units),
        _ => {
            let c = token_text(token)[0];
            assert(after =~= before.push(c));
            law_one_more_char(before, c);
            assert(rest(before).push(c) =~= rest(before) + token_text(token));
            if token is CloseBrace && level(tokens) == 1 {
                assert(blocks(after).drop_last() =~= blocks(before));
            }
        },
    }
}

/// Tokens whose level does not fall below 0 do not fall below the depth that they begin at.
proof fn lemma_above(before: Seq<char>, tokens: Seq<Token>)
    requires
        place_at(before, before.len() as int) is Bare,
        are_tokens(tokens),
        forall|k: int| 0 <= k <= tokens.len() ==> level(#[trigger] tokens.take(k)) >= 0,
    ensures
        ({
            let after = before + tokens_text(tokens);
            let floor = depth_at(before, before.len() as int);
            &&& place_at(after, after.len() as int) is Bare
            &&& depth_at(after, after.len() as int) == floor + level(tokens)
            &&& forall|i: int|
                before.len() <= i <= after.len() ==> #[trigger] depth_at(after, i) >= floor
            &&& forall|i: int|
                0 <= i <= before.len() ==> #[trigger] depth_at(after, i) == depth_at(before, i)
            &&& floor >= 1 ==> blocks(after) == blocks(before) && rest(after) == rest(before)
                + tokens_text(tokens)
        }),
    decreases tokens.len(),
{
    let after = before + tokens_text(tokens);
    let floor = depth_at(before, before.len() as int);
    if tokens.len() == 0 {
        assert(after =~= before);
        assert(rest(before) + tokens_text(tokens) =~= rest(before));
    } else {
        let front = tokens.drop_last();
        let token = tokens.last();
        assert forall|k: int| 0 <= k <= front.len() implies level(#[trigger] front.take(k)) >= 0 by {
            assert(front.take(k) =~= tokens.take(k));
        }
        assert(tokens.take(tokens.len() as int) =~= tokens);
        assert(front.take(front.len() as int) =~= front);
        assert(level(front) >= 0);
        lemma_above(before, front);
        assert(is_token(tokens[tokens.len() - 1]));
        let mid = before + tokens_text(front);
        assert(after =~= mid + token_text(token));
        match token {
            Token::Text(units) => {
                lemma_string(mid, units);
                assert forall|i: int| before.len() <= i <= after.len() implies #[trigger] depth_at(
                    after,
                    i,
                ) >= floor by {
                    if i <= mid.len() {
                        assert(depth_at(after, i) == depth_at(mid, i));
                    }
                }
            },
            _ => {
                let c = token_text(token)[0];
                assert(after =~= mid.push(c));
                lemma_push(mid, c);
                law_one_more_char(mid, c);
            },
        }
        assert(rest(before) + tokens_text(front) + token_text(token) =~= rest(before)
            + tokens_text(tokens));
        assert forall|i: int| 0 <= i <= before.len() implies #[trigger] depth_at(after, i)
            == depth_at(before, i) by {
            assert(depth_at(after, i) == depth_at(mid, i));
        }
    }
}

/// An object in a text whose braces match in front of it. Whatever stands in the object, it is
/// one block, as it stands there, and nothing is left behind it. It is one message where it is
/// JSON, and none where it is not. What comes behind it is taken as by itself.
pub proof fn law_object(before: Seq<Token>, inner: Seq<Token>, behind: Seq<char>)
    requires
        are_tokens(before),
        level(before) == 0,
        are_tokens(inner),
        balanced(inner),
    ensures
        ({
            let front = tokens_text(before);
            let object = braced(inner);
            &&& blocks(front + object) == blocks(front).push(Block::Object(object))
            &&& rest(front + object).len() == 0
            &&& blocks(front + object + behind) == blocks(front).push(Block::Object(object))
                + blocks(behind)
            &&& rest(front + object + behind) == rest(behind)
            &&& messages(front + object + behind) == messages(front) + (if json_text(object) {
                seq![object]
            } else {
                Seq::empty()
            }) + messages(behind)
        }),
{
    let front = tokens_text(before);
    let object = braced(inner);
    let p = front.len() as int;
    law_tokens(before);
    lemma_push(front, '{');
    let begun = front.push('{');
    lemma_above(begun, inner);
    law_one_more_char(front, '{');
    let inside = begun + tokens_text(inner);
    law_one_more_char(inside, '}');
    let whole = front + object;
    let n = inside.len() as int;
    assert(inside.push('}') =~= whole);
    assert(blocks(inside) == blocks(front));
    let s = choose|s: int|
        {
            &&& 0 <= s < n
            &&& inside[s] == '{'
            &&& place_at(inside, s) is Bare
            &&& depth_at(inside, s) == 0
            &&& forall|j: int| s < j <= n ==> #[trigger] depth_at(inside, j) >= 1
            &&& blocks(whole) == blocks(inside).push(
                Block::Object(#[trigger] inside.skip(s) + seq!['}']),
            )
        };
    assert(depth_at(inside, p) == depth_at(begun, p));
    assert(depth_at(inside, p) == 0);
    assert(s == p);
    assert(inside.skip(p) + seq!['}'] =~= object);
    law_split_blocks(whole, behind);
    assert(rest(whole) + behind =~= behind);
    lemma_messages_concat(whole + behind, whole, behind);
    lemma_message_of(front, whole, object);
}

/// One more object is one more message where it is JSON.
proof fn lemma_message_of(front: Seq<char>, whole: Seq<char>, object: Seq<char>)
    requires
        blocks(whole) == blocks(front).push(Block::Object(object)),
    ensures
        messages(whole) == messages(front) + (if json_text(object) {
            seq![object]
        } else {
            Seq::empty()
        }),
{
    let keep = |block: Block<Seq<char>>|
        block matches Block::Object(object) ==> json_text(object);
    let show = |block: Block<Seq<char>>|
        match block {
            Block::OpenArray => seq!['['],
            Block::CloseArray => seq![']'],
            Block::Object(object) => object,
        };
    law_messages_of_blocks(front);
    law_messages_of_blocks(whole);
    reveal(Seq::filter);
    assert(blocks(whole).drop_last() =~= blocks(front));
    let kept = blocks(front).filter(keep);
    if json_text(object) {
        assert(kept.push(Block::Object(object)).map_values(show) =~= kept.map_values(show).push(
            object,
        ));
    }
    assert(messages(whole) =~= messages(front) + (if json_text(object) {
        seq![object]
    } else {
        Seq::empty()
    }));
}

/// Tokens in braces that match are one object: the text's only block, with nothing left, and
/// its only message where it is JSON.
pub proof fn law_braced(inner: Seq<Token>)
    requires
        are_tokens(inner),
        balanced(inner),
    ensures
        is_object(braced(inner)),
        blocks(braced(inner)) == seq![Block::Object(braced(inner))],
        rest(braced(inner)).len() == 0,
        messages(braced(inner)) == if json_text(braced(inner)) {
            seq![braced(inner)]
        } else {
            Seq::empty()
        },
{
    let nothing = Seq::<char>::empty();
    let object = braced(inner);
    let n = object.len() as int;
    law_object(Seq::empty(), inner, nothing);
    assert(nothing + object =~= object);
    assert(object + nothing =~= object);
    assert(tokens_text(Seq::empty()) =~= nothing);
    lemma_empty_text();
    assert(blocks(object) =~= seq![Block::Object(object)]);
    assert(messages(object) =~= if json_text(object) {
        seq![object]
    } else {
        Seq::empty()
    });
    law_blocks_are_objects(object, 0);
}

/// A string may hold anything: an object with one member whose key and value are strings is
/// one object, whatever is in them, and one message where it is JSON.
pub proof fn law_string_member(key: Seq<Seq<char>>, value: Seq<Seq<char>>)
    requires
        are_units(key),
        are_units(value),
    ensures
        ({
            let text = seq!['{', '"'] + key.flatten() + seq!['"', ':', '"'] + value.flatten()
                + seq!['"', '}'];
            &&& is_object(text)
            &&& blocks(text) == seq![Block::Object(text)]
            &&& rest(text).len() == 0
            &&& json_text(text) ==> messages(text) == seq![text]
            &&& !json_text(text) ==> messages(text).len() == 0
        }),
{
    let inner = seq![Token::Text(key), Token::Plain(':'), Token::Text(value)];
    let text = seq!['{', '"'] + key.flatten() + seq!['"', ':', '"'] + value.flatten()
        + seq!['"', '}'];
    let one = inner.drop_last();
    let two = one.drop_last();
    let three = two.drop_last();
    reveal_with_fuel(level, 4);
    reveal_with_fuel(tokens_text, 4);
    assert(three =~= Seq::<Token>::empty());
    assert(inner.last() == inner[2] && one.last() == inner[1] && two.last() == inner[0]);
    assert(level(three) == 0 && level(two) == 0 && level(one) == 0 && level(inner) == 0);
    assert forall|k: int| 0 <= k <= inner.len() implies level(#[trigger] inner.take(k)) >= 0 by {
        assert(inner.take(3) =~= inner);
        assert(inner.take(2) =~= one);
        assert(inner.take(1) =~= two);
        assert(inner.take(0) =~= three);
    }
    law_braced(inner);
    assert(tokens_text(inner) =~= token_text(inner[0]) + token_text(inner[1]) + token_text(
        inner[2],
    ));
    assert(braced(inner) =~= text);
}

/// A bracket where the braces match is a message by itself, and what comes behind it is taken
/// as by itself.
pub proof fn law_bracket(before: Seq<Token>, c: char, behind: Seq<char>)
    requires
        are_tokens(before),
        level(before) == 0,
        c == '[' || c == ']',
    ensures
        ({
            let front = tokens_text(before);
            let text = front + seq![c] + behind;
            &&& messages(text) == messages(front) + seq![seq![c]] + messages(behind)
            &&& rest(text) == rest(behind)
        }),
{
    let front = tokens_text(before);
    let whole = front + seq![c];
    let bracket = if c == '[' {
        Token::OpenBracket
    } else {
        Token::CloseBracket
    };
    law_one_more_token(before, bracket);
    assert(whole =~= front + token_text(bracket));
    law_split_blocks(whole, behind);
    assert(rest(whole) + behind =~= behind);
    lemma_messages_concat(whole + behind, whole, behind);
    let block = blocks(whole).last();
    let keep = |block: Block<Seq<char>>|
        block matches Block::Object(object) ==> json_text(object);
    let show = |block: Block<Seq<char>>|
        match block {
            Block::OpenArray => seq!['['],
            Block::CloseArray => seq![']'],
            Block::Object(object) => object,
        };
    law_messages_of_blocks(front);
    law_messages_of_blocks(whole);
    reveal(Seq::filter);
    assert(blocks(whole).drop_last() =~= blocks(front));
    let kept = blocks(front).filter(keep);
    assert(kept.push(block).map_values(show) =~= kept.map_values(show).push(seq![c]));
    assert(messages(whole) =~= messages(front) + seq![seq![c]]);
}

/// An object that is not closed yet completes no message, and all of it is left.
pub proof fn law_unclosed_object(before: Seq<Token>, inner: Seq<Token>)
    requires
        are_tokens(before),
        level(before) == 0,
        are_tokens(inner),
        forall|k: int| 0 <= k <= inner.len() ==> level(#[trigger] inner.take(k)) >= 0,
    ensures
        ({
            let front = tokens_text(before);
            let text = front + seq!['{'] + tokens_text(inner);
            &&& blocks(text) == blocks(front)
            &&& messages(text) == messages(front)
            &&& rest(text) == rest(front) + seq!['{'] + tokens_text(inner)
        }),
{
    let front = tokens_text(before);
    law_one_more_token(before, Token::OpenBrace);
    law_tokens(before);
    lemma_push(front, '{');
    assert(front.push('{') =~= front + seq!['{']);
    lemma_above(front + seq!['{'], inner);
}

/// A string that is not closed yet completes no message, whatever is in it, and all of it is
/// left. It may end behind a backslash.
pub proof fn law_unclosed_string(before: Seq<Token>, units: Seq<Seq<char>>, escaped: bool)
    requires
        are_tokens(before),
        are_units(units),
    ensures
        ({
            let front = tokens_text(before);
            let tail = seq!['"'] + units.flatten() + (if escaped {
                seq!['\\']
            } else {
                Seq::empty()
            });
            &&& blocks(front + tail) == blocks(front)
            &&& messages(front + tail) == messages(front)
            &&& rest(front + tail) == rest(front) + tail
        }),
{
    let front = tokens_text(before);
    let tail = seq!['"'] + units.flatten() + (if escaped {
        seq!['\\']
    } else {
        Seq::empty()
    });
    law_tokens(before);
    lemma_quiet_char(front, '"');
    let begun = front.push('"');
    lemma_units(begun, units);
    let inside = begun + units.flatten();
    if escaped {
        lemma_quiet_char(inside, '\\');
        assert(inside.push('\\') =~= front + tail);
        assert((rest(front).push('"') + units.flatten()).push('\\') =~= rest(front) + tail);
    } else {
        assert(inside =~= front + tail);
        assert(rest(front).push('"') + units.flatten() =~= rest(front) + tail);
    }
}

/// A token behind others puts its text behind theirs.
proof fn lemma_token_behind(tokens: Seq<Token>, token: Token)
    requires
        are_tokens(tokens),
        is_token(token),
    ensures
        are_tokens(tokens.push(token)),
        tokens_text(tokens.push(token)) == tokens_text(tokens) + token_text(token),
{
    assert(tokens.push(token).drop_last() =~= tokens);
}

/// Every text is made of tokens, and of a string behind them that is not closed, where there
/// is one. Its units are given with it, and whether a backslash comes last.
pub proof fn law_every_text(text: Seq<char>) -> (res: (
    Seq<Token>,
    Option<(Seq<Seq<char>>, bool)>,
))
    ensures
        are_tokens(res.0),
        res.1 is None ==> text == tokens_text(res.0),
        res.1 matches Some((units, escaped)) ==> {
            &&& are_units(units)
            &&& text == tokens_text(res.0) + (seq!['"'] + units.flatten() + (if escaped {
                seq!['\\']
            } else {
                Seq::empty()
            }))
        },
    decreases text.len(),
{
    if text.len() == 0 {
        assert(text =~= tokens_text(Seq::empty()));
        (Seq::empty(), None)
    } else {
        let (tokens, open) = law_every_text(text.drop_last());
        let c = text.last();
        let front = tokens_text(tokens);
        assert(text =~= text.drop_last().push(c));
        match open {
            None => if c == '"' {
                let units = Seq::<Seq<char>>::empty();
                assert(text =~= front + (seq!['"'] + units.flatten() + Seq::<char>::empty()));
                (tokens, Some((units, false)))
            } else {
                let token = if c == '{' {
                    Token::OpenBrace
                } else if c == '}' {
                    Token::CloseBrace
                } else if c == '[' {
                    Token::OpenBracket
                } else if c == ']' {
                    Token::CloseBracket
                } else {
                    Token::Plain(c)
                };
                lemma_token_behind(tokens, token);
                assert(text =~= tokens_text(tokens.push(token)));
                (tokens.push(token), None)
            },
            Some((units, escaped)) => if escaped {
                let unit = seq!['\\', c];
                units.lemma_flatten_push(unit);
                assert(text =~= front + (seq!['"'] + units.push(unit).flatten() + Seq::<
                    char,
                >::empty()));
                (tokens, Some((units.push(unit), false)))
            } else if c == '\\' {
                assert(text =~= front + (seq!['"'] + units.flatten() + seq!['\\']));
                (tokens, Some((units, true)))
            } else if c == '"' {
                let token = Token::Text(units);
                lemma_token_behind(tokens, token);
                assert(text =~= tokens_text(tokens.push(token)));
                (tokens.push(token), None)
            } else {
                let unit = seq![c];
                units.lemma_flatten_push(unit);
                assert(text =~= front + (seq!['"'] + units.push(unit).flatten() + Seq::<
                    char,
                >::empty()));
                (tokens, Some((units.push(unit), false)))
            },
        }
    }
}

/// An array of objects, however it is printed and whatever is in the objects, gives `[`, each
/// object that is JSON, as it stands there and in order, and `]`. Nothing but what is behind
/// the array is left.
pub proof fn law_array_of_objects(
    before: Seq<char>,
    inners: Seq<Seq<Token>>,
    fills: Seq<Seq<char>>,
    after: Seq<char>,
)
    requires
        filler(before),
        filler(after),
        fills.len() == inners.len() + 1,
        forall|i: int| 0 <= i < fills.len() ==> filler(#[trigger] fills[i]),
        forall|i: int|
            0 <= i < inners.len() ==> are_tokens(#[trigger] inners[i]) && balanced(inners[i]),
    ensures
        ({
            let objects = inners.map_values(|inner: Seq<Token>| braced(inner));
            let text = array_text(before, objects, fills, after);
            &&& messages(text) == seq![seq!['[']] + objects.filter(
                |object: Seq<char>| json_text(object),
            ) + seq![seq![']']]
            &&& rest(text) == after
        }),
{
    let objects = inners.map_values(|inner: Seq<Token>| braced(inner));
    assert forall|i: int| 0 <= i < objects.len() implies is_object(#[trigger] objects[i]) by {
        assert(are_tokens(inners[i]));
        law_braced(inners[i]);
    }
    law_pretty_array(before, objects, fills, after);
}

} // verus!
