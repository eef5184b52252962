//! Messages that are the items of a JSON array.

use vstd::prelude::*;

use crate::error::Error;
use crate::response::{response, BuffResponse};
use crate::text::{
    blank, byte_len, char_width, chars_of, continue_text, continued, cut, is_blank,
    lemma_byte_len_prefix, lemma_byte_len_step, opt_view, views, white_space,
};

verus! {

/// Where in the text a character stands.
#[derive(Clone, Copy, Debug, PartialEq, Eq, Structural)]
pub enum Place {
    /// Not in a string.
    Bare,
    /// In a string.
    Quoted,
    /// In a string, behind a backslash.
    Escaped,
}

/// A block of the text: a bracket of the array, or an object in it.
#[derive(Debug)]
pub enum Block<T> {
    /// `[`
    OpenArray,
    /// `]`
    CloseArray,
    /// From `{` to the `}` that matches it.
    Object(T),
}

/// The blocks of a text, and what is behind the last one.
#[derive(Debug)]
pub struct Scan {
    pub blocks: Vec<Block<String>>,
    pub rest: String,
}

/// The place behind `c`, which stands at `place`.
pub open spec fn behind(place: Place, c: char) -> Place {
    match place {
        Place::Bare => if c == '"' {
            Place::Quoted
        } else {
            Place::Bare
        },
        Place::Quoted => if c == '\\' {
            Place::Escaped
        } else if c == '"' {
            Place::Bare
        } else {
            Place::Quoted
        },
        Place::Escaped => Place::Quoted,
    }
}

/// The place of index `i`.
pub open spec fn place_at(text: Seq<char>, i: int) -> Place
    decreases i,
{
    if i <= 0 {
        Place::Bare
    } else {
        behind(place_at(text, i - 1), text[i - 1])
    }
}

/// `c` stands at index `i`, not in a string.
pub open spec fn bare_at(text: Seq<char>, i: int, c: char) -> bool {
    place_at(text, i) == Place::Bare && text[i] == c
}

/// How many more `{` than `}` are in front of index `i`, strings aside.
pub open spec fn depth_at(text: Seq<char>, i: int) -> int
    decreases i,
{
    if i <= 0 {
        0
    } else if bare_at(text, i - 1, '{') {
        depth_at(text, i - 1) + 1
    } else if bare_at(text, i - 1, '}') {
        depth_at(text, i - 1) - 1
    } else {
        depth_at(text, i - 1)
    }
}

/// An object of the array begins at index `i`.
pub open spec fn begins_object(text: Seq<char>, i: int) -> bool {
    bare_at(text, i, '{') && depth_at(text, i) == 0
}

/// An object of the array ends at index `i`.
pub open spec fn ends_object(text: Seq<char>, i: int) -> bool {
    bare_at(text, i, '}') && depth_at(text, i) == 1
}

/// The opening bracket of the array stands at index `i`.
pub open spec fn opens_array(text: Seq<char>, i: int) -> bool {
    bare_at(text, i, '[') && depth_at(text, i) == 0
}

/// The closing bracket of the array stands at index `i`.
pub open spec fn closes_array(text: Seq<char>, i: int) -> bool {
    bare_at(text, i, ']') && depth_at(text, i) == 0
}

/// A block ends with index `i`.
pub open spec fn ends_block(text: Seq<char>, i: int) -> bool {
    opens_array(text, i) || closes_array(text, i) || ends_object(text, i)
}

/// Where the last object in front of index `i` began, or -1.
pub open spec fn object_start(text: Seq<char>, i: int) -> int
    decreases i,
{
    if i <= 0 {
        -1
    } else if begins_object(text, i - 1) {
        i - 1
    } else {
        object_start(text, i - 1)
    }
}

/// The block that ends with index `i`.
pub open spec fn block_at(text: Seq<char>, i: int) -> Block<Seq<char>> {
    if opens_array(text, i) {
        Block::OpenArray
    } else if closes_array(text, i) {
        Block::CloseArray
    } else {
        Block::Object(text.subrange(object_start(text, i), i + 1))
    }
}

/// The blocks that end in front of index `i`, in order.
pub open spec fn blocks_before(text: Seq<char>, i: int) -> Seq<Block<Seq<char>>>
    decreases i,
{
    if i <= 0 {
        Seq::empty()
    } else if ends_block(text, i - 1) {
        blocks_before(text, i - 1).push(block_at(text, i - 1))
    } else {
        blocks_before(text, i - 1)
    }
}

/// The index behind the last block that ends in front of index `i`.
pub open spec fn end_of_blocks(text: Seq<char>, i: int) -> int
    decreases i,
{
    if i <= 0 {
        0
    } else if ends_block(text, i - 1) {
        i
    } else {
        end_of_blocks(text, i - 1)
    }
}

/// The blocks of `text`.
pub open spec fn blocks(text: Seq<char>) -> Seq<Block<Seq<char>>> {
    blocks_before(text, text.len() as int)
}

/// What is behind the last block of `text`.
pub open spec fn rest(text: Seq<char>) -> Seq<char> {
    text.skip(end_of_blocks(text, text.len() as int))
}

/// What is kept of the text behind the last block: nothing, where it is blank.
pub open spec fn kept_rest(rest: Seq<char>) -> Option<Seq<char>> {
    if blank(rest) {
        None
    } else {
        Some(rest)
    }
}

/// The text of a block.
pub open spec fn block_text(block: Block<Seq<char>>) -> Seq<char> {
    match block {
        Block::OpenArray => seq!['['],
        Block::CloseArray => seq![']'],
        Block::Object(text) => text,
    }
}

/// The texts of the blocks, without the objects whose verdict is against them.
pub open spec fn accepted(blocks: Seq<Block<Seq<char>>>, verdicts: Seq<bool>) -> Seq<Seq<char>>
    decreases blocks.len(),
{
    if blocks.len() == 0 {
        Seq::empty()
    } else {
        let front = accepted(blocks.drop_last(), verdicts.drop_last());
        if blocks.last() is Object && !verdicts.last() {
            front
        } else {
            front.push(block_text(blocks.last()))
        }
    }
}

/// Whether `serde_json::from_str` reads `text` as a `serde_json::Value`.
pub uninterp spec fn json_text(text: Seq<char>) -> bool;

/// Whether a block is JSON; a bracket always passes.
pub open spec fn verdict(block: Block<Seq<char>>) -> bool {
    match block {
        Block::Object(text) => json_text(text),
        _ => true,
    }
}

/// The texts of the blocks, without the objects that are not JSON.
pub open spec fn all_accepted(blocks: Seq<Block<Seq<char>>>) -> Seq<Seq<char>> {
    accepted(blocks, blocks.map_values(|block: Block<Seq<char>>| verdict(block)))
}

/// The messages of `text`: its brackets, and its objects that are JSON.
pub open spec fn messages(text: Seq<char>) -> Seq<Seq<char>> {
    all_accepted(blocks(text))
}

impl View for Block<String> {
    type V = Block<Seq<char>>;

    open spec fn view(&self) -> Block<Seq<char>> {
        match *self {
            Block::OpenArray => Block::OpenArray,
            Block::CloseArray => Block::CloseArray,
            Block::Object(text) => Block::Object(text@),
        }
    }
}

/// The views of a list of blocks.
pub open spec fn block_views(blocks: Seq<Block<String>>) -> Seq<Block<Seq<char>>> {
    blocks.map_values(|block: Block<String>| block@)
}

/// Calls `serde_json::from_str` and keeps only whether it read `text` as a
/// `serde_json::Value`. Which texts are JSON is left to the name.
#[verifier::external_body]
fn is_json(text: &str) -> (res: bool)
    ensures
        res == json_text(text@),
{
    serde_json::from_str::<serde_json::Value>(text).is_ok()
}

/// Where there are more `{` than `}`, an object has begun.
proof fn lemma_object_started(text: Seq<char>, i: int)
    requires
        depth_at(text, i) >= 1,
    ensures
        0 <= object_start(text, i) < i,
    decreases i,
{
    if i > 0 && depth_at(text, i - 1) >= 1 {
        lemma_object_started(text, i - 1);
    }
}

/// Finds the blocks of `text`.
pub fn scan_array(text: &str) -> (res: Scan)
    ensures
        block_views(res.blocks@) == blocks(text@),
        res.rest@ == rest(text@),
        res.blocks@.len() == blocks(text@).len(),
        forall|i: int|
            0 <= i < res.blocks@.len() ==> match #[trigger] res.blocks@[i] {
                Block::OpenArray => blocks(text@)[i] is OpenArray,
                Block::CloseArray => blocks(text@)[i] is CloseArray,
                Block::Object(object) => blocks(text@)[i] == Block::Object(object@),
            },
{
    let chars = chars_of(text);
    let total = text.as_bytes().len();
    let mut found: Vec<Block<String>> = Vec::new();
    let mut place = Place::Bare;
    // More closing than opening braces make the depth negative.
    let mut depth: i128 = 0;
    // Byte offsets: of the character under way, of the object under way, and behind the
    // last block.
    let mut at: usize = 0;
    let mut start: usize = 0;
    let mut last: usize = 0;
    proof {
        assert(text@.take(0) =~= Seq::<char>::empty());
        assert(block_views(found@) =~= Seq::<Block<Seq<char>>>::empty());
    }
    for i in 0..chars.len()
        invariant
            chars@ == text@,
            total == byte_len(text@),
            place == place_at(text@, i as int),
            depth == depth_at(text@, i as int),
            -i <= depth <= i,
            at == byte_len(text@.take(i as int)),
            object_start(text@, i as int) < i,
            object_start(text@, i as int) >= 0 ==> start == byte_len(
                text@.take(object_start(text@, i as int)),
            ),
            0 <= end_of_blocks(text@, i as int) <= i,
            last == byte_len(text@.take(end_of_blocks(text@, i as int))),
            block_views(found@) == blocks_before(text@, i as int),
    {
        let c = chars[i];
        let ghost before = block_views(found@);
        proof {
            lemma_byte_len_step(text@, i as int);
            lemma_byte_len_prefix(text@, i + 1);
        }
        let next = at + char_width(c);
        match place {
            Place::Escaped => {
                place = Place::Quoted;
            },
            Place::Quoted => {
                if c == '\\' {
                    place = Place::Escaped;
                } else if c == '"' {
                    place = Place::Bare;
                }
            },
            Place::Bare => {
                if c == '"' {
                    place = Place::Quoted;
                } else if c == '{' {
                    if depth == 0 {
                        start = at;
                    }
                    depth = depth + 1;
                } else if c == '}' {
                    depth = depth - 1;
                    if depth == 0 {
                        proof {
                            lemma_object_started(text@, i as int);
                        }
                        let object = cut(
                            text,
                            start,
                            next,
                            Ghost(object_start(text@, i as int)),
                            Ghost(i + 1),
                        );
                        found.push(Block::Object(object));
                        last = next;
                    }
                } else if c == '[' {
                    if depth == 0 {
                        found.push(Block::OpenArray);
                        last = next;
                    }
                } else if c == ']' {
                    if depth == 0 {
                        found.push(Block::CloseArray);
                        last = next;
                    }
                }
            },
        }
        proof {
            if ends_block(text@, i as int) {
                assert(block_views(found@) =~= before.push(block_at(text@, i as int)));
            } else {
                assert(block_views(found@) =~= before);
            }
        }
        at = next;
    }
    let ghost end = end_of_blocks(text@, text@.len() as int);
    proof {
        assert(text@.take(text@.len() as int) =~= text@);
        assert(text@.subrange(end, text@.len() as int) =~= text@.skip(end));
    }
    let rest = cut(text, last, total, Ghost(end), Ghost(text@.len() as int));
    proof {
        assert forall|i: int| 0 <= i < found@.len() implies match #[trigger] found@[i] {
            Block::OpenArray => blocks(text@)[i] is OpenArray,
            Block::CloseArray => blocks(text@)[i] is CloseArray,
            Block::Object(object) => blocks(text@)[i] == Block::Object(object@),
        } by {
            assert(block_views(found@)[i] == found@[i]@);
        }
    }
    Scan { blocks: found, rest }
}

/// Asks of each object whether it is JSON.
fn judge(blocks: &Vec<Block<String>>) -> (verdicts: Vec<bool>)
    ensures
        verdicts@ == block_views(blocks@).map_values(|block: Block<Seq<char>>| verdict(block)),
{
    let mut verdicts: Vec<bool> = Vec::new();
    for i in 0..blocks.len()
        invariant
            verdicts@.len() == i,
            forall|j: int| 0 <= j < i ==> verdicts@[j] == verdict(#[trigger] blocks@[j]@),
    {
        let pass = match &blocks[i] {
            Block::Object(text) => is_json(text.as_str()),
            _ => true,
        };
        assert(pass == verdict(blocks@[i as int]@));
        verdicts.push(pass);
    }
    verdicts
}

/// The messages of a scanned text: its brackets, and its objects whose verdict is not
/// against them. The text behind the last block is kept, unless it is blank.
pub fn array_response(scan: Scan, verdicts: &Vec<bool>) -> (res: BuffResponse)
    requires
        verdicts@.len() == scan.blocks@.len(),
    ensures
        res@ == response(
            accepted(block_views(scan.blocks@), verdicts@),
            kept_rest(scan.rest@),
        ),
        ({
            let all = accepted(block_views(scan.blocks@), verdicts@);
            &&& res.first_message is Some <==> all.len() > 0
            &&& res.first_message matches Some(first) ==> first@ == all[0]
            &&& res.next_messages is Some <==> all.len() > 1
            &&& res.next_messages matches Some(next) ==> {
                &&& next@.len() == all.len() - 1
                &&& forall|i: int| 0 <= i < next@.len() ==> #[trigger] next@[i]@ == all[i + 1]
            }
        }),
        res.candidate_message is None <==> forall|i: int|
            0 <= i < scan.rest@.len() ==> white_space(#[trigger] scan.rest@[i]),
        res.candidate_message matches Some(candidate) ==> candidate@ == scan.rest@,
{
    let mut found: Vec<String> = Vec::new();
    let ghost all = block_views(scan.blocks@);
    proof {
        assert(views(found@) =~= accepted(all.take(0), verdicts@.take(0)));
    }
    for i in 0..scan.blocks.len()
        invariant
            verdicts@.len() == scan.blocks@.len(),
            all == block_views(scan.blocks@),
            views(found@) == accepted(all.take(i as int), verdicts@.take(i as int)),
    {
        let ghost before = views(found@);
        proof {
            assert(all.take(i + 1).drop_last() =~= all.take(i as int));
            assert(verdicts@.take(i + 1).drop_last() =~= verdicts@.take(i as int));
            assert(all[i as int] == scan.blocks@[i as int]@);
            reveal_strlit("[");
            reveal_strlit("]");
            assert("["@ =~= seq!['[']);
            assert("]"@ =~= seq![']']);
        }
        match &scan.blocks[i] {
            Block::OpenArray => {
                found.push("[".to_string());
            },
            Block::CloseArray => {
                found.push("]".to_string());
            },
            Block::Object(text) => {
                if verdicts[i] {
                    found.push(text.clone());
                }
            },
        }
        proof {
            if all[i as int] is Object && !verdicts@[i as int] {
                assert(views(found@) =~= before);
            } else {
                assert(views(found@) =~= before.push(block_text(all[i as int])));
            }
        }
    }
    assert(all.take(all.len() as int) =~= all);
    assert(verdicts@.take(verdicts@.len() as int) =~= verdicts@);
    proof {
        let listed = accepted(all, verdicts@);
        assert(found@.len() == listed.len());
        assert forall|i: int| 0 <= i < found@.len() implies #[trigger] found@[i]@ == listed[i] by {
            assert(views(found@)[i] == listed[i]);
        }
    }
    let candidate_message = if is_blank(scan.rest.as_str()) {
        None
    } else {
        Some(scan.rest)
    };
    BuffResponse::new(found, candidate_message)
}

/// Splits the text kept from before and `buff_string` into the items of a JSON array:
///
/// - a `[` or `]` outside of the objects is a message;
/// - each object, from its `{` to the `}` that matches it, is a message;
/// - what stands between them, as commas and white space, is left out.
pub fn new_with_pretty_json_array(
    buff_string: String,
    partial_message: &mut Option<String>,
) -> (res: Result<BuffResponse, Error>)
    ensures
        res is Ok,
        res matches Ok(buff) ==> {
            let text = continued(opt_view(*old(partial_message)), buff_string@);
            buff@ == response(messages(text), kept_rest(rest(text)))
        },
        res matches Ok(buff) ==> {
            let text = match *old(partial_message) {
                Some(partial) => partial@ + buff_string@,
                None => buff_string@,
            };
            let all = messages(text);
            &&& buff.first_message is Some <==> all.len() > 0
            &&& buff.first_message matches Some(first) ==> first@ == all[0]
            &&& buff.next_messages is Some <==> all.len() > 1
            &&& buff.next_messages matches Some(next) ==> {
                &&& next@.len() == all.len() - 1
                &&& forall|i: int| 0 <= i < next@.len() ==> #[trigger] next@[i]@ == all[i + 1]
            }
            &&& buff.candidate_message is None <==> blank(rest(text))
            &&& buff.candidate_message matches Some(candidate) ==> candidate@ == rest(text)
        },
        *final(partial_message) is None,
{
    let full_string = continue_text(partial_message, buff_string);
    let scan = scan_array(full_string.as_str());
    let verdicts = judge(&scan.blocks);
    Ok(array_response(scan, &verdicts))
}

/// A text begins outside of strings. There a quote begins one, and nothing else does.
/// Inside, a quote ends it, a backslash escapes what follows, and anything else stays inside.
/// What is escaped stays inside, whatever it is.
pub proof fn law_strings(text: Seq<char>, i: int)
    requires
        0 <= i < text.len(),
    ensures
        place_at(text, 0) is Bare,
        place_at(text, i) is Bare && text[i] == '"' ==> place_at(text, i + 1) is Quoted,
        place_at(text, i) is Bare && text[i] != '"' ==> place_at(text, i + 1) is Bare,
        place_at(text, i) is Quoted && text[i] == '"' ==> place_at(text, i + 1) is Bare,
        place_at(text, i) is Quoted && text[i] == '\\' ==> place_at(text, i + 1) is Escaped,
        place_at(text, i) is Quoted && text[i] != '"' && text[i] != '\\' ==> place_at(text, i + 1)
            is Quoted,
        place_at(text, i) is Escaped ==> place_at(text, i + 1) is Quoted,
{
}

/// The depth begins at 0. A `{` outside of strings adds one to it, a `}` outside of strings
/// takes one off, and nothing else changes it.
pub proof fn law_depth(text: Seq<char>, i: int)
    requires
        0 <= i < text.len(),
    ensures
        depth_at(text, 0) == 0,
        place_at(text, i) is Bare && text[i] == '{' ==> depth_at(text, i + 1) == depth_at(text, i)
            + 1,
        place_at(text, i) is Bare && text[i] == '}' ==> depth_at(text, i + 1) == depth_at(text, i)
            - 1,
        place_at(text, i) !is Bare ==> depth_at(text, i + 1) == depth_at(text, i),
        text[i] != '{' && text[i] != '}' ==> depth_at(text, i + 1) == depth_at(text, i),
{
}

/// What one more character does to the blocks of a text. A bracket outside of strings and
/// objects is a block. A `}` outside of strings that takes the depth from 1 to 0 ends an
/// object: the one that began with the `{` since which the depth has not been 0. Behind a
/// block nothing is left. Any other character adds no block and is left with what was left.
pub proof fn law_one_more_char(text: Seq<char>, c: char)
    ensures
        ({
            let n = text.len() as int;
            let bare = place_at(text, n) is Bare;
            let depth = depth_at(text, n);
            let after = text.push(c);
            if bare && depth == 0 && c == '[' {
                &&& blocks(after) == blocks(text).push(Block::OpenArray)
                &&& rest(after).len() == 0
            } else if bare && depth == 0 && c == ']' {
                &&& blocks(after) == blocks(text).push(Block::CloseArray)
                &&& rest(after).len() == 0
            } else if bare && depth == 1 && c == '}' {
                &&& rest(after).len() == 0
                &&& exists|s: int|
                    {
                        &&& 0 <= s < n
                        &&& text[s] == '{'
                        &&& place_at(text, s) is Bare
                        &&& depth_at(text, s) == 0
                        &&& forall|j: int| s < j <= n ==> #[trigger] depth_at(text, j) >= 1
                        &&& blocks(after) == blocks(text).push(
                            Block::Object(#[trigger] text.skip(s) + seq![c]),
                        )
                    }
            } else {
                &&& blocks(after) == blocks(text)
                &&& rest(after) == rest(text).push(c)
            }
        }),
{
    let n = text.len() as int;
    let after = text.push(c);
    lemma_push(text, c);
    lemma_end_of_blocks(text, n);
    if ends_object(after, n) {
        lemma_within_object(text, n);
        let s = object_start(text, n);
        assert(after.subrange(s, n + 1) =~= text.skip(s) + seq![c]);
        assert(blocks(after) =~= blocks(text).push(Block::Object(text.skip(s) + seq![c])));
    } else if !ends_block(after, n) {
        assert(rest(after) =~= rest(text).push(c));
    }
}

/// One more character leaves what is in front of it as it is.
pub proof fn lemma_push(text: Seq<char>, c: char)
    ensures
        ({
            let n = text.len() as int;
            let after = text.push(c);
            &&& place_at(after, n) == place_at(text, n)
            &&& depth_at(after, n) == depth_at(text, n)
            &&& object_start(after, n) == object_start(text, n)
            &&& blocks_before(after, n) == blocks(text)
            &&& end_of_blocks(after, n) == end_of_blocks(text, n)
            &&& forall|i: int| 0 <= i <= n ==> #[trigger] depth_at(after, i) == depth_at(text, i)
        }),
{
    let after = text.push(c);
    lemma_front_only(text, after, text.len() as int);
    assert forall|i: int| 0 <= i <= text.len() implies #[trigger] depth_at(after, i) == depth_at(
        text,
        i,
    ) by {
        lemma_front_only(text, after, i);
    }
}

/// An empty text has no block, and nothing is left of it.
pub proof fn lemma_empty_text()
    ensures
        blocks(Seq::empty()).len() == 0,
        rest(Seq::empty()).len() == 0,
        messages(Seq::empty()).len() == 0,
{
}

/// Of the text behind the last block all is kept, unless it is nothing but white space.
pub proof fn law_kept_rest(text: Seq<char>)
    ensures
        (exists|i: int| 0 <= i < text.len() && !white_space(#[trigger] text[i])) ==> kept_rest(text)
            == Some(text),
        (forall|i: int| 0 <= i < text.len() ==> white_space(#[trigger] text[i])) ==> kept_rest(text)
            is None,
{
}

/// The view of a block holds what the block holds.
pub proof fn law_block_views(list: Seq<Block<String>>)
    ensures
        block_views(list).len() == list.len(),
        forall|i: int|
            0 <= i < list.len() ==> match #[trigger] list[i] {
                Block::OpenArray => block_views(list)[i] is OpenArray,
                Block::CloseArray => block_views(list)[i] is CloseArray,
                Block::Object(object) => block_views(list)[i] == Block::Object(object@),
            },
{
    assert forall|i: int| 0 <= i < list.len() implies match #[trigger] list[i] {
        Block::OpenArray => block_views(list)[i] is OpenArray,
        Block::CloseArray => block_views(list)[i] is CloseArray,
        Block::Object(object) => block_views(list)[i] == Block::Object(object@),
    } by {
        assert(block_views(list)[i] == list[i]@);
    }
}

/// A bracket is accepted whatever its verdict, an object exactly where its verdict is for it,
/// and each as it stands in the text, in order.
pub proof fn law_accepted(list: Seq<Block<Seq<char>>>, verdicts: Seq<bool>)
    requires
        list.len() == verdicts.len(),
    ensures
        accepted(list, verdicts) == list.zip_with(verdicts).filter(
            |pair: (Block<Seq<char>>, bool)| pair.0 !is Object || pair.1,
        ).map_values(
            |pair: (Block<Seq<char>>, bool)|
                match pair.0 {
                    Block::OpenArray => seq!['['],
                    Block::CloseArray => seq![']'],
                    Block::Object(text) => text,
                },
        ),
    decreases list.len(),
{
    let keep = |pair: (Block<Seq<char>>, bool)| pair.0 !is Object || pair.1;
    let show = |pair: (Block<Seq<char>>, bool)|
        match pair.0 {
            Block::OpenArray => seq!['['],
            Block::CloseArray => seq![']'],
            Block::Object(text) => text,
        };
    let pairs = list.zip_with(verdicts);
    reveal(Seq::filter);
    if list.len() == 0 {
        assert(accepted(list, verdicts) =~= pairs.filter(keep).map_values(show));
    } else {
        law_accepted(list.drop_last(), verdicts.drop_last());
        assert(pairs.drop_last() =~= list.drop_last().zip_with(verdicts.drop_last()));
        assert(pairs.last() == (list.last(), verdicts.last()));
        let front = pairs.drop_last().filter(keep);
        if keep(pairs.last()) {
            assert(front.push(pairs.last()).map_values(show) =~= front.map_values(show).push(
                show(pairs.last()),
            ));
        }
        assert(accepted(list, verdicts) =~= pairs.filter(keep).map_values(show));
    }
}

/// The messages of a text are its brackets and those of its objects that are JSON, each as it
/// stands in the text, in order.
pub proof fn law_messages_of_blocks(text: Seq<char>)
    ensures
        messages(text) == blocks(text).filter(
            |block: Block<Seq<char>>| block matches Block::Object(object) ==> json_text(object),
        ).map_values(
            |block: Block<Seq<char>>|
                match block {
                    Block::OpenArray => seq!['['],
                    Block::CloseArray => seq![']'],
                    Block::Object(object) => object,
                },
        ),
{
    lemma_all_accepted(blocks(text));
}

proof fn lemma_all_accepted(list: Seq<Block<Seq<char>>>)
    ensures
        all_accepted(list) == list.filter(
            |block: Block<Seq<char>>| block matches Block::Object(object) ==> json_text(object),
        ).map_values(
            |block: Block<Seq<char>>|
                match block {
                    Block::OpenArray => seq!['['],
                    Block::CloseArray => seq![']'],
                    Block::Object(object) => object,
                },
        ),
    decreases list.len(),
{
    let keep = |block: Block<Seq<char>>|
        block matches Block::Object(object) ==> json_text(object);
    let show = |block: Block<Seq<char>>|
        match block {
            Block::OpenArray => seq!['['],
            Block::CloseArray => seq![']'],
            Block::Object(object) => object,
        };
    let judged = |block: Block<Seq<char>>| verdict(block);
    reveal(Seq::filter);
    if list.len() == 0 {
        assert(all_accepted(list) =~= list.filter(keep).map_values(show));
    } else {
        lemma_all_accepted(list.drop_last());
        assert(list.map_values(judged).drop_last() =~= list.drop_last().map_values(judged));
        assert(list.map_values(judged).last() == verdict(list.last()));
        let front = list.drop_last().filter(keep);
        if keep(list.last()) {
            assert(front.push(list.last()).map_values(show) =~= front.map_values(show).push(
                show(list.last()),
            ));
        }
        assert(all_accepted(list) =~= list.filter(keep).map_values(show));
    }
}

/// What stands in front of index `i` is all that matters there.
proof fn lemma_front_only(a: Seq<char>, b: Seq<char>, i: int)
    requires
        0 <= i <= a.len(),
        i <= b.len(),
        forall|j: int| 0 <= j < i ==> a[j] == b[j],
    ensures
        place_at(a, i) == place_at(b, i),
        depth_at(a, i) == depth_at(b, i),
        object_start(a, i) == object_start(b, i),
        blocks_before(a, i) == blocks_before(b, i),
        end_of_blocks(a, i) == end_of_blocks(b, i),
    decreases i,
{
    if i > 0 {
        lemma_front_only(a, b, i - 1);
        lemma_object_start_range(a, i - 1);
        if ends_object(a, i - 1) {
            lemma_object_started(a, i - 1);
            let s = object_start(a, i - 1);
            assert(a.subrange(s, i) =~= b.subrange(s, i));
        }
    }
}

proof fn lemma_object_start_range(text: Seq<char>, i: int)
    requires
        0 <= i,
    ensures
        -1 <= object_start(text, i) < i || (i == 0 && object_start(text, i) == -1),
    decreases i,
{
    if i > 0 {
        lemma_object_start_range(text, i - 1);
    }
}

/// Behind a block the text goes on as at its beginning: not in a string, and at depth 0.
proof fn lemma_end_of_blocks(text: Seq<char>, i: int)
    requires
        0 <= i <= text.len(),
    ensures
        ({
            let end = end_of_blocks(text, i);
            &&& 0 <= end <= i
            &&& place_at(text, end) == Place::Bare
            &&& depth_at(text, end) == 0
            &&& blocks_before(text, end) == blocks_before(text, i)
            &&& end_of_blocks(text, end) == end
            &&& end == 0 <==> blocks_before(text, i).len() == 0
        }),
    decreases i,
{
    if i > 0 {
        lemma_end_of_blocks(text, i - 1);
    }
}

/// From a place that is as at the beginning, the text behind is scanned as by itself.
proof fn lemma_scan_afresh(text: Seq<char>, p: int, k: int)
    requires
        0 <= p,
        0 <= k,
        p + k <= text.len(),
        place_at(text, p) == Place::Bare,
        depth_at(text, p) == 0,
    ensures
        place_at(text, p + k) == place_at(text.skip(p), k),
        depth_at(text, p + k) == depth_at(text.skip(p), k),
        object_start(text.skip(p), k) >= 0 ==> object_start(text, p + k) == p + object_start(
            text.skip(p),
            k,
        ),
        blocks_before(text, p + k) == blocks_before(text, p) + blocks_before(text.skip(p), k),
        end_of_blocks(text, p + k) == if blocks_before(text.skip(p), k).len() > 0 {
            p + end_of_blocks(text.skip(p), k)
        } else {
            end_of_blocks(text, p)
        },
    decreases k,
{
    let z = text.skip(p);
    if k == 0 {
        assert(blocks_before(text, p) + blocks_before(z, 0) =~= blocks_before(text, p));
    } else {
        lemma_scan_afresh(text, p, k - 1);
        assert(z[k - 1] == text[p + k - 1]);
        let i = p + k - 1;
        assert(ends_block(text, i) == ends_block(z, k - 1));
        if ends_object(z, k - 1) {
            lemma_object_started(z, k - 1);
            let s = object_start(z, k - 1);
            assert(text.subrange(p + s, p + k) =~= z.subrange(s, k));
        }
        if ends_block(z, k - 1) {
            assert(block_at(text, i) == block_at(z, k - 1));
            assert(blocks_before(text, p + k) =~= blocks_before(text, p) + blocks_before(z, k));
        }
    }
}

/// Where a text is cut does not matter to its blocks: they are those of the first piece
/// and then those of its rest with the second piece behind it, and the same text is left.
pub proof fn law_split_blocks(first: Seq<char>, second: Seq<char>)
    ensures
        blocks(first + second) == blocks(first) + blocks(rest(first) + second),
        rest(first + second) == rest(rest(first) + second),
{
    let all = first + second;
    let n = first.len() as int;
    let p = end_of_blocks(first, n);
    lemma_end_of_blocks(first, n);
    lemma_front_only(first, all, p);
    let z = rest(first) + second;
    assert(all.skip(p) =~= z);
    lemma_scan_afresh(all, p, all.len() - p);
    lemma_end_of_blocks(z, z.len() as int);
    assert(rest(all) =~= rest(z));
}

/// A character that begins or ends nothing.
pub open spec fn filler_char(c: char) -> bool {
    c != '"' && c != '{' && c != '}' && c != '[' && c != ']'
}

/// A text in which nothing begins or ends, as commas and white space.
pub open spec fn filler(text: Seq<char>) -> bool {
    forall|i: int| 0 <= i < text.len() ==> filler_char(#[trigger] text[i])
}

proof fn lemma_filler_scan(text: Seq<char>, i: int)
    requires
        0 <= i <= text.len(),
        forall|j: int| 0 <= j < i ==> filler_char(#[trigger] text[j]),
    ensures
        place_at(text, i) == Place::Bare,
        depth_at(text, i) == 0,
        blocks_before(text, i).len() == 0,
        end_of_blocks(text, i) == 0,
    decreases i,
{
    if i > 0 {
        lemma_filler_scan(text, i - 1);
        assert(filler_char(text[i - 1]));
    }
}

/// Filler in front of a text adds no block. Where the text has no block, the filler stays
/// in front of what is left.
pub proof fn law_filler(front: Seq<char>, text: Seq<char>)
    requires
        filler(front),
    ensures
        blocks(front + text) == blocks(text),
        blocks(text).len() > 0 ==> rest(front + text) == rest(text),
        blocks(text).len() == 0 ==> rest(front + text) == front + text && rest(text) == text,
{
    let all = front + text;
    let n = front.len() as int;
    assert forall|j: int| 0 <= j < n implies filler_char(#[trigger] all[j]) by {
        assert(filler_char(front[j]));
    }
    lemma_filler_scan(all, n);
    assert(all.skip(n) =~= text);
    lemma_scan_afresh(all, n, text.len() as int);
    lemma_end_of_blocks(text, text.len() as int);
    assert(blocks(all) =~= blocks(text));
    if blocks(text).len() > 0 {
        assert(rest(all) =~= rest(text));
    } else {
        assert(rest(all) =~= all);
        assert(rest(text) =~= text);
    }
}

/// `text` without the white space in front.
pub open spec fn stripped(text: Seq<char>) -> Seq<char>
    decreases text.len(),
{
    if text.len() > 0 && white_space(text[0]) {
        stripped(text.drop_first())
    } else {
        text
    }
}

proof fn lemma_stripped(text: Seq<char>) -> (front: Seq<char>)
    ensures
        blank(front),
        filler(front),
        text == front + stripped(text),
        blank(text) <==> stripped(text).len() == 0,
    decreases text.len(),
{
    if text.len() > 0 && white_space(text[0]) {
        let inner = lemma_stripped(text.drop_first());
        let front = seq![text[0]] + inner;
        assert(text =~= seq![text[0]] + text.drop_first());
        assert(front + stripped(text) =~= seq![text[0]] + (inner + stripped(text)));
        assert(blank(text) <==> blank(text.drop_first())) by {
            if blank(text.drop_first()) {
                assert forall|i: int| 0 <= i < text.len() implies white_space(
                    #[trigger] text[i],
                ) by {
                    if i > 0 {
                        assert(white_space(text.drop_first()[i - 1]));
                    }
                }
            }
        }
        assert forall|i: int| 0 <= i < front.len() implies filler_char(#[trigger] front[i])
            && white_space(front[i]) by {
            if i > 0 {
                assert(white_space(inner[i - 1]));
            }
        }
        front
    } else {
        assert(text =~= Seq::<char>::empty() + text);
        if text.len() > 0 {
            assert(!white_space(text[0]));
        }
        Seq::empty()
    }
}

/// Of a blank text nothing is left without the white space in front.
pub proof fn lemma_stripped_blank(text: Seq<char>)
    ensures
        blank(text) <==> stripped(text).len() == 0,
{
    let _ = lemma_stripped(text);
}

proof fn lemma_stripped_concat(front: Seq<char>, text: Seq<char>)
    requires
        blank(front),
    ensures
        stripped(front + text) == stripped(text),
    decreases front.len(),
{
    if front.len() == 0 {
        assert(front + text =~= text);
    } else {
        assert(white_space(front[0]));
        assert((front + text).drop_first() =~= front.drop_first() + text);
        lemma_stripped_concat(front.drop_first(), text);
    }
}

proof fn lemma_strip_first(text: Seq<char>, second: Seq<char>)
    ensures
        blocks(text + second) == blocks(stripped(text) + second),
        stripped(rest(text + second)) == stripped(rest(stripped(text) + second)),
{
    let front = lemma_stripped(text);
    let z = stripped(text) + second;
    assert(text + second =~= front + z);
    law_filler(front, z);
    if blocks(z).len() == 0 {
        lemma_stripped_concat(front, z);
    }
}

/// White space in front of a kept text does not matter to what comes of it.
pub proof fn law_white_space_in_front(a: Seq<char>, b: Seq<char>, second: Seq<char>)
    requires
        stripped(a) == stripped(b),
    ensures
        blocks(a + second) == blocks(b + second),
        stripped(rest(a + second)) == stripped(rest(b + second)),
{
    lemma_strip_first(a, second);
    lemma_strip_first(b, second);
}

/// The kept text, or nothing.
pub open spec fn kept_text(kept: Option<Seq<char>>) -> Seq<char> {
    match kept {
        Some(text) => text,
        None => Seq::empty(),
    }
}

/// Keeping a text drops nothing but white space.
pub proof fn lemma_kept_rest(text: Seq<char>)
    ensures
        stripped(kept_text(kept_rest(text))) == stripped(text),
{
    let front = lemma_stripped(text);
    if blank(text) {
        assert(stripped(text) =~= Seq::<char>::empty());
    }
}

/// Where blocks come one after the other, so do their messages.
pub proof fn lemma_messages_concat(text: Seq<char>, first: Seq<char>, second: Seq<char>)
    requires
        blocks(text) == blocks(first) + blocks(second),
    ensures
        messages(text) == messages(first) + messages(second),
{
    lemma_accepted_concat(blocks(first), blocks(second));
}

proof fn lemma_accepted_concat(a: Seq<Block<Seq<char>>>, b: Seq<Block<Seq<char>>>)
    ensures
        all_accepted(a + b) == all_accepted(a) + all_accepted(b),
    decreases b.len(),
{
    let f = |block: Block<Seq<char>>| verdict(block);
    if b.len() == 0 {
        assert(a + b =~= a);
        assert(all_accepted(a) + all_accepted(b) =~= all_accepted(a));
    } else {
        let ab = a + b;
        lemma_accepted_concat(a, b.drop_last());
        assert(ab.drop_last() =~= a + b.drop_last());
        assert(ab.map_values(f).drop_last() =~= ab.drop_last().map_values(f));
        assert(b.map_values(f).drop_last() =~= b.drop_last().map_values(f));
        assert(ab.last() == b.last());
        assert(ab.map_values(f).last() == verdict(b.last()));
        assert(all_accepted(ab) =~= all_accepted(a) + all_accepted(b));
    }
}

/// Where an array's text is cut into pieces does not matter: its messages are those of the
/// first piece and then those of the kept text with the second piece behind it. The same
/// text is left unfinished, but for white space in front of it.
pub proof fn law_split_array(first: Seq<char>, second: Seq<char>)
    ensures
        messages(first + second) == messages(first) + messages(
            kept_text(kept_rest(rest(first))) + second,
        ),
        stripped(rest(first + second)) == stripped(
            rest(kept_text(kept_rest(rest(first))) + second),
        ),
{
    let kept = kept_text(kept_rest(rest(first)));
    law_split_blocks(first, second);
    lemma_kept_rest(rest(first));
    law_white_space_in_front(rest(first), kept, second);
    lemma_accepted_concat(blocks(first), blocks(kept + second));
}

/// A text that is one object: it begins with `{`, ends with the `}` that matches it, and
/// does not come back to depth 0 in between.
pub open spec fn is_object(text: Seq<char>) -> bool {
    let n = text.len() as int;
    &&& n >= 2
    &&& text[0] == '{'
    &&& bare_at(text, n - 1, '}')
    &&& depth_at(text, n - 1) == 1
    &&& forall|i: int| 0 < i < n ==> #[trigger] depth_at(text, i) >= 1
}

proof fn lemma_inside_object(text: Seq<char>, i: int)
    requires
        is_object(text),
        0 < i < text.len(),
    ensures
        blocks_before(text, i).len() == 0,
        object_start(text, i) == 0,
    decreases i,
{
    assert(place_at(text, 0) == Place::Bare);
    assert(depth_at(text, 0) == 0);
    assert(begins_object(text, 0));
    if i == 1 {
        assert(!ends_block(text, 0));
        assert(blocks_before(text, 0).len() == 0);
        assert(blocks_before(text, 1) == blocks_before(text, 0));
    } else {
        lemma_inside_object(text, i - 1);
        assert(depth_at(text, i - 1) >= 1);
        assert(depth_at(text, i) >= 1);
        assert(!ends_block(text, i - 1));
        assert(!begins_object(text, i - 1));
    }
}

/// Since an object began, the depth has not come back to 0.
proof fn lemma_within_object(text: Seq<char>, i: int)
    requires
        depth_at(text, i) >= 1,
    ensures
        ({
            let s = object_start(text, i);
            &&& 0 <= s < i
            &&& begins_object(text, s)
            &&& forall|j: int| s < j <= i ==> #[trigger] depth_at(text, j) >= 1
        }),
    decreases i,
{
    lemma_object_started(text, i);
    if depth_at(text, i - 1) >= 1 {
        lemma_within_object(text, i - 1);
    }
}

proof fn lemma_block_is_object(text: Seq<char>, i: int)
    requires
        0 <= i < text.len(),
        ends_object(text, i),
    ensures
        is_object(text.subrange(object_start(text, i), i + 1)),
{
    lemma_within_object(text, i);
    let s = object_start(text, i);
    let tail = text.skip(s);
    let object = text.subrange(s, i + 1);
    let n = object.len() as int;
    assert forall|k: int| 0 <= k < n implies place_at(object, k) == place_at(text, s + k)
        && #[trigger] depth_at(object, k) == depth_at(text, s + k) by {
        lemma_scan_afresh(text, s, k);
        lemma_front_only(tail, object, k);
    }
    assert(depth_at(object, n - 1) == depth_at(text, i));
    assert(object[n - 1] == text[i]);
    assert forall|k: int| 0 < k < n implies #[trigger] depth_at(object, k) >= 1 by {
        assert(depth_at(text, s + k) >= 1);
    }
}

/// Every block is a bracket or one whole object.
pub proof fn law_blocks_are_objects(text: Seq<char>, k: int)
    requires
        0 <= k < blocks(text).len(),
    ensures
        blocks(text)[k] matches Block::Object(object) ==> is_object(object),
{
    lemma_blocks_before_are_objects(text, text.len() as int, k);
}

proof fn lemma_blocks_before_are_objects(text: Seq<char>, i: int, k: int)
    requires
        0 <= i <= text.len(),
        0 <= k < blocks_before(text, i).len(),
    ensures
        blocks_before(text, i)[k] matches Block::Object(object) ==> is_object(object),
    decreases i,
{
    if k < blocks_before(text, i - 1).len() {
        lemma_blocks_before_are_objects(text, i - 1, k);
    } else if ends_object(text, i - 1) {
        lemma_block_is_object(text, i - 1);
    }
}

/// Every message is `[`, `]`, or one whole object that is JSON.
pub proof fn law_messages(text: Seq<char>, k: int)
    requires
        0 <= k < messages(text).len(),
    ensures
        ({
            let message = messages(text)[k];
            message == seq!['['] || message == seq![']'] || (is_object(message) && json_text(
                message,
            ))
        }),
{
    let list = blocks(text);
    assert forall|i: int| 0 <= i < list.len() implies (#[trigger] list[i] matches Block::Object(
        object,
    ) ==> is_object(object)) by {
        law_blocks_are_objects(text, i);
    }
    lemma_accepted_items(list, k);
}

proof fn lemma_accepted_items(list: Seq<Block<Seq<char>>>, k: int)
    requires
        0 <= k < all_accepted(list).len(),
        forall|i: int|
            0 <= i < list.len() ==> (#[trigger] list[i] matches Block::Object(object) ==> is_object(
                object,
            )),
    ensures
        ({
            let message = all_accepted(list)[k];
            message == seq!['['] || message == seq![']'] || (is_object(message) && json_text(
                message,
            ))
        }),
    decreases list.len(),
{
    let f = |block: Block<Seq<char>>| verdict(block);
    if list.len() > 0 {
        assert(list.map_values(f).drop_last() =~= list.drop_last().map_values(f));
        if k < all_accepted(list.drop_last()).len() {
            lemma_accepted_items(list.drop_last(), k);
        } else {
            assert(list.last() == list[list.len() - 1]);
        }
    }
}

/// The one block of an object is the object, and nothing is left behind it.
pub proof fn law_one_object(text: Seq<char>)
    requires
        is_object(text),
    ensures
        blocks(text) == seq![Block::Object(text)],
        rest(text) == Seq::<char>::empty(),
{
    let n = text.len() as int;
    lemma_inside_object(text, n - 1);
    assert(ends_object(text, n - 1));
    assert(text.subrange(0, n) =~= text);
    assert(blocks(text) =~= seq![Block::Object(text)]);
    assert(rest(text) =~= Seq::<char>::empty());
}

/// White space begins and ends nothing.
pub proof fn lemma_blank_is_filler(text: Seq<char>)
    requires
        blank(text),
    ensures
        filler(text),
{
    assert forall|i: int| 0 <= i < text.len() implies filler_char(#[trigger] text[i]) by {
        assert(white_space(text[i]));
    }
}

/// A text of filler has no block.
proof fn lemma_only_filler(text: Seq<char>)
    requires
        filler(text),
    ensures
        blocks(text) == Seq::<Block<Seq<char>>>::empty(),
        rest(text) == text,
{
    lemma_filler_scan(text, text.len() as int);
    assert(blocks(text) =~= Seq::<Block<Seq<char>>>::empty());
    assert(rest(text) =~= text);
}

/// `objects`, with a filler in front of each and one behind the last.
pub open spec fn spaced(objects: Seq<Seq<char>>, fills: Seq<Seq<char>>) -> Seq<char>
    decreases objects.len(),
{
    if objects.len() == 0 {
        fills[0]
    } else {
        spaced(objects.drop_last(), fills.drop_last()) + objects.last() + fills.last()
    }
}

proof fn lemma_spaced(objects: Seq<Seq<char>>, fills: Seq<Seq<char>>)
    requires
        fills.len() == objects.len() + 1,
        forall|i: int| 0 <= i < fills.len() ==> filler(#[trigger] fills[i]),
        forall|i: int| 0 <= i < objects.len() ==> is_object(#[trigger] objects[i]),
    ensures
        blocks(spaced(objects, fills)) == objects.map_values(
            |object: Seq<char>| Block::Object(object),
        ),
        rest(spaced(objects, fills)) == fills.last(),
    decreases objects.len(),
{
    let f = |object: Seq<char>| Block::Object(object);
    let fill = fills.last();
    assert(filler(fills[fills.len() - 1]));
    lemma_only_filler(fill);
    if objects.len() == 0 {
        assert(blocks(spaced(objects, fills)) =~= objects.map_values(f));
    } else {
        let front = spaced(objects.drop_last(), fills.drop_last());
        let before = fills.drop_last().last();
        let object = objects.last();
        lemma_spaced(objects.drop_last(), fills.drop_last());
        assert(is_object(objects[objects.len() - 1]));
        law_one_object(object);
        assert(filler(fills[fills.len() - 2]));
        law_filler(before, object);
        law_split_blocks(front, object);
        law_split_blocks(front + object, fill);
        assert(rest(front + object) + fill =~= fill);
        assert(objects.map_values(f) =~= objects.drop_last().map_values(f) + seq![
            Block::Object(object),
        ]);
        assert(objects.map_values(f) + blocks(fill) =~= objects.map_values(f));
    }
}

/// The objects that are JSON.
pub open spec fn json_objects(objects: Seq<Seq<char>>) -> Seq<Seq<char>> {
    objects.filter(|object: Seq<char>| json_text(object))
}

/// Where all objects are JSON, none is left out.
pub proof fn lemma_all_json(objects: Seq<Seq<char>>)
    requires
        forall|i: int| 0 <= i < objects.len() ==> json_text(#[trigger] objects[i]),
    ensures
        json_objects(objects) == objects,
    decreases objects.len(),
{
    reveal(Seq::filter);
    if objects.len() > 0 {
        lemma_all_json(objects.drop_last());
        assert(json_text(objects[objects.len() - 1]));
        assert(objects =~= objects.drop_last().push(objects.last()));
    } else {
        assert(json_objects(objects) =~= objects);
    }
}

proof fn lemma_accepted_objects(objects: Seq<Seq<char>>)
    ensures
        all_accepted(objects.map_values(|object: Seq<char>| Block::Object(object)))
            == json_objects(objects),
    decreases objects.len(),
{
    let f = |object: Seq<char>| Block::Object(object);
    let g = |block: Block<Seq<char>>| verdict(block);
    let list = objects.map_values(f);
    reveal(Seq::filter);
    if objects.len() > 0 {
        lemma_accepted_objects(objects.drop_last());
        assert(list.drop_last() =~= objects.drop_last().map_values(f));
        assert(list.map_values(g).drop_last() =~= list.drop_last().map_values(g));
        assert(list.map_values(g).last() == json_text(objects.last()));
    } else {
        assert(all_accepted(list) =~= json_objects(objects));
    }
}

proof fn lemma_accepted_bracket(block: Block<Seq<char>>)
    requires
        block !is Object,
    ensures
        all_accepted(seq![block]) == seq![block_text(block)],
{
    let g = |block: Block<Seq<char>>| verdict(block);
    let one = seq![block];
    assert(one.drop_last() =~= Seq::<Block<Seq<char>>>::empty());
    assert(accepted(one.drop_last(), one.map_values(g).drop_last()) =~= Seq::<Seq<char>>::empty());
    assert(all_accepted(one) =~= seq![block_text(block)]);
}

/// The text of an array: `objects` in brackets, with filler, as commas and white space, at
/// every gap, and text around the array.
pub open spec fn array_text(
    before: Seq<char>,
    objects: Seq<Seq<char>>,
    fills: Seq<Seq<char>>,
    after: Seq<char>,
) -> Seq<char> {
    before + seq!['['] + spaced(objects, fills) + seq![']'] + after
}

/// An array of objects, however it is printed, gives `[`, each object in order, and `]`.
/// Objects that are not JSON are left out of the messages. What is behind the array is left,
/// and is not kept where it is blank.
pub proof fn law_pretty_array(
    before: Seq<char>,
    objects: Seq<Seq<char>>,
    fills: Seq<Seq<char>>,
    after: Seq<char>,
)
    requires
        filler(before),
        filler(after),
        fills.len() == objects.len() + 1,
        forall|i: int| 0 <= i < fills.len() ==> filler(#[trigger] fills[i]),
        forall|i: int| 0 <= i < objects.len() ==> is_object(#[trigger] objects[i]),
    ensures
        ({
            let text = array_text(before, objects, fills, after);
            &&& blocks(text) == seq![Block::OpenArray] + objects.map_values(
                |object: Seq<char>| Block::Object(object),
            ) + seq![Block::CloseArray]
            &&& messages(text) == seq![seq!['[']] + json_objects(objects) + seq![seq![']']]
            &&& (forall|i: int| 0 <= i < objects.len() ==> json_text(#[trigger] objects[i]))
                ==> messages(text) == seq![seq!['[']] + objects + seq![seq![']']]
            &&& rest(text) == after
            &&& blank(after) ==> kept_rest(rest(text)) is None
        }),
{
    let f = |object: Seq<char>| Block::Object(object);
    let open = seq!['['];
    let close = seq![']'];
    let list = spaced(objects, fills);
    let fill = fills.last();
    lemma_bracket('[');
    lemma_bracket(']');
    lemma_spaced(objects, fills);
    assert(filler(fills[fills.len() - 1]));
    // In front of the array.
    let t1 = before + open;
    law_filler(before, open);
    // The objects.
    let t2 = t1 + list;
    law_split_blocks(t1, list);
    assert(rest(t1) + list =~= list);
    // The closing bracket.
    let t3 = t2 + close;
    law_split_blocks(t2, close);
    law_filler(fill, close);
    // Behind the array.
    law_split_blocks(t3, after);
    assert(rest(t3) + after =~= after);
    lemma_only_filler(after);
    let front = seq![Block::OpenArray] + objects.map_values(f);
    let all = front + seq![Block::CloseArray];
    assert(all + blocks(after) =~= all);
    lemma_accepted_objects(objects);
    lemma_accepted_bracket(Block::OpenArray);
    lemma_accepted_bracket(Block::CloseArray);
    lemma_accepted_concat(seq![Block::OpenArray], objects.map_values(f));
    lemma_accepted_concat(front, seq![Block::CloseArray]);
    if forall|i: int| 0 <= i < objects.len() ==> json_text(#[trigger] objects[i]) {
        lemma_all_json(objects);
    }
}

/// The text of a bracket that may be missing.
pub open spec fn bracket(c: char, there: bool) -> Seq<char> {
    if there {
        seq![c]
    } else {
        Seq::empty()
    }
}

/// The message of a bracket that may be missing.
pub open spec fn bracket_message(c: char, there: bool) -> Seq<Seq<char>> {
    if there {
        seq![seq![c]]
    } else {
        Seq::empty()
    }
}

/// The brackets are optional: objects, with filler at every gap, are messages with or without
/// a bracket in front of them or behind them.
pub proof fn law_optional_brackets(
    before: Seq<char>,
    opened: bool,
    objects: Seq<Seq<char>>,
    fills: Seq<Seq<char>>,
    closed: bool,
    after: Seq<char>,
)
    requires
        filler(before),
        filler(after),
        fills.len() == objects.len() + 1,
        forall|i: int| 0 <= i < fills.len() ==> filler(#[trigger] fills[i]),
        forall|i: int| 0 <= i < objects.len() ==> is_object(#[trigger] objects[i]),
    ensures
        messages(
            before + bracket('[', opened) + spaced(objects, fills) + bracket(']', closed) + after,
        ) == bracket_message('[', opened) + json_objects(objects) + bracket_message(']', closed),
{
    let f = |object: Seq<char>| Block::Object(object);
    let list = spaced(objects, fills);
    lemma_spaced(objects, fills);
    assert(filler(fills[fills.len() - 1]));
    let t1 = before + bracket('[', opened);
    lemma_only_filler(before);
    lemma_bracket_behind(before, '[', opened);
    let t2 = t1 + list;
    law_split_blocks(t1, list);
    law_filler(rest(t1), list);
    assert(filler(rest(t2)));
    let t3 = t2 + bracket(']', closed);
    lemma_bracket_behind(t2, ']', closed);
    law_split_blocks(t3, after);
    lemma_only_filler(rest(t3) + after);
    lemma_accepted_concat(blocks(t3), Seq::empty());
    lemma_accepted_concat(blocks(t1), objects.map_values(f));
    lemma_accepted_objects(objects);
    assert(messages(t3 + after) =~= messages(t3));
    assert(messages(t1) =~= bracket_message('[', opened));
}

/// A bracket behind filler adds its message, and what is left is filler again.
proof fn lemma_bracket_behind(text: Seq<char>, c: char, there: bool)
    requires
        c == '[' || c == ']',
        filler(rest(text)),
    ensures
        messages(text + bracket(c, there)) == messages(text) + bracket_message(c, there),
        filler(rest(text + bracket(c, there))),
{
    if there {
        lemma_bracket(c);
        law_split_blocks(text, seq![c]);
        law_filler(rest(text), seq![c]);
        lemma_accepted_concat(blocks(text), blocks(seq![c]));
        lemma_accepted_bracket(blocks(seq![c])[0]);
        assert(blocks(seq![c]) =~= seq![blocks(seq![c])[0]]);
    } else {
        assert(text + bracket(c, there) =~= text);
        assert(messages(text) + bracket_message(c, there) =~= messages(text));
    }
}

proof fn lemma_bracket(c: char)
    requires
        c == '[' || c == ']',
    ensures
        blocks(seq![c]) == if c == '[' {
            seq![Block::<Seq<char>>::OpenArray]
        } else {
            seq![Block::<Seq<char>>::CloseArray]
        },
        rest(seq![c]) == Seq::<char>::empty(),
{
    let text = seq![c];
    assert(place_at(text, 0) == Place::Bare);
    assert(depth_at(text, 0) == 0);
    assert(blocks_before(text, 0) =~= Seq::<Block<Seq<char>>>::empty());
    assert(ends_block(text, 0));
    assert(blocks(text) =~= blocks_before(text, 0).push(block_at(text, 0)));
    assert(rest(text) =~= Seq::<char>::empty());
}

} // verus!
