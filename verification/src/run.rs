//! Whole runs of a stream, from the request to the last message.

use vstd::prelude::*;
use vstd::utf8::encode_utf8;

use crate::decode::{decoded, law_empty_chunk, law_split_chunk, law_whole_text};
use crate::delimited;
use crate::error::{canonical_phrase, refused, success, ErrorView};
use crate::json_array;
use crate::json_tokens::{are_tokens, balanced, braced, law_braced, Token};
use crate::text::{blank, continued};
use crate::web_stream::{
    framed_messages, framed_rest, fresh, law_step_keeps_valid, step, valid, Action, Event, Framing,
    State,
};

verus! {

/// Whether `event` can be the outcome of `action`.
pub open spec fn answers(action: Action, event: Event) -> bool {
    match action {
        Action::SendRequest => event is NotReady || event is Response || event is ResponseFailed,
        Action::PollResponse => event is NotReady || event is Response || event is ResponseFailed
            || event is ErrorBody,
        Action::ReadErrorBody => event is NotReady || event is ErrorBody,
        Action::PollBody => event is NotReady || event is Chunk || event is BodyFailed
            || event is BodyEnded,
        _ => event is Poll,
    }
}

/// A run of a stream: its state, what it asked for last, and the messages it has handed out.
pub struct Run {
    pub state: State,
    pub action: Action,
    pub yielded: Seq<Seq<char>>,
}

/// The run of a new stream through `events`.
pub open spec fn run(framing: Framing, events: Seq<Event>) -> Run
    decreases events.len(),
{
    if events.len() == 0 {
        Run { state: fresh(framing), action: Action::Wait, yielded: Seq::empty() }
    } else {
        let before = run(framing, events.drop_last());
        let (state, action) = step(before.state, events.last());
        Run {
            state,
            action,
            yielded: match action {
                Action::Yield(message) => before.yielded.push(message),
                _ => before.yielded,
            },
        }
    }
}

/// The status of a refused response whose body is being read as an error.
pub open spec fn refusal(events: Seq<Event>) -> Option<u16>
    decreases events.len(),
{
    if events.len() == 0 {
        None
    } else {
        match events.last() {
            Event::Response(status) => if success(status) {
                None
            } else {
                Some(status)
            },
            Event::ErrorBody(_, _) => None,
            _ => refusal(events.drop_last()),
        }
    }
}

/// Each event is an outcome of what the stream asked for, and the consumer polls in between.
/// The body of a refused response is read once the response has come, and nothing else comes
/// of the request then. No chunk comes behind the end of the body.
pub open spec fn orderly(framing: Framing, events: Seq<Event>) -> bool
    decreases events.len(),
{
    events.len() == 0 || {
        let front = events.drop_last();
        &&& orderly(framing, front)
        &&& answers(run(framing, front).action, events.last())
        &&& events.last() is Response || events.last() is ResponseFailed ==> refusal(front) is None
        &&& events.last() matches Event::ErrorBody(status, _) ==> refusal(front) == Some(status)
        &&& events.last() is Chunk ==> !ended(front)
    }
}

/// A response of success has come.
pub open spec fn opened(events: Seq<Event>) -> bool
    decreases events.len(),
{
    events.len() > 0 && ((events.last() matches Event::Response(status) && success(status))
        || opened(events.drop_last()))
}

/// Whether `action` hands an item to the consumer.
pub open spec fn is_item(action: Action) -> bool {
    action is Yield || action is Fail || action is FailTransport
}

/// The items handed to the consumer, messages and errors, in order.
pub open spec fn handed_out(framing: Framing, events: Seq<Event>) -> Seq<Action>
    decreases events.len(),
{
    if events.len() == 0 {
        Seq::empty()
    } else if is_item(run(framing, events).action) {
        handed_out(framing, events.drop_last()).push(run(framing, events).action)
    } else {
        handed_out(framing, events.drop_last())
    }
}

/// The messages among the items.
pub open spec fn messages_among(items: Seq<Action>) -> Seq<Seq<char>>
    decreases items.len(),
{
    if items.len() == 0 {
        Seq::empty()
    } else {
        match items.last() {
            Action::Yield(message) => messages_among(items.drop_last()).push(message),
            _ => messages_among(items.drop_last()),
        }
    }
}

/// The item that a request comes to which is not granted: the error for a refused response,
/// or the transport's own. None, where neither has come.
pub open spec fn failure(events: Seq<Event>) -> Seq<Action>
    decreases events.len(),
{
    if events.len() == 0 {
        Seq::empty()
    } else {
        match events.last() {
            Event::ErrorBody(status, body) => seq![
                Action::Fail(refused(status, canonical_phrase(status), body)),
            ],
            Event::ResponseFailed => seq![Action::FailTransport],
            _ => failure(events.drop_last()),
        }
    }
}

/// Nothing goes wrong: no failed request, no refused response, no failed body, and no chunk
/// that does not decode.
pub open spec fn untroubled(events: Seq<Event>) -> bool
    decreases events.len(),
{
    events.len() == 0 || {
        let front = events.drop_last();
        &&& untroubled(front)
        &&& match events.last() {
            Event::Response(status) => success(status),
            Event::ResponseFailed => false,
            Event::BodyFailed => false,
            Event::Chunk(bytes) => decoded(received(front).1, bytes) is Ok,
            _ => true,
        }
    }
}

/// The body has ended.
pub open spec fn ended(events: Seq<Event>) -> bool
    decreases events.len(),
{
    events.len() > 0 && (events.last() is BodyEnded || ended(events.drop_last()))
}

/// The bytes of the body, in the order in which their chunks came.
pub open spec fn body_bytes(events: Seq<Event>) -> Seq<u8>
    decreases events.len(),
{
    if events.len() == 0 {
        Seq::empty()
    } else {
        match events.last() {
            Event::Chunk(bytes) => body_bytes(events.drop_last()) + bytes,
            _ => body_bytes(events.drop_last()),
        }
    }
}

/// The text that came out of the chunks, and the bytes carried behind it. A chunk that does
/// not decode is passed over, with what was carried into it, and the end of the body drops
/// what is carried.
pub open spec fn received(events: Seq<Event>) -> (Seq<char>, Seq<u8>)
    decreases events.len(),
{
    if events.len() == 0 {
        (Seq::empty(), Seq::empty())
    } else {
        let (text, carry) = received(events.drop_last());
        match events.last() {
            Event::Chunk(bytes) => match decoded(carry, bytes) {
                Ok((more, rest)) => (text + more, rest),
                Err(_) => (text, Seq::empty()),
            },
            Event::BodyEnded => (text, Seq::empty()),
            _ => (text, carry),
        }
    }
}

/// The text that came out of the chunks.
pub open spec fn body_text(events: Seq<Event>) -> Seq<char> {
    received(events).0
}

/// How often the request was sent.
pub open spec fn times_sent(framing: Framing, events: Seq<Event>) -> nat
    decreases events.len(),
{
    if events.len() == 0 {
        0
    } else if run(framing, events).action is SendRequest {
        times_sent(framing, events.drop_last()) + 1
    } else {
        times_sent(framing, events.drop_last())
    }
}

/// What an unfinished text comes to: itself, or, in an array, itself without the white
/// space in front.
pub open spec fn essence(framing: Framing, text: Seq<char>) -> Seq<char> {
    match framing {
        Framing::Delimiter(_) => text,
        Framing::PrettyJsonArray => json_array::stripped(text),
    }
}

/// The message handed out at the end of a body with this text: the unfinished one, unless
/// nothing is left. In an array, white space in front of it may be missing.
pub open spec fn is_tail(framing: Framing, text: Seq<char>, tail: Seq<Seq<char>>) -> bool {
    let left = essence(framing, json_array::kept_text(framed_rest(framing, text)));
    if left.len() == 0 {
        tail.len() == 0
    } else {
        tail.len() == 1 && essence(framing, tail[0]) == left
    }
}

/// The stream waits for the outcome of something, or has nothing more to do.
spec fn asks(action: Action) -> bool {
    action is SendRequest || action is PollResponse || action is ReadErrorBody || action is PollBody
        || action is Finish
}

/// What holds of every orderly run.
spec fn holds(framing: Framing, events: Seq<Event>) -> bool {
    let now = run(framing, events);
    let state = now.state;
    let text = body_text(events);
    let out = now.yielded + state.queue;
    let kept = json_array::kept_text(state.partial);
    &&& state.framing == framing
    &&& asks(now.action) ==> state.queue.len() == 0
    &&& now.action is PollBody ==> state.body
    &&& now.action is Finish ==> !state.body
    &&& framing is PrettyJsonArray ==> (state.partial matches Some(partial) ==> !blank(partial))
    &&& if ended(events) {
        &&& state.partial is None
        &&& exists|tail: Seq<Seq<char>>| #[trigger]
            is_tail(framing, text, tail) && out == framed_messages(framing, text) + tail
    } else {
        &&& text.len() > 0 ==> state.body
        &&& state.carry == received(events).1
        &&& out == framed_messages(framing, text)
        &&& essence(framing, kept) == essence(
            framing,
            json_array::kept_text(framed_rest(framing, text)),
        )
    }
}

/// An empty text has no message and leaves nothing.
proof fn lemma_empty_text(framing: Framing)
    ensures
        framed_messages(framing, Seq::empty()) == Seq::<Seq<char>>::empty(),
        essence(framing, json_array::kept_text(framed_rest(framing, Seq::empty()))) == Seq::<
            char,
        >::empty(),
        is_tail(framing, Seq::empty(), Seq::empty()),
{
    let nothing = Seq::<char>::empty();
    match framing {
        Framing::Delimiter(delimiter) => {
            delimited::lemma_empty_text(delimiter);
        },
        Framing::PrettyJsonArray => {
            assert(json_array::blocks(nothing) =~= Seq::<json_array::Block<Seq<char>>>::empty());
            assert(json_array::rest(nothing) =~= nothing);
            assert(json_array::messages(nothing) =~= Seq::<Seq<char>>::empty());
        },
    }
}

/// Text that comes behind an unfinished one adds the messages that it completes.
proof fn lemma_more_text(
    framing: Framing,
    text: Seq<char>,
    kept: Option<Seq<char>>,
    more: Seq<char>,
)
    requires
        essence(framing, json_array::kept_text(kept)) == essence(
            framing,
            json_array::kept_text(framed_rest(framing, text)),
        ),
    ensures
        framed_messages(framing, text + more) == framed_messages(framing, text) + framed_messages(
            framing,
            continued(kept, more),
        ),
        essence(framing, json_array::kept_text(framed_rest(framing, text + more))) == essence(
            framing,
            json_array::kept_text(framed_rest(framing, continued(kept, more))),
        ),
{
    let front = json_array::kept_text(kept);
    assert(continued(kept, more) =~= front + more);
    match framing {
        Framing::Delimiter(delimiter) => {
            delimited::law_split_text(text, more, delimiter);
        },
        Framing::PrettyJsonArray => {
            let rest = json_array::kept_text(json_array::kept_rest(json_array::rest(text)));
            json_array::law_split_array(text, more);
            json_array::law_white_space_in_front(front, rest, more);
            json_array::lemma_kept_rest(json_array::rest(text + more));
            json_array::lemma_kept_rest(json_array::rest(front + more));
        },
    }
}

#[verifier::spinoff_prover]
proof fn lemma_chunk(framing: Framing, events: Seq<Event>, bytes: Seq<u8>)
    requires
        events.len() > 0,
        events.last() == Event::Chunk(bytes),
        orderly(framing, events),
        holds(framing, events.drop_last()),
    ensures
        holds(framing, events),
{
    let front = events.drop_last();
    let before = run(framing, front);
    let state = before.state;
    let text = body_text(front);
    let after = run(framing, events);
    assert(before.yielded + state.queue =~= before.yielded);
    match decoded(state.carry, bytes) {
        Err(_) => {
            assert(after.yielded + after.state.queue =~= before.yielded);
        },
        Ok((more, _)) => {
            if more.len() == 0 {
                assert(text + more =~= text);
                assert(after.yielded + after.state.queue =~= before.yielded);
            } else {
                lemma_more_text(framing, text, state.partial, more);
                let found = framed_messages(framing, continued(state.partial, more));
                assert(after.yielded + after.state.queue =~= before.yielded + found);
            }
        },
    }
}

proof fn lemma_end(framing: Framing, events: Seq<Event>)
    requires
        events.len() > 0,
        events.last() == Event::BodyEnded,
        orderly(framing, events),
        holds(framing, events.drop_last()),
    ensures
        holds(framing, events),
{
    let front = events.drop_last();
    let before = run(framing, front);
    let state = before.state;
    let text = body_text(front);
    let after = run(framing, events);
    assert(before.yielded + state.queue =~= before.yielded);
    if ended(front) {
        let tail = choose|tail: Seq<Seq<char>>| #[trigger]
            is_tail(framing, text, tail) && before.yielded + state.queue == framed_messages(
                framing,
                text,
            ) + tail;
        assert(after.yielded + after.state.queue =~= before.yielded);
        assert(is_tail(framing, text, tail));
    } else {
        let kept = json_array::kept_text(state.partial);
        if framing is PrettyJsonArray {
            json_array::lemma_stripped_blank(kept);
        }
        if kept.len() > 0 {
            let tail = seq![kept];
            assert(is_tail(framing, text, tail));
            assert(after.yielded + after.state.queue =~= framed_messages(framing, text) + tail);
        } else {
            let tail = Seq::<Seq<char>>::empty();
            assert(is_tail(framing, text, tail));
            assert(after.yielded + after.state.queue =~= framed_messages(framing, text) + tail);
        }
    }
}

proof fn lemma_holds(framing: Framing, events: Seq<Event>)
    requires
        orderly(framing, events),
    ensures
        holds(framing, events),
    decreases events.len(),
{
    if events.len() == 0 {
        lemma_empty_text(framing);
        assert(run(framing, events).yielded + run(framing, events).state.queue =~= Seq::<
            Seq<char>,
        >::empty());
    } else {
        let front = events.drop_last();
        match events.last() {
            Event::Chunk(bytes) => {
                lemma_holds(framing, front);
                lemma_chunk(framing, events, bytes);
            },
            Event::BodyEnded => {
                lemma_holds(framing, front);
                lemma_end(framing, events);
            },
            _ => {
                lemma_holds(framing, front);
                let before = run(framing, front);
                let after = run(framing, events);
                assert(after.yielded + after.state.queue =~= before.yielded + before.state.queue);
            },
        }
    }
}

/// A body in which no byte is invalid comes out as the text of its bytes, however it was cut
/// into chunks. A character that its end cuts off is not part of the text.
pub proof fn law_text_of_body(framing: Framing, events: Seq<Event>)
    requires
        orderly(framing, events),
        decoded(Seq::empty(), body_bytes(events)) is Ok,
    ensures
        decoded(Seq::empty(), body_bytes(events)) matches Ok((text, carry)) ==> {
            &&& body_text(events) == text
            &&& !ended(events) ==> received(events).1 == carry
        },
    decreases events.len(),
{
    if events.len() == 0 {
        law_empty_chunk(Seq::empty());
    } else {
        let front = events.drop_last();
        if let Event::Chunk(bytes) = events.last() {
            law_split_chunk(Seq::empty(), body_bytes(front), bytes);
        }
        law_text_of_body(framing, front);
    }
}

/// A body that is the encoding of a text comes out as that text.
pub proof fn law_encoded_body(framing: Framing, events: Seq<Event>, text: Seq<char>)
    requires
        orderly(framing, events),
        body_bytes(events) == encode_utf8(text),
    ensures
        body_text(events) == text,
{
    assert(Seq::<u8>::empty() + body_bytes(events) =~= encode_utf8(text));
    law_whole_text(Seq::empty(), body_bytes(events), text);
    law_text_of_body(framing, events);
}

/// Every state of a run is valid.
pub proof fn law_states_valid(framing: Framing, events: Seq<Event>)
    ensures
        valid(run(framing, events).state),
    decreases events.len(),
{
    if events.len() > 0 {
        law_states_valid(framing, events.drop_last());
        law_step_keeps_valid(run(framing, events.drop_last()).state, events.last());
    }
}

/// Whatever the chunks of a body are, and however the consumer polls, the messages handed
/// out so far and those that wait are the messages of the text so far, in order. None is
/// lost, none comes twice.
pub proof fn law_messages_in_order(framing: Framing, events: Seq<Event>)
    requires
        orderly(framing, events),
        !ended(events),
    ensures
        run(framing, events).yielded + run(framing, events).state.queue == framed_messages(
            framing,
            body_text(events),
        ),
{
    lemma_holds(framing, events);
}

/// A stream that has come to its end has handed out the messages of the body's text, in
/// order, and behind them the unfinished one, if there was any.
pub proof fn law_whole_run(framing: Framing, events: Seq<Event>)
    requires
        orderly(framing, events),
        run(framing, events).action is Finish,
    ensures
        exists|tail: Seq<Seq<char>>| #[trigger]
            is_tail(framing, body_text(events), tail) && run(framing, events).yielded
                == framed_messages(framing, body_text(events)) + tail,
{
    lemma_holds(framing, events);
    let now = run(framing, events);
    let text = body_text(events);
    assert(now.yielded + now.state.queue =~= now.yielded);
    if !ended(events) {
        assert(text =~= Seq::<char>::empty());
        lemma_empty_text(framing);
        assert(is_tail(framing, text, Seq::empty()));
        assert(now.yielded =~= framed_messages(framing, text) + Seq::<Seq<char>>::empty());
    }
}

/// With a delimiter, the items of a whole run are the messages and then the text behind the
/// last delimiter, unless it is empty.
pub proof fn law_whole_delimited_run(delimiter: Seq<char>, events: Seq<Event>)
    requires
        orderly(Framing::Delimiter(delimiter), events),
        run(Framing::Delimiter(delimiter), events).action is Finish,
    ensures
        ({
            let text = body_text(events);
            let tail = delimited::unfinished(text, delimiter);
            run(Framing::Delimiter(delimiter), events).yielded == delimited::messages(
                text,
                delimiter,
            ) + if tail.len() > 0 {
                seq![tail]
            } else {
                Seq::empty()
            }
        }),
{
    let framing = Framing::Delimiter(delimiter);
    law_whole_run(framing, events);
    let text = body_text(events);
    let unfinished = delimited::unfinished(text, delimiter);
    let tail = choose|tail: Seq<Seq<char>>| #[trigger]
        is_tail(framing, text, tail) && run(framing, events).yielded == framed_messages(
            framing,
            text,
        ) + tail;
    if unfinished.len() > 0 {
        assert(tail =~= seq![unfinished]);
    } else {
        assert(tail =~= Seq::<Seq<char>>::empty());
    }
}

/// With a delimiter, no message that is handed out or waits holds it, the unfinished one at
/// the end included.
pub proof fn law_no_delimiter_in_messages(delimiter: Seq<char>, events: Seq<Event>, k: int)
    requires
        delimiter.len() > 0,
        orderly(Framing::Delimiter(delimiter), events),
        ({
            let now = run(Framing::Delimiter(delimiter), events);
            0 <= k < (now.yielded + now.state.queue).len()
        }),
    ensures
        ({
            let now = run(Framing::Delimiter(delimiter), events);
            forall|j: int|
                !delimited::matches_at((now.yielded + now.state.queue)[k], delimiter, j)
        }),
{
    let framing = Framing::Delimiter(delimiter);
    let text = body_text(events);
    let found = delimited::messages(text, delimiter);
    let now = run(framing, events);
    let out = now.yielded + now.state.queue;
    lemma_holds(framing, events);
    if k < found.len() {
        delimited::law_messages_hold_no_delimiter(text, delimiter, k);
    } else {
        assert(out[k] == delimited::unfinished(text, delimiter));
        delimited::lemma_parts_not_empty(text, delimiter);
        delimited::law_parts_hold_no_delimiter(
            text,
            delimiter,
            delimited::parts(text, delimiter).len() - 1,
        );
    }
}

/// The items of a whole run over an array of objects, however it is printed and however the
/// body was cut into chunks, are `[`, each object in order, and `]`. Objects that are not JSON
/// are left out.
pub proof fn law_whole_array_run(
    before: Seq<char>,
    objects: Seq<Seq<char>>,
    fills: Seq<Seq<char>>,
    after: Seq<char>,
    events: Seq<Event>,
)
    requires
        orderly(Framing::PrettyJsonArray, events),
        run(Framing::PrettyJsonArray, events).action is Finish,
        blank(before),
        blank(after),
        fills.len() == objects.len() + 1,
        forall|i: int| 0 <= i < fills.len() ==> json_array::filler(#[trigger] fills[i]),
        forall|i: int| 0 <= i < objects.len() ==> json_array::is_object(#[trigger] objects[i]),
        body_text(events) == json_array::array_text(before, objects, fills, after),
    ensures
        run(Framing::PrettyJsonArray, events).yielded == seq![seq!['[']]
            + json_array::json_objects(objects) + seq![seq![']']],
        (forall|i: int| 0 <= i < objects.len() ==> json_array::json_text(#[trigger] objects[i]))
            ==> run(Framing::PrettyJsonArray, events).yielded == seq![seq!['[']] + objects + seq![
            seq![']'],
        ],
{
    let framing = Framing::PrettyJsonArray;
    let text = body_text(events);
    json_array::lemma_blank_is_filler(before);
    json_array::lemma_blank_is_filler(after);
    json_array::law_pretty_array(before, objects, fills, after);
    law_whole_run(framing, events);
    let tail = choose|tail: Seq<Seq<char>>| #[trigger]
        is_tail(framing, text, tail) && run(framing, events).yielded == framed_messages(
            framing,
            text,
        ) + tail;
    assert(tail =~= Seq::<Seq<char>>::empty());
    assert(run(framing, events).yielded =~= framed_messages(framing, text));
}

/// The request is sent at most once.
pub proof fn law_sent_once(framing: Framing, events: Seq<Event>)
    ensures
        times_sent(framing, events) + (if run(framing, events).state.request {
            1int
        } else {
            0
        }) == 1,
    decreases events.len(),
{
    if events.len() > 0 {
        law_sent_once(framing, events.drop_last());
    }
}

/// What holds of the request and of what comes of it in every orderly run.
spec fn request_holds(framing: Framing, events: Seq<Event>) -> bool {
    let now = run(framing, events);
    let state = now.state;
    let action = now.action;
    &&& state.request <==> events.len() == 0
    &&& state.response ==> !state.request && !state.body
    &&& state.body ==> opened(events)
    &&& action is SendRequest || action is PollResponse || action is ReadErrorBody
        ==> state.response
    &&& action is PollBody ==> state.body
    &&& action is Finish ==> !state.request && !state.response && !state.body
    &&& refusal(events) is Some ==> !opened(events) && state.response
    &&& if opened(events) {
        &&& !state.response
        &&& !ended(events) ==> state.body
    } else {
        &&& !ended(events)
        &&& state.queue.len() == 0
        &&& state.partial is None
        &&& handed_out(framing, events) == failure(events)
        &&& failure(events).len() == if state.request || state.response {
            0nat
        } else {
            1
        }
    }
}

#[verifier::spinoff_prover]
proof fn lemma_request_holds(framing: Framing, events: Seq<Event>)
    requires
        orderly(framing, events),
    ensures
        request_holds(framing, events),
    decreases events.len(),
{
    if events.len() > 0 {
        let front = events.drop_last();
        lemma_request_holds(framing, front);
        if !opened(events) {
            assert(handed_out(framing, events) =~= failure(events));
        }
    }
}

/// One thing at a time: the request waits to be sent, or the response is awaited, or the
/// body is read, or none of these.
pub proof fn law_one_at_a_time(framing: Framing, events: Seq<Event>)
    requires
        orderly(framing, events),
    ensures
        ({
            let state = run(framing, events).state;
            &&& state.request ==> !state.response && !state.body
            &&& state.response ==> !state.body
        }),
{
    lemma_request_holds(framing, events);
}

/// The first thing a stream does is to send its request.
pub proof fn law_request_first(framing: Framing, events: Seq<Event>)
    requires
        orderly(framing, events),
        events.len() == 1,
    ensures
        events[0] is Poll,
        run(framing, events).action is SendRequest,
{
    assert(events.drop_last().len() == 0);
    assert(events.last() == events[0]);
}

/// A stream comes to its end only once the body has ended, or the request was refused or
/// failed.
pub proof fn law_finish_after_answer(framing: Framing, events: Seq<Event>)
    requires
        orderly(framing, events),
        run(framing, events).action is Finish,
    ensures
        (opened(events) && ended(events)) || (!opened(events) && failure(events).len() == 1),
{
    lemma_request_holds(framing, events);
}

/// The messages among the items handed out are the messages of the run.
pub proof fn law_messages_among_items(framing: Framing, events: Seq<Event>)
    ensures
        messages_among(handed_out(framing, events)) == run(framing, events).yielded,
    decreases events.len(),
{
    if events.len() > 0 {
        law_messages_among_items(framing, events.drop_last());
        let items = handed_out(framing, events);
        if is_item(run(framing, events).action) {
            assert(items.drop_last() =~= handed_out(framing, events.drop_last()));
        }
    }
}

/// Where nothing goes wrong, no error is handed out: the items are the messages.
pub proof fn law_untroubled_run(framing: Framing, events: Seq<Event>)
    requires
        orderly(framing, events),
        untroubled(events),
    ensures
        handed_out(framing, events) == run(framing, events).yielded.map_values(
            |message: Seq<char>| Action::Yield(message),
        ),
        refusal(events) is None,
    decreases events.len(),
{
    let f = |message: Seq<char>| Action::Yield(message);
    if events.len() == 0 {
        assert(handed_out(framing, events) =~= run(framing, events).yielded.map_values(f));
    } else {
        let front = events.drop_last();
        law_untroubled_run(framing, front);
        lemma_holds(framing, front);
        assert(handed_out(framing, events) =~= run(framing, events).yielded.map_values(f));
    }
}

/// Until a response of success has come, the consumer is handed nothing but the error that
/// the request comes to. That error is one item, and no message waits.
pub proof fn law_before_success(framing: Framing, events: Seq<Event>)
    requires
        orderly(framing, events),
        !opened(events),
    ensures
        handed_out(framing, events) == failure(events),
        failure(events).len() <= 1,
        run(framing, events).yielded.len() == 0,
        run(framing, events).state.queue.len() == 0,
{
    lemma_request_holds(framing, events);
    law_messages_among_items(framing, events);
    lemma_failure_no_message(events);
}

proof fn lemma_failure_no_message(events: Seq<Event>)
    ensures
        messages_among(failure(events)).len() == 0,
    decreases events.len(),
{
    if events.len() > 0 {
        lemma_failure_no_message(events.drop_last());
        if events.last() is ErrorBody || events.last() is ResponseFailed {
            assert(failure(events).drop_last().len() == 0);
            assert(messages_among(failure(events).drop_last()).len() == 0);
        }
    }
}

/// A response with a status that is no success has its body read as an error.
pub proof fn law_refused_response(framing: Framing, events: Seq<Event>, status: u16)
    requires
        orderly(framing, events.push(Event::Response(status))),
        !success(status),
    ensures
        run(framing, events.push(Event::Response(status))).action is ReadErrorBody,
        handed_out(framing, events.push(Event::Response(status))).len() == 0,
        refusal(events.push(Event::Response(status))) == Some(status),
{
    let all = events.push(Event::Response(status));
    assert(all.drop_last() =~= events);
    lemma_request_holds(framing, all);
}

/// A refused request is answered with one item, an error that holds the status of the
/// response, its usual phrase, or `Unknown` where it has none, and the body, or why it could
/// not be read. Behind it there is no further item.
pub proof fn law_refused_request(
    framing: Framing,
    events: Seq<Event>,
    status: u16,
    body: Result<Seq<char>, Seq<char>>,
)
    requires
        orderly(framing, events.push(Event::ErrorBody(status, body))),
    ensures
        ({
            let all = events.push(Event::ErrorBody(status, body));
            let error = Action::Fail(refused(status, canonical_phrase(status), body));
            &&& refusal(events) == Some(status)
            &&& run(framing, all).action == error
            &&& handed_out(framing, all) == seq![error]
            &&& run(framing, all.push(Event::Poll)).action is Finish
        }),
        ({
            let items = handed_out(framing, events.push(Event::ErrorBody(status, body)));
            &&& items.len() == 1
            &&& items[0] matches Action::Fail(
                ErrorView::HttpError { status: s, canonical_reason: r, body: b },
            ) && {
                &&& s == status
                &&& canonical_phrase(status) matches Some(p) ==> r == p
                &&& canonical_phrase(status) is None ==> r == "Unknown"@
                &&& body matches Ok(t) ==> b == t
                &&& body matches Err(e) ==> b == "Failed to read error body: "@ + e
            }
        }),
{
    let all = events.push(Event::ErrorBody(status, body));
    assert(all.drop_last() =~= events);
    assert(all.push(Event::Poll).drop_last() =~= all);
    lemma_request_holds(framing, events);
    lemma_request_holds(framing, all);
}

/// A request that fails is answered with one item, the transport's error. Behind it there is
/// no further item.
pub proof fn law_failed_request(framing: Framing, events: Seq<Event>)
    requires
        orderly(framing, events.push(Event::ResponseFailed)),
    ensures
        ({
            let all = events.push(Event::ResponseFailed);
            &&& run(framing, all).action is FailTransport
            &&& handed_out(framing, all) == seq![Action::FailTransport]
            &&& run(framing, all.push(Event::Poll)).action is Finish
        }),
{
    let all = events.push(Event::ResponseFailed);
    assert(all.drop_last() =~= events);
    assert(all.push(Event::Poll).drop_last() =~= all);
    lemma_request_holds(framing, events);
    lemma_request_holds(framing, all);
}

/// What is not ready makes the consumer wait. Neither that nor the poll behind it changes the
/// state or hands out an item, and the poll asks for the same again.
#[verifier::spinoff_prover]
pub proof fn law_not_ready(framing: Framing, events: Seq<Event>)
    requires
        orderly(framing, events.push(Event::NotReady)),
    ensures
        ({
            let waits = events.push(Event::NotReady);
            let again = waits.push(Event::Poll);
            &&& run(framing, waits).state == run(framing, events).state
            &&& run(framing, waits).action is Wait
            &&& handed_out(framing, waits) == handed_out(framing, events)
            &&& run(framing, again).state == run(framing, events).state
            &&& run(framing, again).action == if run(framing, events).action is PollBody {
                Action::PollBody
            } else {
                Action::PollResponse
            }
            &&& handed_out(framing, again) == handed_out(framing, events)
        }),
{
    let waits = events.push(Event::NotReady);
    let again = waits.push(Event::Poll);
    let state = run(framing, events).state;
    assert(waits.drop_last() =~= events);
    assert(again.drop_last() =~= waits);
    lemma_request_holds(framing, events);
    lemma_holds(framing, events);
    assert(state.queue.len() == 0);
    assert(run(framing, waits).state == state && run(framing, waits).action is Wait);
    assert(handed_out(framing, waits) == handed_out(framing, events));
    assert(step(state, Event::Poll).0 == state);
    assert(run(framing, again).state == state);
}

/// The events without those that were not ready, and without the polls behind them.
pub open spec fn without_waits(events: Seq<Event>) -> Seq<Event>
    decreases events.len(),
{
    let n = events.len() as int;
    if n == 0 {
        Seq::empty()
    } else if events[n - 1] is NotReady {
        without_waits(events.take(n - 1))
    } else if n >= 2 && events[n - 2] is NotReady {
        without_waits(events.take(n - 2))
    } else {
        without_waits(events.take(n - 1)).push(events[n - 1])
    }
}

proof fn lemma_without_waits(framing: Framing, events: Seq<Event>)
    requires
        orderly(framing, events),
    ensures
        run(framing, without_waits(events)).state == run(framing, events).state,
        run(framing, without_waits(events)).yielded == run(framing, events).yielded,
        handed_out(framing, without_waits(events)) == handed_out(framing, events),
    decreases events.len(),
{
    let n = events.len() as int;
    if n > 0 {
        let front = events.take(n - 1);
        assert(events.drop_last() =~= front);
        if events[n - 1] is NotReady {
            lemma_without_waits(framing, front);
        } else if n >= 2 && events[n - 2] is NotReady {
            let early = events.take(n - 2);
            assert(front.drop_last() =~= early);
            assert(early.push(Event::NotReady) =~= front);
            assert(orderly(framing, front));
            assert(orderly(framing, early));
            assert(run(framing, front).action is Wait);
            assert(front.push(Event::Poll) =~= events);
            lemma_without_waits(framing, early);
            law_not_ready(framing, early);
            assert(!is_item(run(framing, events).action));
        } else {
            lemma_without_waits(framing, front);
            let kept = without_waits(events);
            assert(kept.drop_last() =~= without_waits(front));
        }
    }
}

/// When things become ready does not matter: runs that differ only in what was not ready hand
/// out the same items and come to the same state.
pub proof fn law_waits_do_not_matter(framing: Framing, a: Seq<Event>, b: Seq<Event>)
    requires
        orderly(framing, a),
        orderly(framing, b),
        without_waits(a) == without_waits(b),
    ensures
        handed_out(framing, a) == handed_out(framing, b),
        run(framing, a).yielded == run(framing, b).yielded,
        run(framing, a).state == run(framing, b).state,
{
    lemma_without_waits(framing, a);
    lemma_without_waits(framing, b);
}

/// A stream that has come to its end has nothing left: no message waits and nothing is under
/// way. Whatever comes behind, the state stays, no item is handed out, and each poll is told
/// the end.
pub proof fn law_finish_is_final(framing: Framing, events: Seq<Event>, more: Seq<Event>)
    requires
        run(framing, events).action is Finish,
        orderly(framing, events + more),
    ensures
        ({
            let state = run(framing, events).state;
            &&& state.queue.len() == 0
            &&& !state.request && !state.response && !state.body
            &&& state.partial is None
        }),
        run(framing, events + more).action is Finish,
        run(framing, events + more).state == run(framing, events).state,
        handed_out(framing, events + more) == handed_out(framing, events),
    decreases more.len(),
{
    let all = events + more;
    if more.len() == 0 {
        assert(all =~= events);
        lemma_request_holds(framing, events);
        lemma_holds(framing, events);
    } else {
        assert(all.drop_last() =~= events + more.drop_last());
        assert(all.last() == more.last());
        law_finish_is_final(framing, events, more.drop_last());
    }
}

/// A request that is granted opens the body: it is polled for, and no item is handed out yet.
pub proof fn law_granted_request(framing: Framing, events: Seq<Event>, status: u16)
    requires
        orderly(framing, events.push(Event::Response(status))),
        200 <= status <= 299,
    ensures
        ({
            let all = events.push(Event::Response(status));
            &&& run(framing, all).action is PollBody
            &&& run(framing, all).state.body
            &&& handed_out(framing, all).len() == 0
            &&& run(framing, all).yielded.len() == 0
        }),
{
    let all = events.push(Event::Response(status));
    assert(all.drop_last() =~= events);
    lemma_request_holds(framing, events);
    law_before_success(framing, events);
}

/// `count` polls, one after the other.
pub open spec fn polls(count: nat) -> Seq<Event> {
    Seq::new(count, |i: int| Event::Poll)
}

/// Messages that wait are handed out by the next polls, one each, in order, however many they
/// are. Nothing else changes meanwhile. The polls are in order where the run was.
pub proof fn law_waiting_messages(framing: Framing, events: Seq<Event>, count: nat)
    requires
        count <= run(framing, events).state.queue.len(),
    ensures
        ({
            let before = run(framing, events);
            let after = run(framing, events + polls(count));
            let waiting = before.state.queue;
            &&& after.yielded == before.yielded + waiting.take(count as int)
            &&& after.state == (State { queue: waiting.skip(count as int), ..before.state })
            &&& handed_out(framing, events + polls(count)) == handed_out(framing, events)
                + waiting.take(count as int).map_values(
                |message: Seq<char>| Action::Yield(message),
            )
            &&& count > 0 ==> after.action == Action::Yield(waiting[count - 1])
            &&& orderly(framing, events) ==> orderly(framing, events + polls(count))
        }),
    decreases count,
{
    let f = |message: Seq<char>| Action::Yield(message);
    let before = run(framing, events);
    let waiting = before.state.queue;
    let all = events + polls(count);
    if count == 0 {
        assert(all =~= events);
        assert(before.yielded + waiting.take(0) =~= before.yielded);
        assert(waiting.skip(0) =~= waiting);
        assert(handed_out(framing, events) + waiting.take(0).map_values(f) =~= handed_out(
            framing,
            events,
        ));
    } else {
        let less = (count - 1) as nat;
        let front = events + polls(less);
        law_waiting_messages(framing, events, less);
        assert(all.drop_last() =~= front);
        assert(all.last() is Poll);
        let message = waiting[count - 1];
        assert(waiting.skip(count - 1)[0] == message);
        assert(waiting.skip(count - 1).skip(1) =~= waiting.skip(count as int));
        assert(waiting.take(count as int) =~= waiting.take(count - 1).push(message));
        assert((before.yielded + waiting.take(count - 1)).push(message) =~= before.yielded
            + waiting.take(count as int));
        assert(handed_out(framing, all) =~= handed_out(framing, events) + waiting.take(
            count as int,
        ).map_values(f));
        if orderly(framing, events) {
            lemma_holds(framing, front);
            assert(run(framing, front).state.queue.len() > 0);
        }
    }
}

/// All messages that wait are handed out by as many polls, and none waits then.
pub proof fn law_no_message_stays(framing: Framing, events: Seq<Event>)
    ensures
        ({
            let before = run(framing, events);
            let after = run(framing, events + polls(before.state.queue.len()));
            &&& after.yielded == before.yielded + before.state.queue
            &&& after.state.queue.len() == 0
        }),
{
    let waiting = run(framing, events).state.queue;
    law_waiting_messages(framing, events, waiting.len());
    assert(waiting.take(waiting.len() as int) =~= waiting);
}

/// The consumer is told to wait exactly when something was not ready.
pub proof fn law_wait_when_not_ready(framing: Framing, events: Seq<Event>)
    requires
        events.len() > 0,
    ensures
        run(framing, events).action is Wait <==> events.last() is NotReady,
{
}

/// A failed body is handed out as one item, the transport's error, whatever the stream holds.
/// The state stays as it is, and no message is handed out or lost.
pub proof fn law_failed_body(framing: Framing, events: Seq<Event>)
    ensures
        ({
            let all = events.push(Event::BodyFailed);
            &&& run(framing, all).action is FailTransport
            &&& run(framing, all).state == run(framing, events).state
            &&& run(framing, all).yielded == run(framing, events).yielded
            &&& handed_out(framing, all) == handed_out(framing, events).push(Action::FailTransport)
        }),
{
    assert(events.push(Event::BodyFailed).drop_last() =~= events);
}

/// A chunk that does not decode behind what is carried is handed out as one item, its error.
/// What is carried is dropped, what is unfinished and what waits stays, and no message is
/// handed out.
pub proof fn law_failed_chunk(framing: Framing, events: Seq<Event>, bytes: Seq<u8>)
    requires
        decoded(run(framing, events).state.carry, bytes) is Err,
    ensures
        ({
            let before = run(framing, events);
            let all = events.push(Event::Chunk(bytes));
            let error = Action::Fail(
                ErrorView::InvalidUtf8(decoded(before.state.carry, bytes)->Err_0),
            );
            &&& run(framing, all).action == error
            &&& run(framing, all).state == (State { carry: Seq::empty(), ..before.state })
            &&& run(framing, all).yielded == before.yielded
            &&& handed_out(framing, all) == handed_out(framing, events).push(error)
        }),
{
    assert(events.push(Event::Chunk(bytes)).drop_last() =~= events);
}

/// The errors that the events call for, in order: the transport's own for each failed request
/// and each failed body, the refusal for each body of a refused response, and the fault of
/// each chunk that does not decode behind what was carried into it.
pub open spec fn errors_of(events: Seq<Event>) -> Seq<Action>
    decreases events.len(),
{
    if events.len() == 0 {
        Seq::empty()
    } else {
        let front = errors_of(events.drop_last());
        match events.last() {
            Event::ResponseFailed => front.push(Action::FailTransport),
            Event::BodyFailed => front.push(Action::FailTransport),
            Event::ErrorBody(status, body) => front.push(
                Action::Fail(
                    ErrorView::HttpError {
                        status,
                        canonical_reason: match canonical_phrase(status) {
                            Some(phrase) => phrase,
                            None => "Unknown"@,
                        },
                        body: match body {
                            Ok(text) => text,
                            Err(reason) => "Failed to read error body: "@ + reason,
                        },
                    },
                ),
            ),
            Event::Chunk(bytes) => match decoded(received(events.drop_last()).1, bytes) {
                Err(fault) => front.push(Action::Fail(ErrorView::InvalidUtf8(fault))),
                Ok(_) => front,
            },
            _ => front,
        }
    }
}

/// Each thing that goes wrong is handed out as one error, in order, and no error is handed out
/// otherwise.
pub proof fn law_errors(framing: Framing, events: Seq<Event>)
    requires
        orderly(framing, events),
    ensures
        handed_out(framing, events).filter(|item: Action| item !is Yield) == errors_of(events),
    decreases events.len(),
{
    let wrong = |item: Action| item !is Yield;
    let items = handed_out(framing, events);
    reveal(Seq::filter);
    if events.len() == 0 {
        assert(items.filter(wrong) =~= errors_of(events));
    } else {
        let front = events.drop_last();
        law_errors(framing, front);
        lemma_holds(framing, front);
        if is_item(run(framing, events).action) {
            assert(items.drop_last() =~= handed_out(framing, front));
            assert(items.last() == run(framing, events).action);
        }
        lemma_error_step(framing, events);
        assert(items.filter(wrong) =~= errors_of(events));
    }
}

/// What the last event hands out is an error exactly where it calls for one.
proof fn lemma_error_step(framing: Framing, events: Seq<Event>)
    requires
        events.len() > 0,
        orderly(framing, events),
    ensures
        ({
            let action = run(framing, events).action;
            errors_of(events) == if is_item(action) && action !is Yield {
                errors_of(events.drop_last()).push(action)
            } else {
                errors_of(events.drop_last())
            }
        }),
{
    let front = events.drop_last();
    lemma_holds(framing, front);
    if events.last() is Chunk {
        assert(run(framing, front).state.carry == received(front).1);
    }
}

/// A chunk is made use of at once: the first message that it completes is handed out, and with
/// none the body is polled for again, unless the chunk does not decode.
pub proof fn law_chunk_at_once(framing: Framing, events: Seq<Event>, bytes: Seq<u8>)
    requires
        orderly(framing, events.push(Event::Chunk(bytes))),
    ensures
        ({
            let all = events.push(Event::Chunk(bytes));
            let before = framed_messages(framing, body_text(events));
            let after = framed_messages(framing, body_text(all));
            &&& before.is_prefix_of(after)
            &&& if after.len() > before.len() {
                run(framing, all).action == Action::Yield(after[before.len() as int])
            } else {
                run(framing, all).action is PollBody || run(framing, all).action is Fail
            }
        }),
{
    let all = events.push(Event::Chunk(bytes));
    assert(all.drop_last() =~= events);
    lemma_holds(framing, events);
    lemma_holds(framing, all);
    lemma_request_holds(framing, events);
    let before = run(framing, events);
    let after = run(framing, all);
    assert(before.yielded + before.state.queue =~= before.yielded);
    assert(framed_messages(framing, body_text(events)) =~= before.yielded);
    if after.action !is Yield {
        assert(after.state.queue.len() == 0);
        assert(after.yielded + after.state.queue =~= after.yielded);
    }
    assert(before.yielded =~= framed_messages(framing, body_text(all)).subrange(
        0,
        before.yielded.len() as int,
    ));
}

/// The end of a body ends the stream: what is unfinished is handed out first, and then there
/// is nothing more.
pub proof fn law_end_of_stream(framing: Framing, events: Seq<Event>)
    requires
        orderly(framing, events.push(Event::BodyEnded)),
    ensures
        ({
            let before = run(framing, events).state;
            let end = events.push(Event::BodyEnded);
            let again = end.push(Event::Poll);
            if before.partial is Some && before.partial->0.len() > 0 {
                &&& run(framing, end).action == Action::Yield(before.partial->0)
                &&& run(framing, again).action is PollBody
                &&& run(framing, again.push(Event::BodyEnded)).action is Finish
                &&& run(framing, again.push(Event::BodyEnded)).yielded == run(
                    framing,
                    events,
                ).yielded.push(before.partial->0)
            } else {
                &&& run(framing, end).action is Finish
                &&& run(framing, end).yielded == run(framing, events).yielded
            }
        }),
{
    let end = events.push(Event::BodyEnded);
    let again = end.push(Event::Poll);
    assert(end.drop_last() =~= events);
    assert(again.drop_last() =~= end);
    assert(again.push(Event::BodyEnded).drop_last() =~= again);
    lemma_holds(framing, events);
    lemma_request_holds(framing, events);
}

/// Texts that are each followed by the delimiter, encoded and sent in any chunks, come out as
/// the messages: each text that is not empty, as it is and in order, and what is behind the
/// last delimiter, unless it is empty.
pub proof fn law_sent_texts(
    texts: Seq<Seq<char>>,
    last: Seq<char>,
    delimiter: Seq<char>,
    events: Seq<Event>,
)
    requires
        delimiter.len() > 0,
        forall|k: int, j: int|
            0 <= k < texts.len() && 0 <= j < texts[k].len() ==> !delimiter.is_prefix_of(
                #[trigger] (texts[k] + delimiter).skip(j),
            ),
        forall|j: int|
            0 <= j <= last.len() ==> !delimiter.is_prefix_of(#[trigger] last.skip(j)),
        orderly(Framing::Delimiter(delimiter), events),
        run(Framing::Delimiter(delimiter), events).action is Finish,
        body_bytes(events) == encode_utf8(
            texts.map_values(|t: Seq<char>| t + delimiter).flatten() + last,
        ),
    ensures
        run(Framing::Delimiter(delimiter), events).yielded == texts.filter(
            |t: Seq<char>| t.len() > 0,
        ) + if last.len() > 0 {
            seq![last]
        } else {
            Seq::empty()
        },
{
    let text = texts.map_values(|t: Seq<char>| t + delimiter).flatten() + last;
    delimited::law_terminated_texts(texts, last, delimiter);
    law_encoded_body(Framing::Delimiter(delimiter), events, text);
    law_whole_delimited_run(delimiter, events);
}

/// An array of objects, whatever is in them and however it is printed, encoded and sent in any
/// chunks, comes out as `[`, each object that is JSON, as it is and in order, and `]`.
pub proof fn law_sent_array(
    before: Seq<char>,
    inners: Seq<Seq<Token>>,
    fills: Seq<Seq<char>>,
    after: Seq<char>,
    events: Seq<Event>,
)
    requires
        orderly(Framing::PrettyJsonArray, events),
        run(Framing::PrettyJsonArray, events).action is Finish,
        blank(before),
        blank(after),
        fills.len() == inners.len() + 1,
        forall|i: int| 0 <= i < fills.len() ==> json_array::filler(#[trigger] fills[i]),
        forall|i: int|
            0 <= i < inners.len() ==> are_tokens(#[trigger] inners[i]) && balanced(inners[i]),
        body_bytes(events) == encode_utf8(
            json_array::array_text(
                before,
                inners.map_values(|inner: Seq<Token>| braced(inner)),
                fills,
                after,
            ),
        ),
    ensures
        run(Framing::PrettyJsonArray, events).yielded == seq![seq!['[']] + inners.map_values(
            |inner: Seq<Token>| braced(inner),
        ).filter(|object: Seq<char>| json_array::json_text(object)) + seq![seq![']']],
{
    let objects = inners.map_values(|inner: Seq<Token>| braced(inner));
    assert forall|i: int| 0 <= i < objects.len() implies json_array::is_object(
        #[trigger] objects[i],
    ) by {
        assert(are_tokens(inners[i]));
        law_braced(inners[i]);
    }
    law_encoded_body(
        Framing::PrettyJsonArray,
        events,
        json_array::array_text(before, objects, fills, after),
    );
    law_whole_array_run(before, objects, fills, after, events);
}

} // verus!
