//! The stream of messages: what to do next, given what has come in.

use std::collections::VecDeque;

use vstd::prelude::*;

use crate::decode::{
    decode_chunk, decoded, is_carry, is_fault_of, law_no_byte_lost, InvalidUtf8,
};
use crate::delimited;
use crate::error::{
    body_view, canonical_phrase, http_error, is_success, refused, success, Error, ErrorView,
};
use crate::json_array;
use crate::response::BuffResponse;
use crate::text::{blank, continued, opt_view, views};

verus! {

/// How the messages of a body are told apart.
#[derive(Clone, Copy, Debug)]
pub enum StreamMode {
    /// By a delimiter behind each message, as a single `\n`.
    Delimiter(&'static str),
    /// As the items of a JSON array, which may be pretty-printed.
    PrettyJsonArray,
}

/// `StreamMode` over character sequences.
pub enum Framing {
    Delimiter(Seq<char>),
    PrettyJsonArray,
}

impl View for StreamMode {
    type V = Framing;

    open spec fn view(&self) -> Framing {
        match *self {
            StreamMode::Delimiter(delimiter) => Framing::Delimiter(delimiter@),
            StreamMode::PrettyJsonArray => Framing::PrettyJsonArray,
        }
    }
}

/// What has come in: the consumer's wish for an item, or the outcome of what the stream
/// asked for.
#[derive(Debug)]
pub enum StreamEvent {
    /// The consumer polls for the next item.
    Poll,
    /// What was asked for is not ready yet.
    NotReady,
    /// The response has come, with this status code.
    Response(u16),
    /// The body of a response with this status code was read, or could not be.
    ErrorBody(u16, Result<String, String>),
    /// The request failed.
    ResponseFailed,
    /// A chunk of the body has come.
    Chunk(Vec<u8>),
    /// The body failed.
    BodyFailed,
    /// The body has ended.
    BodyEnded,
}

/// `StreamEvent` over sequences.
pub enum Event {
    Poll,
    NotReady,
    Response(u16),
    ErrorBody(u16, Result<Seq<char>, Seq<char>>),
    ResponseFailed,
    Chunk(Seq<u8>),
    BodyFailed,
    BodyEnded,
}

impl View for StreamEvent {
    type V = Event;

    open spec fn view(&self) -> Event {
        match *self {
            StreamEvent::Poll => Event::Poll,
            StreamEvent::NotReady => Event::NotReady,
            StreamEvent::Response(status) => Event::Response(status),
            StreamEvent::ErrorBody(status, body) => Event::ErrorBody(status, body_view(body)),
            StreamEvent::ResponseFailed => Event::ResponseFailed,
            StreamEvent::Chunk(bytes) => Event::Chunk(bytes@),
            StreamEvent::BodyFailed => Event::BodyFailed,
            StreamEvent::BodyEnded => Event::BodyEnded,
        }
    }
}

/// What is to be done next.
#[derive(Debug)]
pub enum StreamAction {
    /// Send the request, and poll for its response.
    SendRequest,
    /// Poll for the response, or for the body that is being read as an error.
    PollResponse,
    /// Read the whole body of the response, and poll for it.
    ReadErrorBody,
    /// Poll for the next chunk of the body.
    PollBody,
    /// Tell the consumer to come back later.
    Wait,
    /// Hand this message to the consumer.
    Yield(String),
    /// Hand this error to the consumer.
    Fail(Error),
    /// Hand the error that came in to the consumer.
    FailTransport,
    /// Tell the consumer that there is no further item.
    Finish,
}

/// `StreamAction` over sequences.
pub enum Action {
    SendRequest,
    PollResponse,
    ReadErrorBody,
    PollBody,
    Wait,
    Yield(Seq<char>),
    Fail(ErrorView),
    FailTransport,
    Finish,
}

impl View for StreamAction {
    type V = Action;

    open spec fn view(&self) -> Action {
        match *self {
            StreamAction::SendRequest => Action::SendRequest,
            StreamAction::PollResponse => Action::PollResponse,
            StreamAction::ReadErrorBody => Action::ReadErrorBody,
            StreamAction::PollBody => Action::PollBody,
            StreamAction::Wait => Action::Wait,
            StreamAction::Yield(message) => Action::Yield(message@),
            StreamAction::Fail(error) => Action::Fail(error@),
            StreamAction::FailTransport => Action::FailTransport,
            StreamAction::Finish => Action::Finish,
        }
    }
}

/// What a `WebStream` holds.
#[verifier::ext_equal]
pub struct State {
    /// How messages are told apart.
    pub framing: Framing,
    /// The request has not been sent yet.
    pub request: bool,
    /// A response, or the body of a refused one, is awaited.
    pub response: bool,
    /// The body is being read.
    pub body: bool,
    /// The text of an unfinished message.
    pub partial: Option<Seq<char>>,
    /// Finished messages that wait for the consumer.
    pub queue: Seq<Seq<char>>,
    /// The bytes of a character that a chunk's end cut off.
    pub carry: Seq<u8>,
}

/// The state of a stream whose request has not been sent.
pub open spec fn fresh(framing: Framing) -> State {
    State {
        framing,
        request: true,
        response: false,
        body: false,
        partial: None,
        queue: Seq::empty(),
        carry: Seq::empty(),
    }
}

/// The messages that `text` completes.
pub open spec fn framed_messages(framing: Framing, text: Seq<char>) -> Seq<Seq<char>> {
    match framing {
        Framing::Delimiter(delimiter) => delimited::messages(text, delimiter),
        Framing::PrettyJsonArray => json_array::messages(text),
    }
}

/// The unfinished message that `text` leaves.
pub open spec fn framed_rest(framing: Framing, text: Seq<char>) -> Option<Seq<char>> {
    match framing {
        Framing::Delimiter(delimiter) => Some(delimited::unfinished(text, delimiter)),
        Framing::PrettyJsonArray => json_array::kept_rest(json_array::rest(text)),
    }
}

/// Goes on with what is under way: the response before the body, and the request once
/// neither is left.
pub open spec fn proceed(state: State) -> (State, Action) {
    if state.response {
        (state, Action::PollResponse)
    } else if state.body {
        (state, Action::PollBody)
    } else if state.request {
        (State { request: false, response: true, ..state }, Action::SendRequest)
    } else {
        (state, Action::Finish)
    }
}

/// The consumer gets a finished message before anything else is done.
pub open spec fn on_poll(state: State) -> (State, Action) {
    if state.queue.len() > 0 {
        (State { queue: state.queue.skip(1), ..state }, Action::Yield(state.queue[0]))
    } else {
        proceed(state)
    }
}

/// A response of success opens the body; of any other, the body is read as an error.
pub open spec fn on_response(state: State, status: u16) -> (State, Action) {
    if success(status) {
        proceed(State { response: false, body: true, ..state })
    } else {
        (State { response: true, ..state }, Action::ReadErrorBody)
    }
}

/// The first message that the text of a chunk completes is handed out, and the others
/// wait behind those that wait already.
pub open spec fn on_text(state: State, text: Seq<char>) -> (State, Action) {
    let full = continued(state.partial, text);
    let messages = framed_messages(state.framing, full);
    let next = State { partial: framed_rest(state.framing, full), ..state };
    if messages.len() > 0 {
        (
            State { queue: state.queue + messages.skip(1), ..next },
            Action::Yield(messages[0]),
        )
    } else {
        proceed(next)
    }
}

/// A chunk is decoded behind the bytes carried from the chunk before.
pub open spec fn on_chunk(state: State, bytes: Seq<u8>) -> (State, Action) {
    match decoded(state.carry, bytes) {
        Err(fault) => (
            State { carry: Seq::empty(), ..state },
            Action::Fail(ErrorView::InvalidUtf8(fault)),
        ),
        Ok((text, carry)) => {
            let next = State { carry, ..state };
            if text.len() == 0 {
                proceed(next)
            } else {
                on_text(next, text)
            }
        },
    }
}

/// At the end of the body an unfinished message is handed out as it is, and the bytes of
/// an unfinished character are dropped. With no message left, the body is done with.
pub open spec fn on_end(state: State) -> (State, Action) {
    let next = State { carry: Seq::empty(), partial: None, ..state };
    match state.partial {
        Some(partial) if partial.len() > 0 => (next, Action::Yield(partial)),
        _ => proceed(State { body: false, ..next }),
    }
}

/// The state after `event`, and what is then to be done.
pub open spec fn step(state: State, event: Event) -> (State, Action) {
    match event {
        Event::Poll => on_poll(state),
        Event::NotReady => (state, Action::Wait),
        Event::Response(status) => on_response(state, status),
        Event::ErrorBody(status, body) => (
            State { response: false, ..state },
            Action::Fail(refused(status, canonical_phrase(status), body)),
        ),
        Event::ResponseFailed => (State { response: false, ..state }, Action::FailTransport),
        Event::Chunk(bytes) => on_chunk(state, bytes),
        Event::BodyFailed => (state, Action::FailTransport),
        Event::BodyEnded => on_end(state),
    }
}

/// The views of a mode, an event and an action hold what these hold.
pub proof fn law_stream_views(mode: StreamMode, event: StreamEvent, action: StreamAction)
    ensures
        match mode {
            StreamMode::Delimiter(delimiter) => mode@ == Framing::Delimiter(delimiter@),
            StreamMode::PrettyJsonArray => mode@ is PrettyJsonArray,
        },
        match event {
            StreamEvent::Poll => event@ is Poll,
            StreamEvent::NotReady => event@ is NotReady,
            StreamEvent::Response(status) => event@ == Event::Response(status),
            StreamEvent::ErrorBody(status, Ok(text)) => event@ == Event::ErrorBody(
                status,
                Ok(text@),
            ),
            StreamEvent::ErrorBody(status, Err(reason)) => event@ == Event::ErrorBody(
                status,
                Err(reason@),
            ),
            StreamEvent::ResponseFailed => event@ is ResponseFailed,
            StreamEvent::Chunk(bytes) => event@ == Event::Chunk(bytes@),
            StreamEvent::BodyFailed => event@ is BodyFailed,
            StreamEvent::BodyEnded => event@ is BodyEnded,
        },
        match action {
            StreamAction::SendRequest => action@ is SendRequest,
            StreamAction::PollResponse => action@ is PollResponse,
            StreamAction::ReadErrorBody => action@ is ReadErrorBody,
            StreamAction::PollBody => action@ is PollBody,
            StreamAction::Wait => action@ is Wait,
            StreamAction::Yield(message) => action@ == Action::Yield(message@),
            StreamAction::Fail(error) => action@ == Action::Fail(error@),
            StreamAction::FailTransport => action@ is FailTransport,
            StreamAction::Finish => action@ is Finish,
        },
{
}

/// A poll hands out the message that has waited longest, whatever else is under way and
/// however many wait, and changes nothing but that the message no longer waits. With none
/// waiting, the response is polled for, or else the body, or else the request is sent, or else
/// there is nothing more.
pub proof fn law_poll(state: State)
    ensures
        ({
            let (after, action) = step(state, Event::Poll);
            if state.queue.len() > 0 {
                &&& action == Action::Yield(state.queue[0])
                &&& after.queue == state.queue.skip(1)
                &&& after == (State { queue: after.queue, ..state })
            } else if state.response {
                action is PollResponse && after == state
            } else if state.body {
                action is PollBody && after == state
            } else if state.request {
                &&& action is SendRequest
                &&& after == (State { request: false, response: true, ..state })
            } else {
                action is Finish && after == state
            }
        }),
{
}

/// The consumer waits for what is not ready, and for nothing else. Nothing changes then.
pub proof fn law_wait(state: State, event: Event)
    ensures
        step(state, event).1 is Wait <==> event is NotReady,
        event is NotReady ==> step(state, event).0 == state,
{
}

/// A response of success opens the body, which is then polled for. Of any other the body is
/// read as an error. Nothing else changes.
pub proof fn law_response_step(state: State, status: u16)
    ensures
        ({
            let (after, action) = step(state, Event::Response(status));
            if 200 <= status <= 299 {
                &&& action is PollBody
                &&& after == (State { response: false, body: true, ..state })
            } else {
                &&& action is ReadErrorBody
                &&& after == (State { response: true, ..state })
            }
        }),
{
}

/// The body of a refused response is handed out as an error, with the status and the text as
/// they came. Nothing is awaited any more, and nothing else changes.
pub proof fn law_error_body_step(
    state: State,
    status: u16,
    body: Result<Seq<char>, Seq<char>>,
)
    ensures
        ({
            let (after, action) = step(state, Event::ErrorBody(status, body));
            &&& action matches Action::Fail(
                ErrorView::HttpError { status: s, canonical_reason: r, body: b },
            ) && {
                &&& s == status
                &&& canonical_phrase(status) matches Some(p) ==> r == p
                &&& canonical_phrase(status) is None ==> r == "Unknown"@
                &&& body matches Ok(t) ==> b == t
                &&& body matches Err(e) ==> b == "Failed to read error body: "@ + e
            }
            &&& after == (State { response: false, ..state })
        }),
{
}

/// The transport's error is handed out, whatever the stream holds. A failed request is awaited
/// no more. A failed body changes nothing: what is unfinished and what waits stays.
pub proof fn law_transport_error(state: State)
    ensures
        step(state, Event::ResponseFailed).1 is FailTransport,
        step(state, Event::ResponseFailed).0 == (State { response: false, ..state }),
        step(state, Event::BodyFailed).1 is FailTransport,
        step(state, Event::BodyFailed).0 == state,
{
}

/// A chunk that does not decode is handed out as its error. The bytes carried into it are
/// dropped, and nothing else changes: what is unfinished and what waits stays.
pub proof fn law_undecodable_chunk(state: State, bytes: Seq<u8>)
    requires
        decoded(state.carry, bytes) is Err,
    ensures
        step(state, Event::Chunk(bytes)).1 == Action::Fail(
            ErrorView::InvalidUtf8(decoded(state.carry, bytes)->Err_0),
        ),
        step(state, Event::Chunk(bytes)).0 == (State { carry: Seq::empty(), ..state }),
{
}

/// A chunk that holds no more than a part of a character is carried, and the body is polled
/// for again: what follows is what a poll with nothing waiting leads to. Nothing else changes.
pub proof fn law_partial_chunk(state: State, bytes: Seq<u8>, carry: Seq<u8>)
    requires
        decoded(state.carry, bytes) == Ok::<_, InvalidUtf8>((Seq::<char>::empty(), carry)),
    ensures
        ({
            let (after, action) = step(state, Event::Chunk(bytes));
            let (polled, asked) = step(State { queue: Seq::empty(), ..state }, Event::Poll);
            &&& state.body && !state.response ==> action is PollBody && after == (State {
                carry,
                ..state
            })
            &&& action == asked
            &&& after == (State { carry, queue: state.queue, ..polled })
        }),
{
}

/// The text of a chunk goes behind the unfinished text, and the messages of it all are the
/// ones that come next: the first is handed out at once, and the others wait, in order, behind
/// those that wait already. The text behind the messages is unfinished now. With no message
/// the body is polled for again: what follows is what a poll with nothing waiting leads to.
pub proof fn law_chunk_of_text(state: State, bytes: Seq<u8>, text: Seq<char>, carry: Seq<u8>)
    requires
        text.len() > 0,
        decoded(state.carry, bytes) == Ok::<_, InvalidUtf8>((text, carry)),
    ensures
        ({
            let (after, action) = step(state, Event::Chunk(bytes));
            let full = match state.partial {
                Some(partial) => partial + text,
                None => text,
            };
            let found = match state.framing {
                Framing::Delimiter(delimiter) => delimited::messages(full, delimiter),
                Framing::PrettyJsonArray => json_array::messages(full),
            };
            let (polled, asked) = step(State { queue: Seq::empty(), ..state }, Event::Poll);
            &&& found.len() == 0 ==> {
                &&& state.body && !state.response ==> action is PollBody
                &&& action == asked
                &&& after.queue == state.queue
                &&& after == (State {
                    partial: after.partial,
                    queue: after.queue,
                    carry: after.carry,
                    ..polled
                })
            }
            &&& found.len() > 0 ==> {
                &&& action matches Action::Yield(message)
                &&& seq![message] + after.queue.skip(state.queue.len() as int) == found
                &&& after.queue.take(state.queue.len() as int) == state.queue
            }
            &&& state.framing matches Framing::Delimiter(delimiter) ==> after.partial == Some(
                delimited::unfinished(full, delimiter),
            )
            &&& state.framing is PrettyJsonArray && blank(json_array::rest(full))
                ==> after.partial is None
            &&& state.framing is PrettyJsonArray && !blank(json_array::rest(full))
                ==> after.partial == Some(json_array::rest(full))
            &&& after.carry == carry
            &&& found.len() > 0 || (state.body && !state.response) ==> after == (State {
                partial: after.partial,
                queue: after.queue,
                carry: after.carry,
                ..state
            })
        }),
{
    let (after, action) = step(state, Event::Chunk(bytes));
    let full = continued(state.partial, text);
    let found = framed_messages(state.framing, full);
    if found.len() > 0 {
        assert(after.queue.skip(state.queue.len() as int) =~= found.skip(1));
        assert(seq![found[0]] + found.skip(1) =~= found);
        assert(after.queue.take(state.queue.len() as int) =~= state.queue);
    }
}

/// At the end of the body the unfinished text is handed out whole, unless there is none. The
/// body stays open then, and its end is come to once more. With none, the body is closed and,
/// as long as nothing else is under way, there is nothing more. No bytes are carried on, and
/// what waits stays.
pub proof fn law_end_of_body(state: State)
    ensures
        ({
            let (after, action) = step(state, Event::BodyEnded);
            &&& after.partial is None
            &&& after.carry.len() == 0
            &&& after.queue == state.queue
            &&& after.framing == state.framing
            &&& if state.partial is Some && state.partial->0.len() > 0 {
                &&& action == Action::Yield(state.partial->0)
                &&& after.body == state.body
                &&& after.request == state.request
                &&& after.response == state.response
            } else {
                &&& !after.body
                &&& !state.request && !state.response ==> {
                    action is Finish && !after.request && !after.response
                }
                &&& state.response ==> action is PollResponse && after.response && after.request
                    == state.request
                &&& !state.response && state.request ==> {
                    action is SendRequest && after.response && !after.request
                }
            }
        }),
{
}

/// What holds of every state: only the front of a character is carried, no message that
/// waits is empty, and nothing blank is kept of an array.
pub open spec fn valid(state: State) -> bool {
    &&& is_carry(state.carry)
    &&& forall|i: int| 0 <= i < state.queue.len() ==> #[trigger] state.queue[i].len() > 0
    &&& state.framing is PrettyJsonArray ==> (state.partial matches Some(partial) ==> !blank(
        partial,
    ))
}

proof fn lemma_messages_not_empty(framing: Framing, text: Seq<char>)
    ensures
        forall|k: int|
            0 <= k < framed_messages(framing, text).len() ==> #[trigger] framed_messages(
                framing,
                text,
            )[k].len() > 0,
{
    match framing {
        Framing::Delimiter(delimiter) => delimited::law_no_empty_message(text, delimiter),
        Framing::PrettyJsonArray => {
            assert forall|k: int|
                0 <= k < framed_messages(framing, text).len() implies #[trigger] framed_messages(
                framing,
                text,
            )[k].len() > 0 by {
                json_array::law_messages(text, k);
            }
        },
    }
}

/// A valid state stays valid, whatever comes in, and a message that is handed out is
/// never empty.
pub proof fn law_step_keeps_valid(state: State, event: Event)
    requires
        valid(state),
    ensures
        valid(step(state, event).0),
        step(state, event).1 matches Action::Yield(message) ==> message.len() > 0,
{
    if let Event::Chunk(bytes) = event {
        law_no_byte_lost(state.carry, bytes);
        if let Ok((text, carry)) = decoded(state.carry, bytes) {
            lemma_messages_not_empty(state.framing, continued(state.partial, text));
        }
    }
}

/// A stream of messages out of the body of one web response.
///
/// It serves services that do not send `text/event-stream`: each item is a string, and the
/// `StreamMode` says where one ends. The stream does no input or output. It is told what has
/// come in and says what to do next.
#[derive(Debug)]
pub struct WebStream {
    stream_mode: StreamMode,
    request_held: bool,
    response_awaited: bool,
    body_open: bool,
    // The text of a message that the chunks so far have not finished.
    partial_message: Option<String>,
    // Messages that came together with one that was handed out.
    remaining_messages: VecDeque<String>,
    // The bytes of a character that a chunk's end cut off. They go in front of the next
    // chunk before it is decoded.
    partial_bytes: Vec<u8>,
}

impl View for WebStream {
    type V = State;

    closed spec fn view(&self) -> State {
        State {
            framing: self.stream_mode@,
            request: self.request_held,
            response: self.response_awaited,
            body: self.body_open,
            partial: opt_view(self.partial_message),
            queue: views(self.remaining_messages@),
            carry: self.partial_bytes@,
        }
    }
}

impl WebStream {
    fn new(stream_mode: StreamMode) -> (res: WebStream)
        ensures
            res@ == fresh(stream_mode@),
            valid(res@),
            res@.framing == stream_mode@,
            res@.request && !res@.response && !res@.body,
            res@.partial is None && res@.queue.len() == 0 && res@.carry.len() == 0,
    {
        let res = WebStream {
            stream_mode,
            request_held: true,
            response_awaited: false,
            body_open: false,
            partial_message: None,
            remaining_messages: VecDeque::new(),
            partial_bytes: Vec::new(),
        };
        assert(res@ =~= fresh(stream_mode@));
        res
    }

    /// A stream whose messages end with `message_delimiter`, and whose request is still to
    /// be sent.
    pub fn new_with_delimiter(message_delimiter: &'static str) -> (res: WebStream)
        ensures
            res@ == fresh(Framing::Delimiter(message_delimiter@)),
            valid(res@),
            res@.framing == Framing::Delimiter(message_delimiter@),
            res@.request && !res@.response && !res@.body,
            res@.partial is None && res@.queue.len() == 0 && res@.carry.len() == 0,
    {
        WebStream::new(StreamMode::Delimiter(message_delimiter))
    }

    /// A stream whose messages are the items of a JSON array, and whose request is still to
    /// be sent.
    pub fn new_with_pretty_json_array() -> (res: WebStream)
        ensures
            res@ == fresh(Framing::PrettyJsonArray),
            valid(res@),
            res@.framing is PrettyJsonArray,
            res@.request && !res@.response && !res@.body,
            res@.partial is None && res@.queue.len() == 0 && res@.carry.len() == 0,
    {
        WebStream::new(StreamMode::PrettyJsonArray)
    }

    /// The bytes of a character that a chunk's end cut off.
    pub fn undecoded_bytes(&self) -> (bytes: &[u8])
        ensures
            bytes@ == self@.carry,
    {
        self.partial_bytes.as_slice()
    }

    /// Goes on with what is under way.
    fn proceed(&mut self) -> (action: StreamAction)
        ensures
            (final(self)@, action@) == proceed(old(self)@),
    {
        if self.response_awaited {
            StreamAction::PollResponse
        } else if self.body_open {
            StreamAction::PollBody
        } else if self.request_held {
            self.request_held = false;
            self.response_awaited = true;
            StreamAction::SendRequest
        } else {
            StreamAction::Finish
        }
    }

    /// Takes in `event` and says what to do next.
    pub fn poll_next(&mut self, event: StreamEvent) -> (action: StreamAction)
        ensures
            (final(self)@, action@) == step(old(self)@, event@),
            valid(old(self)@) ==> valid(final(self)@),
            action@ matches Action::Fail(ErrorView::InvalidUtf8(fault)) ==> {
                &&& event@ matches Event::Chunk(bytes)
                &&& is_fault_of(fault, old(self)@.carry + bytes)
            },
            event is Poll && old(self)@.queue.len() > 0 ==> {
                &&& action matches StreamAction::Yield(message) && message@ == old(self)@.queue[0]
                &&& final(self)@.queue == old(self)@.queue.skip(1)
            },
            action is Wait <==> event is NotReady,
            event is NotReady ==> final(self)@ == old(self)@,
            event is BodyFailed ==> action is FailTransport && final(self)@ == old(self)@,
            event is ResponseFailed ==> action is FailTransport,
            event matches StreamEvent::Response(status) ==> if 200 <= status <= 299 {
                action is PollBody && final(self)@.body && !final(self)@.response
            } else {
                action is ReadErrorBody && final(self)@.response
            },
            event matches StreamEvent::ErrorBody(status, body) ==> action matches
                StreamAction::Fail(
                Error::HttpError { status: s, canonical_reason: r, body: b },
            ) && {
                &&& s == status
                &&& canonical_phrase(status) matches Some(p) ==> r@ == p
                &&& canonical_phrase(status) is None ==> r@ == "Unknown"@
                &&& body matches Ok(t) ==> b@ == t@
                &&& body matches Err(e) ==> b@ == "Failed to read error body: "@ + e@
            },
    {
        proof {
            if valid(self@) {
                law_step_keeps_valid(self@, event@);
            }
        }
        match event {
            StreamEvent::Poll => {
                match self.remaining_messages.pop_front() {
                    Some(message) => {
                        assert(self@.queue =~= old(self)@.queue.skip(1));
                        StreamAction::Yield(message)
                    },
                    None => {
                        assert(self@ =~= old(self)@);
                        self.proceed()
                    },
                }
            },
            StreamEvent::NotReady => StreamAction::Wait,
            StreamEvent::Response(status) => {
                if is_success(status) {
                    self.response_awaited = false;
                    self.body_open = true;
                    self.proceed()
                } else {
                    self.response_awaited = true;
                    StreamAction::ReadErrorBody
                }
            },
            StreamEvent::ErrorBody(status, body) => {
                self.response_awaited = false;
                StreamAction::Fail(http_error(status, body))
            },
            StreamEvent::ResponseFailed => {
                self.response_awaited = false;
                StreamAction::FailTransport
            },
            StreamEvent::Chunk(bytes) => self.take_chunk(bytes.as_slice()),
            StreamEvent::BodyFailed => StreamAction::FailTransport,
            StreamEvent::BodyEnded => self.end_body(),
        }
    }

    fn take_chunk(&mut self, bytes: &[u8]) -> (action: StreamAction)
        ensures
            (final(self)@, action@) == on_chunk(old(self)@, bytes@),
            action@ matches Action::Fail(ErrorView::InvalidUtf8(fault)) ==> is_fault_of(
                fault,
                old(self)@.carry + bytes@,
            ),
    {
        // Bytes of a character that the chunk's end cuts off are carried to the next.
        let buff_string = match decode_chunk(&mut self.partial_bytes, bytes) {
            Ok(text) => text,
            Err(fault) => {
                assert(self@ =~= (State { carry: Seq::empty(), ..old(self)@ }));
                return StreamAction::Fail(Error::InvalidUtf8(fault));
            },
        };
        // The chunk was part of a single character.
        if buff_string.as_str().is_empty() {
            return self.proceed();
        }
        let buff_response = match self.stream_mode {
            StreamMode::Delimiter(delimiter) => delimited::process_buff_string_delimited(
                buff_string,
                &mut self.partial_message,
                delimiter,
            ),
            StreamMode::PrettyJsonArray => json_array::new_with_pretty_json_array(
                buff_string,
                &mut self.partial_message,
            ),
        };
        match buff_response {
            Ok(buff) => self.take_messages(buff),
            Err(error) => StreamAction::Fail(error),
        }
    }

    fn take_messages(&mut self, buff: BuffResponse) -> (action: StreamAction)
        requires
            old(self)@.partial is None,
            buff.first_message is None ==> buff.next_messages is None,
        ensures
            ({
                let before = old(self)@;
                let next = State { partial: buff@.candidate_message, ..before };
                match buff@.first_message {
                    Some(message) => action@ == Action::Yield(message) && final(self)@ == (State {
                        queue: before.queue + match buff@.next_messages {
                            Some(messages) => messages,
                            None => Seq::empty(),
                        },
                        ..next
                    }),
                    None => (final(self)@, action@) == proceed(next),
                }
            }),
    {
        let BuffResponse { first_message, next_messages, candidate_message } = buff;
        if let Some(messages) = next_messages {
            self.queue_messages(messages);
        }
        if candidate_message.is_some() {
            self.partial_message = candidate_message;
        }
        match first_message {
            Some(message) => StreamAction::Yield(message),
            None => self.proceed(),
        }
    }

    /// Puts `messages` behind those that wait already.
    fn queue_messages(&mut self, messages: Vec<String>)
        ensures
            final(self)@ == (State { queue: old(self)@.queue + views(messages@), ..old(self)@ }),
    {
        let ghost all = views(messages@);
        let ghost before = self@;
        assert(self@.queue =~= before.queue + all.take(0));
        for i in 0..messages.len()
            invariant
                all == views(messages@),
                self@ == (State { queue: before.queue + all.take(i as int), ..before }),
        {
            let ghost now = self@.queue;
            self.remaining_messages.push_back(messages[i].clone());
            assert(self@.queue =~= now.push(all[i as int]));
            assert(self@.queue =~= before.queue + all.take(i + 1));
        }
        assert(all.take(all.len() as int) =~= all);
    }

    fn end_body(&mut self) -> (action: StreamAction)
        ensures
            (final(self)@, action@) == on_end(old(self)@),
    {
        // A body that ends inside a character was truncated.
        self.partial_bytes.clear();
        if let Some(partial) = self.partial_message.take() {
            if !partial.as_str().is_empty() {
                assert(self@ =~= (State { carry: Seq::empty(), partial: None, ..old(self)@ }));
                return StreamAction::Yield(partial);
            }
        }
        self.body_open = false;
        assert(self@ =~= (State {
            carry: Seq::empty(),
            partial: None,
            body: false,
            ..old(self)@
        }));
        self.proceed()
    }
}

} // verus!
