//! What one piece of text amounts to once it is split into messages.

use vstd::prelude::*;

use crate::text::{opt_view, views};

verus! {

/// The messages that a piece of text completed, and the text behind them.
#[derive(Debug)]
pub struct BuffResponse {
    /// The first message, to be handed out at once.
    pub first_message: Option<String>,
    /// The messages behind the first, where there are any.
    pub next_messages: Option<Vec<String>>,
    /// The unfinished text that the next piece continues.
    pub candidate_message: Option<String>,
}

/// `BuffResponse` over character sequences.
#[verifier::ext_equal]
pub struct BuffResponseView {
    pub first_message: Option<Seq<char>>,
    pub next_messages: Option<Seq<Seq<char>>>,
    pub candidate_message: Option<Seq<char>>,
}

impl View for BuffResponse {
    type V = BuffResponseView;

    open spec fn view(&self) -> BuffResponseView {
        BuffResponseView {
            first_message: opt_view(self.first_message),
            next_messages: match self.next_messages {
                Some(messages) => Some(views(messages@)),
                None => None,
            },
            candidate_message: opt_view(self.candidate_message),
        }
    }
}

/// The response that holds `messages`, in order, and `candidate`.
pub open spec fn response(
    messages: Seq<Seq<char>>,
    candidate: Option<Seq<char>>,
) -> BuffResponseView {
    BuffResponseView {
        first_message: if messages.len() > 0 {
            Some(messages[0])
        } else {
            None
        },
        next_messages: if messages.len() > 1 {
            Some(messages.skip(1))
        } else {
            None
        },
        candidate_message: candidate,
    }
}

/// The messages of a response: the first one and those behind it.
pub open spec fn messages_of(response: BuffResponseView) -> Seq<Seq<char>> {
    (match response.first_message {
        Some(first) => seq![first],
        None => Seq::empty(),
    }) + match response.next_messages {
        Some(next) => next,
        None => Seq::empty(),
    }
}

/// A response holds the messages it was made of, all of them and in order, and the candidate
/// as it is. There are messages behind the first only where there is a first one, and no empty
/// list of them.
pub proof fn law_response(messages: Seq<Seq<char>>, candidate: Option<Seq<char>>)
    ensures
        messages_of(response(messages, candidate)) == messages,
        response(messages, candidate).candidate_message == candidate,
        messages.len() <= 1 ==> response(messages, candidate).next_messages is None,
{
    assert(messages_of(response(messages, candidate)) =~= messages);
}

impl BuffResponse {
    /// Puts the first message apart from the others.
    pub fn new(messages: Vec<String>, candidate_message: Option<String>) -> (res: BuffResponse)
        ensures
            res@ == response(views(messages@), opt_view(candidate_message)),
            res.first_message is Some <==> messages@.len() > 0,
            res.first_message matches Some(first) ==> first@ == messages@[0]@,
            res.next_messages is Some <==> messages@.len() > 1,
            res.next_messages matches Some(next) ==> {
                &&& next@.len() == messages@.len() - 1
                &&& forall|i: int| 0 <= i < next@.len() ==> #[trigger] next@[i]@ == messages@[i
                    + 1]@
            },
            res.candidate_message == candidate_message,
    {
        let mut messages = messages;
        let ghost all = views(messages@);
        let mut first_message: Option<String> = None;
        let mut next_messages: Option<Vec<String>> = None;
        if !messages.is_empty() {
            first_message = Some(messages.remove(0));
            assert(views(messages@) =~= all.skip(1));
            if !messages.is_empty() {
                next_messages = Some(messages);
            }
        }
        BuffResponse { first_message, next_messages, candidate_message }
    }
}

} // verus!
