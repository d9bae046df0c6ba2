//! What a node is: a handler that takes one message at a time and answers
//! with zero or more messages, or refuses.

use crate::message::{views_of, Message, MessageView};
use vstd::prelude::*;

verus! {

/// A stateful handler of messages with payloads of type `Payload`.
///
/// A node is described by a state machine over its view: `replies` says what
/// a message is answered with, or why it is refused, and `next` says what the
/// state is afterwards. `step` runs one transition of that machine.
pub trait Node<Payload: View>: View + Sized {
    /// Why this node refuses a message.
    type Violation;

    /// Whether the machine this runs on can represent the transition that
    /// `input` asks for in `state`.
    spec fn accepts(state: Self::V, input: MessageView<Payload::V>) -> bool;

    /// The state after `input` was handled in `state`.
    spec fn next(state: Self::V, input: MessageView<Payload::V>) -> Self::V;

    /// The messages that `input` is answered with in `state`, in the order
    /// in which they are to be sent, or the reason for which it is refused.
    spec fn replies(state: Self::V, input: MessageView<Payload::V>) -> Result<
        Seq<MessageView<Payload::V>>,
        Self::Violation,
    >;

    /// Handles one message: moves to the next state and returns the replies,
    /// or the reason for the refusal.
    fn step(&mut self, input: Message<Payload>) -> (result: Result<
        Vec<Message<Payload>>,
        Self::Violation,
    >)
        requires
            Self::accepts(old(self)@, input@),
        ensures
            final(self)@ == Self::next(old(self)@, input@),
            match (result, Self::replies(old(self)@, input@)) {
                (Ok(out), Ok(expected)) => views_of(out@) == expected,
                (Err(violation), Err(expected)) => violation == expected,
                _ => false,
            },
    ;
}

} // verus!
