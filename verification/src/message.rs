//! The envelope that carries every message, and its parts.
//!
//! These are plain values: an envelope is built when a message is decoded,
//! handed to a node once, and a reply is always a new envelope.

use vstd::prelude::*;

verus! {

/// One complete message: who sent it, whom it is for, and its body.
#[derive(Debug, Clone, PartialEq, Eq)]
pub struct Message<Payload> {
    pub src: String,
    pub dst: String,
    pub body: Body<Payload>,
}

/// The part of a message below its addresses: the sender's own number for it,
/// the number of the message it answers, if any, and the protocol's payload.
#[derive(Debug, Clone, PartialEq, Eq)]
pub struct Body<Payload> {
    pub id: usize,
    pub in_reply_to: Option<usize>,
    pub payload: Payload,
}

/// What a node learns from the handshake: its own name and the names of all
/// nodes of the cluster.
#[derive(Debug, Clone, PartialEq, Eq)]
pub struct Init {
    pub node_id: String,
    pub node_ids: Vec<String>,
}

/// The mathematical content of a [`Message`].
pub struct MessageView<P> {
    pub src: Seq<char>,
    pub dst: Seq<char>,
    pub body: BodyView<P>,
}

/// The mathematical content of a [`Body`].
pub struct BodyView<P> {
    pub id: nat,
    pub in_reply_to: Option<nat>,
    pub payload: P,
}

/// The mathematical content of an [`Init`].
pub struct InitView {
    pub node_id: Seq<char>,
    pub node_ids: Seq<Seq<char>>,
}

impl<Payload: View> View for Message<Payload> {
    type V = MessageView<Payload::V>;

    open spec fn view(&self) -> MessageView<Payload::V> {
        MessageView { src: self.src@, dst: self.dst@, body: self.body@ }
    }
}

impl<Payload: View> View for Body<Payload> {
    type V = BodyView<Payload::V>;

    open spec fn view(&self) -> BodyView<Payload::V> {
        BodyView {
            id: self.id as nat,
            in_reply_to: match self.in_reply_to {
                Some(id) => Some(id as nat),
                None => None,
            },
            payload: self.payload@,
        }
    }
}

impl View for Init {
    type V = InitView;

    open spec fn view(&self) -> InitView {
        InitView { node_id: self.node_id@, node_ids: self.node_ids.deep_view() }
    }
}

impl<P> MessageView<P> {
    /// Whether this message is addressed and numbered as a reply to `request`:
    /// it goes back to the sender, in the name of the one the request was for,
    /// and names the request's number.
    pub open spec fn answers<Q>(self, request: MessageView<Q>) -> bool {
        &&& self.src == request.dst
        &&& self.dst == request.src
        &&& self.body.in_reply_to == Some(request.body.id)
    }
}

/// The contents of a sequence of values, one view for each, in order.
pub open spec fn views_of<T: View>(items: Seq<T>) -> Seq<T::V> {
    items.map_values(|item: T| item@)
}

} // verus!
