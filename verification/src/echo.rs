//! The echo protocol: a node that acknowledges the handshake and sends every
//! text it is given back to its sender.

use crate::message::{views_of, Body, BodyView, Message, MessageView};
use crate::node::Node;
use crate::run::{
    admits, lemma_run_ends_at_failure, lemma_run_splits, run, Failure, InputView, Run,
};
use vstd::prelude::*;

verus! {

/// The messages of the echo protocol.
#[derive(Debug, Clone, PartialEq, Eq)]
pub enum Payload {
    /// The handshake: tells a node its name and the names of all nodes.
    Init { node_id: String, node_ids: Vec<String> },
    /// The acknowledgement of the handshake.
    InitOk,
    /// A request to send `echo` back.
    Echo { echo: String },
    /// The answer to an `Echo`, with the same text.
    EchoOk { echo: String },
}

/// The mathematical content of a [`Payload`].
pub enum PayloadView {
    Init { node_id: Seq<char>, node_ids: Seq<Seq<char>> },
    InitOk,
    Echo { echo: Seq<char> },
    EchoOk { echo: Seq<char> },
}

impl View for Payload {
    type V = PayloadView;

    open spec fn view(&self) -> PayloadView {
        match self {
            Payload::Init { node_id, node_ids } => PayloadView::Init {
                node_id: node_id@,
                node_ids: node_ids.deep_view(),
            },
            Payload::InitOk => PayloadView::InitOk,
            Payload::Echo { echo } => PayloadView::Echo { echo: echo@ },
            Payload::EchoOk { echo } => PayloadView::EchoOk { echo: echo@ },
        }
    }
}

/// A message that an echo node must never receive.
#[derive(Debug, Clone, Copy, PartialEq, Eq)]
pub enum Unexpected {
    /// An `InitOk`: this node never sends an `Init`, so none can be owed to
    /// it.
    InitOk,
}

/// A node of the echo protocol. All it remembers is the number that its next
/// message will carry.
#[derive(Debug)]
pub struct EchoNode {
    id: usize,
}

impl View for EchoNode {
    /// The number of the next message that the node will send.
    type V = nat;

    closed spec fn view(&self) -> nat {
        self.id as nat
    }
}

impl EchoNode {
    /// A node that has sent nothing yet: its first message will be number 0.
    pub fn new() -> (node: EchoNode)
        ensures
            node@ == 0,
    {
        EchoNode { id: 0 }
    }

    /// The number that the node's next message will carry.
    pub fn id(&self) -> (id: usize)
        ensures
            id == self@,
    {
        self.id
    }

    /// Whether the node can take `input` now: whether it has a number left
    /// for the reply, if `input` is to have one.
    pub fn can_take(&self, input: &Message<Payload>) -> (ok: bool)
        ensures
            ok == <EchoNode as Node<Payload>>::accepts(self@, input@),
    {
        match &input.body.payload {
            Payload::Init { .. } | Payload::Echo { .. } => self.id < usize::MAX,
            Payload::InitOk | Payload::EchoOk { .. } => true,
        }
    }
}

impl Unexpected {
    /// What went wrong, in words.
    pub fn message(&self) -> (text: &'static str)
        ensures
            text@ == "received init_ok message"@,
    {
        match self {
            Unexpected::InitOk => "received init_ok message",
        }
    }
}

/// The reply of an echo node to `request`: sent back to the request's sender
/// in the name of its addressee, numbered `id`, and naming the request.
pub open spec fn reply_to(
    id: nat,
    request: MessageView<PayloadView>,
    payload: PayloadView,
) -> MessageView<PayloadView> {
    MessageView {
        src: request.dst,
        dst: request.src,
        body: BodyView { id, in_reply_to: Some(request.body.id), payload },
    }
}

impl Node<Payload> for EchoNode {
    type Violation = Unexpected;

    /// A reply takes the next number, so there must be one after it.
    open spec fn accepts(state: nat, input: MessageView<PayloadView>) -> bool {
        input.body.payload is Init || input.body.payload is Echo ==> state < usize::MAX
    }

    /// Each reply uses up one number.
    open spec fn next(state: nat, input: MessageView<PayloadView>) -> nat {
        if input.body.payload is Init || input.body.payload is Echo {
            state + 1
        } else {
            state
        }
    }

    open spec fn replies(state: nat, input: MessageView<PayloadView>) -> Result<
        Seq<MessageView<PayloadView>>,
        Unexpected,
    > {
        match input.body.payload {
            PayloadView::Init { .. } => Ok(seq![reply_to(state, input, PayloadView::InitOk)]),
            PayloadView::InitOk => Err(Unexpected::InitOk),
            PayloadView::Echo { echo } => Ok(
                seq![reply_to(state, input, PayloadView::EchoOk { echo })],
            ),
            PayloadView::EchoOk { .. } => Ok(seq![]),
        }
    }

    /// Answers the handshake with an `InitOk` and an `Echo` with an `EchoOk`
    /// of the same text, passes over an `EchoOk`, and refuses an `InitOk`.
    fn step(&mut self, input: Message<Payload>) -> (result: Result<
        Vec<Message<Payload>>,
        Unexpected,
    >)
        ensures
            result is Err <==> input@.body.payload is InitOk,
            result is Err ==> final(self)@ == old(self)@,
            input@.body.payload is Init ==> (result matches Ok(out) && out@.len() == 1
                && out@[0]@.body.payload == PayloadView::InitOk),
            input@.body.payload matches PayloadView::Echo { echo } ==> (result matches Ok(out)
                && out@.len() == 1 && out@[0]@.body.payload == (PayloadView::EchoOk { echo })),
            input@.body.payload is EchoOk ==> (result matches Ok(out) && out@.len() == 0
                && final(self)@ == old(self)@),
            result matches Ok(out) ==> final(self)@ == old(self)@ + out@.len(),
            result matches Ok(out) ==> forall|i: int|
                0 <= i < out@.len() ==> (#[trigger] out@[i])@.answers(input@) && out@[i]@.body.id
                    == old(self)@ + i,
    {
        let mut out: Vec<Message<Payload>> = Vec::new();
        match input.body.payload {
            Payload::Init { .. } => {
                let reply = Message {
                    dst: input.src,
                    src: input.dst,
                    body: Body {
                        id: self.id,
                        in_reply_to: Some(input.body.id),
                        payload: Payload::InitOk,
                    },
                };
                out.push(reply);
                self.id += 1;
            },
            Payload::InitOk { .. } => {
                return Err(Unexpected::InitOk);
            },
            Payload::Echo { echo } => {
                let reply = Message {
                    dst: input.src,
                    src: input.dst,
                    body: Body {
                        id: self.id,
                        in_reply_to: Some(input.body.id),
                        payload: Payload::EchoOk { echo },
                    },
                };
                out.push(reply);
                self.id += 1;
            },
            Payload::EchoOk { .. } => {},
        }
        Ok(out)
    }
}

/// An echo node can be driven over any input that leaves it enough numbers
/// for one reply to each item.
pub proof fn lemma_admits_while_numbers_last(start: nat, inputs: Seq<InputView<PayloadView>>)
    requires
        start + inputs.len() <= usize::MAX,
    ensures
        admits::<EchoNode, Payload>(start, inputs),
{
    assert forall|k: int| 0 <= k < inputs.len() implies (#[trigger] run::<EchoNode, Payload>(
        start,
        inputs.take(k),
    )).state < usize::MAX by {
        lemma_numbers_count_up(start, inputs.take(k));
    }
}

/// The numbers of the messages that an echo node sends count up by one from
/// the number it started with, whatever the messages answer: a node that
/// starts at 0 numbers them 0, 1, 2 and so on, with no gap and no repeat.
/// The node's state is always the number after the last one used, and no
/// more messages are sent than there are items of input.
pub proof fn lemma_numbers_count_up(start: nat, inputs: Seq<InputView<PayloadView>>)
    ensures
        ({
            let whole = run::<EchoNode, Payload>(start, inputs);
            &&& whole.state == start + whole.emitted.len()
            &&& whole.emitted.len() <= inputs.len()
            &&& forall|i: int|
                0 <= i < whole.emitted.len() ==> (#[trigger] whole.emitted[i]).body.id == start + i
        }),
    decreases inputs.len(),
{
    if inputs.len() > 0 {
        lemma_numbers_count_up(start, inputs.drop_last());
    }
}

/// An `InitOk` ends the run of an echo node with a refusal: nothing is sent
/// for it, the node's state stays, and nothing that follows it in the input
/// has any effect.
pub proof fn lemma_init_ok_ends_run(
    start: nat,
    inputs: Seq<InputView<PayloadView>>,
    n: int,
)
    requires
        0 <= n < inputs.len(),
        run::<EchoNode, Payload>(start, inputs.take(n)).result is Ok,
        inputs[n] matches InputView::Decoded(message) && message.body.payload is InitOk,
    ensures
        run::<EchoNode, Payload>(start, inputs) == (Run {
            result: Err(Failure::Step(Unexpected::InitOk)),
            ..run::<EchoNode, Payload>(start, inputs.take(n))
        }),
{
    assert(inputs.take(n + 1).drop_last() =~= inputs.take(n));
    lemma_run_ends_at_failure::<EchoNode, Payload>(start, inputs, n + 1);
}

/// An `EchoOk` changes nothing, wherever in the input it stands: the run
/// over an input and the run over the same input without one of its
/// `EchoOk` messages send the same messages, leave the node in the same
/// state and end in the same way.
pub proof fn lemma_echo_ok_is_passed_over(
    start: nat,
    inputs: Seq<InputView<PayloadView>>,
    n: int,
)
    requires
        0 <= n < inputs.len(),
        inputs[n] matches InputView::Decoded(message) && message.body.payload is EchoOk,
    ensures
        run::<EchoNode, Payload>(start, inputs) == run::<EchoNode, Payload>(
            start,
            inputs.remove(n),
        ),
{
    let upto = inputs.take(n + 1);
    assert(upto.drop_last() =~= inputs.take(n));
    assert(inputs =~= upto + inputs.skip(n + 1));
    lemma_run_splits::<EchoNode, Payload>(start, upto, inputs.skip(n + 1));
    lemma_run_splits::<EchoNode, Payload>(start, inputs.take(n), inputs.skip(n + 1));
}

/// Whether an echo node's run ends at `input`: it does at a value that is
/// no message, and at an `InitOk`.
pub open spec fn ends_run(input: InputView<PayloadView>) -> bool {
    match input {
        InputView::Malformed(_) => true,
        InputView::Decoded(message) => message.body.payload is InitOk,
    }
}

/// The run of an echo node ends well exactly when no item of the input ends
/// it.
pub proof fn lemma_run_ends_well_unless_an_item_ends_it(
    start: nat,
    inputs: Seq<InputView<PayloadView>>,
)
    ensures
        run::<EchoNode, Payload>(start, inputs).result is Ok <==> forall|k: int|
            0 <= k < inputs.len() ==> !ends_run(#[trigger] inputs[k]),
    decreases inputs.len(),
{
    if inputs.len() > 0 {
        let shorter = inputs.drop_last();
        lemma_run_ends_well_unless_an_item_ends_it(start, shorter);
        if run::<EchoNode, Payload>(start, inputs).result is Ok {
            assert forall|k: int| 0 <= k < inputs.len() implies !ends_run(
                #[trigger] inputs[k],
            ) by {
                if k < shorter.len() {
                    assert(shorter[k] == inputs[k]);
                }
            }
        }
    }
}

} // verus!
