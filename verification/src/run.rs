//! The loop that drives a node over a stream of inputs.
//!
//! The loop hands the node what the stream yields, one item at a time and in
//! order, collects the replies, and ends at the first item that fails. What
//! a whole run comes to is defined by [`run`]; [`main_loop`] computes it for
//! a stream that is held in memory, and [`dispatch`] is its single turn, for
//! callers that read and write as they go.

use crate::message::{views_of, Message, MessageView};
use crate::node::Node;
use vstd::prelude::*;

verus! {

/// `serde_json::Error`, the error of the decoder that reads the input
/// stream. Nothing is known or claimed of what such an error holds: the loop
/// only hands it on, as it is, to whoever asked for the run.
#[verifier::external_type_specification]
#[verifier::external_body]
pub struct ExDecodeError(serde_json::Error);

/// One item of the input stream: a message, or the error of a value that is
/// none.
#[derive(Debug)]
pub enum Input<Payload> {
    /// A value that decoded to a message.
    Decoded(Message<Payload>),
    /// A value that did not decode, or at which the stream broke off, with
    /// what the decoder said of it.
    Malformed(serde_json::Error),
}

/// The mathematical content of an [`Input`].
pub enum InputView<P> {
    Decoded(MessageView<P>),
    Malformed(serde_json::Error),
}

impl<Payload: View> View for Input<Payload> {
    type V = InputView<Payload::V>;

    open spec fn view(&self) -> InputView<Payload::V> {
        match self {
            Input::Decoded(message) => InputView::Decoded(message@),
            Input::Malformed(error) => InputView::Malformed(*error),
        }
    }
}

/// Why a run ended before the input did.
#[derive(Debug)]
pub enum Failure<Violation> {
    /// The input stream yielded a value that is no message; this is the
    /// decoder's error for it.
    Decode(serde_json::Error),
    /// The node refused a message.
    Step(Violation),
}

/// What handling one item of input comes to: the node's state afterwards,
/// and the replies to send or the failure that ends the run.
///
/// A malformed item fails without touching the node; a message is the node's
/// to answer or to refuse.
pub open spec fn dispatched<S: Node<Payload>, Payload: View>(
    state: S::V,
    input: InputView<Payload::V>,
) -> (S::V, Result<Seq<MessageView<Payload::V>>, Failure<S::Violation>>) {
    match input {
        InputView::Malformed(error) => (state, Err(Failure::Decode(error))),
        InputView::Decoded(message) => (
            S::next(state, message),
            match S::replies(state, message) {
                Ok(replies) => Ok(replies),
                Err(violation) => Err(Failure::Step(violation)),
            },
        ),
    }
}

/// Handles one item of the input stream with `node`.
pub fn dispatch<S: Node<Payload>, Payload: View>(node: &mut S, input: Input<Payload>) -> (result:
    Result<Vec<Message<Payload>>, Failure<S::Violation>>)
    requires
        input matches Input::Decoded(message) ==> S::accepts(old(node)@, message@),
    ensures
        final(node)@ == dispatched::<S, Payload>(old(node)@, input@).0,
        match (result, dispatched::<S, Payload>(old(node)@, input@).1) {
            (Ok(out), Ok(expected)) => views_of(out@) == expected,
            (Err(failure), Err(expected)) => failure == expected,
            _ => false,
        },
{
    match input {
        Input::Malformed(error) => Err(Failure::Decode(error)),
        Input::Decoded(message) => match node.step(message) {
            Ok(replies) => Ok(replies),
            Err(violation) => Err(Failure::Step(violation)),
        },
    }
}

/// What a run over a stream of inputs comes to.
pub struct Run<State, P, Violation> {
    /// The node's state when the run ended.
    pub state: State,
    /// Every message that was sent, in the order of sending.
    pub emitted: Seq<MessageView<P>>,
    /// How the run ended: at the end of the input, or at a failure.
    pub result: Result<(), Failure<Violation>>,
}

/// The run of a node that starts in `start` over `inputs`, the last of which
/// is followed by the end of the stream.
///
/// The items are handled in order, each in the state that the one before
/// left, until one fails. The failure is the run's result, and no item after
/// it is looked at. A run that gets through all its input ends well.
pub open spec fn run<S: Node<Payload>, Payload: View>(
    start: S::V,
    inputs: Seq<InputView<Payload::V>>,
) -> Run<S::V, Payload::V, S::Violation>
    decreases inputs.len(),
{
    if inputs.len() == 0 {
        Run { state: start, emitted: Seq::empty(), result: Ok(()) }
    } else {
        let before = run::<S, Payload>(start, inputs.drop_last());
        if before.result is Err {
            before
        } else {
            let (state, result) = dispatched::<S, Payload>(before.state, inputs.last());
            match result {
                Ok(replies) => Run { state, emitted: before.emitted + replies, result: Ok(()) },
                Err(failure) => Run { state, emitted: before.emitted, result: Err(failure) },
            }
        }
    }
}

/// Whether the machine this runs on can represent every transition of the
/// run from `start` over `inputs`.
pub open spec fn admits<S: Node<Payload>, Payload: View>(
    start: S::V,
    inputs: Seq<InputView<Payload::V>>,
) -> bool {
    forall|k: int|
        0 <= k < inputs.len() ==> {
            let before = #[trigger] run::<S, Payload>(start, inputs.take(k));
            before.result is Ok ==> (inputs[k] matches InputView::Decoded(message) ==> S::accepts(
                before.state,
                message,
            ))
        }
}

/// A run that has failed is not changed by more input.
pub proof fn lemma_run_ends_at_failure<S: Node<Payload>, Payload: View>(
    start: S::V,
    inputs: Seq<InputView<Payload::V>>,
    n: int,
)
    requires
        0 <= n <= inputs.len(),
        run::<S, Payload>(start, inputs.take(n)).result is Err,
    ensures
        run::<S, Payload>(start, inputs) == run::<S, Payload>(start, inputs.take(n)),
    decreases inputs.len() - n,
{
    if n == inputs.len() {
        assert(inputs.take(n) =~= inputs);
    } else {
        assert(inputs.drop_last().take(n) =~= inputs.take(n));
        lemma_run_ends_at_failure::<S, Payload>(start, inputs.drop_last(), n);
    }
}

/// What has been handled without failure stays: the messages that a run
/// sent over the first `n` items are the first that it sends over all.
pub proof fn lemma_run_keeps_what_was_sent<S: Node<Payload>, Payload: View>(
    start: S::V,
    inputs: Seq<InputView<Payload::V>>,
    n: int,
)
    requires
        0 <= n <= inputs.len(),
    ensures
        run::<S, Payload>(start, inputs.take(n)).emitted.is_prefix_of(
            run::<S, Payload>(start, inputs).emitted,
        ),
    decreases inputs.len() - n,
{
    if n == inputs.len() {
        assert(inputs.take(n) =~= inputs);
    } else {
        assert(inputs.drop_last().take(n) =~= inputs.take(n));
        lemma_run_keeps_what_was_sent::<S, Payload>(start, inputs.drop_last(), n);
    }
}

/// A malformed item ends the run with a decode failure that holds the
/// decoder's error for that item, unchanged: the node's state and the
/// messages sent are those of the run over the items before it, whatever
/// follows it in the input.
pub proof fn lemma_run_ends_at_malformed_input<S: Node<Payload>, Payload: View>(
    start: S::V,
    inputs: Seq<InputView<Payload::V>>,
    n: int,
)
    requires
        0 <= n < inputs.len(),
        inputs[n] is Malformed,
        run::<S, Payload>(start, inputs.take(n)).result is Ok,
    ensures
        run::<S, Payload>(start, inputs) == (Run {
            result: Err(Failure::Decode(inputs[n]->Malformed_0)),
            ..run::<S, Payload>(start, inputs.take(n))
        }),
{
    assert(inputs.take(n + 1).drop_last() =~= inputs.take(n));
    lemma_run_ends_at_failure::<S, Payload>(start, inputs, n + 1);
}

/// A message that the node refuses ends the run with that refusal: the
/// messages sent are those of the run over the items before it, whatever
/// follows it in the input.
pub proof fn lemma_run_ends_at_refusal<S: Node<Payload>, Payload: View>(
    start: S::V,
    inputs: Seq<InputView<Payload::V>>,
    n: int,
)
    requires
        0 <= n < inputs.len(),
        run::<S, Payload>(start, inputs.take(n)).result is Ok,
        inputs[n] is Decoded,
        S::replies(run::<S, Payload>(start, inputs.take(n)).state, inputs[n]->Decoded_0) is Err,
    ensures
        ({
            let before = run::<S, Payload>(start, inputs.take(n));
            let message = inputs[n]->Decoded_0;
            run::<S, Payload>(start, inputs) == (Run {
                state: S::next(before.state, message),
                emitted: before.emitted,
                result: Err(Failure::Step(S::replies(before.state, message)->Err_0)),
            })
        }),
{
    assert(inputs.take(n + 1).drop_last() =~= inputs.take(n));
    lemma_run_ends_at_failure::<S, Payload>(start, inputs, n + 1);
}

/// What a run that stands at `before` comes to when it goes on over `rest`:
/// nothing more if it has failed, and else what the run from its state over
/// `rest` adds.
pub open spec fn resumed<S: Node<Payload>, Payload: View>(
    before: Run<S::V, Payload::V, S::Violation>,
    rest: Seq<InputView<Payload::V>>,
) -> Run<S::V, Payload::V, S::Violation> {
    if before.result is Err {
        before
    } else {
        let after = run::<S, Payload>(before.state, rest);
        Run { state: after.state, emitted: before.emitted + after.emitted, result: after.result }
    }
}

/// A run can be cut at any point: the run over the whole input is the run
/// over its first part, gone on with over the rest. So a node handles a
/// message in the same way whether it comes early or late in a stream; only
/// the state in which it finds the node matters.
pub proof fn lemma_run_splits<S: Node<Payload>, Payload: View>(
    start: S::V,
    first: Seq<InputView<Payload::V>>,
    rest: Seq<InputView<Payload::V>>,
)
    ensures
        run::<S, Payload>(start, first + rest) == resumed::<S, Payload>(
            run::<S, Payload>(start, first),
            rest,
        ),
    decreases rest.len(),
{
    if rest.len() > 0 {
        assert((first + rest).drop_last() =~= first + rest.drop_last());
        lemma_run_splits::<S, Payload>(start, first, rest.drop_last());
        let before = run::<S, Payload>(start, first);
        let shorter = run::<S, Payload>(before.state, rest.drop_last());
        if before.result is Ok && shorter.result is Ok {
            if let Ok(replies) = dispatched::<S, Payload>(shorter.state, rest.last()).1 {
                assert((before.emitted + shorter.emitted) + replies =~= before.emitted
                    + (shorter.emitted + replies));
            }
        }
    }
}

/// What [`main_loop`] hands back.
#[derive(Debug)]
pub struct Outcome<Payload, Violation> {
    /// Every message that was sent, in the order of sending.
    pub emitted: Vec<Message<Payload>>,
    /// How the run ended: at the end of the input, or at a failure.
    pub result: Result<(), Failure<Violation>>,
}

/// Drives `state` over `inputs`, the last of which is followed by the end of
/// the stream, and returns what was sent and how the run ended.
pub fn main_loop<S, Payload>(state: S, inputs: Vec<Input<Payload>>) -> (outcome: Outcome<
    Payload,
    S::Violation,
>) where S: Node<Payload>, Payload: View
    requires
        admits::<S, Payload>(state@, views_of(inputs@)),
    ensures
        views_of(outcome.emitted@) == run::<S, Payload>(state@, views_of(inputs@)).emitted,
        outcome.result == run::<S, Payload>(state@, views_of(inputs@)).result,
{
    let ghost start = state@;
    let ghost all = views_of(inputs@);
    let mut node = state;
    let mut emitted: Vec<Message<Payload>> = Vec::new();
    for input in iter: inputs
        invariant
            iter.seq() == inputs@,
            start == state@,
            all == views_of(inputs@),
            admits::<S, Payload>(start, all),
            ({
                let so_far = run::<S, Payload>(start, all.take(iter.index() as int));
                &&& so_far.state == node@
                &&& so_far.emitted == views_of(emitted@)
                &&& so_far.result is Ok
            }),
    {
        let ghost n = iter.index() as int;
        proof {
            assert(all.take(n + 1).drop_last() =~= all.take(n));
        }
        match dispatch(&mut node, input) {
            Ok(mut replies) => {
                emitted.append(&mut replies);
            },
            Err(failure) => {
                proof {
                    lemma_run_ends_at_failure::<S, Payload>(start, all, n + 1);
                }
                return Outcome { emitted, result: Err(failure) };
            },
        }
    }
    proof {
        assert(all.take(all.len() as int) =~= all);
    }
    Outcome { emitted, result: Ok(()) }
}

} // verus!
