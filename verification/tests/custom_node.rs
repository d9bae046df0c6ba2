//! The loop with a node of another protocol, written in plain Rust. The
//! items of `View` and `Node` that only contracts speak of are never called,
//! so here they have no body to speak of.

use rustengan::{main_loop, Body, Failure, Input, Message, MessageView, Node};
use vstd::prelude::{Seq, View};

/// A payload that is one number.
#[derive(Debug, Clone, PartialEq, Eq)]
struct Count(u8);

impl View for Count {
    type V = Count;

    fn view(&self) -> Count {
        unreachable!()
    }
}

/// A node that answers a count of `n` with `n` messages that count down to
/// one, and refuses a count above three.
struct Countdown;

impl View for Countdown {
    type V = ();

    fn view(&self) {
        unreachable!()
    }
}

#[derive(Debug, PartialEq, Eq)]
struct TooMany(u8);

impl Node<Count> for Countdown {
    type Violation = TooMany;

    fn accepts(_: (), _: MessageView<Count>) -> bool {
        unreachable!()
    }

    fn next(_: (), _: MessageView<Count>) {
        unreachable!()
    }

    fn replies(_: (), _: MessageView<Count>) -> Result<Seq<MessageView<Count>>, TooMany> {
        unreachable!()
    }

    fn step(&mut self, input: Message<Count>) -> Result<Vec<Message<Count>>, TooMany> {
        let Count(n) = input.body.payload;
        if n > 3 {
            return Err(TooMany(n));
        }
        Ok((0..n)
            .map(|i| Message {
                src: input.dst.clone(),
                dst: input.src.clone(),
                body: Body {
                    id: usize::from(i),
                    in_reply_to: Some(input.body.id),
                    payload: Count(n - i),
                },
            })
            .collect())
    }
}

fn count(id: usize, n: u8) -> Input<Count> {
    Input::Decoded(Message {
        src: "a".to_string(),
        dst: "b".to_string(),
        body: Body { id, in_reply_to: None, payload: Count(n) },
    })
}

#[test]
fn every_reply_of_every_step_is_sent_in_order() {
    let outcome = main_loop(Countdown, vec![count(1, 2), count(2, 0), count(3, 3)]);
    assert!(matches!(outcome.result, Ok(())));
    let sent: Vec<(Option<usize>, u8)> =
        outcome.emitted.iter().map(|m| (m.body.in_reply_to, m.body.payload.0)).collect();
    assert_eq!(
        sent,
        vec![(Some(1), 2), (Some(1), 1), (Some(3), 3), (Some(3), 2), (Some(3), 1)]
    );
}

#[test]
fn a_refusal_of_any_node_ends_the_run() {
    let outcome = main_loop(Countdown, vec![count(1, 1), count(2, 9), count(3, 1)]);
    match outcome.result {
        Err(Failure::Step(refusal)) => assert_eq!(refusal, TooMany(9)),
        other => panic!("not a refusal: {:?}", other),
    }
    assert_eq!(outcome.emitted.len(), 1);
    assert_eq!(outcome.emitted[0].body.payload, Count(1));
}
