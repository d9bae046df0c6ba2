//! A harness for nodes that take part in a protocol of JSON messages, one
//! after another on an input stream, with the replies on an output stream.
//!
//! - [`message`]: the envelope of every message, and its parts.
//! - [`node`]: what a node is, as a state machine with one operation.
//! - [`run`]: the loop that drives a node over the input, and what a whole
//!   run comes to.
//! - [`echo`]: the echo protocol and its node.
//!
//! Nothing here reads or writes: a caller decodes the input, hands it over
//! as values, and sends what comes back.

pub mod echo;
pub mod message;
pub mod node;
pub mod run;

pub use echo::{EchoNode, Payload, PayloadView, Unexpected};
pub use message::{Body, BodyView, Init, InitView, Message, MessageView};
pub use node::Node;
pub use run::{dispatch, main_loop, Failure, Input, InputView, Outcome};
