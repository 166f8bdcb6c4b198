//! Functional reactive streams of signals.
//!
//! Everything revolves around the concept of a [`Stream`]: a stream of typed
//! signals. A stream gets a signal as input and broadcasts it downwards to its
//! subscriptions, in the order in which they were made. Streams compose with
//! simple combinators: `map`, `filter`, `filter_map`, `fold`, `merge`, `zip`,
//! `unzip`, `entangled` and `sink`.
//!
//! The streams of a program live in a [`Network`], which owns their subscriptions,
//! the accumulators of folds and the buffers of sinks. User functions are named by
//! keys: the network's handler (a [`Respond`] implementation, such as a [`Handler`]
//! around one closure) receives a [`Call`] with the key and the arguments, answers
//! with an optional [`Signal`], and keeps a record of the calls it heard. What a send
//! does, for every answer the handler may give, is defined in [`semantics`] and
//! proved of [`Stream::send`], down to the calls the handler hears; [`laws`] states
//! what each combinator promises.
use vstd::prelude::*;

pub mod laws;
pub mod lemmas;
pub mod network;
pub mod respond;
pub mod semantics;
pub mod signal;

pub use network::{Network, Reentered, Sink, Stream};
pub use respond::{Handler, Respond};
pub use semantics::{Call, Sub};
pub use signal::{Either, Signal};

verus! {

} // verus!
