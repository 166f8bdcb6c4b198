# bidule

Functional reactive streams of signals, verified with Verus.

A `Stream` broadcasts each signal it gets to its subscriptions, in the order in
which they were made. Combinators build new streams: `map`, `filter`,
`filter_map`, `fold`, `merge`, `zip`, `unzip`, `entangled` and `sink`.

The streams live in a `Network`, which owns their subscriptions, the accumulators
of folds and the buffers of sinks. User functions are named by keys; the network's
responder (a `Handler` around one closure, or any type implementing `Respond`)
receives each `Call` (the key and its arguments) and answers with an optional
`Signal`. A responder records the calls it heard, so the contract of `send` says
exactly which user functions ran, in which order, once each; building a network
calls none. Reaching a stream that is still emitting stops a send with
`Reentered`.

Layout of `src/`:

- `signal.rs`: `Either` and `Signal`, the values that flow through a network.
- `respond.rs`: the `Respond` trait and the closure-based `Handler`.
- `semantics.rs`: subscriptions, calls, and what a send does (`deliver`,
  `process`, `step`) as a function of the wiring, the state and the handler's
  answers; lemmas on how a send reads those answers.
- `network.rs`: the `Network`, the `Stream` combinators and `send`, each proved
  against `semantics.rs`.
- `lemmas.rs`: facts about which streams a send reaches.
- `laws.rs`: what each combinator promises, per send and over sequences of sends
  (maps emit answers, filters keep, folds accumulate, merges and zips combine their
  sources, merging commutes and associates, unzip splits and zip undoes it,
  entangled streams exchange, sinks collect, subscriptions run in the order they
  were made, and each user function runs once per signal).
