//! What sending a signal does, as a function of the network's wiring, its state
//! and the answers that the handler gave.
use vstd::prelude::*;
use crate::respond::{agrees, Respond};
use crate::signal::{Either, Signal};

verus! {

/// One subscription of a stream: what happens to each signal that the stream emits.
/// Stream targets and storage slots are indices into the network.
#[derive(Debug, PartialEq, Eq, Clone, Copy)]
pub enum Sub<K> {
    /// Hand the signal to the handler under this key, for its effects.
    Observe(K),
    /// Send the handler's answer for the signal to the target stream.
    Apply(K, usize),
    /// Send the signal itself to the target stream when the handler keeps it.
    Filter(K, usize),
    /// Send the handler's answer, if any, to the target stream.
    FilterMap(K, usize),
    /// Combine the accumulator in the slot with the signal; store the result
    /// and send it to the target stream.
    Fold(K, usize, usize),
    /// Send the signal unchanged to the target stream.
    Forward(usize),
    /// Send the signal, tagged as a left value, to the target stream.
    ZipLeft(usize),
    /// Send the signal, tagged as a right value, to the target stream.
    ZipRight(usize),
    /// Send the contents of a left value to the first stream and those of a
    /// right value to the second.
    Unzip(usize, usize),
    /// Append the signal to the buffer in the slot.
    Sink(usize),
}

/// A request to the handler: the key of the user function and its arguments.
#[derive(Debug, PartialEq, Eq)]
pub enum Call<S, K> {
    Observe(K, Signal<S>),
    Apply(K, Signal<S>),
    Filter(K, Signal<S>),
    FilterMap(K, Signal<S>),
    /// Key, accumulator, signal.
    Fold(K, Signal<S>, Signal<S>),
}

/// The result of a propagation: whether it completed, the fold accumulators and
/// sink buffers after it, the emissions (stream, signal) in order, and the calls
/// made to the handler in order.
pub struct Outcome<S, K> {
    pub ok: bool,
    pub folds: Seq<Signal<S>>,
    pub sinks: Seq<Seq<Signal<S>>>,
    pub trace: Seq<(usize, Signal<S>)>,
    pub calls: Seq<Call<S, K>>,
}

/// The handler's answer to the call at index `i`; a missing answer counts as `None`.
pub open spec fn reply_at<S>(replies: Seq<Option<Signal<S>>>, i: int) -> Option<Signal<S>> {
    if 0 <= i < replies.len() {
        replies[i]
    } else {
        None
    }
}

pub open spec fn with_call<S, K>(o: Outcome<S, K>, c: Call<S, K>) -> Outcome<S, K> {
    Outcome { calls: o.calls.push(c), ..o }
}

pub open spec fn tag_left<S>(s: Signal<S>) -> Signal<S> {
    Signal::Zipped(Box::new(Either::Left(s)))
}

pub open spec fn tag_right<S>(s: Signal<S>) -> Signal<S> {
    Signal::Zipped(Box::new(Either::Right(s)))
}

/// Stream `node` emits `sig`: the emission is recorded, then every subscription of
/// the stream runs in order. Reaching a stream that is still emitting fails.
pub open spec fn deliver<S, K>(
    g: Seq<Seq<Sub<K>>>,
    node: usize,
    sig: Signal<S>,
    stack: Seq<usize>,
    o: Outcome<S, K>,
    rs: Seq<Option<Signal<S>>>,
) -> Outcome<S, K>
    decreases g.len() - stack.len(), 0int, 0int,
{
    if !o.ok {
        o
    } else if node >= g.len() || stack.contains(node) || stack.len() >= g.len() {
        Outcome { ok: false, ..o }
    } else {
        process(
            g,
            node,
            0,
            sig,
            stack.push(node),
            Outcome { trace: o.trace.push((node, sig)), ..o },
            rs,
        )
    }
}

/// The subscriptions of `node` from index `j` on run, in order, for `sig`.
pub open spec fn process<S, K>(
    g: Seq<Seq<Sub<K>>>,
    node: usize,
    j: int,
    sig: Signal<S>,
    stack: Seq<usize>,
    o: Outcome<S, K>,
    rs: Seq<Option<Signal<S>>>,
) -> Outcome<S, K>
    decreases g.len() - stack.len(), 1int, g[node as int].len() - j,
{
    if !o.ok || j < 0 || j >= g[node as int].len() || stack.len() > g.len() {
        o
    } else {
        process(g, node, j + 1, sig, stack, step(g, node, j, sig, stack, o, rs), rs)
    }
}

/// Subscription `j` of `node` runs for `sig`.
pub open spec fn step<S, K>(
    g: Seq<Seq<Sub<K>>>,
    node: usize,
    j: int,
    sig: Signal<S>,
    stack: Seq<usize>,
    o: Outcome<S, K>,
    rs: Seq<Option<Signal<S>>>,
) -> Outcome<S, K>
    decreases g.len() - stack.len(), 1int, g[node as int].len() - j - 1,
{
    if !o.ok || j < 0 || j >= g[node as int].len() || stack.len() > g.len() {
        o
    } else {
        let r = reply_at(rs, o.calls.len() as int);
        match g[node as int][j] {
            Sub::Observe(k) => with_call(o, Call::Observe(k, sig)),
            Sub::Apply(k, t) => {
                let o1 = with_call(o, Call::Apply(k, sig));
                match r {
                    Some(v) => deliver(g, t, v, stack, o1, rs),
                    None => o1,
                }
            },
            Sub::Filter(k, t) => {
                let o1 = with_call(o, Call::Filter(k, sig));
                match r {
                    Some(_) => deliver(g, t, sig, stack, o1, rs),
                    None => o1,
                }
            },
            Sub::FilterMap(k, t) => {
                let o1 = with_call(o, Call::FilterMap(k, sig));
                match r {
                    Some(v) => deliver(g, t, v, stack, o1, rs),
                    None => o1,
                }
            },
            Sub::Fold(k, slot, t) => {
                let o1 = with_call(o, Call::Fold(k, o.folds[slot as int], sig));
                match r {
                    Some(v) => deliver(g, t, v, stack, set_fold(o1, slot, v), rs),
                    None => o1,
                }
            },
            Sub::Forward(t) => deliver(g, t, sig, stack, o, rs),
            Sub::ZipLeft(t) => deliver(g, t, tag_left(sig), stack, o, rs),
            Sub::ZipRight(t) => deliver(g, t, tag_right(sig), stack, o, rs),
            Sub::Unzip(a, b) => match sig {
                Signal::Zipped(e) => match *e {
                    Either::Left(l) => deliver(g, a, l, stack, o, rs),
                    Either::Right(x) => deliver(g, b, x, stack, o, rs),
                },
                Signal::Value(_) => o,
            },
            Sub::Sink(slot) => push_sink(o, slot, sig),
        }
    }
}

pub open spec fn set_fold<S, K>(o: Outcome<S, K>, slot: usize, v: Signal<S>) -> Outcome<S, K> {
    Outcome { folds: o.folds.update(slot as int, v), ..o }
}

pub open spec fn push_sink<S, K>(o: Outcome<S, K>, slot: usize, v: Signal<S>) -> Outcome<S, K> {
    Outcome { sinks: o.sinks.update(slot as int, o.sinks[slot as int].push(v)), ..o }
}

/// Replies `r2` agree with `r1` wherever `r1` has one.
pub open spec fn extends<S>(r1: Seq<Option<Signal<S>>>, r2: Seq<Option<Signal<S>>>) -> bool {
    &&& r1.len() <= r2.len()
    &&& forall|i: int| 0 <= i < r1.len() ==> r2[i] == r1[i]
}

/// A propagation only adds calls, and a failed one changes nothing.
pub proof fn lemma_deliver_grows<S, K>(
    g: Seq<Seq<Sub<K>>>,
    node: usize,
    sig: Signal<S>,
    stack: Seq<usize>,
    o: Outcome<S, K>,
    rs: Seq<Option<Signal<S>>>,
)
    ensures
        deliver(g, node, sig, stack, o, rs).calls.len() >= o.calls.len(),
        !o.ok ==> deliver(g, node, sig, stack, o, rs) == o,
        deliver(g, node, sig, stack, o, rs).ok ==> o.ok,
        forall|i: int| 0 <= i < o.calls.len() ==> #[trigger] deliver(g, node, sig, stack, o, rs).calls[i] == o.calls[i],
        wired(g, o.folds.len(), o.sinks.len()) ==> deliver(g, node, sig, stack, o, rs).folds.len() == o.folds.len()
            && deliver(g, node, sig, stack, o, rs).sinks.len() == o.sinks.len(),
    decreases g.len() - stack.len(), 0int, 0int,
{
    if o.ok && !(node >= g.len() || stack.contains(node) || stack.len() >= g.len()) {
        lemma_process_grows(
            g,
            node,
            0,
            sig,
            stack.push(node),
            Outcome { trace: o.trace.push((node, sig)), ..o },
            rs,
        );
    }
}

pub proof fn lemma_process_grows<S, K>(
    g: Seq<Seq<Sub<K>>>,
    node: usize,
    j: int,
    sig: Signal<S>,
    stack: Seq<usize>,
    o: Outcome<S, K>,
    rs: Seq<Option<Signal<S>>>,
)
    ensures
        process(g, node, j, sig, stack, o, rs).calls.len() >= o.calls.len(),
        !o.ok ==> process(g, node, j, sig, stack, o, rs) == o,
        process(g, node, j, sig, stack, o, rs).ok ==> o.ok,
        forall|i: int| 0 <= i < o.calls.len() ==> #[trigger] process(g, node, j, sig, stack, o, rs).calls[i] == o.calls[i],
        wired(g, o.folds.len(), o.sinks.len()) && node < g.len() ==> process(g, node, j, sig, stack, o, rs).folds.len() == o.folds.len()
            && process(g, node, j, sig, stack, o, rs).sinks.len() == o.sinks.len(),
    decreases g.len() - stack.len(), 1int, g[node as int].len() - j,
{
    if !o.ok || j < 0 || j >= g[node as int].len() || stack.len() > g.len() {
    } else {
        lemma_step_grows(g, node, j, sig, stack, o, rs);
        lemma_process_grows(g, node, j + 1, sig, stack, step(g, node, j, sig, stack, o, rs), rs);
    }
}

pub proof fn lemma_step_grows<S, K>(
    g: Seq<Seq<Sub<K>>>,
    node: usize,
    j: int,
    sig: Signal<S>,
    stack: Seq<usize>,
    o: Outcome<S, K>,
    rs: Seq<Option<Signal<S>>>,
)
    ensures
        step(g, node, j, sig, stack, o, rs).calls.len() >= o.calls.len(),
        !o.ok ==> step(g, node, j, sig, stack, o, rs) == o,
        step(g, node, j, sig, stack, o, rs).ok ==> o.ok,
        forall|i: int| 0 <= i < o.calls.len() ==> #[trigger] step(g, node, j, sig, stack, o, rs).calls[i] == o.calls[i],
        wired(g, o.folds.len(), o.sinks.len()) && node < g.len() ==> step(g, node, j, sig, stack, o, rs).folds.len() == o.folds.len()
            && step(g, node, j, sig, stack, o, rs).sinks.len() == o.sinks.len(),
    decreases g.len() - stack.len(), 1int, g[node as int].len() - j - 1,
{
    if !o.ok || j < 0 || j >= g[node as int].len() || stack.len() > g.len() {
    } else {
        let r = reply_at(rs, o.calls.len() as int);
        if wired(g, o.folds.len(), o.sinks.len()) && node < g.len() {
            assert(sub_wired(g[node as int][j], g.len(), o.folds.len(), o.sinks.len()));
        }
        match g[node as int][j] {
            Sub::Observe(k) => {},
            Sub::Apply(k, t) => {
                if let Some(v) = r {
                    lemma_deliver_grows(g, t, v, stack, with_call(o, Call::Apply(k, sig)), rs);
                }
            },
            Sub::Filter(k, t) => {
                if let Some(_) = r {
                    lemma_deliver_grows(g, t, sig, stack, with_call(o, Call::Filter(k, sig)), rs);
                }
            },
            Sub::FilterMap(k, t) => {
                if let Some(v) = r {
                    lemma_deliver_grows(g, t, v, stack, with_call(o, Call::FilterMap(k, sig)), rs);
                }
            },
            Sub::Fold(k, slot, t) => {
                if let Some(v) = r {
                    let o1 = with_call(o, Call::Fold(k, o.folds[slot as int], sig));
                    lemma_deliver_grows(g, t, v, stack, set_fold(o1, slot, v), rs);
                }
            },
            Sub::Forward(t) => {
                lemma_deliver_grows(g, t, sig, stack, o, rs);
            },
            Sub::ZipLeft(t) => {
                lemma_deliver_grows(g, t, tag_left(sig), stack, o, rs);
            },
            Sub::ZipRight(t) => {
                lemma_deliver_grows(g, t, tag_right(sig), stack, o, rs);
            },
            Sub::Unzip(a, b) => match sig {
                Signal::Zipped(e) => match *e {
                    Either::Left(l) => {
                        lemma_deliver_grows(g, a, l, stack, o, rs);
                    },
                    Either::Right(x) => {
                        lemma_deliver_grows(g, b, x, stack, o, rs);
                    },
                },
                Signal::Value(_) => {},
            },
            Sub::Sink(slot) => {},
        }
    }
}

/// A propagation reads no answer beyond the calls it makes: answers added later do
/// not change it.
pub proof fn lemma_deliver_frame<S, K>(
    g: Seq<Seq<Sub<K>>>,
    node: usize,
    sig: Signal<S>,
    stack: Seq<usize>,
    o: Outcome<S, K>,
    r1: Seq<Option<Signal<S>>>,
    r2: Seq<Option<Signal<S>>>,
)
    requires
        extends(r1, r2),
        deliver(g, node, sig, stack, o, r1).calls.len() <= r1.len(),
    ensures
        deliver(g, node, sig, stack, o, r1) == deliver(g, node, sig, stack, o, r2),
    decreases g.len() - stack.len(), 0int, 0int,
{
    if o.ok && !(node >= g.len() || stack.contains(node) || stack.len() >= g.len()) {
        lemma_process_frame(
            g,
            node,
            0,
            sig,
            stack.push(node),
            Outcome { trace: o.trace.push((node, sig)), ..o },
            r1,
            r2,
        );
    }
}

pub proof fn lemma_process_frame<S, K>(
    g: Seq<Seq<Sub<K>>>,
    node: usize,
    j: int,
    sig: Signal<S>,
    stack: Seq<usize>,
    o: Outcome<S, K>,
    r1: Seq<Option<Signal<S>>>,
    r2: Seq<Option<Signal<S>>>,
)
    requires
        extends(r1, r2),
        process(g, node, j, sig, stack, o, r1).calls.len() <= r1.len(),
    ensures
        process(g, node, j, sig, stack, o, r1) == process(g, node, j, sig, stack, o, r2),
    decreases g.len() - stack.len(), 1int, g[node as int].len() - j,
{
    if !o.ok || j < 0 || j >= g[node as int].len() || stack.len() > g.len() {
    } else {
        let after = step(g, node, j, sig, stack, o, r1);
        lemma_process_grows(g, node, j + 1, sig, stack, after, r1);
        lemma_step_frame(g, node, j, sig, stack, o, r1, r2);
        lemma_process_frame(g, node, j + 1, sig, stack, after, r1, r2);
    }
}

pub proof fn lemma_step_frame<S, K>(
    g: Seq<Seq<Sub<K>>>,
    node: usize,
    j: int,
    sig: Signal<S>,
    stack: Seq<usize>,
    o: Outcome<S, K>,
    r1: Seq<Option<Signal<S>>>,
    r2: Seq<Option<Signal<S>>>,
)
    requires
        extends(r1, r2),
        step(g, node, j, sig, stack, o, r1).calls.len() <= r1.len(),
    ensures
        step(g, node, j, sig, stack, o, r1) == step(g, node, j, sig, stack, o, r2),
    decreases g.len() - stack.len(), 1int, g[node as int].len() - j - 1,
{
    if !o.ok || j < 0 || j >= g[node as int].len() || stack.len() > g.len() {
    } else {
        let idx = o.calls.len() as int;
        let r = reply_at(r1, idx);
        match g[node as int][j] {
            Sub::Observe(k) => {},
            Sub::Apply(k, t) => {
                let o1 = with_call(o, Call::Apply(k, sig));
                if let Some(v) = r {
                    lemma_deliver_grows(g, t, v, stack, o1, r1);
                    lemma_deliver_frame(g, t, v, stack, o1, r1, r2);
                }
                assert(reply_at(r2, idx) == r);
            },
            Sub::Filter(k, t) => {
                let o1 = with_call(o, Call::Filter(k, sig));
                if let Some(_) = r {
                    lemma_deliver_grows(g, t, sig, stack, o1, r1);
                    lemma_deliver_frame(g, t, sig, stack, o1, r1, r2);
                }
                assert(reply_at(r2, idx) == r);
            },
            Sub::FilterMap(k, t) => {
                let o1 = with_call(o, Call::FilterMap(k, sig));
                if let Some(v) = r {
                    lemma_deliver_grows(g, t, v, stack, o1, r1);
                    lemma_deliver_frame(g, t, v, stack, o1, r1, r2);
                }
                assert(reply_at(r2, idx) == r);
            },
            Sub::Fold(k, slot, t) => {
                let o1 = with_call(o, Call::Fold(k, o.folds[slot as int], sig));
                if let Some(v) = r {
                    lemma_deliver_grows(g, t, v, stack, set_fold(o1, slot, v), r1);
                    lemma_deliver_frame(g, t, v, stack, set_fold(o1, slot, v), r1, r2);
                }
                assert(reply_at(r2, idx) == r);
            },
            Sub::Forward(t) => {
                lemma_deliver_frame(g, t, sig, stack, o, r1, r2);
            },
            Sub::ZipLeft(t) => {
                lemma_deliver_frame(g, t, tag_left(sig), stack, o, r1, r2);
            },
            Sub::ZipRight(t) => {
                lemma_deliver_frame(g, t, tag_right(sig), stack, o, r1, r2);
            },
            Sub::Unzip(a, b) => match sig {
                Signal::Zipped(e) => match *e {
                    Either::Left(l) => {
                        lemma_deliver_frame(g, a, l, stack, o, r1, r2);
                    },
                    Either::Right(x) => {
                        lemma_deliver_frame(g, b, x, stack, o, r1, r2);
                    },
                },
                Signal::Value(_) => {},
            },
            Sub::Sink(slot) => {},
        }
    }
}

/// Every subscription points at existing streams and slots.
pub open spec fn sub_wired<K>(s: Sub<K>, n: nat, nfolds: nat, nsinks: nat) -> bool {
    match s {
        Sub::Observe(_) => true,
        Sub::Apply(_, t) => t < n,
        Sub::Filter(_, t) => t < n,
        Sub::FilterMap(_, t) => t < n,
        Sub::Fold(_, slot, t) => slot < nfolds && t < n,
        Sub::Forward(t) => t < n,
        Sub::ZipLeft(t) => t < n,
        Sub::ZipRight(t) => t < n,
        Sub::Unzip(a, b) => a < n && b < n,
        Sub::Sink(slot) => slot < nsinks,
    }
}

pub open spec fn wired<K>(g: Seq<Seq<Sub<K>>>, nfolds: nat, nsinks: nat) -> bool {
    forall|i: int, j: int|
        0 <= i < g.len() && 0 <= j < g[i].len() ==> sub_wired(#[trigger] g[i][j], g.len(), nfolds, nsinks)
}

/// Each answer in `rs` is one that responder `h` may give to the call at the same index.
pub open spec fn answered<S, K, H: Respond<S, K>>(
    h: H,
    calls: Seq<Call<S, K>>,
    rs: Seq<Option<Signal<S>>>,
) -> bool {
    &&& calls.len() == rs.len()
    &&& forall|i: int| 0 <= i < rs.len() ==> h.answers(calls[i], #[trigger] rs[i])
}

/// Responders that give the same answers accept the same records of answers.
pub proof fn lemma_answered_agrees<S, K, H: Respond<S, K>>(
    a: H,
    b: H,
    calls: Seq<Call<S, K>>,
    rs: Seq<Option<Signal<S>>>,
)
    requires
        agrees(a, b),
        answered(a, calls, rs),
    ensures
        answered(b, calls, rs),
{
    assert forall|i: int| 0 <= i < rs.len() implies b.answers(calls[i], #[trigger] rs[i]) by {
        assert(a.answers(calls[i], rs[i]));
    }
}

/// A new stream with no subscriptions keeps the network wired.
pub proof fn lemma_wired_push_stream<K>(g: Seq<Seq<Sub<K>>>, nfolds: nat, nsinks: nat)
    requires
        wired(g, nfolds, nsinks),
    ensures
        wired(g.push(Seq::empty()), nfolds, nsinks),
{
    let g2 = g.push(Seq::empty());
    assert forall|i: int, j: int| 0 <= i < g2.len() && 0 <= j < g2[i].len() implies sub_wired(
        #[trigger] g2[i][j],
        g2.len(),
        nfolds,
        nsinks,
    ) by {
        assert(i < g.len());
        assert(g2[i] == g[i]);
        assert(sub_wired(g[i][j], g.len(), nfolds, nsinks));
    }
}

/// A subscription that points at existing streams and slots keeps the network wired.
pub proof fn lemma_wired_add_sub<K>(g: Seq<Seq<Sub<K>>>, x: int, s: Sub<K>, nfolds: nat, nsinks: nat)
    requires
        wired(g, nfolds, nsinks),
        0 <= x < g.len(),
        sub_wired(s, g.len(), nfolds, nsinks),
    ensures
        wired(g.update(x, g[x].push(s)), nfolds, nsinks),
{
    let g2 = g.update(x, g[x].push(s));
    assert forall|i: int, j: int| 0 <= i < g2.len() && 0 <= j < g2[i].len() implies sub_wired(
        #[trigger] g2[i][j],
        g2.len(),
        nfolds,
        nsinks,
    ) by {
        if i == x && j == g[x].len() {
        } else {
            assert(g2[i][j] == g[i][j]);
            assert(sub_wired(g[i][j], g.len(), nfolds, nsinks));
        }
    }
}

/// More slots keep the network wired.
pub proof fn lemma_wired_more_slots<K>(g: Seq<Seq<Sub<K>>>, nf: nat, ns: nat, nf2: nat, ns2: nat)
    requires
        wired(g, nf, ns),
        nf <= nf2,
        ns <= ns2,
    ensures
        wired(g, nf2, ns2),
{
    assert forall|i: int, j: int| 0 <= i < g.len() && 0 <= j < g[i].len() implies sub_wired(
        #[trigger] g[i][j],
        g.len(),
        nf2,
        ns2,
    ) by {
        assert(sub_wired(g[i][j], g.len(), nf, ns));
    }
}

} // verus!
