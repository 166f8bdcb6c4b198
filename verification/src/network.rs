//! The network of streams: its state, the streams' combinators, and sending.
use vstd::prelude::*;
use crate::semantics::{
    answered, deliver, extends, lemma_process_grows, lemma_step_frame, lemma_step_grows,
    lemma_wired_add_sub, lemma_wired_more_slots, lemma_wired_push_stream, process, push_sink,
    lemma_answered_agrees, set_fold, step, sub_wired, wired, with_call, Call, Outcome, Sub,
};
use crate::respond::{agrees, lemma_agrees, Respond};
use crate::signal::{Either, Signal};
use crate::lemmas::{
    forward, fresh_sub, funnel, grows_from, lemma_forward_push, lemma_forward_sub, lemma_funnel_new,
    lemma_grows_push, lemma_grows_refl, lemma_grows_sub, lemma_slots_unused_fresh,
    lemma_sole_new_sub, lemma_sole_slots_new_sub, lemma_untargeted_fresh, sends_after, sole_fold,
    sole_pair, sole_sink, sole_source, targets, untargeted,
};

verus! {

/// A stream of signals: a handle on one stream of a [`Network`].
#[derive(Debug, PartialEq, Eq, Clone, Copy)]
pub struct Stream {
    id: usize,
}

/// The buffer that a sunk stream fills.
#[derive(Debug, PartialEq, Eq, Clone, Copy)]
pub struct Sink {
    slot: usize,
}

/// Sending reached a stream that was still emitting an earlier signal.
#[derive(Debug, PartialEq, Eq, Clone, Copy)]
pub struct Reentered;

/// The streams, their subscriptions, the state of folds and sinks, and the handler
/// that runs the user functions named by the keys of the subscriptions.
pub struct Network<S, K, H> {
    subs: Vec<Vec<Sub<K>>>,
    folds: Vec<Signal<S>>,
    sinks: Vec<Vec<Signal<S>>>,
    handler: H,
}

impl Stream {
    /// The index of this stream in its network.
    pub closed spec fn index(self) -> usize {
        self.id
    }
}

impl Sink {
    /// The index of this sink's buffer in its network.
    pub closed spec fn index(self) -> usize {
        self.slot
    }
}

/// The outcome of sending `sig` on stream `node` of a network in the given state.
pub open spec fn run<S, K>(
    g: Seq<Seq<Sub<K>>>,
    folds: Seq<Signal<S>>,
    sinks: Seq<Seq<Signal<S>>>,
    node: usize,
    sig: Signal<S>,
    rs: Seq<Option<Signal<S>>>,
) -> Outcome<S, K> {
    deliver(
        g,
        node,
        sig,
        Seq::empty(),
        Outcome { ok: true, folds, sinks, trace: Seq::empty(), calls: Seq::empty() },
        rs,
    )
}

impl<S, K, H> Network<S, K, H> {
    /// The subscriptions of each stream, in the order they were made.
    pub closed spec fn graph(&self) -> Seq<Seq<Sub<K>>> {
        Seq::new(self.subs@.len(), |i: int| self.subs@[i]@)
    }

    /// The accumulator of each fold.
    pub closed spec fn accumulators(&self) -> Seq<Signal<S>> {
        self.folds@
    }

    /// The pending signals of each sink.
    pub closed spec fn buffers(&self) -> Seq<Seq<Signal<S>>> {
        Seq::new(self.sinks@.len(), |i: int| self.sinks@[i]@)
    }

    /// The handler that runs the user functions.
    pub closed spec fn responder(&self) -> H {
        self.handler
    }
}

impl<S, K, H: Respond<S, K>> Network<S, K, H> {
    /// Every subscription points at existing streams and slots, and the handler
    /// accepts every call.
    pub closed spec fn wf(&self) -> bool {
        &&& wired(self.graph(), self.accumulators().len(), self.buffers().len())
        &&& self.handler.ready()
    }

    /// `s` is a stream of this network.
    pub open spec fn has(&self, s: Stream) -> bool {
        s.index() < self.graph().len()
    }

    /// In a well-formed network every subscription points at existing streams and
    /// slots, and the handler accepts every call.
    pub proof fn lemma_wf(&self)
        requires
            self.wf(),
        ensures
            wired(self.graph(), self.accumulators().len(), self.buffers().len()),
            self.responder().ready(),
    {
    }
}

fn stack_has(stack: &Vec<usize>, node: usize) -> (b: bool)
    ensures
        b == stack@.contains(node),
{
    let mut i: usize = 0;
    while i < stack.len()
        invariant
            i <= stack@.len(),
            forall|k: int| 0 <= k < i ==> stack@[k] != node,
        decreases stack@.len() - i,
    {
        if stack[i] == node {
            return true;
        }
        i = i + 1;
    }
    false
}

fn stack_with(stack: &Vec<usize>, node: usize) -> (r: Vec<usize>)
    ensures
        r@ == stack@.push(node),
{
    let mut r: Vec<usize> = Vec::new();
    let mut i: usize = 0;
    while i < stack.len()
        invariant
            i <= stack@.len(),
            r@ == stack@.take(i as int),
        decreases stack@.len() - i,
    {
        r.push(stack[i]);
        i = i + 1;
        assert(r@ =~= stack@.take(i as int));
    }
    assert(stack@.take(stack@.len() as int) =~= stack@);
    r.push(node);
    r
}

impl<S: Copy, K: Copy, H: Respond<S, K>> Network<S, K, H> {
    /// Hand call `c` to the handler and record its answer after those of `o`.
    fn ask(
        &mut self,
        c: Call<S, K>,
        Ghost(o): Ghost<Outcome<S, K>>,
        Ghost(base): Ghost<Seq<Call<S, K>>>,
        replies: &mut Ghost<Seq<Option<Signal<S>>>>,
    ) -> (r: Option<Signal<S>>)
        requires
            old(self).wf(),
            old(self).handler.heard() == base + o.calls,
            answered(old(self).handler, o.calls, old(replies)@),
        ensures
            final(self).wf(),
            final(self).graph() == old(self).graph(),
            final(self).accumulators() == old(self).accumulators(),
            final(self).buffers() == old(self).buffers(),
            final(self).handler.heard() == base + with_call(o, c).calls,
            agrees(old(self).handler, final(self).handler),
            final(replies)@ == old(replies)@.push(r),
            answered(final(self).handler, with_call(o, c).calls, final(replies)@),
    {
        let ghost h0 = self.handler;
        let ghost asked = c;
        let r = self.handler.respond(c);
        proof {
            let rs = replies@.push(r);
            let calls = o.calls.push(asked);
            assert forall|i: int| 0 <= i < rs.len() implies h0.answers(calls[i], #[trigger] rs[i]) by {
                if i < replies@.len() {
                    assert(rs[i] == replies@[i]);
                    assert(calls[i] == o.calls[i]);
                }
            }
            assert(base + calls =~= (base + o.calls).push(asked));
            lemma_answered_agrees(h0, self.handler, calls, rs);
            replies@ = rs;
        }
        r
    }

    /// Stream `node` emits `sig` with the streams of `stack` still emitting.
    fn deliver_from(
        &mut self,
        node: usize,
        sig: &Signal<S>,
        stack: &Vec<usize>,
        Ghost(o): Ghost<Outcome<S, K>>,
        Ghost(base): Ghost<Seq<Call<S, K>>>,
        replies: &mut Ghost<Seq<Option<Signal<S>>>>,
    ) -> (ok: bool)
        requires
            old(self).wf(),
            o.ok,
            o.folds == old(self).accumulators(),
            o.sinks == old(self).buffers(),
            old(self).handler.heard() == base + o.calls,
            answered(old(self).handler, o.calls, old(replies)@),
        ensures
            final(self).wf(),
            final(self).graph() == old(self).graph(),
            agrees(old(self).handler, final(self).handler),
            extends(old(replies)@, final(replies)@),
            ({
                let res = deliver(old(self).graph(), node, *sig, stack@, o, final(replies)@);
                &&& res.ok == ok
                &&& res.folds == final(self).accumulators()
                &&& res.sinks == final(self).buffers()
                &&& answered(final(self).handler, res.calls, final(replies)@)
                &&& final(self).handler.heard() == base + res.calls
            }),
        decreases old(self).graph().len() - stack@.len(), 0int, 0int,
    {
        if node >= self.subs.len() || stack.len() >= self.subs.len() || stack_has(stack, node) {
            return false;
        }
        let inner = stack_with(stack, node);
        self.process_from(
            node,
            0,
            sig,
            &inner,
            Ghost(Outcome { trace: o.trace.push((node, *sig)), ..o }),
            Ghost(base),
            replies,
        )
    }

    /// The subscriptions of `node` from index `j` on run for `sig`.
    fn process_from(
        &mut self,
        node: usize,
        j: usize,
        sig: &Signal<S>,
        stack: &Vec<usize>,
        Ghost(o): Ghost<Outcome<S, K>>,
        Ghost(base): Ghost<Seq<Call<S, K>>>,
        replies: &mut Ghost<Seq<Option<Signal<S>>>>,
    ) -> (ok: bool)
        requires
            old(self).wf(),
            o.ok,
            o.folds == old(self).accumulators(),
            o.sinks == old(self).buffers(),
            old(self).handler.heard() == base + o.calls,
            answered(old(self).handler, o.calls, old(replies)@),
            node < old(self).graph().len(),
            stack@.len() <= old(self).graph().len(),
            j <= old(self).graph()[node as int].len(),
        ensures
            final(self).wf(),
            final(self).graph() == old(self).graph(),
            agrees(old(self).handler, final(self).handler),
            extends(old(replies)@, final(replies)@),
            ({
                let res = process(old(self).graph(), node, j as int, *sig, stack@, o, final(replies)@);
                &&& res.ok == ok
                &&& res.folds == final(self).accumulators()
                &&& res.sinks == final(self).buffers()
                &&& answered(final(self).handler, res.calls, final(replies)@)
                &&& final(self).handler.heard() == base + res.calls
            }),
        decreases old(self).graph().len() - stack@.len(), 1int, old(self).graph()[node as int].len() - j,
    {
        let ghost g = self.graph();
        if j >= self.subs[node].len() {
            return true;
        }
        let ok = self.step_at(node, j, sig, stack, Ghost(o), Ghost(base), replies);
        let ghost r_mid = replies@;
        let ghost after = step(g, node, j as int, *sig, stack@, o, r_mid);
        if !ok {
            proof {
                lemma_process_grows(g, node, j + 1, *sig, stack@, after, r_mid);
            }
            return false;
        }
        proof {
            lemma_step_grows(g, node, j as int, *sig, stack@, o, r_mid);
        }
        let res = self.process_from(node, j + 1, sig, stack, Ghost(after), Ghost(base), replies);
        proof {
            lemma_step_frame(g, node, j as int, *sig, stack@, o, r_mid, replies@);
        }
        res
    }

    /// Subscription `j` of `node` runs for `sig`.
    fn step_at(
        &mut self,
        node: usize,
        j: usize,
        sig: &Signal<S>,
        stack: &Vec<usize>,
        Ghost(o): Ghost<Outcome<S, K>>,
        Ghost(base): Ghost<Seq<Call<S, K>>>,
        replies: &mut Ghost<Seq<Option<Signal<S>>>>,
    ) -> (ok: bool)
        requires
            old(self).wf(),
            o.ok,
            o.folds == old(self).accumulators(),
            o.sinks == old(self).buffers(),
            old(self).handler.heard() == base + o.calls,
            answered(old(self).handler, o.calls, old(replies)@),
            node < old(self).graph().len(),
            stack@.len() <= old(self).graph().len(),
            j < old(self).graph()[node as int].len(),
        ensures
            final(self).wf(),
            final(self).graph() == old(self).graph(),
            agrees(old(self).handler, final(self).handler),
            extends(old(replies)@, final(replies)@),
            ({
                let res = step(old(self).graph(), node, j as int, *sig, stack@, o, final(replies)@);
                &&& res.ok == ok
                &&& res.folds == final(self).accumulators()
                &&& res.sinks == final(self).buffers()
                &&& answered(final(self).handler, res.calls, final(replies)@)
                &&& final(self).handler.heard() == base + res.calls
            }),
        decreases old(self).graph().len() - stack@.len(), 1int, old(self).graph()[node as int].len() - j - 1,
    {
        let ghost g = self.graph();
        let ghost idx = o.calls.len() as int;
        let sub = self.subs[node][j];
        assert(g[node as int][j as int] == sub);
        assert(sub_wired(g[node as int][j as int], g.len(), self.accumulators().len(), self.buffers().len()));
        match sub {
            Sub::Observe(k) => {
                let r = self.ask(Call::Observe(k, sig.duplicate()), Ghost(o), Ghost(base), replies);
                true
            },
            Sub::Apply(k, t) => {
                let r = self.ask(Call::Apply(k, sig.duplicate()), Ghost(o), Ghost(base), replies);
                let ghost o1 = with_call(o, Call::Apply(k, *sig));
                match r {
                    Some(v) => self.deliver_from(t, &v, stack, Ghost(o1), Ghost(base), replies),
                    None => true,
                }
            },
            Sub::Filter(k, t) => {
                let r = self.ask(Call::Filter(k, sig.duplicate()), Ghost(o), Ghost(base), replies);
                let ghost o1 = with_call(o, Call::Filter(k, *sig));
                match r {
                    Some(_) => self.deliver_from(t, sig, stack, Ghost(o1), Ghost(base), replies),
                    None => true,
                }
            },
            Sub::FilterMap(k, t) => {
                let r = self.ask(Call::FilterMap(k, sig.duplicate()), Ghost(o), Ghost(base), replies);
                let ghost o1 = with_call(o, Call::FilterMap(k, *sig));
                match r {
                    Some(v) => self.deliver_from(t, &v, stack, Ghost(o1), Ghost(base), replies),
                    None => true,
                }
            },
            Sub::Fold(k, slot, t) => {
                let acc = self.folds[slot].duplicate();
                let r = self.ask(Call::Fold(k, acc, sig.duplicate()), Ghost(o), Ghost(base), replies);
                let ghost o1 = with_call(o, Call::Fold(k, o.folds[slot as int], *sig));
                match r {
                    Some(v) => {
                        self.folds.set(slot, v.duplicate());
                        assert(self.graph() == g);
                        self.deliver_from(t, &v, stack, Ghost(set_fold(o1, slot, v)), Ghost(base), replies)
                    },
                    None => true,
                }
            },
            Sub::Forward(t) => self.deliver_from(t, sig, stack, Ghost(o), Ghost(base), replies),
            Sub::ZipLeft(t) => {
                let tagged = Signal::Zipped(Box::new(Either::Left(sig.duplicate())));
                self.deliver_from(t, &tagged, stack, Ghost(o), Ghost(base), replies)
            },
            Sub::ZipRight(t) => {
                let tagged = Signal::Zipped(Box::new(Either::Right(sig.duplicate())));
                self.deliver_from(t, &tagged, stack, Ghost(o), Ghost(base), replies)
            },
            Sub::Unzip(a, b) => match sig {
                Signal::Zipped(e) => match &**e {
                    Either::Left(l) => self.deliver_from(a, l, stack, Ghost(o), Ghost(base), replies),
                    Either::Right(x) => self.deliver_from(b, x, stack, Ghost(o), Ghost(base), replies),
                },
                Signal::Value(_) => true,
            },
            Sub::Sink(slot) => {
                let copy = sig.duplicate();
                self.sinks[slot].push(copy);
                assert(self.buffers() =~= push_sink(o, slot, *sig).sinks);
                true
            },
        }
    }
}

/// The handler, the fold accumulators and the sink buffers are the same in both: in
/// particular the handler heard no call in between.
pub open spec fn same_state<S, K, H: Respond<S, K>>(a: Network<S, K, H>, b: Network<S, K, H>) -> bool {
    &&& a.accumulators() == b.accumulators()
    &&& a.buffers() == b.buffers()
    &&& a.responder() == b.responder()
    &&& a.responder().heard() == b.responder().heard()
}

/// `g` with subscription `s` added to stream `x`.
pub open spec fn subscribed<K>(g: Seq<Seq<Sub<K>>>, x: usize, s: Sub<K>) -> Seq<Seq<Sub<K>>> {
    g.update(x as int, g[x as int].push(s))
}

/// Sending `sig` on stream `node` of `before`, with the handler answering `rs`,
/// leads to `after` and completes exactly when `ok`: the handler heard exactly the
/// calls of that run, in order, and still gives the same answers.
pub open spec fn sent<S, K, H: Respond<S, K>>(
    before: Network<S, K, H>,
    after: Network<S, K, H>,
    node: usize,
    sig: Signal<S>,
    ok: bool,
    rs: Seq<Option<Signal<S>>>,
) -> bool {
    let res = run(before.graph(), before.accumulators(), before.buffers(), node, sig, rs);
    &&& answered(before.responder(), res.calls, rs)
    &&& after.responder().heard() == before.responder().heard() + res.calls
    &&& agrees(before.responder(), after.responder())
    &&& res.ok == ok
    &&& res.folds == after.accumulators()
    &&& res.sinks == after.buffers()
}

impl<S, K, H: Respond<S, K>> Network<S, K, H> {
    /// A network with no streams, whose user functions `handler` runs.
    pub fn new(handler: H) -> (net: Self)
        requires
            handler.ready(),
        ensures
            net.wf(),
            net.graph() == Seq::<Seq<Sub<K>>>::empty(),
            net.accumulators() == Seq::<Signal<S>>::empty(),
            net.buffers() == Seq::<Seq<Signal<S>>>::empty(),
            net.responder() == handler,
            forward(net.graph()),
    {
        let net = Network { subs: Vec::new(), folds: Vec::new(), sinks: Vec::new(), handler };
        assert(net.graph() =~= Seq::<Seq<Sub<K>>>::empty());
        assert(net.buffers() =~= Seq::<Seq<Signal<S>>>::empty());
        net
    }

    fn add_stream(&mut self) -> (s: Stream)
        requires
            old(self).wf(),
        ensures
            final(self).wf(),
            s.index() == old(self).graph().len(),
            final(self).graph() == old(self).graph().push(Seq::empty()),
            same_state(*old(self), *final(self)),
    {
        let ghost g = self.graph();
        let id = self.subs.len();
        self.subs.push(Vec::new());
        assert(self.graph() =~= g.push(Seq::empty()));
        proof {
            lemma_wired_push_stream(g, self.accumulators().len(), self.buffers().len());
        }
        Stream { id }
    }

    fn add_sub(&mut self, x: usize, s: Sub<K>)
        requires
            old(self).wf(),
            x < old(self).graph().len(),
            sub_wired(s, old(self).graph().len(), old(self).accumulators().len(), old(self).buffers().len()),
        ensures
            final(self).wf(),
            final(self).graph() == subscribed(old(self).graph(), x, s),
            same_state(*old(self), *final(self)),
    {
        let ghost g = self.graph();
        self.subs[x].push(s);
        assert(self.graph() =~= subscribed(g, x, s));
        proof {
            lemma_wired_add_sub(g, x as int, s, self.accumulators().len(), self.buffers().len());
        }
    }
}

impl Stream {
    /// A new stream, with no subscriptions.
    pub fn new<S, K, H: Respond<S, K>>(net: &mut Network<S, K, H>) -> (s: Stream)
        requires
            old(net).wf(),
        ensures
            final(net).wf(),
            s.index() == old(net).graph().len(),
            final(net).graph() == old(net).graph().push(Seq::empty()),
            same_state(*old(net), *final(net)),
            grows_from(old(net).graph(), final(net).graph(), old(net).accumulators().len(), old(net).buffers().len()),
            forward(old(net).graph()) ==> forward(final(net).graph()),
    {
        let ghost g = net.graph();
        let s = net.add_stream();
        proof {
            lemma_grows_refl(g, net.accumulators().len(), net.buffers().len());
            lemma_grows_push(g, g, net.accumulators().len(), net.buffers().len());
        }
        s
    }

    /// Subscribe the user function `key` to the signals of this stream: from now on
    /// the handler is called with each of them. Subscribing calls nothing.
    pub fn subscribe<S, K, H: Respond<S, K>>(
        &self,
        net: &mut Network<S, K, H>,
        key: K,
    )
        requires
            old(net).wf(),
            old(net).has(*self),
        ensures
            final(net).wf(),
            final(net).graph() == subscribed(old(net).graph(), self.index(), Sub::Observe(key)),
            same_state(*old(net), *final(net)),
            grows_from(old(net).graph(), final(net).graph(), old(net).accumulators().len(), old(net).buffers().len()),
            forward(old(net).graph()) ==> forward(final(net).graph()),
    {
        let ghost g = net.graph();
        net.add_sub(self.id, Sub::Observe(key));
        proof {
            lemma_grows_refl(g, net.accumulators().len(), net.buffers().len());
            lemma_grows_sub(g, g, net.accumulators().len(), net.buffers().len(), self.id, Sub::Observe(key));
        }
    }

    /// Send a signal down the stream. Every subscription of the stream runs, in the
    /// order in which they were made, and each stream reached emits in turn. The
    /// handler hears exactly the calls of that run, in order, once each.
    /// Reaching a stream that is still emitting stops the sending with an error.
    pub fn send<S: Copy, K: Copy, H: Respond<S, K>>(
        &self,
        net: &mut Network<S, K, H>,
        signal: &Signal<S>,
    ) -> (res: Result<(), Reentered>)
        requires
            old(net).wf(),
            old(net).has(*self),
        ensures
            final(net).wf(),
            final(net).graph() == old(net).graph(),
            exists|rs: Seq<Option<Signal<S>>>| #[trigger]
                sent(*old(net), *final(net), self.index(), *signal, res is Ok, rs),
            forward(old(net).graph()) ==> res is Ok,
    {
        let ghost before = *net;
        let mut replies: Ghost<Seq<Option<Signal<S>>>> = Ghost(Seq::empty());
        let stack: Vec<usize> = Vec::new();
        let ghost o = Outcome {
            ok: true,
            folds: net.accumulators(),
            sinks: net.buffers(),
            trace: Seq::empty(),
            calls: Seq::empty(),
        };
        let ghost base = net.handler.heard();
        assert(base + o.calls =~= base);
        let ok = net.deliver_from(self.id, signal, &stack, Ghost(o), Ghost(base), &mut replies);
        assert(stack@ =~= Seq::<usize>::empty());
        proof {
            lemma_agrees(before.handler, net.handler, net.handler);
            let res = deliver(before.graph(), self.id, *signal, stack@, o, replies@);
            lemma_answered_agrees(net.handler, before.handler, res.calls, replies@);
        }
        let res = if ok {
            Ok(())
        } else {
            Err(Reentered)
        };
        assert(sent(before, *net, self.index(), *signal, res is Ok, replies@));
        proof {
            if forward(before.graph()) {
                crate::lemmas::lemma_deliver_completes(before.graph(), self.id, *signal, stack@, o, replies@);
            }
        }
        res
    }
}

impl Stream {
    /// Add a new stream, fed by a new subscription `s` of this one.
    fn feed<S, K, H: Respond<S, K>>(
        &self,
        net: &mut Network<S, K, H>,
        s: Sub<K>,
        Ghost(nf): Ghost<nat>,
        Ghost(ns): Ghost<nat>,
    )
        requires
            old(net).wf(),
            old(net).has(*self),
            old(net).graph().len() < usize::MAX,
            fresh_sub(s, old(net).graph().len(), nf, ns),
            sends_after(s, self.index() as int),
            nf <= old(net).accumulators().len(),
            ns <= old(net).buffers().len(),
            sub_wired(s, old(net).graph().len() + 1, old(net).accumulators().len(), old(net).buffers().len()),
        ensures
            final(net).wf(),
            final(net).graph() == subscribed(old(net).graph().push(Seq::empty()), self.index(), s),
            same_state(*old(net), *final(net)),
            grows_from(old(net).graph(), final(net).graph(), nf, ns),
            forward(old(net).graph()) ==> forward(final(net).graph()),
            untargeted(old(net).graph().push(Seq::empty()), old(net).graph().len() as usize),
            old(net).graph().push(Seq::empty())[self.index() as int] == old(net).graph()[self.index() as int],
    {
        let ghost g = net.graph();
        let m = net.add_stream();
        net.add_sub(self.id, s);
        proof {
            let g1 = g.push(Seq::empty());
            lemma_grows_refl(g, nf, ns);
            lemma_grows_push(g, g, nf, ns);
            lemma_grows_sub(g, g1, nf, ns, self.id, s);
            assert(g1 =~= g + Seq::new(1, |i: int| Seq::<Sub<K>>::empty()));
            lemma_untargeted_fresh(g, net.accumulators().len(), net.buffers().len(), 1, m.id);
            if forward(g) {
                lemma_forward_push(g);
                lemma_forward_sub(g1, self.id, s);
            }
        }
    }

    /// A stream of the handler's answers for the signals of this stream: each
    /// signal goes to the handler under `key`, and its answer is sent on the new
    /// stream. A handler that answers every such call maps every signal; an answer of
    /// `None` sends nothing.
    pub fn map<S, K, H: Respond<S, K>>(&self, net: &mut Network<S, K, H>, key: K) -> (m: Stream)
        requires
            old(net).wf(),
            old(net).has(*self),
            old(net).graph().len() < usize::MAX,
        ensures
            final(net).wf(),
            m.index() == old(net).graph().len(),
            final(net).graph() == subscribed(
                old(net).graph().push(Seq::empty()),
                self.index(),
                Sub::Apply(key, m.index()),
            ),
            same_state(*old(net), *final(net)),
            grows_from(old(net).graph(), final(net).graph(), old(net).accumulators().len(), old(net).buffers().len()),
            forward(old(net).graph()) ==> forward(final(net).graph()),
            sole_source(final(net).graph(), self.index(), old(net).graph()[self.index() as int].len() as int, m.index()),
    {
        let ghost g = net.graph();
        let m = Stream { id: net.subs.len() };
        self.feed(net, Sub::Apply(key, m.id), Ghost(net.accumulators().len()), Ghost(net.buffers().len()));
        proof {
            lemma_sole_new_sub(g.push(Seq::empty()), self.id, Sub::Apply(key, m.id), m.id);
        }
        m
    }

    /// A stream of the handler's answers for the signals of this stream, where an
    /// answer of `None` sends nothing.
    pub fn filter_map<S, K, H: Respond<S, K>>(
        &self,
        net: &mut Network<S, K, H>,
        key: K,
    ) -> (m: Stream)
        requires
            old(net).wf(),
            old(net).has(*self),
            old(net).graph().len() < usize::MAX,
        ensures
            final(net).wf(),
            m.index() == old(net).graph().len(),
            final(net).graph() == subscribed(
                old(net).graph().push(Seq::empty()),
                self.index(),
                Sub::FilterMap(key, m.index()),
            ),
            same_state(*old(net), *final(net)),
            grows_from(old(net).graph(), final(net).graph(), old(net).accumulators().len(), old(net).buffers().len()),
            forward(old(net).graph()) ==> forward(final(net).graph()),
            sole_source(final(net).graph(), self.index(), old(net).graph()[self.index() as int].len() as int, m.index()),
    {
        let ghost g = net.graph();
        let m = Stream { id: net.subs.len() };
        self.feed(net, Sub::FilterMap(key, m.id), Ghost(net.accumulators().len()), Ghost(net.buffers().len()));
        proof {
            lemma_sole_new_sub(g.push(Seq::empty()), self.id, Sub::FilterMap(key, m.id), m.id);
        }
        m
    }

    /// A stream of the signals of this stream that the handler keeps (answers with
    /// `Some`).
    pub fn filter<S, K, H: Respond<S, K>>(&self, net: &mut Network<S, K, H>, key: K) -> (m: Stream)
        requires
            old(net).wf(),
            old(net).has(*self),
            old(net).graph().len() < usize::MAX,
        ensures
            final(net).wf(),
            m.index() == old(net).graph().len(),
            final(net).graph() == subscribed(
                old(net).graph().push(Seq::empty()),
                self.index(),
                Sub::Filter(key, m.index()),
            ),
            same_state(*old(net), *final(net)),
            grows_from(old(net).graph(), final(net).graph(), old(net).accumulators().len(), old(net).buffers().len()),
            forward(old(net).graph()) ==> forward(final(net).graph()),
            sole_source(final(net).graph(), self.index(), old(net).graph()[self.index() as int].len() as int, m.index()),
    {
        let ghost g = net.graph();
        let m = Stream { id: net.subs.len() };
        self.feed(net, Sub::Filter(key, m.id), Ghost(net.accumulators().len()), Ghost(net.buffers().len()));
        proof {
            lemma_sole_new_sub(g.push(Seq::empty()), self.id, Sub::Filter(key, m.id), m.id);
        }
        m
    }

    /// Fold the signals of this stream into a stream of values, starting from
    /// `value`: for each signal the handler combines the current value with it, and
    /// its answer becomes the current value and is sent. An answer of `None` keeps
    /// the current value and sends nothing.
    pub fn fold<S, K, H: Respond<S, K>>(
        &self,
        net: &mut Network<S, K, H>,
        value: Signal<S>,
        key: K,
    ) -> (m: Stream)
        requires
            old(net).wf(),
            old(net).has(*self),
            old(net).graph().len() < usize::MAX,
        ensures
            final(net).wf(),
            m.index() == old(net).graph().len(),
            final(net).graph() == subscribed(
                old(net).graph().push(Seq::empty()),
                self.index(),
                Sub::Fold(key, old(net).accumulators().len() as usize, m.index()),
            ),
            final(net).accumulators() == old(net).accumulators().push(value),
            final(net).buffers() == old(net).buffers(),
            final(net).responder() == old(net).responder(),
            final(net).responder().heard() == old(net).responder().heard(),
            grows_from(old(net).graph(), final(net).graph(), old(net).accumulators().len(), old(net).buffers().len()),
            forward(old(net).graph()) ==> forward(final(net).graph()),
            sole_source(final(net).graph(), self.index(), old(net).graph()[self.index() as int].len() as int, m.index()),
            sole_fold(
                final(net).graph(),
                self.index(),
                old(net).graph()[self.index() as int].len() as int,
                old(net).accumulators().len() as usize,
            ),
    {
        let ghost g = net.graph();
        let ghost nf = net.accumulators().len();
        let ghost ns = net.buffers().len();
        let nsl = net.sinks.len();
        let slot = net.folds.len();
        net.folds.push(value);
        proof {
            lemma_wired_more_slots(net.graph(), slot as nat, ns, net.accumulators().len(), ns);
        }
        let m = Stream { id: net.subs.len() };
        let s = Sub::Fold(key, slot, m.id);
        self.feed(net, s, Ghost(nf), Ghost(ns));
        proof {
            lemma_sole_new_sub(g.push(Seq::empty()), self.id, s, m.id);
            let g1 = g.push(Seq::empty());
            assert(g1 =~= g + Seq::new(1, |i: int| Seq::<Sub<K>>::empty()));
            lemma_slots_unused_fresh(g, nf, ns, 1, slot, nsl);
            lemma_sole_slots_new_sub(g1, self.id, s, slot, nsl);
        }
        m
    }

    /// Merge two streams into one that emits the signals of both.
    pub fn merge<S, K, H: Respond<S, K>>(
        &self,
        net: &mut Network<S, K, H>,
        rhs: &Stream,
    ) -> (m: Stream)
        requires
            old(net).wf(),
            old(net).has(*self),
            old(net).has(*rhs),
            old(net).graph().len() < usize::MAX,
        ensures
            final(net).wf(),
            m.index() == old(net).graph().len(),
            final(net).graph() == subscribed(
                subscribed(old(net).graph().push(Seq::empty()), self.index(), Sub::Forward(m.index())),
                rhs.index(),
                Sub::Forward(m.index()),
            ),
            same_state(*old(net), *final(net)),
            grows_from(old(net).graph(), final(net).graph(), old(net).accumulators().len(), old(net).buffers().len()),
            forward(old(net).graph()) ==> forward(final(net).graph()),
            self.index() != rhs.index() ==> funnel(
                final(net).graph(),
                self.index(),
                old(net).graph()[self.index() as int].len() as int,
                rhs.index(),
                old(net).graph()[rhs.index() as int].len() as int,
                m.index(),
            ),
            self.index() == rhs.index() ==> sole_pair(
                final(net).graph(),
                self.index(),
                old(net).graph()[self.index() as int].len() as int,
                m.index(),
            ),
    {
        let ghost g = net.graph();
        let ghost nf = net.accumulators().len();
        let ghost ns = net.buffers().len();
        let m = Stream { id: net.subs.len() };
        self.feed(net, Sub::Forward(m.id), Ghost(net.accumulators().len()), Ghost(net.buffers().len()));
        let ghost g2 = net.graph();
        net.add_sub(rhs.id, Sub::Forward(m.id));
        proof {
            lemma_grows_sub(g, g2, nf, ns, rhs.id, Sub::Forward(m.id));
            if self.id != rhs.id {
                lemma_funnel_new(g.push(Seq::empty()), self.id, Sub::Forward(m.id), rhs.id, Sub::Forward(m.id), m.id);
                assert(g.push(Seq::empty())[rhs.id as int] == g[rhs.id as int]);
            } else {
                let g1 = g.push(Seq::empty());
                let j0 = g[self.id as int].len() as int;
                lemma_sole_new_sub(g1, self.id, Sub::Forward(m.id), m.id);
                assert(g1[self.id as int] == g[self.id as int]);
                let g3 = net.graph();
                assert forall|i: int, j: int|
                    0 <= i < g3.len() && 0 <= j < g3[i].len() && #[trigger] targets(g3[i][j], m.id)
                    implies i == self.id && (j == j0 || j == j0 + 1) by {
                    if !(i == self.id && j == j0 + 1) {
                        assert(g3[i][j] == g2[i][j]);
                    }
                }
            }
        }
        m
    }

    /// Zip two streams: the result emits each signal of this stream as a left value
    /// and each signal of `rhs` as a right value.
    pub fn zip<S, K, H: Respond<S, K>>(
        &self,
        net: &mut Network<S, K, H>,
        rhs: &Stream,
    ) -> (z: Stream)
        requires
            old(net).wf(),
            old(net).has(*self),
            old(net).has(*rhs),
            old(net).graph().len() < usize::MAX,
        ensures
            final(net).wf(),
            z.index() == old(net).graph().len(),
            final(net).graph() == subscribed(
                subscribed(old(net).graph().push(Seq::empty()), self.index(), Sub::ZipLeft(z.index())),
                rhs.index(),
                Sub::ZipRight(z.index()),
            ),
            same_state(*old(net), *final(net)),
            grows_from(old(net).graph(), final(net).graph(), old(net).accumulators().len(), old(net).buffers().len()),
            forward(old(net).graph()) ==> forward(final(net).graph()),
            self.index() != rhs.index() ==> funnel(
                final(net).graph(),
                self.index(),
                old(net).graph()[self.index() as int].len() as int,
                rhs.index(),
                old(net).graph()[rhs.index() as int].len() as int,
                z.index(),
            ),
    {
        let ghost g = net.graph();
        let ghost nf = net.accumulators().len();
        let ghost ns = net.buffers().len();
        let z = Stream { id: net.subs.len() };
        self.feed(net, Sub::ZipLeft(z.id), Ghost(net.accumulators().len()), Ghost(net.buffers().len()));
        let ghost g2 = net.graph();
        net.add_sub(rhs.id, Sub::ZipRight(z.id));
        proof {
            lemma_grows_sub(g, g2, nf, ns, rhs.id, Sub::ZipRight(z.id));
            if self.id != rhs.id {
                lemma_funnel_new(g.push(Seq::empty()), self.id, Sub::ZipLeft(z.id), rhs.id, Sub::ZipRight(z.id), z.id);
                assert(g.push(Seq::empty())[rhs.id as int] == g[rhs.id as int]);
            }
        }
        z
    }

    /// Split a zipped stream in two: the first emits the contents of its left
    /// values, the second those of its right values.
    pub fn unzip<S, K, H: Respond<S, K>>(
        &self,
        net: &mut Network<S, K, H>,
    ) -> (r: (Stream, Stream))
        requires
            old(net).wf(),
            old(net).has(*self),
            old(net).graph().len() + 1 < usize::MAX,
        ensures
            final(net).wf(),
            r.0.index() == old(net).graph().len(),
            r.1.index() == old(net).graph().len() + 1,
            final(net).graph() == subscribed(
                old(net).graph().push(Seq::empty()).push(Seq::empty()),
                self.index(),
                Sub::Unzip(r.0.index(), r.1.index()),
            ),
            same_state(*old(net), *final(net)),
            grows_from(old(net).graph(), final(net).graph(), old(net).accumulators().len(), old(net).buffers().len()),
            forward(old(net).graph()) ==> forward(final(net).graph()),
            sole_source(final(net).graph(), self.index(), old(net).graph()[self.index() as int].len() as int, r.0.index()),
            sole_source(final(net).graph(), self.index(), old(net).graph()[self.index() as int].len() as int, r.1.index()),
    {
        let ghost g = net.graph();
        let ghost nf = net.accumulators().len();
        let ghost ns = net.buffers().len();
        let a = net.add_stream();
        let b = net.add_stream();
        let s = Sub::Unzip(a.id, b.id);
        net.add_sub(self.id, s);
        proof {
            let g2 = g.push(Seq::empty()).push(Seq::empty());
            lemma_grows_refl(g, nf, ns);
            lemma_grows_push(g, g, nf, ns);
            lemma_grows_push(g, g.push(Seq::empty()), nf, ns);
            lemma_grows_sub(g, g2, nf, ns, self.id, s);
            assert(g2 =~= g + Seq::new(2, |i: int| Seq::<Sub<K>>::empty()));
            lemma_untargeted_fresh(g, nf, ns, 2, a.id);
            lemma_untargeted_fresh(g, nf, ns, 2, b.id);
            lemma_sole_new_sub(g2, self.id, s, a.id);
            lemma_sole_new_sub(g2, self.id, s, b.id);
            assert(g2[self.id as int] == g[self.id as int]);
        }
        (a, b)
    }

    /// A pair of entangled streams: each signal of the first goes through user
    /// function `f` and, when it answers, to the second; each signal of the second
    /// goes through `g` and, when it answers, to the first.
    /// Where `f` and `g` both answer for a signal, it would bounce back to the stream
    /// it was sent on while that stream is still emitting: that send stops with
    /// `Err(Reentered)` after the calls made so far, and runs no later subscription.
    pub fn entangled<S, K, H: Respond<S, K>>(
        net: &mut Network<S, K, H>,
        f: K,
        g: K,
    ) -> (r: (Stream, Stream))
        requires
            old(net).wf(),
            old(net).graph().len() + 1 < usize::MAX,
        ensures
            final(net).wf(),
            r.0.index() == old(net).graph().len(),
            r.1.index() == old(net).graph().len() + 1,
            final(net).graph() == old(net).graph().push(seq![Sub::FilterMap(f, r.1.index())]).push(
                seq![Sub::FilterMap(g, r.0.index())],
            ),
            same_state(*old(net), *final(net)),
            grows_from(old(net).graph(), final(net).graph(), old(net).accumulators().len(), old(net).buffers().len()),
            sole_source(final(net).graph(), r.0.index(), 0, r.1.index()),
            sole_source(final(net).graph(), r.1.index(), 0, r.0.index()),
    {
        let ghost g0 = net.graph();
        let ghost nf = net.accumulators().len();
        let ghost ns = net.buffers().len();
        let fs = net.add_stream();
        let gs = net.add_stream();
        net.add_sub(fs.id, Sub::FilterMap(f, gs.id));
        net.add_sub(gs.id, Sub::FilterMap(g, fs.id));
        let ghost g2 = g0.push(seq![Sub::FilterMap(f, gs.id)]).push(seq![Sub::FilterMap(g, fs.id)]);
        assert(net.graph() =~= g2);
        proof {
            let e = g0.push(Seq::empty()).push(Seq::empty());
            let e1 = subscribed(e, fs.id, Sub::FilterMap(f, gs.id));
            lemma_grows_refl(g0, nf, ns);
            lemma_grows_push(g0, g0, nf, ns);
            lemma_grows_push(g0, g0.push(Seq::empty()), nf, ns);
            lemma_grows_sub(g0, e, nf, ns, fs.id, Sub::FilterMap(f, gs.id));
            lemma_grows_sub(g0, e1, nf, ns, gs.id, Sub::FilterMap(g, fs.id));
            assert(subscribed(e1, gs.id, Sub::FilterMap(g, fs.id)) =~= g2);
            assert(e =~= g0 + Seq::new(2, |i: int| Seq::<Sub<K>>::empty()));
            lemma_untargeted_fresh(g0, nf, ns, 2, fs.id);
            lemma_untargeted_fresh(g0, nf, ns, 2, gs.id);
            assert forall|i: int, j: int|
                0 <= i < g2.len() && 0 <= j < g2[i].len() && #[trigger] targets(g2[i][j], gs.id)
                implies i == fs.id && j == 0 by {
                if i < g0.len() {
                    assert(g2[i] == e[i]);
                }
            }
            assert forall|i: int, j: int|
                0 <= i < g2.len() && 0 <= j < g2[i].len() && #[trigger] targets(g2[i][j], fs.id)
                implies i == gs.id && j == 0 by {
                if i < g0.len() {
                    assert(g2[i] == e[i]);
                }
            }
        }
        (fs, gs)
    }

    /// Sink the stream: every signal it emits, whatever stream a send began on and
    /// however deep in the send it is reached, is collected in a buffer, read with
    /// [`Sink::drain`].
    pub fn sink<S, K, H: Respond<S, K>>(&self, net: &mut Network<S, K, H>) -> (k: Sink)
        requires
            old(net).wf(),
            old(net).has(*self),
        ensures
            final(net).wf(),
            k.index() == old(net).buffers().len(),
            final(net).graph() == subscribed(old(net).graph(), self.index(), Sub::Sink(k.index())),
            final(net).buffers() == old(net).buffers().push(Seq::empty()),
            final(net).accumulators() == old(net).accumulators(),
            final(net).responder() == old(net).responder(),
            final(net).responder().heard() == old(net).responder().heard(),
            grows_from(old(net).graph(), final(net).graph(), old(net).accumulators().len(), old(net).buffers().len()),
            forward(old(net).graph()) ==> forward(final(net).graph()),
            sole_sink(
                final(net).graph(),
                self.index(),
                old(net).graph()[self.index() as int].len() as int,
                k.index(),
            ),
    {
        let ghost g = net.graph();
        let ghost nf = net.accumulators().len();
        let ghost b0 = net.buffers();
        let nfl = net.folds.len();
        let slot = net.sinks.len();
        net.sinks.push(Vec::new());
        assert(net.buffers() =~= b0.push(Seq::empty()));
        proof {
            lemma_wired_more_slots(
                net.graph(),
                net.accumulators().len(),
                slot as nat,
                net.accumulators().len(),
                net.buffers().len(),
            );
        }
        net.add_sub(self.id, Sub::Sink(slot));
        proof {
            lemma_grows_refl(g, nf, b0.len());
            lemma_grows_sub(g, g, nf, b0.len(), self.id, Sub::Sink(slot));
            assert(g =~= g + Seq::new(0, |i: int| Seq::<Sub<K>>::empty()));
            lemma_slots_unused_fresh(g, nf, b0.len(), 0, nfl, slot);
            lemma_sole_slots_new_sub(g, self.id, Sub::Sink(slot), nfl, slot);
        }
        Sink { slot }
    }
}

impl Sink {
    /// Take the signals collected so far, oldest first, and empty the buffer.
    pub fn drain<S, K, H: Respond<S, K>>(&self, net: &mut Network<S, K, H>) -> (v: Vec<Signal<S>>)
        requires
            old(net).wf(),
            self.index() < old(net).buffers().len(),
        ensures
            final(net).wf(),
            v@ == old(net).buffers()[self.index() as int],
            final(net).buffers() == old(net).buffers().update(self.index() as int, Seq::empty()),
            final(net).graph() == old(net).graph(),
            final(net).accumulators() == old(net).accumulators(),
            final(net).responder() == old(net).responder(),
            final(net).responder().heard() == old(net).responder().heard(),
    {
        let ghost b0 = net.buffers();
        let mut v: Vec<Signal<S>> = Vec::new();
        std::mem::swap(&mut v, &mut net.sinks[self.slot]);
        assert(net.buffers() =~= b0.update(self.slot as int, Seq::empty()));
        v
    }
}

} // verus!
