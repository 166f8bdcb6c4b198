//! What the combinators promise, stated over the outcome of a send and proved from
//! the definition of sending.
use vstd::prelude::*;
use vstd::multiset::Multiset;
use crate::lemmas::{
    bag_of, call_for, emissions, entered, fed_by, guarded, key_guarded, keyed, run_subs, sole_key, uses, fresh_sub, funnel, grows_from, left_of, lemma_bag_as_multiset,
    lemma_deliver_balanced, lemma_deliver_quiet, lemma_enter_target, lemma_entered_emissions,
    lemma_only_at, lemma_send_through, passed_all, right_of, sole_fold, sole_sink, sole_source,
    splitter, targets,
};
use crate::network::run;
use crate::respond::Respond;
use crate::semantics::{
    answered, deliver, reply_at, set_fold, step, sub_wired, tag_left, tag_right, wired, with_call,
    Call, Outcome, Sub,
};
use crate::signal::{Either, Signal};

verus! {

/// The signals that an answer sends on: its value, if any.
pub open spec fn option_seq<S>(r: Option<Signal<S>>) -> Seq<Signal<S>> {
    match r {
        Some(v) => seq![v],
        None => Seq::empty(),
    }
}

/// The stream that a map subscription feeds emits, for each signal sent on the
/// source, the handler's answer for that signal, and nothing else.
pub proof fn law_map_emits_answer<S, K>(
    g: Seq<Seq<Sub<K>>>,
    folds: Seq<Signal<S>>,
    sinks: Seq<Seq<Signal<S>>>,
    x: usize,
    j0: int,
    k: K,
    m: usize,
    sig: Signal<S>,
    rs: Seq<Option<Signal<S>>>,
)
    requires
        wired(g, folds.len(), sinks.len()),
        x < g.len(),
        m < g.len(),
        x != m,
        0 <= j0 < g[x as int].len(),
        g[x as int][j0] == Sub::Apply(k, m),
        sole_source(g, x, j0, m),
    ensures
        ({
            let res = run(g, folds, sinks, x, sig, rs);
            res.ok ==> exists|i: int|
                0 <= i < res.calls.len() && #[trigger] res.calls[i] == Call::Apply(k, sig)
                    && emissions(res.trace, m) == option_seq(reply_at(rs, i))
        }),
{
    let res = run(g, folds, sinks, x, sig, rs);
    lemma_only_at(g, x, j0, m as int, -1, -1);
    let pre = lemma_send_through(g, folds, sinks, x, j0, m as int, -1, -1, sig, rs);
    if res.ok {
        let st = seq![x];
        let mid = step(g, x, j0, sig, st, pre, rs);
        let i = pre.calls.len() as int;
        assert(st.len() == 1);
        let o1 = with_call(pre, Call::Apply(k, sig));
        lemma_entered_emissions::<S, K>(folds, sinks, x, sig, m);
        match reply_at(rs, i) {
            Some(v) => {
                assert(mid == deliver(g, m, v, st, o1, rs));
                lemma_enter_target(g, x, j0, m, -1, -1, v, o1, rs);
                crate::semantics::lemma_deliver_grows(g, m, v, st, o1, rs);
            },
            None => {
                assert(mid == o1);
            },
        }
        assert(res.calls[i] == mid.calls[i]);
    }
}

/// The stream that a filter subscription feeds emits each signal sent on the source
/// that the handler keeps (answers with `Some`), and nothing else.
pub proof fn law_filter_keeps<S, K>(
    g: Seq<Seq<Sub<K>>>,
    folds: Seq<Signal<S>>,
    sinks: Seq<Seq<Signal<S>>>,
    x: usize,
    j0: int,
    k: K,
    m: usize,
    sig: Signal<S>,
    rs: Seq<Option<Signal<S>>>,
)
    requires
        wired(g, folds.len(), sinks.len()),
        x < g.len(),
        m < g.len(),
        x != m,
        0 <= j0 < g[x as int].len(),
        g[x as int][j0] == Sub::Filter(k, m),
        sole_source(g, x, j0, m),
    ensures
        ({
            let res = run(g, folds, sinks, x, sig, rs);
            res.ok ==> exists|i: int|
                0 <= i < res.calls.len() && #[trigger] res.calls[i] == Call::Filter(k, sig)
                    && emissions(res.trace, m) == (if reply_at(rs, i) is Some {
                    seq![sig]
                } else {
                    Seq::empty()
                })
        }),
{
    let res = run(g, folds, sinks, x, sig, rs);
    lemma_only_at(g, x, j0, m as int, -1, -1);
    let pre = lemma_send_through(g, folds, sinks, x, j0, m as int, -1, -1, sig, rs);
    if res.ok {
        let st = seq![x];
        let mid = step(g, x, j0, sig, st, pre, rs);
        let i = pre.calls.len() as int;
        assert(st.len() == 1);
        let o1 = with_call(pre, Call::Filter(k, sig));
        lemma_entered_emissions::<S, K>(folds, sinks, x, sig, m);
        match reply_at(rs, i) {
            Some(_) => {
                assert(mid == deliver(g, m, sig, st, o1, rs));
                lemma_enter_target(g, x, j0, m, -1, -1, sig, o1, rs);
                crate::semantics::lemma_deliver_grows(g, m, sig, st, o1, rs);
            },
            None => {
                assert(mid == o1);
            },
        }
        assert(res.calls[i] == mid.calls[i]);
    }
}

/// The stream that a filter-map subscription feeds emits, for each signal sent on
/// the source, the handler's answer when there is one, and nothing else.
pub proof fn law_filter_map_emits_answer<S, K>(
    g: Seq<Seq<Sub<K>>>,
    folds: Seq<Signal<S>>,
    sinks: Seq<Seq<Signal<S>>>,
    x: usize,
    j0: int,
    k: K,
    m: usize,
    sig: Signal<S>,
    rs: Seq<Option<Signal<S>>>,
)
    requires
        wired(g, folds.len(), sinks.len()),
        x < g.len(),
        m < g.len(),
        x != m,
        0 <= j0 < g[x as int].len(),
        g[x as int][j0] == Sub::FilterMap(k, m),
        sole_source(g, x, j0, m),
    ensures
        ({
            let res = run(g, folds, sinks, x, sig, rs);
            res.ok ==> exists|i: int|
                0 <= i < res.calls.len() && #[trigger] res.calls[i] == Call::FilterMap(k, sig)
                    && emissions(res.trace, m) == option_seq(reply_at(rs, i))
        }),
{
    let res = run(g, folds, sinks, x, sig, rs);
    lemma_only_at(g, x, j0, m as int, -1, -1);
    let pre = lemma_send_through(g, folds, sinks, x, j0, m as int, -1, -1, sig, rs);
    if res.ok {
        let st = seq![x];
        let mid = step(g, x, j0, sig, st, pre, rs);
        let i = pre.calls.len() as int;
        assert(st.len() == 1);
        let o1 = with_call(pre, Call::FilterMap(k, sig));
        lemma_entered_emissions::<S, K>(folds, sinks, x, sig, m);
        match reply_at(rs, i) {
            Some(v) => {
                assert(mid == deliver(g, m, v, st, o1, rs));
                lemma_enter_target(g, x, j0, m, -1, -1, v, o1, rs);
                crate::semantics::lemma_deliver_grows(g, m, v, st, o1, rs);
            },
            None => {
                assert(mid == o1);
            },
        }
        assert(res.calls[i] == mid.calls[i]);
    }
}

/// A fold combines its accumulator with each signal sent on its source: the
/// handler's answer becomes the accumulator and is emitted; without an answer
/// nothing changes.
pub proof fn law_fold_accumulates<S, K>(
    g: Seq<Seq<Sub<K>>>,
    folds: Seq<Signal<S>>,
    sinks: Seq<Seq<Signal<S>>>,
    x: usize,
    j0: int,
    k: K,
    slot: usize,
    m: usize,
    sig: Signal<S>,
    rs: Seq<Option<Signal<S>>>,
)
    requires
        wired(g, folds.len(), sinks.len()),
        x < g.len(),
        m < g.len(),
        x != m,
        slot < folds.len(),
        0 <= j0 < g[x as int].len(),
        g[x as int][j0] == Sub::Fold(k, slot, m),
        sole_source(g, x, j0, m),
        sole_fold(g, x, j0, slot),
    ensures
        ({
            let res = run(g, folds, sinks, x, sig, rs);
            res.ok ==> exists|i: int|
                0 <= i < res.calls.len() && #[trigger] res.calls[i] == Call::Fold(k, folds[slot as int], sig)
                    && match reply_at(rs, i) {
                    Some(v) => emissions(res.trace, m) == seq![v] && res.folds[slot as int] == v,
                    None => emissions(res.trace, m) == Seq::<Signal<S>>::empty()
                        && res.folds[slot as int] == folds[slot as int],
                }
        }),
{
    let res = run(g, folds, sinks, x, sig, rs);
    lemma_only_at(g, x, j0, m as int, slot as int, -1);
    let pre = lemma_send_through(g, folds, sinks, x, j0, m as int, slot as int, -1, sig, rs);
    if res.ok {
        let st = seq![x];
        let mid = step(g, x, j0, sig, st, pre, rs);
        let i = pre.calls.len() as int;
        assert(st.len() == 1);
        let o1 = with_call(pre, Call::Fold(k, pre.folds[slot as int], sig));
        lemma_entered_emissions::<S, K>(folds, sinks, x, sig, m);
        match reply_at(rs, i) {
            Some(v) => {
                let o2 = set_fold(o1, slot, v);
                assert(mid == deliver(g, m, v, st, o2, rs));
                lemma_enter_target(g, x, j0, m, slot as int, -1, v, o2, rs);
                crate::semantics::lemma_deliver_grows(g, m, v, st, o2, rs);
            },
            None => {
                assert(mid == o1);
            },
        }
        assert(res.calls[i] == mid.calls[i]);
    }
}

/// A sink appends each signal sent on its stream to its buffer.
pub proof fn law_sink_collects<S, K>(
    g: Seq<Seq<Sub<K>>>,
    folds: Seq<Signal<S>>,
    sinks: Seq<Seq<Signal<S>>>,
    x: usize,
    j0: int,
    slot: usize,
    sig: Signal<S>,
    rs: Seq<Option<Signal<S>>>,
)
    requires
        wired(g, folds.len(), sinks.len()),
        x < g.len(),
        slot < sinks.len(),
        0 <= j0 < g[x as int].len(),
        g[x as int][j0] == Sub::<K>::Sink(slot),
        sole_sink(g, x, j0, slot),
    ensures
        ({
            let res = run(g, folds, sinks, x, sig, rs);
            res.ok ==> res.sinks[slot as int] == sinks[slot as int].push(sig)
        }),
{
    let res = run(g, folds, sinks, x, sig, rs);
    lemma_only_at(g, x, j0, -1, -1, slot as int);
    let pre = lemma_send_through(g, folds, sinks, x, j0, -1, -1, slot as int, sig, rs);
    if res.ok {
        let st = seq![x];
        assert(st.len() == 1);
        let mid = step(g, x, j0, sig, st, pre, rs);
        assert(mid == crate::semantics::push_sink(pre, slot, sig));
    }
}

/// Unzipping a stream splits each zipped signal sent on it: the first stream emits
/// the contents of a left value, the second those of a right value.
pub proof fn law_unzip_splits<S, K>(
    g: Seq<Seq<Sub<K>>>,
    folds: Seq<Signal<S>>,
    sinks: Seq<Seq<Signal<S>>>,
    x: usize,
    j0: int,
    a: usize,
    b: usize,
    sig: Signal<S>,
    rs: Seq<Option<Signal<S>>>,
)
    requires
        wired(g, folds.len(), sinks.len()),
        x < g.len(),
        a < g.len(),
        b < g.len(),
        x != a,
        x != b,
        a != b,
        0 <= j0 < g[x as int].len(),
        g[x as int][j0] == Sub::<K>::Unzip(a, b),
        sole_source(g, x, j0, a),
        sole_source(g, x, j0, b),
    ensures
        ({
            let res = run(g, folds, sinks, x, sig, rs);
            res.ok ==> emissions(res.trace, a) == left_of(sig) && emissions(res.trace, b) == right_of(sig)
        }),
{
    let res = run(g, folds, sinks, x, sig, rs);
    lemma_only_at(g, x, j0, a as int, -1, -1);
    lemma_only_at(g, x, j0, b as int, -1, -1);
    let pre = lemma_send_through(g, folds, sinks, x, j0, a as int, -1, -1, sig, rs);
    let pre2 = lemma_send_through(g, folds, sinks, x, j0, b as int, -1, -1, sig, rs);
    if res.ok {
        assert(pre == pre2);
        let st = seq![x];
        assert(st.len() == 1);
        let mid = step(g, x, j0, sig, st, pre, rs);
        lemma_entered_emissions::<S, K>(folds, sinks, x, sig, a);
        lemma_entered_emissions::<S, K>(folds, sinks, x, sig, b);
        assert(crate::lemmas::guarded(g, a as int, -1, -1, st)) by {
            assert(st[0] == x);
        }
        assert(crate::lemmas::guarded(g, b as int, -1, -1, st)) by {
            assert(st[0] == x);
        }
        match sig {
            Signal::Zipped(e) => match *e {
                Either::Left(l) => {
                    assert(mid == deliver(g, a, l, st, pre, rs));
                    lemma_enter_target(g, x, j0, a, -1, -1, l, pre, rs);
                    lemma_deliver_quiet(g, a, l, st, pre, rs, b as int, -1, -1);
                },
                Either::Right(r) => {
                    assert(mid == deliver(g, b, r, st, pre, rs));
                    lemma_enter_target(g, x, j0, b, -1, -1, r, pre, rs);
                    lemma_deliver_quiet(g, b, r, st, pre, rs, a as int, -1, -1);
                },
            },
            Signal::Value(_) => {
                assert(mid == pre);
            },
        }
    }
}

/// A newly entangled pair: a signal sent on the first goes through `f`; an answer
/// reaches the second, whose signal goes through `g`; an answer of `g` would reach
/// the first while it is still emitting, and the send fails there.
pub proof fn law_entangled_exchange<S, K>(
    g: Seq<Seq<Sub<K>>>,
    folds: Seq<Signal<S>>,
    sinks: Seq<Seq<Signal<S>>>,
    fs: usize,
    gs: usize,
    f: K,
    gk: K,
    sig: Signal<S>,
    rs: Seq<Option<Signal<S>>>,
)
    requires
        wired(g, folds.len(), sinks.len()),
        fs == g.len(),
        gs == g.len() + 1,
    ensures
        ({
            let g2 = g.push(seq![Sub::FilterMap(f, gs)]).push(seq![Sub::FilterMap(gk, fs)]);
            let res = run(g2, folds, sinks, fs, sig, rs);
            let r0 = reply_at(rs, 0);
            let r1 = reply_at(rs, 1);
            &&& res.calls[0] == Call::FilterMap(f, sig)
            &&& r0 is Some ==> res.calls[1] == Call::FilterMap(gk, r0->0)
            &&& res.calls.len() == (if r0 is Some { 2int } else { 1int })
            &&& res.ok == !(r0 is Some && r1 is Some)
            &&& emissions(res.trace, fs) == seq![sig]
            &&& emissions(res.trace, gs) == option_seq(r0)
            &&& res.folds == folds
            &&& res.sinks == sinks
        }),
{
    let g2 = g.push(seq![Sub::FilterMap(f, gs)]).push(seq![Sub::FilterMap(gk, fs)]);
    let res = run(g2, folds, sinks, fs, sig, rs);
    let r0 = reply_at(rs, 0);
    let r1 = reply_at(rs, 1);
    assert(g2[fs as int] == seq![Sub::FilterMap(f, gs)]);
    assert(g2[gs as int] == seq![Sub::FilterMap(gk, fs)]);
    let st = seq![fs];
    let o1 = entered::<S, K>(folds, sinks, fs, sig);
    lemma_entered_emissions::<S, K>(folds, sinks, fs, sig, fs);
    lemma_entered_emissions::<S, K>(folds, sinks, fs, sig, gs);
    crate::lemmas::lemma_run_entered(g2, folds, sinks, fs, sig, rs);
    let c1 = with_call(o1, Call::FilterMap(f, sig));
    let mid = step(g2, fs, 0, sig, st, o1, rs);
    assert(res == crate::semantics::process(g2, fs, 1, sig, st, mid, rs));
    assert(res == mid);
    assert(c1.calls == seq![Call::FilterMap(f, sig)]);
    match r0 {
        None => {
            assert(mid == c1);
        },
        Some(v) => {
            assert(mid == deliver(g2, gs, v, st, c1, rs));
            let st2 = st.push(gs);
            assert(!st.contains(gs)) by {
                assert(st[0] == fs);
            }
            let c2 = crate::semantics::Outcome { trace: c1.trace.push((gs, v)), ..c1 };
            crate::lemmas::lemma_emissions_push(c1.trace, (gs, v), fs);
            crate::lemmas::lemma_emissions_push(c1.trace, (gs, v), gs);
            assert(mid == crate::semantics::process(g2, gs, 0, v, st2, c2, rs));
            let c3 = with_call(c2, Call::FilterMap(gk, v));
            let mid2 = step(g2, gs, 0, v, st2, c2, rs);
            assert(mid == crate::semantics::process(g2, gs, 1, v, st2, mid2, rs));
            assert(mid == mid2);
            assert(c3.calls == seq![Call::FilterMap(f, sig), Call::FilterMap(gk, v)]);
            match r1 {
                None => {
                    assert(mid2 == c3);
                },
                Some(w) => {
                    assert(st2.contains(fs)) by {
                        assert(st2[0] == fs);
                    }
                    assert(mid2 == deliver(g2, fs, w, st2, c3, rs));
                },
            }
        },
    }
}

/// A merged stream emits exactly the signals that its two sources emit, one for
/// one, whichever stream the send began on (other than the merged one); the order
/// is that in which the sources' subscriptions run.
pub proof fn law_merge_combines<S, K>(
    g: Seq<Seq<Sub<K>>>,
    folds: Seq<Signal<S>>,
    sinks: Seq<Seq<Signal<S>>>,
    x: usize,
    jx: int,
    y: usize,
    jy: int,
    m: usize,
    n: usize,
    sig: Signal<S>,
    rs: Seq<Option<Signal<S>>>,
)
    requires
        wired(g, folds.len(), sinks.len()),
        funnel(g, x, jx, y, jy, m),
        g[x as int][jx] == Sub::<K>::Forward(m),
        g[y as int][jy] == Sub::<K>::Forward(m),
        n != m,
    ensures
        ({
            let res = run(g, folds, sinks, n, sig, rs);
            res.ok ==> emissions(res.trace, m).to_multiset() =~= emissions(res.trace, x).to_multiset().add(
                emissions(res.trace, y).to_multiset(),
            )
        }),
{
    let res = run(g, folds, sinks, n, sig, rs);
    lemma_funnel_run(g, folds, sinks, x, jx, y, jy, m, n, sig, rs);
    if res.ok {
        assert(passed_all(emissions(res.trace, x), Sub::<K>::Forward(m)) =~= emissions(res.trace, x));
        assert(passed_all(emissions(res.trace, y), Sub::<K>::Forward(m)) =~= emissions(res.trace, y));
        assert(passed_all(emissions(res.trace, m), Sub::<K>::Forward(m)) =~= emissions(res.trace, m));
    }
}

/// A zipped stream emits exactly the signals of its first source tagged left and
/// those of its second source tagged right, one for one, whichever stream the send
/// began on (other than the zipped one).
pub proof fn law_zip_tags<S, K>(
    g: Seq<Seq<Sub<K>>>,
    folds: Seq<Signal<S>>,
    sinks: Seq<Seq<Signal<S>>>,
    x: usize,
    jx: int,
    y: usize,
    jy: int,
    z: usize,
    n: usize,
    sig: Signal<S>,
    rs: Seq<Option<Signal<S>>>,
)
    requires
        wired(g, folds.len(), sinks.len()),
        funnel(g, x, jx, y, jy, z),
        g[x as int][jx] == Sub::<K>::ZipLeft(z),
        g[y as int][jy] == Sub::<K>::ZipRight(z),
        n != z,
    ensures
        ({
            let res = run(g, folds, sinks, n, sig, rs);
            res.ok ==> emissions(res.trace, z).to_multiset() =~= emissions(res.trace, x).map_values(
                |v: Signal<S>| tag_left(v),
            ).to_multiset().add(emissions(res.trace, y).map_values(|v: Signal<S>| tag_right(v)).to_multiset())
        }),
{
    let res = run(g, folds, sinks, n, sig, rs);
    lemma_funnel_run(g, folds, sinks, x, jx, y, jy, z, n, sig, rs);
    if res.ok {
        assert(passed_all(emissions(res.trace, x), Sub::<K>::ZipLeft(z)) =~= emissions(res.trace, x).map_values(
            |v: Signal<S>| tag_left(v),
        ));
        assert(passed_all(emissions(res.trace, y), Sub::<K>::ZipRight(z)) =~= emissions(res.trace, y).map_values(
            |v: Signal<S>| tag_right(v),
        ));
        assert(passed_all(emissions(res.trace, z), Sub::<K>::Forward(z)) =~= emissions(res.trace, z));
    }
}

/// A completed send that began outside a funnel brings it exactly what its feeders
/// passed on.
pub proof fn lemma_funnel_run<S, K>(
    g: Seq<Seq<Sub<K>>>,
    folds: Seq<Signal<S>>,
    sinks: Seq<Seq<Signal<S>>>,
    x: usize,
    jx: int,
    y: usize,
    jy: int,
    m: usize,
    n: usize,
    sig: Signal<S>,
    rs: Seq<Option<Signal<S>>>,
)
    requires
        wired(g, folds.len(), sinks.len()),
        funnel(g, x, jx, y, jy, m),
        n != m,
    ensures
        ({
            let res = run(g, folds, sinks, n, sig, rs);
            res.ok ==> passed_all(emissions(res.trace, m), Sub::<K>::Forward(m)).to_multiset() =~= passed_all(
                emissions(res.trace, x),
                g[x as int][jx],
            ).to_multiset().add(passed_all(emissions(res.trace, y), g[y as int][jy]).to_multiset())
        }),
{
    broadcast use vstd::multiset::group_multiset_axioms;
    let o0: crate::semantics::Outcome<S, K> = crate::semantics::Outcome {
        ok: true,
        folds,
        sinks,
        trace: Seq::empty(),
        calls: Seq::empty(),
    };
    let res = run(g, folds, sinks, n, sig, rs);
    lemma_deliver_balanced(g, n, sig, Seq::empty(), o0, rs, x, jx, y, jy, m);
    lemma_bag_as_multiset(res.trace, m, Sub::<K>::Forward(m));
    lemma_bag_as_multiset(res.trace, x, g[x as int][jx]);
    lemma_bag_as_multiset(res.trace, y, g[y as int][jy]);
    assert(bag_of(o0.trace, m, Sub::<K>::Forward(m)) =~= Multiset::empty());
    assert(bag_of(o0.trace, x, g[x as int][jx]) =~= Multiset::empty());
    assert(bag_of(o0.trace, y, g[y as int][jy]) =~= Multiset::empty());
    assert(res == deliver(g, n, sig, Seq::empty(), o0, rs));
    if res.ok {
        let out = crate::lemmas::outflow::<S, K>(m, res.trace);
        let inn = crate::lemmas::inflow(g, x, jx, y, jy, res.trace);
        assert(crate::lemmas::outflow::<S, K>(m, o0.trace) =~= Multiset::empty());
        assert(crate::lemmas::inflow(g, x, jx, y, jy, o0.trace) =~= Multiset::empty());
        assert forall|v: Signal<S>| out.count(v) == inn.count(v) by {
            assert(out.add(crate::lemmas::inflow(g, x, jx, y, jy, o0.trace)).count(v) == crate::lemmas::outflow::<S, K>(
                m,
                o0.trace,
            ).add(inn).add(Multiset::empty()).count(v));
        }
        assert(out =~= inn);
    }
}

/// The calls that observing subscriptions `subs` make for `sig`, in order.
pub open spec fn observations<S, K>(subs: Seq<Sub<K>>, sig: Signal<S>) -> Seq<Call<S, K>> {
    Seq::new(subs.len(), |j: int| Call::Observe(subs[j]->Observe_0, sig))
}

proof fn lemma_observe_from<S, K>(
    g: Seq<Seq<Sub<K>>>,
    x: usize,
    j: int,
    sig: Signal<S>,
    stack: Seq<usize>,
    o: crate::semantics::Outcome<S, K>,
    rs: Seq<Option<Signal<S>>>,
)
    requires
        x < g.len(),
        0 <= j <= g[x as int].len(),
        forall|i: int| 0 <= i < g[x as int].len() ==> #[trigger] g[x as int][i] is Observe,
        stack.len() <= g.len(),
        o.ok,
    ensures
        crate::semantics::process(g, x, j, sig, stack, o, rs) == (crate::semantics::Outcome {
            calls: o.calls + observations(g[x as int].subrange(j, g[x as int].len() as int), sig),
            ..o
        }),
    decreases g[x as int].len() - j,
{
    let subs = g[x as int];
    if j < subs.len() {
        let k = subs[j]->Observe_0;
        let o1 = with_call(o, Call::Observe(k, sig));
        assert(step(g, x, j, sig, stack, o, rs) == o1);
        lemma_observe_from(g, x, j + 1, sig, stack, o1, rs);
        assert(o.calls + observations(subs.subrange(j, subs.len() as int), sig) =~= o1.calls + observations(
            subs.subrange(j + 1, subs.len() as int),
            sig,
        ));
    } else {
        assert(observations(subs.subrange(j, subs.len() as int), sig) =~= Seq::<Call<S, K>>::empty());
        assert(o.calls + Seq::<Call<S, K>>::empty() =~= o.calls);
    }
}

/// A signal sent on a stream whose subscriptions all observe reaches the handler
/// once for each of them, in the order in which they were made, and changes
/// nothing else: the stream emits it once and the send completes.
pub proof fn law_observers_in_order<S, K>(
    g: Seq<Seq<Sub<K>>>,
    folds: Seq<Signal<S>>,
    sinks: Seq<Seq<Signal<S>>>,
    x: usize,
    sig: Signal<S>,
    rs: Seq<Option<Signal<S>>>,
)
    requires
        x < g.len(),
        forall|i: int| 0 <= i < g[x as int].len() ==> #[trigger] g[x as int][i] is Observe,
    ensures
        ({
            let res = run(g, folds, sinks, x, sig, rs);
            &&& res.ok
            &&& res.calls == observations(g[x as int], sig)
            &&& res.trace == seq![(x, sig)]
            &&& res.folds == folds
            &&& res.sinks == sinks
        }),
{
    let o1 = entered::<S, K>(folds, sinks, x, sig);
    crate::lemmas::lemma_run_entered(g, folds, sinks, x, sig, rs);
    lemma_observe_from(g, x, 0, sig, seq![x], o1, rs);
    assert(g[x as int].subrange(0, g[x as int].len() as int) =~= g[x as int]);
    assert(Seq::<Call<S, K>>::empty() + observations(g[x as int], sig) =~= observations(g[x as int], sig));
}

/// A stream fed only by one side of an unzip emits, one for one, the parts on that
/// side of what the unzipped stream emitted, whichever stream the send began on
/// (other than the fed one).
pub proof fn lemma_split_run<S, K>(
    g: Seq<Seq<Sub<K>>>,
    folds: Seq<Signal<S>>,
    sinks: Seq<Seq<Signal<S>>>,
    z: usize,
    jz: int,
    a: usize,
    left: bool,
    n: usize,
    sig: Signal<S>,
    rs: Seq<Option<Signal<S>>>,
    v: Signal<S>,
)
    requires
        wired(g, folds.len(), sinks.len()),
        splitter(g, z, jz, a, left),
        n != a,
    ensures
        ({
            let res = run(g, folds, sinks, n, sig, rs);
            res.ok ==> emissions(res.trace, a).to_multiset().count(v) == emissions(res.trace, z).to_multiset().count(
                if left {
                    tag_left(v)
                } else {
                    tag_right(v)
                },
            )
        }),
{
    broadcast use vstd::multiset::group_multiset_axioms;
    let o0: crate::semantics::Outcome<S, K> = crate::semantics::Outcome {
        ok: true,
        folds,
        sinks,
        trace: Seq::empty(),
        calls: Seq::empty(),
    };
    let res = run(g, folds, sinks, n, sig, rs);
    assert(res == deliver(g, n, sig, Seq::empty(), o0, rs));
    crate::lemmas::lemma_deliver_split(g, n, sig, Seq::empty(), o0, rs, z, jz, a, left);
    lemma_bag_as_multiset(res.trace, a, Sub::<K>::Forward(a));
    crate::lemmas::lemma_split_count(res.trace, z, left, v);
    if res.ok {
        assert(bag_of(o0.trace, a, Sub::<K>::Forward(a)) =~= Multiset::empty());
        assert(crate::lemmas::split_bag(o0.trace, z, left) =~= Multiset::empty());
        assert(passed_all(emissions(res.trace, a), Sub::<K>::Forward(a)) =~= emissions(res.trace, a));
        let out = crate::lemmas::outflow::<S, K>(a, res.trace);
        let spl = crate::lemmas::split_bag(res.trace, z, left);
        assert(out.add(crate::lemmas::split_bag(o0.trace, z, left)).count(v) == crate::lemmas::outflow::<S, K>(
            a,
            o0.trace,
        ).add(spl).add(Multiset::empty()).count(v));
    }
}

/// Unzipping a zipped stream gives back its two sources: the first part emits, one
/// for one, what the first source emitted and the second part what the second
/// source emitted, whichever stream the send began on (other than the zipped stream
/// and its parts).
pub proof fn law_unzip_undoes_zip<S, K>(
    g: Seq<Seq<Sub<K>>>,
    folds: Seq<Signal<S>>,
    sinks: Seq<Seq<Signal<S>>>,
    x: usize,
    jx: int,
    y: usize,
    jy: int,
    z: usize,
    jz: int,
    a: usize,
    b: usize,
    n: usize,
    sig: Signal<S>,
    rs: Seq<Option<Signal<S>>>,
)
    requires
        wired(g, folds.len(), sinks.len()),
        funnel(g, x, jx, y, jy, z),
        g[x as int][jx] == Sub::<K>::ZipLeft(z),
        g[y as int][jy] == Sub::<K>::ZipRight(z),
        0 <= jz < g[z as int].len(),
        g[z as int][jz] == Sub::<K>::Unzip(a, b),
        a < g.len(),
        b < g.len(),
        a != b,
        z != a,
        z != b,
        sole_source(g, z, jz, a),
        sole_source(g, z, jz, b),
        n != z,
        n != a,
        n != b,
    ensures
        ({
            let res = run(g, folds, sinks, n, sig, rs);
            res.ok ==> emissions(res.trace, a).to_multiset() =~= emissions(res.trace, x).to_multiset()
                && emissions(res.trace, b).to_multiset() =~= emissions(res.trace, y).to_multiset()
        }),
{
    broadcast use vstd::multiset::group_multiset_axioms;
    let res = run(g, folds, sinks, n, sig, rs);
    law_zip_tags(g, folds, sinks, x, jx, y, jy, z, n, sig, rs);
    if res.ok {
        let ex = emissions(res.trace, x);
        let ey = emissions(res.trace, y);
        let ez = emissions(res.trace, z);
        assert forall|v: Signal<S>| #[trigger] emissions(res.trace, a).to_multiset().count(v) == ex.to_multiset().count(v) by {
            lemma_split_run(g, folds, sinks, z, jz, a, true, n, sig, rs, v);
            crate::lemmas::lemma_tag_count(ex, v);
            crate::lemmas::lemma_tag_count(ey, v);
        }
        assert forall|v: Signal<S>| #[trigger] emissions(res.trace, b).to_multiset().count(v) == ey.to_multiset().count(v) by {
            lemma_split_run(g, folds, sinks, z, jz, b, false, n, sig, rs, v);
            crate::lemmas::lemma_tag_count(ex, v);
            crate::lemmas::lemma_tag_count(ey, v);
        }
    }
}

/// A network whose subscriptions all send to streams made after their own (every
/// network built without `entangled`) completes every send, whatever the handler
/// answers.
pub proof fn law_forward_sends_complete<S, K>(
    g: Seq<Seq<Sub<K>>>,
    folds: Seq<Signal<S>>,
    sinks: Seq<Seq<Signal<S>>>,
    x: usize,
    sig: Signal<S>,
    rs: Seq<Option<Signal<S>>>,
)
    requires
        wired(g, folds.len(), sinks.len()),
        crate::lemmas::forward(g),
        x < g.len(),
    ensures
        run(g, folds, sinks, x, sig, rs).ok,
{
    let o0: crate::semantics::Outcome<S, K> = crate::semantics::Outcome {
        ok: true,
        folds,
        sinks,
        trace: Seq::empty(),
        calls: Seq::empty(),
    };
    crate::lemmas::lemma_deliver_completes(g, x, sig, Seq::empty(), o0, rs);
}

/// Growing a network, then growing the result, grows the first network.
pub proof fn law_growth_composes<K>(
    g1: Seq<Seq<Sub<K>>>,
    g2: Seq<Seq<Sub<K>>>,
    g3: Seq<Seq<Sub<K>>>,
    nf1: nat,
    ns1: nat,
    nf2: nat,
    ns2: nat,
)
    requires
        grows_from(g1, g2, nf1, ns1),
        grows_from(g2, g3, nf2, ns2),
        nf1 <= nf2,
        ns1 <= ns2,
    ensures
        grows_from(g1, g3, nf1, ns1),
{
    assert forall|i: int| 0 <= i < g1.len() implies g1[i].len() <= #[trigger] g3[i].len() by {
        assert(g1[i].len() <= g2[i].len());
        assert(g2[i].len() <= g3[i].len());
    }
    assert forall|i: int, j: int| #![trigger g3[i][j]] 0 <= i < g1.len() && 0 <= j < g1[i].len() implies g3[i][j] == g1[i][j] by {
        crate::lemmas::lemma_grows_at(g1, g2, nf1, ns1, i, j);
        crate::lemmas::lemma_grows_at(g2, g3, nf2, ns2, i, j);
    }
    assert forall|i: int, j: int|
        0 <= i < g3.len() && 0 <= j < g3[i].len() && !(i < g1.len() && j < g1[i].len())
        implies fresh_sub(#[trigger] g3[i][j], g1.len(), nf1, ns1) by {
        if i < g2.len() && j < g2[i].len() {
            crate::lemmas::lemma_grows_at(g2, g3, nf2, ns2, i, j);
            assert(fresh_sub(g2[i][j], g1.len(), nf1, ns1));
        } else {
            assert(fresh_sub(g3[i][j], g2.len(), nf2, ns2));
        }
    }
}

/// Growing a network, which every combinator and subscription does, never feeds a
/// stream that already exists nor uses an existing slot: the sole source of a
/// stream, the sole user of a slot, and the two feeders of a merge or zip stay as
/// they were.
pub proof fn law_growth_keeps_feeds<K>(
    g: Seq<Seq<Sub<K>>>,
    g2: Seq<Seq<Sub<K>>>,
    nfolds: nat,
    nsinks: nat,
    x: usize,
    j0: int,
    m: usize,
)
    requires
        grows_from(g, g2, nfolds, nsinks),
        m < g.len(),
    ensures
        sole_source(g, x, j0, m) ==> sole_source(g2, x, j0, m),
        m < nfolds && sole_fold(g, x, j0, m) ==> sole_fold(g2, x, j0, m),
        m < nsinks && sole_sink(g, x, j0, m) ==> sole_sink(g2, x, j0, m),
        forall|y: usize, jy: int| #[trigger] funnel(g, x, j0, y, jy, m) ==> funnel(g2, x, j0, y, jy, m),
{
    assert forall|i: int, j: int| 0 <= i < g2.len() && 0 <= j < g2[i].len() && !(i < g.len() && j < g[i].len())
        implies !#[trigger] targets(g2[i][j], m) by {
        assert(fresh_sub(g2[i][j], g.len(), nfolds, nsinks));
    }
    if sole_source(g, x, j0, m) {
        assert forall|i: int, j: int| 0 <= i < g2.len() && 0 <= j < g2[i].len() && #[trigger] targets(g2[i][j], m)
            implies i == x && j == j0 by {
            if i < g.len() && j < g[i].len() {
                assert(g2[i][j] == g[i][j]);
            } else {
                assert(fresh_sub(g2[i][j], g.len(), nfolds, nsinks));
            }
        }
    }
    if m < nfolds && sole_fold(g, x, j0, m) {
        assert forall|i: int, j: int|
            0 <= i < g2.len() && 0 <= j < g2[i].len() && (#[trigger] g2[i][j] matches Sub::Fold(_, f, _) && f == m)
            implies i == x && j == j0 by {
            if i < g.len() && j < g[i].len() {
                assert(g2[i][j] == g[i][j]);
            } else {
                assert(fresh_sub(g2[i][j], g.len(), nfolds, nsinks));
            }
        }
    }
    if m < nsinks && sole_sink(g, x, j0, m) {
        assert forall|i: int, j: int|
            0 <= i < g2.len() && 0 <= j < g2[i].len() && (#[trigger] g2[i][j] matches Sub::Sink(k) && k == m)
            implies i == x && j == j0 by {
            if i < g.len() && j < g[i].len() {
                assert(g2[i][j] == g[i][j]);
            } else {
                assert(fresh_sub(g2[i][j], g.len(), nfolds, nsinks));
            }
        }
    }
    assert forall|y: usize, jy: int| #[trigger] funnel(g, x, j0, y, jy, m) implies funnel(g2, x, j0, y, jy, m) by {
        assert(g2[x as int][j0] == g[x as int][j0]);
        assert(g2[y as int][jy] == g[y as int][jy]);
        assert forall|i: int, j: int|
            0 <= i < g2.len() && 0 <= j < g2[i].len() && #[trigger] targets(g2[i][j], m)
            implies (i == x && j == j0) || (i == y && j == jy) by {
            if i < g.len() && j < g[i].len() {
                assert(g2[i][j] == g[i][j]);
            } else {
                assert(fresh_sub(g2[i][j], g.len(), nfolds, nsinks));
            }
        }
    }
}

/// The outcomes of sending `sigs` on stream `x` one after another, starting from
/// the fold accumulators `folds` and the sink buffers `sinks`: the send of `sigs[i]`
/// reads the answers `rss[i]` and starts from the state that the one before left.
pub open spec fn runs<S, K>(
    g: Seq<Seq<Sub<K>>>,
    folds: Seq<Signal<S>>,
    sinks: Seq<Seq<Signal<S>>>,
    x: usize,
    sigs: Seq<Signal<S>>,
    rss: Seq<Seq<Option<Signal<S>>>>,
) -> Seq<Outcome<S, K>>
    decreases sigs.len(),
{
    if sigs.len() == 0 {
        Seq::empty()
    } else {
        let first = run(g, folds, sinks, x, sigs[0], rss[0]);
        seq![first] + runs(g, first.folds, first.sinks, x, sigs.drop_first(), rss.drop_first())
    }
}

/// What stream `m` emits over the outcomes `outs`, in order.
pub open spec fn emitted<S, K>(outs: Seq<Outcome<S, K>>, m: usize) -> Seq<Signal<S>>
    decreases outs.len(),
{
    if outs.len() == 0 {
        Seq::empty()
    } else {
        emissions(outs[0].trace, m) + emitted(outs.drop_first(), m)
    }
}

/// Every send of the sequence completed.
pub open spec fn all_ok<S, K>(outs: Seq<Outcome<S, K>>) -> bool {
    forall|i: int| 0 <= i < outs.len() ==> #[trigger] outs[i].ok
}

/// Every send of the sequence read answers that responder `h` may give.
pub open spec fn all_answered<S, K, H: Respond<S, K>>(
    h: H,
    outs: Seq<Outcome<S, K>>,
    rss: Seq<Seq<Option<Signal<S>>>>,
) -> bool {
    forall|i: int| 0 <= i < outs.len() ==> answered(h, #[trigger] outs[i].calls, rss[i])
}

/// A sequence of sends is its first send followed by the rest, and keeps the
/// number of fold and sink slots.
proof fn lemma_runs_first<S, K, H: Respond<S, K>>(
    g: Seq<Seq<Sub<K>>>,
    folds: Seq<Signal<S>>,
    sinks: Seq<Seq<Signal<S>>>,
    x: usize,
    sigs: Seq<Signal<S>>,
    rss: Seq<Seq<Option<Signal<S>>>>,
    m: usize,
    h: H,
)
    requires
        wired(g, folds.len(), sinks.len()),
        sigs.len() > 0,
        sigs.len() == rss.len(),
    ensures
        ({
            let first = run(g, folds, sinks, x, sigs[0], rss[0]);
            let outs = runs(g, folds, sinks, x, sigs, rss);
            let rest = runs(g, first.folds, first.sinks, x, sigs.drop_first(), rss.drop_first());
            &&& outs.len() == sigs.len()
            &&& outs[0] == first
            &&& wired(g, first.folds.len(), first.sinks.len())
            &&& emitted(outs, m) == emissions(first.trace, m) + emitted(rest, m)
            &&& all_ok(outs) ==> first.ok && all_ok(rest)
            &&& all_answered(h, outs, rss) ==> answered(h, first.calls, rss[0])
                && all_answered(h, rest, rss.drop_first())
        }),
{
    let first = run(g, folds, sinks, x, sigs[0], rss[0]);
    let outs = runs(g, folds, sinks, x, sigs, rss);
    let rest = runs(g, first.folds, first.sinks, x, sigs.drop_first(), rss.drop_first());
    crate::semantics::lemma_deliver_grows(
        g,
        x,
        sigs[0],
        Seq::empty(),
        Outcome { ok: true, folds, sinks, trace: Seq::empty(), calls: Seq::empty() },
        rss[0],
    );
    lemma_runs_len(g, first.folds, first.sinks, x, sigs.drop_first(), rss.drop_first());
    assert(outs.drop_first() =~= rest);
    if all_ok(outs) {
        assert(outs[0].ok);
        assert forall|i: int| 0 <= i < rest.len() implies #[trigger] rest[i].ok by {
            assert(outs[i + 1] == rest[i]);
            assert(outs[i + 1].ok);
        }
    }
    if all_answered(h, outs, rss) {
        assert(answered(h, outs[0].calls, rss[0]));
        assert forall|i: int| 0 <= i < rest.len() implies answered(h, #[trigger] rest[i].calls, rss.drop_first()[i]) by {
            assert(outs[i + 1] == rest[i]);
            assert(answered(h, outs[i + 1].calls, rss[i + 1]));
        }
    }
}

/// One outcome for each send.
proof fn lemma_runs_len<S, K>(
    g: Seq<Seq<Sub<K>>>,
    folds: Seq<Signal<S>>,
    sinks: Seq<Seq<Signal<S>>>,
    x: usize,
    sigs: Seq<Signal<S>>,
    rss: Seq<Seq<Option<Signal<S>>>>,
)
    ensures
        runs(g, folds, sinks, x, sigs, rss).len() == sigs.len(),
    decreases sigs.len(),
{
    if sigs.len() > 0 {
        let first = run(g, folds, sinks, x, sigs[0], rss[0]);
        lemma_runs_len(g, first.folds, first.sinks, x, sigs.drop_first(), rss.drop_first());
    }
}

/// Over any sequence of sends on its source, a mapped stream emits the image of the
/// signals sent, in order, when the handler answers each call of the map with the
/// image `f` of its signal.
pub proof fn law_map_over_sends<S, K, H: Respond<S, K>>(
    g: Seq<Seq<Sub<K>>>,
    folds: Seq<Signal<S>>,
    sinks: Seq<Seq<Signal<S>>>,
    x: usize,
    j0: int,
    k: K,
    m: usize,
    h: H,
    f: spec_fn(Signal<S>) -> Signal<S>,
    sigs: Seq<Signal<S>>,
    rss: Seq<Seq<Option<Signal<S>>>>,
)
    requires
        wired(g, folds.len(), sinks.len()),
        x < g.len(),
        m < g.len(),
        x != m,
        0 <= j0 < g[x as int].len(),
        g[x as int][j0] == Sub::Apply(k, m),
        sole_source(g, x, j0, m),
        sigs.len() == rss.len(),
        forall|v: Signal<S>, r: Option<Signal<S>>| #[trigger] h.answers(Call::Apply(k, v), r) ==> r == Some(f(v)),
    ensures
        ({
            let outs = runs(g, folds, sinks, x, sigs, rss);
            all_ok(outs) && all_answered(h, outs, rss) ==> emitted(outs, m) == sigs.map_values(f)
        }),
    decreases sigs.len(),
{
    let outs = runs(g, folds, sinks, x, sigs, rss);
    if sigs.len() == 0 {
        assert(sigs.map_values(f) =~= Seq::<Signal<S>>::empty());
    } else if all_ok(outs) && all_answered(h, outs, rss) {
        let first = run(g, folds, sinks, x, sigs[0], rss[0]);
        lemma_runs_first(g, folds, sinks, x, sigs, rss, m, h);
        law_map_emits_answer(g, folds, sinks, x, j0, k, m, sigs[0], rss[0]);
        let i = choose|i: int|
            0 <= i < first.calls.len() && #[trigger] first.calls[i] == Call::Apply(k, sigs[0])
                && emissions(first.trace, m) == option_seq(reply_at(rss[0], i));
        assert(h.answers(first.calls[i], rss[0][i]));
        law_map_over_sends(g, first.folds, first.sinks, x, j0, k, m, h, f, sigs.drop_first(), rss.drop_first());
        assert(sigs.map_values(f) =~= seq![f(sigs[0])] + sigs.drop_first().map_values(f));
    }
}

/// Over any sequence of sends on its source, a filtered stream emits the signals
/// sent that `p` keeps, in order, when the handler answers each call of the filter
/// with `Some` exactly for the signals that `p` keeps.
pub proof fn law_filter_over_sends<S, K, H: Respond<S, K>>(
    g: Seq<Seq<Sub<K>>>,
    folds: Seq<Signal<S>>,
    sinks: Seq<Seq<Signal<S>>>,
    x: usize,
    j0: int,
    k: K,
    m: usize,
    h: H,
    p: spec_fn(Signal<S>) -> bool,
    sigs: Seq<Signal<S>>,
    rss: Seq<Seq<Option<Signal<S>>>>,
)
    requires
        wired(g, folds.len(), sinks.len()),
        x < g.len(),
        m < g.len(),
        x != m,
        0 <= j0 < g[x as int].len(),
        g[x as int][j0] == Sub::Filter(k, m),
        sole_source(g, x, j0, m),
        sigs.len() == rss.len(),
        forall|v: Signal<S>, r: Option<Signal<S>>| #[trigger] h.answers(Call::Filter(k, v), r) ==> (r is Some <==> p(v)),
    ensures
        ({
            let outs = runs(g, folds, sinks, x, sigs, rss);
            all_ok(outs) && all_answered(h, outs, rss) ==> emitted(outs, m) == sigs.filter(p)
        }),
    decreases sigs.len(),
{
    let outs = runs(g, folds, sinks, x, sigs, rss);
    if sigs.len() == 0 {
        reveal(Seq::filter);
    } else if all_ok(outs) && all_answered(h, outs, rss) {
        let first = run(g, folds, sinks, x, sigs[0], rss[0]);
        lemma_runs_first(g, folds, sinks, x, sigs, rss, m, h);
        law_filter_keeps(g, folds, sinks, x, j0, k, m, sigs[0], rss[0]);
        let i = choose|i: int|
            0 <= i < first.calls.len() && #[trigger] first.calls[i] == Call::Filter(k, sigs[0])
                && emissions(first.trace, m) == (if reply_at(rss[0], i) is Some {
                seq![sigs[0]]
            } else {
                Seq::empty()
            });
        assert(h.answers(first.calls[i], rss[0][i]));
        law_filter_over_sends(g, first.folds, first.sinks, x, j0, k, m, h, p, sigs.drop_first(), rss.drop_first());
        assert(sigs =~= seq![sigs[0]] + sigs.drop_first());
        sigs.drop_first().lemma_filter_prepend(sigs[0], p);
    }
}

/// Keeping the values of the answers for one signal, then for the others, keeps
/// them for all.
proof fn lemma_filter_map_prepend<A, B>(a: A, s: Seq<A>, f: spec_fn(A) -> Option<B>)
    ensures
        (seq![a] + s).filter_map(f) == (match f(a) {
            Some(b) => seq![b],
            None => Seq::empty(),
        }) + s.filter_map(f),
    decreases s.len(),
{
    let head: Seq<B> = match f(a) {
        Some(b) => seq![b],
        None => Seq::empty(),
    };
    if s.len() == 0 {
        Seq::lemma_filter_map_singleton(a, f);
        assert(seq![a] + s =~= seq![a]);
        assert(head + s.filter_map(f) =~= head);
    } else {
        let t = seq![a] + s;
        lemma_filter_map_prepend(a, s.drop_last(), f);
        assert(t.drop_last() =~= seq![a] + s.drop_last());
        assert(t.last() == s.last());
        match f(s.last()) {
            Some(b) => {
                assert(head + s.filter_map(f) =~= head + s.drop_last().filter_map(f) + seq![b]);
            },
            None => {},
        }
    }
}

/// Over any sequence of sends on its source, a filter-mapped stream emits the
/// values of `f` on the signals sent, skipping those where `f` has none, when the
/// handler answers each call of the filter-map with `f` of its signal.
pub proof fn law_filter_map_over_sends<S, K, H: Respond<S, K>>(
    g: Seq<Seq<Sub<K>>>,
    folds: Seq<Signal<S>>,
    sinks: Seq<Seq<Signal<S>>>,
    x: usize,
    j0: int,
    k: K,
    m: usize,
    h: H,
    f: spec_fn(Signal<S>) -> Option<Signal<S>>,
    sigs: Seq<Signal<S>>,
    rss: Seq<Seq<Option<Signal<S>>>>,
)
    requires
        wired(g, folds.len(), sinks.len()),
        x < g.len(),
        m < g.len(),
        x != m,
        0 <= j0 < g[x as int].len(),
        g[x as int][j0] == Sub::FilterMap(k, m),
        sole_source(g, x, j0, m),
        sigs.len() == rss.len(),
        forall|v: Signal<S>, r: Option<Signal<S>>| #[trigger] h.answers(Call::FilterMap(k, v), r) ==> r == f(v),
    ensures
        ({
            let outs = runs(g, folds, sinks, x, sigs, rss);
            all_ok(outs) && all_answered(h, outs, rss) ==> emitted(outs, m) == sigs.filter_map(f)
        }),
    decreases sigs.len(),
{
    let outs = runs(g, folds, sinks, x, sigs, rss);
    if sigs.len() == 0 {
    } else if all_ok(outs) && all_answered(h, outs, rss) {
        let first = run(g, folds, sinks, x, sigs[0], rss[0]);
        lemma_runs_first(g, folds, sinks, x, sigs, rss, m, h);
        law_filter_map_emits_answer(g, folds, sinks, x, j0, k, m, sigs[0], rss[0]);
        let i = choose|i: int|
            0 <= i < first.calls.len() && #[trigger] first.calls[i] == Call::FilterMap(k, sigs[0])
                && emissions(first.trace, m) == option_seq(reply_at(rss[0], i));
        assert(h.answers(first.calls[i], rss[0][i]));
        law_filter_map_over_sends(g, first.folds, first.sinks, x, j0, k, m, h, f, sigs.drop_first(), rss.drop_first());
        assert(sigs =~= seq![sigs[0]] + sigs.drop_first());
        lemma_filter_map_prepend(sigs[0], sigs.drop_first(), f);
    }
}

/// The values a fold goes through, starting from `a`, when `f` combines the
/// current value with each of `sigs` in turn.
pub open spec fn accumulations<S>(
    a: Signal<S>,
    sigs: Seq<Signal<S>>,
    f: spec_fn(Signal<S>, Signal<S>) -> Signal<S>,
) -> Seq<Signal<S>>
    decreases sigs.len(),
{
    if sigs.len() == 0 {
        Seq::empty()
    } else {
        let next = f(a, sigs[0]);
        seq![next] + accumulations(next, sigs.drop_first(), f)
    }
}

/// Over any sequence of sends on its source, a fold emits each value it goes
/// through, in order, when the handler answers each call of the fold with `f` of
/// the accumulator and the signal.
pub proof fn law_fold_over_sends<S, K, H: Respond<S, K>>(
    g: Seq<Seq<Sub<K>>>,
    folds: Seq<Signal<S>>,
    sinks: Seq<Seq<Signal<S>>>,
    x: usize,
    j0: int,
    k: K,
    slot: usize,
    m: usize,
    h: H,
    f: spec_fn(Signal<S>, Signal<S>) -> Signal<S>,
    sigs: Seq<Signal<S>>,
    rss: Seq<Seq<Option<Signal<S>>>>,
)
    requires
        wired(g, folds.len(), sinks.len()),
        x < g.len(),
        m < g.len(),
        x != m,
        slot < folds.len(),
        0 <= j0 < g[x as int].len(),
        g[x as int][j0] == Sub::Fold(k, slot, m),
        sole_source(g, x, j0, m),
        sole_fold(g, x, j0, slot),
        sigs.len() == rss.len(),
        forall|a: Signal<S>, v: Signal<S>, r: Option<Signal<S>>|
            #[trigger] h.answers(Call::Fold(k, a, v), r) ==> r == Some(f(a, v)),
    ensures
        ({
            let outs = runs(g, folds, sinks, x, sigs, rss);
            all_ok(outs) && all_answered(h, outs, rss) ==> emitted(outs, m) == accumulations(
                folds[slot as int],
                sigs,
                f,
            )
        }),
    decreases sigs.len(),
{
    let outs = runs(g, folds, sinks, x, sigs, rss);
    if sigs.len() == 0 {
    } else if all_ok(outs) && all_answered(h, outs, rss) {
        let first = run(g, folds, sinks, x, sigs[0], rss[0]);
        lemma_runs_first(g, folds, sinks, x, sigs, rss, m, h);
        law_fold_accumulates(g, folds, sinks, x, j0, k, slot, m, sigs[0], rss[0]);
        let i = choose|i: int|
            0 <= i < first.calls.len() && #[trigger] first.calls[i] == Call::Fold(k, folds[slot as int], sigs[0])
                && match reply_at(rss[0], i) {
                Some(v) => emissions(first.trace, m) == seq![v] && first.folds[slot as int] == v,
                None => emissions(first.trace, m) == Seq::<Signal<S>>::empty()
                    && first.folds[slot as int] == folds[slot as int],
            };
        assert(h.answers(first.calls[i], rss[0][i]));
        law_fold_over_sends(g, first.folds, first.sinks, x, j0, k, slot, m, h, f, sigs.drop_first(), rss.drop_first());
    }
}

/// A send runs the subscriptions of its stream in the order in which they were
/// made: an observer hears the signal once, right after every call that the
/// subscriptions made before it caused, and before any call of those made after it,
/// which then run from there.
pub proof fn law_observer_in_turn<S, K>(
    g: Seq<Seq<Sub<K>>>,
    folds: Seq<Signal<S>>,
    sinks: Seq<Seq<Signal<S>>>,
    x: usize,
    j0: int,
    k: K,
    sig: Signal<S>,
    rs: Seq<Option<Signal<S>>>,
)
    requires
        x < g.len(),
        0 <= j0 < g[x as int].len(),
        g[x as int][j0] == Sub::<K>::Observe(k),
    ensures
        ({
            let res = run(g, folds, sinks, x, sig, rs);
            let before = run_subs(g, x, 0, j0, sig, seq![x], entered(folds, sinks, x, sig), rs);
            let heard = with_call(before, Call::Observe(k, sig));
            res.ok ==> {
                &&& before.ok
                &&& res == crate::semantics::process(g, x, j0 + 1, sig, seq![x], heard, rs)
                &&& res.calls.len() > before.calls.len()
                &&& res.calls[before.calls.len() as int] == Call::Observe(k, sig)
                &&& forall|i: int| 0 <= i < before.calls.len() ==> #[trigger] res.calls[i] == before.calls[i]
            }
        }),
{
    let st = seq![x];
    let o1 = entered::<S, K>(folds, sinks, x, sig);
    crate::lemmas::lemma_run_entered(g, folds, sinks, x, sig, rs);
    let res = run(g, folds, sinks, x, sig, rs);
    assert(res == crate::semantics::process(g, x, 0, sig, st, o1, rs));
    crate::lemmas::lemma_process_split(g, x, 0, j0, sig, st, o1, rs);
    let before = run_subs(g, x, 0, j0, sig, st, o1, rs);
    if !before.ok {
        crate::semantics::lemma_process_grows(g, x, j0, sig, st, before, rs);
    } else {
        let heard = with_call(before, Call::Observe(k, sig));
        assert(step(g, x, j0, sig, st, before, rs) == heard);
        assert(res == crate::semantics::process(g, x, j0 + 1, sig, st, heard, rs));
        crate::semantics::lemma_process_grows(g, x, j0 + 1, sig, st, heard, rs);
        assert(res.calls[before.calls.len() as int] == heard.calls[before.calls.len() as int]);
        assert forall|i: int| 0 <= i < before.calls.len() implies #[trigger] res.calls[i] == before.calls[i] by {
            assert(res.calls[i] == heard.calls[i]);
        }
    }
}

/// Keeping every value of `f` is mapping by `f`.
proof fn lemma_filter_map_total<A, B>(s: Seq<A>, f: spec_fn(A) -> B)
    ensures
        s.filter_map(|a: A| Some(f(a))) == s.map_values(f),
    decreases s.len(),
{
    if s.len() > 0 {
        lemma_filter_map_total(s.drop_last(), f);
        assert(s.map_values(f) =~= s.drop_last().map_values(f) + seq![f(s.last())]);
    } else {
        assert(s.map_values(f) =~= Seq::<B>::empty());
    }
}

/// Keeping the items that `p` accepts, as themselves, is filtering by `p`.
proof fn lemma_filter_map_partial<A>(s: Seq<A>, p: spec_fn(A) -> bool)
    ensures
        s.filter_map(|a: A| if p(a) { Some(a) } else { None }) == s.filter(p),
    decreases s.len(),
{
    reveal(Seq::filter);
    if s.len() > 0 {
        lemma_filter_map_partial(s.drop_last(), p);
        if p(s.last()) {
            assert(s.drop_last().filter(p) + seq![s.last()] =~= s.drop_last().filter(p).push(s.last()));
        }
    }
}

/// A mapped stream whose handler answers with the image `f` of each signal emits
/// exactly the signals sent when `f` is the identity.
pub proof fn law_map_identity<S, K, H: Respond<S, K>>(
    g: Seq<Seq<Sub<K>>>,
    folds: Seq<Signal<S>>,
    sinks: Seq<Seq<Signal<S>>>,
    x: usize,
    j0: int,
    k: K,
    m: usize,
    h: H,
    sigs: Seq<Signal<S>>,
    rss: Seq<Seq<Option<Signal<S>>>>,
)
    requires
        wired(g, folds.len(), sinks.len()),
        x < g.len(),
        m < g.len(),
        x != m,
        0 <= j0 < g[x as int].len(),
        g[x as int][j0] == Sub::Apply(k, m),
        sole_source(g, x, j0, m),
        sigs.len() == rss.len(),
        forall|v: Signal<S>, r: Option<Signal<S>>| #[trigger] h.answers(Call::Apply(k, v), r) ==> r == Some(v),
    ensures
        ({
            let outs = runs(g, folds, sinks, x, sigs, rss);
            all_ok(outs) && all_answered(h, outs, rss) ==> emitted(outs, m) == sigs
        }),
{
    let id = |v: Signal<S>| v;
    law_map_over_sends(g, folds, sinks, x, j0, k, m, h, id, sigs, rss);
    assert(sigs.map_values(id) =~= sigs);
}

/// Two streams fed by the same source emit the same over any sequence of sends
/// when one is a map by `f` and the other a filter-map whose handler always keeps
/// the image `f` of the signal.
pub proof fn law_filter_map_total_is_map<S, K, H: Respond<S, K>>(
    g: Seq<Seq<Sub<K>>>,
    folds: Seq<Signal<S>>,
    sinks: Seq<Seq<Signal<S>>>,
    x: usize,
    j1: int,
    k1: K,
    m1: usize,
    j2: int,
    k2: K,
    m2: usize,
    h: H,
    f: spec_fn(Signal<S>) -> Signal<S>,
    sigs: Seq<Signal<S>>,
    rss: Seq<Seq<Option<Signal<S>>>>,
)
    requires
        wired(g, folds.len(), sinks.len()),
        x < g.len(),
        m1 < g.len(),
        m2 < g.len(),
        x != m1,
        x != m2,
        0 <= j1 < g[x as int].len(),
        0 <= j2 < g[x as int].len(),
        g[x as int][j1] == Sub::Apply(k1, m1),
        g[x as int][j2] == Sub::FilterMap(k2, m2),
        sole_source(g, x, j1, m1),
        sole_source(g, x, j2, m2),
        sigs.len() == rss.len(),
        forall|v: Signal<S>, r: Option<Signal<S>>| #[trigger] h.answers(Call::Apply(k1, v), r) ==> r == Some(f(v)),
        forall|v: Signal<S>, r: Option<Signal<S>>| #[trigger] h.answers(Call::FilterMap(k2, v), r) ==> r == Some(f(v)),
    ensures
        ({
            let outs = runs(g, folds, sinks, x, sigs, rss);
            all_ok(outs) && all_answered(h, outs, rss) ==> emitted(outs, m2) == emitted(outs, m1)
        }),
{
    let some_f = |v: Signal<S>| Some(f(v));
    law_map_over_sends(g, folds, sinks, x, j1, k1, m1, h, f, sigs, rss);
    law_filter_map_over_sends(g, folds, sinks, x, j2, k2, m2, h, some_f, sigs, rss);
    lemma_filter_map_total(sigs, f);
    assert(sigs.filter_map(some_f) == sigs.filter_map(|a: Signal<S>| Some(f(a))));
}

/// Two streams fed by the same source emit the same over any sequence of sends
/// when one is a filter by `p` and the other a filter-map whose handler keeps
/// exactly the signals that `p` accepts, as themselves.
pub proof fn law_filter_map_partial_is_filter<S, K, H: Respond<S, K>>(
    g: Seq<Seq<Sub<K>>>,
    folds: Seq<Signal<S>>,
    sinks: Seq<Seq<Signal<S>>>,
    x: usize,
    j1: int,
    k1: K,
    m1: usize,
    j2: int,
    k2: K,
    m2: usize,
    h: H,
    p: spec_fn(Signal<S>) -> bool,
    sigs: Seq<Signal<S>>,
    rss: Seq<Seq<Option<Signal<S>>>>,
)
    requires
        wired(g, folds.len(), sinks.len()),
        x < g.len(),
        m1 < g.len(),
        m2 < g.len(),
        x != m1,
        x != m2,
        0 <= j1 < g[x as int].len(),
        0 <= j2 < g[x as int].len(),
        g[x as int][j1] == Sub::Filter(k1, m1),
        g[x as int][j2] == Sub::FilterMap(k2, m2),
        sole_source(g, x, j1, m1),
        sole_source(g, x, j2, m2),
        sigs.len() == rss.len(),
        forall|v: Signal<S>, r: Option<Signal<S>>| #[trigger] h.answers(Call::Filter(k1, v), r) ==> (r is Some <==> p(v)),
        forall|v: Signal<S>, r: Option<Signal<S>>|
            #[trigger] h.answers(Call::FilterMap(k2, v), r) ==> r == (if p(v) {
                Some(v)
            } else {
                None
            }),
    ensures
        ({
            let outs = runs(g, folds, sinks, x, sigs, rss);
            all_ok(outs) && all_answered(h, outs, rss) ==> emitted(outs, m2) == emitted(outs, m1)
        }),
{
    let keep = |v: Signal<S>| if p(v) { Some(v) } else { None };
    law_filter_over_sends(g, folds, sinks, x, j1, k1, m1, h, p, sigs, rss);
    law_filter_map_over_sends(g, folds, sinks, x, j2, k2, m2, h, keep, sigs, rss);
    lemma_filter_map_partial(sigs, p);
    assert(sigs.filter_map(keep) == sigs.filter_map(|a: Signal<S>| if p(a) { Some(a) } else { None }));
}

/// In a send on `x`, a stream `m2` fed only by subscription `j1` of `m1`, itself fed
/// only by subscription `j0` of `x`, emits only what that subscription of `x` makes
/// it emit.
proof fn lemma_outer_hop<S, K>(
    g: Seq<Seq<Sub<K>>>,
    folds: Seq<Signal<S>>,
    sinks: Seq<Seq<Signal<S>>>,
    x: usize,
    j0: int,
    m1: usize,
    j1: int,
    m2: usize,
    sig: Signal<S>,
    rs: Seq<Option<Signal<S>>>,
) -> (pre: Outcome<S, K>)
    requires
        wired(g, folds.len(), sinks.len()),
        x < g.len(),
        m1 < g.len(),
        m2 < g.len(),
        x != m1,
        x != m2,
        m1 != m2,
        0 <= j0 < g[x as int].len(),
        0 <= j1 < g[m1 as int].len(),
        sole_source(g, x, j0, m1),
        sole_source(g, m1, j1, m2),
    ensures
        ({
            let res = run(g, folds, sinks, x, sig, rs);
            let mid = step(g, x, j0, sig, seq![x], pre, rs);
            res.ok ==> {
                &&& pre.ok
                &&& mid.ok
                &&& wired(g, pre.folds.len(), pre.sinks.len())
                &&& emissions(pre.trace, m2) == Seq::<Signal<S>>::empty()
                &&& emissions(res.trace, m2) == emissions(mid.trace, m2)
                &&& res.calls.len() >= mid.calls.len()
                &&& forall|i: int| 0 <= i < mid.calls.len() ==> #[trigger] res.calls[i] == mid.calls[i]
            }
        }),
{
    let st = seq![x];
    let o1 = entered::<S, K>(folds, sinks, x, sig);
    crate::lemmas::lemma_run_entered(g, folds, sinks, x, sig, rs);
    let res = run(g, folds, sinks, x, sig, rs);
    assert(res == crate::semantics::process(g, x, 0, sig, st, o1, rs));
    assert(fed_by(g, m1, m2));
    assert(guarded(g, m1 as int, -1, -1, st)) by {
        assert forall|i: int, j: int|
            0 <= i < g.len() && 0 <= j < g[i].len() && #[trigger] crate::lemmas::touches(g[i][j], m1 as int, -1, -1)
            implies st.contains(i as usize) by {
            assert(st[0] == x);
        }
    }
    crate::lemmas::lemma_process_split(g, x, 0, j0, sig, st, o1, rs);
    let pre = run_subs(g, x, 0, j0, sig, st, o1, rs);
    crate::lemmas::lemma_run_subs_shadow(g, x, 0, j0, sig, st, o1, rs, m1, m2);
    crate::lemmas::lemma_run_subs_quiet(g, x, 0, j0, sig, st, o1, rs, -1, -1, -1);
    crate::lemmas::lemma_entered_emissions::<S, K>(folds, sinks, x, sig, m2);
    if !pre.ok {
        crate::semantics::lemma_process_grows(g, x, j0, sig, st, pre, rs);
        return pre;
    }
    let mid = step(g, x, j0, sig, st, pre, rs);
    assert(res == crate::semantics::process(g, x, j0 + 1, sig, st, mid, rs));
    crate::semantics::lemma_step_grows(g, x, j0, sig, st, pre, rs);
    crate::semantics::lemma_process_grows(g, x, j0 + 1, sig, st, mid, rs);
    if mid.ok {
        crate::lemmas::lemma_process_shadow(g, x, j0 + 1, sig, st, mid, rs, m1, m2);
    }
    pre
}

/// Stream `m1`, entered from `x` with `v`, makes `m2` (fed only by its subscription
/// `j1`) emit only what that subscription makes it emit.
proof fn lemma_inner_hop<S, K>(
    g: Seq<Seq<Sub<K>>>,
    x: usize,
    m1: usize,
    j1: int,
    m2: usize,
    v: Signal<S>,
    o: Outcome<S, K>,
    rs: Seq<Option<Signal<S>>>,
) -> (pre: Outcome<S, K>)
    requires
        wired(g, o.folds.len(), o.sinks.len()),
        x < g.len(),
        m1 < g.len(),
        m2 < g.len(),
        x != m1,
        x != m2,
        m1 != m2,
        o.ok,
        0 <= j1 < g[m1 as int].len(),
        sole_source(g, m1, j1, m2),
        emissions(o.trace, m2) == Seq::<Signal<S>>::empty(),
    ensures
        ({
            let d = deliver(g, m1, v, seq![x], o, rs);
            let mid = step(g, m1, j1, v, seq![x, m1], pre, rs);
            d.ok ==> {
                &&& pre.ok
                &&& mid.ok
                &&& wired(g, pre.folds.len(), pre.sinks.len())
                &&& emissions(pre.trace, m2) == Seq::<Signal<S>>::empty()
                &&& emissions(d.trace, m2) == emissions(mid.trace, m2)
                &&& d.calls.len() >= mid.calls.len()
                &&& forall|i: int| 0 <= i < mid.calls.len() ==> #[trigger] d.calls[i] == mid.calls[i]
            }
        }),
{
    let st = seq![x];
    let st2 = seq![x, m1];
    assert(!st.contains(m1)) by {
        if st.contains(m1) {
            assert(st[0] == x);
        }
    }
    assert(st.push(m1) == st2);
    let o1 = Outcome { trace: o.trace.push((m1, v)), ..o };
    crate::lemmas::lemma_emissions_push(o.trace, (m1, v), m2);
    let d = deliver(g, m1, v, st, o, rs);
    assert(d == crate::semantics::process(g, m1, 0, v, st2, o1, rs));
    assert(guarded(g, m2 as int, -1, -1, st2)) by {
        assert forall|i: int, j: int|
            0 <= i < g.len() && 0 <= j < g[i].len() && #[trigger] crate::lemmas::touches(g[i][j], m2 as int, -1, -1)
            implies st2.contains(i as usize) by {
            assert(st2[1] == m1);
        }
    }
    crate::lemmas::lemma_process_split(g, m1, 0, j1, v, st2, o1, rs);
    let pre = run_subs(g, m1, 0, j1, v, st2, o1, rs);
    assert forall|j2: int| 0 <= j2 < j1 implies !crate::lemmas::touches(#[trigger] g[m1 as int][j2], m2 as int, -1, -1) by {}
    crate::lemmas::lemma_run_subs_quiet(g, m1, 0, j1, v, st2, o1, rs, m2 as int, -1, -1);
    if !pre.ok {
        crate::semantics::lemma_process_grows(g, m1, j1, v, st2, pre, rs);
        return pre;
    }
    let mid = step(g, m1, j1, v, st2, pre, rs);
    assert(d == crate::semantics::process(g, m1, j1 + 1, v, st2, mid, rs));
    crate::semantics::lemma_step_grows(g, m1, j1, v, st2, pre, rs);
    crate::semantics::lemma_process_grows(g, m1, j1 + 1, v, st2, mid, rs);
    if mid.ok {
        assert forall|j2: int| j1 + 1 <= j2 < g[m1 as int].len() implies !crate::lemmas::touches(
            #[trigger] g[m1 as int][j2],
            m2 as int,
            -1,
            -1,
        ) by {}
        crate::lemmas::lemma_process_quiet(g, m1, j1 + 1, v, st2, mid, rs, m2 as int, -1, -1);
    }
    pre
}

/// Stream `m2`, fed only by a subscription of `m1`, entered from `m1` with `w`,
/// emits `w` once.
proof fn lemma_last_hop<S, K>(
    g: Seq<Seq<Sub<K>>>,
    x: usize,
    m1: usize,
    j1: int,
    m2: usize,
    w: Signal<S>,
    o: Outcome<S, K>,
    rs: Seq<Option<Signal<S>>>,
)
    requires
        wired(g, o.folds.len(), o.sinks.len()),
        x < g.len(),
        m1 < g.len(),
        m2 < g.len(),
        x != m1,
        x != m2,
        m1 != m2,
        o.ok,
        sole_source(g, m1, j1, m2),
    ensures
        emissions(deliver(g, m2, w, seq![x, m1], o, rs).trace, m2) == emissions(o.trace, m2).push(w),
{
    let st2 = seq![x, m1];
    let st3 = st2.push(m2);
    assert(!st2.contains(m2)) by {
        if st2.contains(m2) {
            let k = choose|k: int| 0 <= k < st2.len() && st2[k] == m2;
            assert(k == 0 || k == 1);
        }
    }
    let o1 = Outcome { trace: o.trace.push((m2, w)), ..o };
    crate::lemmas::lemma_emissions_push(o.trace, (m2, w), m2);
    assert(guarded(g, m2 as int, -1, -1, st3)) by {
        assert forall|i: int, j: int|
            0 <= i < g.len() && 0 <= j < g[i].len() && #[trigger] crate::lemmas::touches(g[i][j], m2 as int, -1, -1)
            implies st3.contains(i as usize) by {
            assert(st3[1] == m1);
        }
    }
    assert forall|j2: int| 0 <= j2 < g[m2 as int].len() implies !crate::lemmas::touches(
        #[trigger] g[m2 as int][j2],
        m2 as int,
        -1,
        -1,
    ) by {}
    crate::lemmas::lemma_process_quiet(g, m2, 0, w, st3, o1, rs, m2 as int, -1, -1);
}

/// A map of a mapped stream emits, for each signal sent on the first source, the
/// handler's answer for the first map's answer, and nothing when either has none.
pub proof fn law_map_of_map<S, K>(
    g: Seq<Seq<Sub<K>>>,
    folds: Seq<Signal<S>>,
    sinks: Seq<Seq<Signal<S>>>,
    x: usize,
    j0: int,
    k1: K,
    m1: usize,
    j1: int,
    k2: K,
    m2: usize,
    sig: Signal<S>,
    rs: Seq<Option<Signal<S>>>,
)
    requires
        wired(g, folds.len(), sinks.len()),
        x < g.len(),
        m1 < g.len(),
        m2 < g.len(),
        x != m1,
        x != m2,
        m1 != m2,
        0 <= j0 < g[x as int].len(),
        0 <= j1 < g[m1 as int].len(),
        g[x as int][j0] == Sub::Apply(k1, m1),
        g[m1 as int][j1] == Sub::Apply(k2, m2),
        sole_source(g, x, j0, m1),
        sole_source(g, m1, j1, m2),
    ensures
        ({
            let res = run(g, folds, sinks, x, sig, rs);
            res.ok ==> exists|i: int|
                0 <= i < res.calls.len() && #[trigger] res.calls[i] == Call::Apply(k1, sig)
                    && match reply_at(rs, i) {
                    None => emissions(res.trace, m2) == Seq::<Signal<S>>::empty(),
                    Some(v) => exists|i2: int|
                        0 <= i2 < res.calls.len() && #[trigger] res.calls[i2] == Call::Apply(k2, v)
                            && emissions(res.trace, m2) == option_seq(reply_at(rs, i2)),
                }
        }),
{
    let res = run(g, folds, sinks, x, sig, rs);
    let pre = lemma_outer_hop(g, folds, sinks, x, j0, m1, j1, m2, sig, rs);
    if res.ok {
        let st = seq![x];
        let mid = step(g, x, j0, sig, st, pre, rs);
        let i = pre.calls.len() as int;
        assert(st.len() == 1);
        let o1 = with_call(pre, Call::Apply(k1, sig));
        match reply_at(rs, i) {
            Some(v) => {
                assert(mid == deliver(g, m1, v, st, o1, rs));
                crate::semantics::lemma_deliver_grows(g, m1, v, st, o1, rs);
                let pre2 = lemma_inner_hop(g, x, m1, j1, m2, v, o1, rs);
                let st2 = seq![x, m1];
                let mid2 = step(g, m1, j1, v, st2, pre2, rs);
                let i2 = pre2.calls.len() as int;
                assert(st2.len() == 2);
                let o2 = with_call(pre2, Call::Apply(k2, v));
                match reply_at(rs, i2) {
                    Some(w) => {
                        assert(mid2 == deliver(g, m2, w, st2, o2, rs));
                        crate::semantics::lemma_deliver_grows(g, m2, w, st2, o2, rs);
                        lemma_last_hop(g, x, m1, j1, m2, w, o2, rs);
                    },
                    None => {
                        assert(mid2 == o2);
                    },
                }
                assert(mid.calls[i] == o1.calls[i]);
                assert(res.calls[i2] == mid2.calls[i2]);
            },
            None => {
                assert(mid == o1);
            },
        }
        assert(res.calls[i] == mid.calls[i]);
    }
}

/// A filter of a filtered stream emits a signal sent on the first source exactly
/// when the handler keeps it in both filters.
pub proof fn law_filter_of_filter<S, K>(
    g: Seq<Seq<Sub<K>>>,
    folds: Seq<Signal<S>>,
    sinks: Seq<Seq<Signal<S>>>,
    x: usize,
    j0: int,
    k1: K,
    m1: usize,
    j1: int,
    k2: K,
    m2: usize,
    sig: Signal<S>,
    rs: Seq<Option<Signal<S>>>,
)
    requires
        wired(g, folds.len(), sinks.len()),
        x < g.len(),
        m1 < g.len(),
        m2 < g.len(),
        x != m1,
        x != m2,
        m1 != m2,
        0 <= j0 < g[x as int].len(),
        0 <= j1 < g[m1 as int].len(),
        g[x as int][j0] == Sub::Filter(k1, m1),
        g[m1 as int][j1] == Sub::Filter(k2, m2),
        sole_source(g, x, j0, m1),
        sole_source(g, m1, j1, m2),
    ensures
        ({
            let res = run(g, folds, sinks, x, sig, rs);
            res.ok ==> exists|i: int|
                0 <= i < res.calls.len() && #[trigger] res.calls[i] == Call::Filter(k1, sig)
                    && if reply_at(rs, i) is Some {
                    exists|i2: int|
                        0 <= i2 < res.calls.len() && #[trigger] res.calls[i2] == Call::Filter(k2, sig)
                            && emissions(res.trace, m2) == (if reply_at(rs, i2) is Some {
                            seq![sig]
                        } else {
                            Seq::empty()
                        })
                } else {
                    emissions(res.trace, m2) == Seq::<Signal<S>>::empty()
                }
        }),
{
    let res = run(g, folds, sinks, x, sig, rs);
    let pre = lemma_outer_hop(g, folds, sinks, x, j0, m1, j1, m2, sig, rs);
    if res.ok {
        let st = seq![x];
        let mid = step(g, x, j0, sig, st, pre, rs);
        let i = pre.calls.len() as int;
        assert(st.len() == 1);
        let o1 = with_call(pre, Call::Filter(k1, sig));
        if reply_at(rs, i) is Some {
            assert(mid == deliver(g, m1, sig, st, o1, rs));
            crate::semantics::lemma_deliver_grows(g, m1, sig, st, o1, rs);
            let pre2 = lemma_inner_hop(g, x, m1, j1, m2, sig, o1, rs);
            let st2 = seq![x, m1];
            let mid2 = step(g, m1, j1, sig, st2, pre2, rs);
            let i2 = pre2.calls.len() as int;
            assert(st2.len() == 2);
            let o2 = with_call(pre2, Call::Filter(k2, sig));
            if reply_at(rs, i2) is Some {
                assert(mid2 == deliver(g, m2, sig, st2, o2, rs));
                crate::semantics::lemma_deliver_grows(g, m2, sig, st2, o2, rs);
                lemma_last_hop(g, x, m1, j1, m2, sig, o2, rs);
            } else {
                assert(mid2 == o2);
            }
            assert(mid.calls[i] == o1.calls[i]);
            assert(res.calls[i2] == mid2.calls[i2]);
        } else {
            assert(mid == o1);
        }
        assert(res.calls[i] == mid.calls[i]);
    }
}

/// Over any sequence of sends on its source, mapping by `f` and then by `h2`
/// emits the images by their composition, when the handler answers the calls of
/// each map with the image of the signal.
pub proof fn law_map_of_map_over_sends<S, K, H: Respond<S, K>>(
    g: Seq<Seq<Sub<K>>>,
    folds: Seq<Signal<S>>,
    sinks: Seq<Seq<Signal<S>>>,
    x: usize,
    j0: int,
    k1: K,
    m1: usize,
    j1: int,
    k2: K,
    m2: usize,
    h: H,
    f: spec_fn(Signal<S>) -> Signal<S>,
    h2: spec_fn(Signal<S>) -> Signal<S>,
    sigs: Seq<Signal<S>>,
    rss: Seq<Seq<Option<Signal<S>>>>,
)
    requires
        wired(g, folds.len(), sinks.len()),
        x < g.len(),
        m1 < g.len(),
        m2 < g.len(),
        x != m1,
        x != m2,
        m1 != m2,
        0 <= j0 < g[x as int].len(),
        0 <= j1 < g[m1 as int].len(),
        g[x as int][j0] == Sub::Apply(k1, m1),
        g[m1 as int][j1] == Sub::Apply(k2, m2),
        sole_source(g, x, j0, m1),
        sole_source(g, m1, j1, m2),
        sigs.len() == rss.len(),
        forall|v: Signal<S>, r: Option<Signal<S>>| #[trigger] h.answers(Call::Apply(k1, v), r) ==> r == Some(f(v)),
        forall|v: Signal<S>, r: Option<Signal<S>>| #[trigger] h.answers(Call::Apply(k2, v), r) ==> r == Some(h2(v)),
    ensures
        ({
            let outs = runs(g, folds, sinks, x, sigs, rss);
            all_ok(outs) && all_answered(h, outs, rss) ==> emitted(outs, m2) == sigs.map_values(
                |v: Signal<S>| h2(f(v)),
            )
        }),
    decreases sigs.len(),
{
    let outs = runs(g, folds, sinks, x, sigs, rss);
    let both = |v: Signal<S>| h2(f(v));
    if sigs.len() == 0 {
        assert(sigs.map_values(both) =~= Seq::<Signal<S>>::empty());
    } else if all_ok(outs) && all_answered(h, outs, rss) {
        let first = run(g, folds, sinks, x, sigs[0], rss[0]);
        lemma_runs_first(g, folds, sinks, x, sigs, rss, m2, h);
        law_map_of_map(g, folds, sinks, x, j0, k1, m1, j1, k2, m2, sigs[0], rss[0]);
        let i = choose|i: int|
            0 <= i < first.calls.len() && #[trigger] first.calls[i] == Call::Apply(k1, sigs[0])
                && match reply_at(rss[0], i) {
                None => emissions(first.trace, m2) == Seq::<Signal<S>>::empty(),
                Some(v) => exists|i2: int|
                    0 <= i2 < first.calls.len() && #[trigger] first.calls[i2] == Call::Apply(k2, v)
                        && emissions(first.trace, m2) == option_seq(reply_at(rss[0], i2)),
            };
        assert(h.answers(first.calls[i], rss[0][i]));
        let v = f(sigs[0]);
        let i2 = choose|i2: int|
            0 <= i2 < first.calls.len() && #[trigger] first.calls[i2] == Call::Apply(k2, v)
                && emissions(first.trace, m2) == option_seq(reply_at(rss[0], i2));
        assert(h.answers(first.calls[i2], rss[0][i2]));
        law_map_of_map_over_sends(
            g,
            first.folds,
            first.sinks,
            x,
            j0,
            k1,
            m1,
            j1,
            k2,
            m2,
            h,
            f,
            h2,
            sigs.drop_first(),
            rss.drop_first(),
        );
        assert(sigs.map_values(both) =~= seq![both(sigs[0])] + sigs.drop_first().map_values(both));
    }
}

/// Over any sequence of sends on its source, filtering by `p` and then by `q`
/// keeps the signals that both accept, when the handler keeps exactly what each
/// predicate accepts.
pub proof fn law_filter_of_filter_over_sends<S, K, H: Respond<S, K>>(
    g: Seq<Seq<Sub<K>>>,
    folds: Seq<Signal<S>>,
    sinks: Seq<Seq<Signal<S>>>,
    x: usize,
    j0: int,
    k1: K,
    m1: usize,
    j1: int,
    k2: K,
    m2: usize,
    h: H,
    p: spec_fn(Signal<S>) -> bool,
    q: spec_fn(Signal<S>) -> bool,
    sigs: Seq<Signal<S>>,
    rss: Seq<Seq<Option<Signal<S>>>>,
)
    requires
        wired(g, folds.len(), sinks.len()),
        x < g.len(),
        m1 < g.len(),
        m2 < g.len(),
        x != m1,
        x != m2,
        m1 != m2,
        0 <= j0 < g[x as int].len(),
        0 <= j1 < g[m1 as int].len(),
        g[x as int][j0] == Sub::Filter(k1, m1),
        g[m1 as int][j1] == Sub::Filter(k2, m2),
        sole_source(g, x, j0, m1),
        sole_source(g, m1, j1, m2),
        sigs.len() == rss.len(),
        forall|v: Signal<S>, r: Option<Signal<S>>| #[trigger] h.answers(Call::Filter(k1, v), r) ==> (r is Some <==> p(v)),
        forall|v: Signal<S>, r: Option<Signal<S>>| #[trigger] h.answers(Call::Filter(k2, v), r) ==> (r is Some <==> q(v)),
    ensures
        ({
            let outs = runs(g, folds, sinks, x, sigs, rss);
            all_ok(outs) && all_answered(h, outs, rss) ==> emitted(outs, m2) == sigs.filter(
                |v: Signal<S>| p(v) && q(v),
            )
        }),
    decreases sigs.len(),
{
    let outs = runs(g, folds, sinks, x, sigs, rss);
    let both = |v: Signal<S>| p(v) && q(v);
    if sigs.len() == 0 {
        reveal(Seq::filter);
    } else if all_ok(outs) && all_answered(h, outs, rss) {
        let first = run(g, folds, sinks, x, sigs[0], rss[0]);
        lemma_runs_first(g, folds, sinks, x, sigs, rss, m2, h);
        law_filter_of_filter(g, folds, sinks, x, j0, k1, m1, j1, k2, m2, sigs[0], rss[0]);
        let i = choose|i: int|
            0 <= i < first.calls.len() && #[trigger] first.calls[i] == Call::Filter(k1, sigs[0])
                && if reply_at(rss[0], i) is Some {
                exists|i2: int|
                    0 <= i2 < first.calls.len() && #[trigger] first.calls[i2] == Call::Filter(k2, sigs[0])
                        && emissions(first.trace, m2) == (if reply_at(rss[0], i2) is Some {
                        seq![sigs[0]]
                    } else {
                        Seq::empty()
                    })
            } else {
                emissions(first.trace, m2) == Seq::<Signal<S>>::empty()
            };
        assert(h.answers(first.calls[i], rss[0][i]));
        if p(sigs[0]) {
            let i2 = choose|i2: int|
                0 <= i2 < first.calls.len() && #[trigger] first.calls[i2] == Call::Filter(k2, sigs[0])
                    && emissions(first.trace, m2) == (if reply_at(rss[0], i2) is Some {
                    seq![sigs[0]]
                } else {
                    Seq::empty()
                });
            assert(h.answers(first.calls[i2], rss[0][i2]));
        }
        law_filter_of_filter_over_sends(
            g,
            first.folds,
            first.sinks,
            x,
            j0,
            k1,
            m1,
            j1,
            k2,
            m2,
            h,
            p,
            q,
            sigs.drop_first(),
            rss.drop_first(),
        );
        assert(sigs =~= seq![sigs[0]] + sigs.drop_first());
        sigs.drop_first().lemma_filter_prepend(sigs[0], both);
    }
}

/// Filtering a filtered stream by the same predicate changes nothing: over any
/// sequence of sends, the second filter emits exactly what the first emits.
pub proof fn law_filter_idempotent<S, K, H: Respond<S, K>>(
    g: Seq<Seq<Sub<K>>>,
    folds: Seq<Signal<S>>,
    sinks: Seq<Seq<Signal<S>>>,
    x: usize,
    j0: int,
    k1: K,
    m1: usize,
    j1: int,
    k2: K,
    m2: usize,
    h: H,
    p: spec_fn(Signal<S>) -> bool,
    sigs: Seq<Signal<S>>,
    rss: Seq<Seq<Option<Signal<S>>>>,
)
    requires
        wired(g, folds.len(), sinks.len()),
        x < g.len(),
        m1 < g.len(),
        m2 < g.len(),
        x != m1,
        x != m2,
        m1 != m2,
        0 <= j0 < g[x as int].len(),
        0 <= j1 < g[m1 as int].len(),
        g[x as int][j0] == Sub::Filter(k1, m1),
        g[m1 as int][j1] == Sub::Filter(k2, m2),
        sole_source(g, x, j0, m1),
        sole_source(g, m1, j1, m2),
        sigs.len() == rss.len(),
        forall|v: Signal<S>, r: Option<Signal<S>>| #[trigger] h.answers(Call::Filter(k1, v), r) ==> (r is Some <==> p(v)),
        forall|v: Signal<S>, r: Option<Signal<S>>| #[trigger] h.answers(Call::Filter(k2, v), r) ==> (r is Some <==> p(v)),
    ensures
        ({
            let outs = runs(g, folds, sinks, x, sigs, rss);
            all_ok(outs) && all_answered(h, outs, rss) ==> emitted(outs, m2) == emitted(outs, m1)
        }),
{
    law_filter_over_sends(g, folds, sinks, x, j0, k1, m1, h, p, sigs, rss);
    law_filter_of_filter_over_sends(g, folds, sinks, x, j0, k1, m1, j1, k2, m2, h, p, p, sigs, rss);
    assert((|v: Signal<S>| p(v) && p(v)) =~= p);
}

/// A send on the first stream of an entangled pair, whatever was subscribed to
/// either stream since: `f` hears the signal first; when it answers, the second
/// stream emits the answer, `g` hears it next and must not answer (its answer would
/// reach the first stream while it is still emitting, and the send would fail);
/// all of this happens before the later subscriptions of the first stream run.
pub proof fn law_entangled_send<S, K>(
    g: Seq<Seq<Sub<K>>>,
    folds: Seq<Signal<S>>,
    sinks: Seq<Seq<Signal<S>>>,
    fs: usize,
    gs: usize,
    f: K,
    gk: K,
    sig: Signal<S>,
    rs: Seq<Option<Signal<S>>>,
)
    requires
        wired(g, folds.len(), sinks.len()),
        fs < g.len(),
        gs < g.len(),
        fs != gs,
        g[fs as int].len() > 0,
        g[gs as int].len() > 0,
        g[fs as int][0] == Sub::FilterMap(f, gs),
        g[gs as int][0] == Sub::FilterMap(gk, fs),
        sole_source(g, fs, 0, gs),
    ensures
        ({
            let res = run(g, folds, sinks, fs, sig, rs);
            let st = seq![fs];
            let first = step(g, fs, 0, sig, st, entered(folds, sinks, fs, sig), rs);
            let r0 = reply_at(rs, 0);
            res.ok ==> {
                &&& res == crate::semantics::process(g, fs, 1, sig, st, first, rs)
                &&& res.calls.len() > 0
                &&& res.calls[0] == Call::FilterMap(f, sig)
                &&& emissions(res.trace, gs) == option_seq(r0)
                &&& r0 is Some ==> res.calls.len() > 1 && res.calls[1] == Call::FilterMap(gk, r0->0)
                    && reply_at(rs, 1) is None
            }
        }),
{
    let res = run(g, folds, sinks, fs, sig, rs);
    let st = seq![fs];
    let o1 = entered::<S, K>(folds, sinks, fs, sig);
    crate::lemmas::lemma_run_entered(g, folds, sinks, fs, sig, rs);
    assert(res == crate::semantics::process(g, fs, 0, sig, st, o1, rs));
    let first = step(g, fs, 0, sig, st, o1, rs);
    assert(res == crate::semantics::process(g, fs, 1, sig, st, first, rs));
    crate::semantics::lemma_process_grows(g, fs, 1, sig, st, first, rs);
    lemma_only_at(g, fs, 0, gs as int, -1, -1);
    let pre = lemma_send_through(g, folds, sinks, fs, 0, gs as int, -1, -1, sig, rs);
    lemma_entered_emissions::<S, K>(folds, sinks, fs, sig, gs);
    let c1 = with_call(o1, Call::FilterMap(f, sig));
    assert(c1.calls == seq![Call::FilterMap(f, sig)]);
    if res.ok {
        assert(o1.calls.len() == 0);
        assert(pre == o1);
        match reply_at(rs, 0) {
            None => {
                assert(first == c1);
                assert(res.calls[0] == c1.calls[0]);
            },
            Some(v) => {
                assert(first == deliver(g, gs, v, st, c1, rs));
                lemma_enter_target(g, fs, 0, gs, -1, -1, v, c1, rs);
                let st2 = st.push(gs);
                assert(!st.contains(gs)) by {
                    assert(st[0] == fs);
                }
                let c2 = Outcome { trace: c1.trace.push((gs, v)), ..c1 };
                assert(first == crate::semantics::process(g, gs, 0, v, st2, c2, rs));
                let c3 = with_call(c2, Call::FilterMap(gk, v));
                let mid2 = step(g, gs, 0, v, st2, c2, rs);
                assert(first == crate::semantics::process(g, gs, 1, v, st2, mid2, rs));
                crate::semantics::lemma_process_grows(g, gs, 1, v, st2, mid2, rs);
                assert(c3.calls == seq![Call::FilterMap(f, sig), Call::FilterMap(gk, v)]);
                match reply_at(rs, 1) {
                    None => {
                        assert(mid2 == c3);
                    },
                    Some(w) => {
                        assert(st2.contains(fs)) by {
                            assert(st2[0] == fs);
                        }
                        assert(mid2 == deliver(g, fs, w, st2, c3, rs));
                    },
                }
                assert(res.calls[0] == first.calls[0]);
                assert(res.calls[1] == first.calls[1]);
                assert(first.calls[0] == mid2.calls[0]);
                assert(first.calls[1] == mid2.calls[1]);
            },
        }
    }
}

/// Stream `m`, whose feeders all belong to `x`, entered from `x` with `v`, emits `v`
/// once.
proof fn lemma_enter_fed<S, K>(
    g: Seq<Seq<Sub<K>>>,
    x: usize,
    m: usize,
    v: Signal<S>,
    o: Outcome<S, K>,
    rs: Seq<Option<Signal<S>>>,
)
    requires
        wired(g, o.folds.len(), o.sinks.len()),
        x < g.len(),
        m < g.len(),
        x != m,
        o.ok,
        guarded(g, m as int, -1, -1, seq![x]),
    ensures
        emissions(deliver(g, m, v, seq![x], o, rs).trace, m) == emissions(o.trace, m).push(v),
{
    let st = seq![x];
    let st2 = st.push(m);
    assert(!st.contains(m)) by {
        if st.contains(m) {
            assert(st[0] == x);
        }
    }
    let o1 = Outcome { trace: o.trace.push((m, v)), ..o };
    crate::lemmas::lemma_emissions_push(o.trace, (m, v), m);
    assert(guarded(g, m as int, -1, -1, st2)) by {
        assert forall|i: int, j: int|
            0 <= i < g.len() && 0 <= j < g[i].len() && #[trigger] crate::lemmas::touches(g[i][j], m as int, -1, -1)
            implies st2.contains(i as usize) by {
            assert(st.contains(i as usize));
            assert(st2[0] == st[0]);
        }
    }
    assert forall|j2: int| 0 <= j2 < g[m as int].len() implies !crate::lemmas::touches(
        #[trigger] g[m as int][j2],
        m as int,
        -1,
        -1,
    ) by {
        if crate::lemmas::touches(g[m as int][j2], m as int, -1, -1) {
            assert(st.contains(m));
        }
    }
    crate::lemmas::lemma_process_quiet(g, m, 0, v, st2, o1, rs, m as int, -1, -1);
}

/// A stream merged with itself emits each signal sent on it twice.
pub proof fn law_self_merge_doubles<S, K>(
    g: Seq<Seq<Sub<K>>>,
    folds: Seq<Signal<S>>,
    sinks: Seq<Seq<Signal<S>>>,
    x: usize,
    j0: int,
    m: usize,
    sig: Signal<S>,
    rs: Seq<Option<Signal<S>>>,
)
    requires
        wired(g, folds.len(), sinks.len()),
        x < g.len(),
        m < g.len(),
        x != m,
        0 <= j0,
        j0 + 1 < g[x as int].len(),
        g[x as int][j0] == Sub::<K>::Forward(m),
        g[x as int][j0 + 1] == Sub::<K>::Forward(m),
        crate::lemmas::sole_pair(g, x, j0, m),
    ensures
        ({
            let res = run(g, folds, sinks, x, sig, rs);
            res.ok ==> emissions(res.trace, m) == seq![sig, sig]
        }),
{
    let st = seq![x];
    let o1 = entered::<S, K>(folds, sinks, x, sig);
    crate::lemmas::lemma_run_entered(g, folds, sinks, x, sig, rs);
    let res = run(g, folds, sinks, x, sig, rs);
    assert(res == crate::semantics::process(g, x, 0, sig, st, o1, rs));
    assert(guarded(g, m as int, -1, -1, st)) by {
        assert forall|i: int, j: int|
            0 <= i < g.len() && 0 <= j < g[i].len() && #[trigger] crate::lemmas::touches(g[i][j], m as int, -1, -1)
            implies st.contains(i as usize) by {
            assert(targets(g[i][j], m));
            assert(st[0] == x);
        }
    }
    lemma_entered_emissions::<S, K>(folds, sinks, x, sig, m);
    crate::lemmas::lemma_process_split(g, x, 0, j0, sig, st, o1, rs);
    let pre = run_subs(g, x, 0, j0, sig, st, o1, rs);
    assert forall|j2: int| 0 <= j2 < j0 implies !crate::lemmas::touches(#[trigger] g[x as int][j2], m as int, -1, -1) by {
        if crate::lemmas::touches(g[x as int][j2], m as int, -1, -1) {
            assert(targets(g[x as int][j2], m));
        }
    }
    crate::lemmas::lemma_run_subs_quiet(g, x, 0, j0, sig, st, o1, rs, m as int, -1, -1);
    if !pre.ok {
        crate::semantics::lemma_process_grows(g, x, j0, sig, st, pre, rs);
    } else {
        let mid1 = step(g, x, j0, sig, st, pre, rs);
        assert(mid1 == deliver(g, m, sig, st, pre, rs));
        lemma_enter_fed(g, x, m, sig, pre, rs);
        crate::semantics::lemma_deliver_grows(g, m, sig, st, pre, rs);
        assert(res == crate::semantics::process(g, x, j0 + 1, sig, st, mid1, rs));
        if !mid1.ok {
            crate::semantics::lemma_process_grows(g, x, j0 + 1, sig, st, mid1, rs);
        } else {
            let mid2 = step(g, x, j0 + 1, sig, st, mid1, rs);
            assert(mid2 == deliver(g, m, sig, st, mid1, rs));
            lemma_enter_fed(g, x, m, sig, mid1, rs);
            crate::semantics::lemma_deliver_grows(g, m, sig, st, mid1, rs);
            assert(res == crate::semantics::process(g, x, j0 + 2, sig, st, mid2, rs));
            if mid2.ok {
                assert forall|j2: int| j0 + 2 <= j2 < g[x as int].len() implies !crate::lemmas::touches(
                    #[trigger] g[x as int][j2],
                    m as int,
                    -1,
                    -1,
                ) by {
                    if crate::lemmas::touches(g[x as int][j2], m as int, -1, -1) {
                        assert(targets(g[x as int][j2], m));
                    }
                }
                crate::lemmas::lemma_process_quiet(g, x, j0 + 2, sig, st, mid2, rs, m as int, -1, -1);
            } else {
                crate::semantics::lemma_process_grows(g, x, j0 + 2, sig, st, mid2, rs);
            }
            assert(seq![sig].push(sig) =~= seq![sig, sig]);
            assert(Seq::<Signal<S>>::empty().push(sig) =~= seq![sig]);
        }
    }
}

/// A send emits its signal on the stream it was sent on exactly once.
pub proof fn law_source_emits_once<S, K>(
    g: Seq<Seq<Sub<K>>>,
    folds: Seq<Signal<S>>,
    sinks: Seq<Seq<Signal<S>>>,
    x: usize,
    sig: Signal<S>,
    rs: Seq<Option<Signal<S>>>,
)
    requires
        x < g.len(),
    ensures
        emissions(run(g, folds, sinks, x, sig, rs).trace, x) == seq![sig],
{
    let st = seq![x];
    let o1 = entered::<S, K>(folds, sinks, x, sig);
    crate::lemmas::lemma_run_entered(g, folds, sinks, x, sig, rs);
    assert(run(g, folds, sinks, x, sig, rs) == crate::semantics::process(g, x, 0, sig, st, o1, rs));
    assert(st[0] == x);
    crate::lemmas::lemma_process_pinned(g, x, 0, sig, st, o1, rs, x);
    lemma_entered_emissions::<S, K>(folds, sinks, x, sig, x);
}

/// A merged stream emits exactly the signal of a send on one of its sources that
/// never reaches the other source.
pub proof fn law_merge_one_side<S, K>(
    g: Seq<Seq<Sub<K>>>,
    folds: Seq<Signal<S>>,
    sinks: Seq<Seq<Signal<S>>>,
    x: usize,
    jx: int,
    y: usize,
    jy: int,
    m: usize,
    sig: Signal<S>,
    rs: Seq<Option<Signal<S>>>,
)
    requires
        wired(g, folds.len(), sinks.len()),
        funnel(g, x, jx, y, jy, m),
        g[x as int][jx] == Sub::<K>::Forward(m),
        g[y as int][jy] == Sub::<K>::Forward(m),
    ensures
        ({
            let res = run(g, folds, sinks, x, sig, rs);
            res.ok && emissions(res.trace, y) == Seq::<Signal<S>>::empty() ==> emissions(res.trace, m) == seq![sig]
        }),
{
    let res = run(g, folds, sinks, x, sig, rs);
    law_merge_combines(g, folds, sinks, x, jx, y, jy, m, x, sig, rs);
    law_source_emits_once(g, folds, sinks, x, sig, rs);
    if res.ok && emissions(res.trace, y) == Seq::<Signal<S>>::empty() {
        lemma_single_from_multiset(emissions(res.trace, m), sig);
    }
}

/// A zipped stream emits exactly the left-tagged signal of a send on its first
/// source that never reaches the second, and the right-tagged signal of a send on
/// its second source that never reaches the first.
pub proof fn law_zip_one_side<S, K>(
    g: Seq<Seq<Sub<K>>>,
    folds: Seq<Signal<S>>,
    sinks: Seq<Seq<Signal<S>>>,
    x: usize,
    jx: int,
    y: usize,
    jy: int,
    z: usize,
    sig: Signal<S>,
    rs: Seq<Option<Signal<S>>>,
)
    requires
        wired(g, folds.len(), sinks.len()),
        funnel(g, x, jx, y, jy, z),
        g[x as int][jx] == Sub::<K>::ZipLeft(z),
        g[y as int][jy] == Sub::<K>::ZipRight(z),
    ensures
        ({
            let res = run(g, folds, sinks, x, sig, rs);
            res.ok && emissions(res.trace, y) == Seq::<Signal<S>>::empty() ==> emissions(res.trace, z) == seq![
                tag_left(sig),
            ]
        }),
        ({
            let res = run(g, folds, sinks, y, sig, rs);
            res.ok && emissions(res.trace, x) == Seq::<Signal<S>>::empty() ==> emissions(res.trace, z) == seq![
                tag_right(sig),
            ]
        }),
{
    let res = run(g, folds, sinks, x, sig, rs);
    law_zip_tags(g, folds, sinks, x, jx, y, jy, z, x, sig, rs);
    law_source_emits_once(g, folds, sinks, x, sig, rs);
    if res.ok && emissions(res.trace, y) == Seq::<Signal<S>>::empty() {
        assert(seq![sig].map_values(|v: Signal<S>| tag_left(v)) =~= seq![tag_left(sig)]);
        assert(Seq::<Signal<S>>::empty().map_values(|v: Signal<S>| tag_right(v)) =~= Seq::<Signal<S>>::empty());
        lemma_single_from_multiset(emissions(res.trace, z), tag_left(sig));
    }
    let res2 = run(g, folds, sinks, y, sig, rs);
    law_zip_tags(g, folds, sinks, x, jx, y, jy, z, y, sig, rs);
    law_source_emits_once(g, folds, sinks, y, sig, rs);
    if res2.ok && emissions(res2.trace, x) == Seq::<Signal<S>>::empty() {
        assert(seq![sig].map_values(|v: Signal<S>| tag_right(v)) =~= seq![tag_right(sig)]);
        assert(Seq::<Signal<S>>::empty().map_values(|v: Signal<S>| tag_left(v)) =~= Seq::<Signal<S>>::empty());
        lemma_single_from_multiset(emissions(res2.trace, z), tag_right(sig));
    }
}

/// A sequence with the items of `seq![v]` and of the empty sequence, counted with
/// multiplicity, is `seq![v]`.
proof fn lemma_single_from_multiset<A>(s: Seq<A>, v: A)
    requires
        s.to_multiset() =~= seq![v].to_multiset().add(Seq::<A>::empty().to_multiset()),
    ensures
        s == seq![v],
{
    broadcast use vstd::multiset::group_multiset_axioms;
    broadcast use vstd::seq_lib::group_to_multiset_ensures;
    assert(Seq::<A>::empty().to_multiset() =~= Multiset::empty());
    assert(seq![v].to_multiset() =~= Multiset::singleton(v));
    assert(s.to_multiset().len() == 1);
    assert(s.len() == 1);
    assert(s.to_multiset().count(s[0]) > 0) by {
        assert(s.contains(s[0]));
    }
    assert(s[0] == v);
    assert(s =~= seq![v]);
}

/// A send on a stream calls the user function of one of its subscriptions exactly
/// once, with the signal (and, for a fold, the accumulator before the send), when no
/// other subscription calls that function.
pub proof fn law_called_once<S, K>(
    g: Seq<Seq<Sub<K>>>,
    folds: Seq<Signal<S>>,
    sinks: Seq<Seq<Signal<S>>>,
    x: usize,
    j0: int,
    k: K,
    sig: Signal<S>,
    rs: Seq<Option<Signal<S>>>,
)
    requires
        wired(g, folds.len(), sinks.len()),
        x < g.len(),
        0 <= j0 < g[x as int].len(),
        uses(g[x as int][j0], k),
        sole_key(g, x, j0, k),
        g[x as int][j0] matches Sub::Fold(_, f, _) ==> sole_fold(g, x, j0, f),
    ensures
        ({
            let res = run(g, folds, sinks, x, sig, rs);
            res.ok ==> keyed(res.calls, k) == seq![call_for(g[x as int][j0], sig, folds)]
        }),
{
    let res = run(g, folds, sinks, x, sig, rs);
    let st = seq![x];
    let o1 = entered::<S, K>(folds, sinks, x, sig);
    crate::lemmas::lemma_run_entered(g, folds, sinks, x, sig, rs);
    assert(key_guarded(g, k, st)) by {
        assert forall|i: int, j: int| 0 <= i < g.len() && 0 <= j < g[i].len() && #[trigger] uses(g[i][j], k)
            implies st.contains(i as usize) by {
            assert(st[0] == x);
        }
    }
    let fslot: int = match g[x as int][j0] {
        Sub::Fold(_, f, _) => f as int,
        _ => -1,
    };
    if fslot >= 0 {
        assert(g[x as int][j0] matches Sub::Fold(_, f, _) && f == fslot as usize);
    }
    lemma_only_at(g, x, j0, -1, fslot, -1);
    assert(guarded(g, -1, fslot, -1, st)) by {
        assert forall|i: int, j: int|
            0 <= i < g.len() && 0 <= j < g[i].len() && #[trigger] crate::lemmas::touches(g[i][j], -1, fslot, -1)
            implies st.contains(i as usize) by {
            assert(st[0] == x);
        }
    }
    crate::lemmas::lemma_process_split(g, x, 0, j0, sig, st, o1, rs);
    let pre = run_subs(g, x, 0, j0, sig, st, o1, rs);
    assert forall|j2: int| 0 <= j2 < j0 implies !#[trigger] uses(g[x as int][j2], k) by {}
    crate::lemmas::lemma_run_subs_keyed(g, x, 0, j0, sig, st, o1, rs, k);
    assert forall|j2: int| 0 <= j2 < j0 implies !crate::lemmas::touches(#[trigger] g[x as int][j2], -1, fslot, -1) by {}
    crate::lemmas::lemma_run_subs_quiet(g, x, 0, j0, sig, st, o1, rs, -1, fslot, -1);
    assert(keyed(o1.calls, k) == Seq::<Call<S, K>>::empty());
    if !pre.ok {
        crate::semantics::lemma_process_grows(g, x, j0, sig, st, pre, rs);
    } else {
        let mid = step(g, x, j0, sig, st, pre, rs);
        assert(res == crate::semantics::process(g, x, j0 + 1, sig, st, mid, rs));
        crate::lemmas::lemma_step_calls_key(g, x, j0, sig, st, pre, rs, k);
        assert forall|j2: int| j0 + 1 <= j2 < g[x as int].len() implies !#[trigger] uses(g[x as int][j2], k) by {}
        crate::lemmas::lemma_process_keyed(g, x, j0 + 1, sig, st, mid, rs, k);
        assert(call_for::<S, K>(g[x as int][j0], sig, pre.folds) == call_for::<S, K>(g[x as int][j0], sig, folds));
        assert(Seq::<Call<S, K>>::empty().push(call_for::<S, K>(g[x as int][j0], sig, folds)) =~= seq![
            call_for::<S, K>(g[x as int][j0], sig, folds),
        ]);
    }
}

/// The send of `sigs[i]` in a sequence of sends on `x` is a send from the state that
/// the sends before it left, whose numbers of slots are those of the start.
proof fn lemma_runs_at<S, K>(
    g: Seq<Seq<Sub<K>>>,
    folds: Seq<Signal<S>>,
    sinks: Seq<Seq<Signal<S>>>,
    x: usize,
    sigs: Seq<Signal<S>>,
    rss: Seq<Seq<Option<Signal<S>>>>,
    i: int,
) -> (state: (Seq<Signal<S>>, Seq<Seq<Signal<S>>>))
    requires
        wired(g, folds.len(), sinks.len()),
        sigs.len() == rss.len(),
        0 <= i < sigs.len(),
    ensures
        state.0.len() == folds.len(),
        state.1.len() == sinks.len(),
        runs(g, folds, sinks, x, sigs, rss).len() == sigs.len(),
        runs(g, folds, sinks, x, sigs, rss)[i] == run(g, state.0, state.1, x, sigs[i], rss[i]),
    decreases i,
{
    let first = run(g, folds, sinks, x, sigs[0], rss[0]);
    let rest = runs(g, first.folds, first.sinks, x, sigs.drop_first(), rss.drop_first());
    crate::semantics::lemma_deliver_grows(
        g,
        x,
        sigs[0],
        Seq::empty(),
        Outcome { ok: true, folds, sinks, trace: Seq::empty(), calls: Seq::empty() },
        rss[0],
    );
    lemma_runs_len(g, folds, sinks, x, sigs, rss);
    if i == 0 {
        (folds, sinks)
    } else {
        let state = lemma_runs_at(g, first.folds, first.sinks, x, sigs.drop_first(), rss.drop_first(), i - 1);
        assert(runs(g, folds, sinks, x, sigs, rss)[i] == rest[i - 1]);
        assert(sigs.drop_first()[i - 1] == sigs[i]);
        assert(rss.drop_first()[i - 1] == rss[i]);
        state
    }
}

/// The calls naming user function `k` over the outcomes `outs`, in order.
pub open spec fn called<S, K>(outs: Seq<Outcome<S, K>>, k: K) -> Seq<Call<S, K>>
    decreases outs.len(),
{
    if outs.len() == 0 {
        Seq::empty()
    } else {
        keyed(outs[0].calls, k) + called(outs.drop_first(), k)
    }
}

/// When every outcome calls `k` exactly once, with `cs[i]`, the calls naming `k`
/// are `cs`.
proof fn lemma_called_singletons<S, K>(outs: Seq<Outcome<S, K>>, k: K, cs: Seq<Call<S, K>>)
    requires
        outs.len() == cs.len(),
        forall|i: int| 0 <= i < outs.len() ==> keyed(#[trigger] outs[i].calls, k) == seq![cs[i]],
    ensures
        called(outs, k) == cs,
    decreases outs.len(),
{
    if outs.len() > 0 {
        assert forall|i: int| 0 <= i < outs.drop_first().len() implies keyed(
            #[trigger] outs.drop_first()[i].calls,
            k,
        ) == seq![cs.drop_first()[i]] by {
            assert(outs.drop_first()[i] == outs[i + 1]);
            assert(keyed(outs[i + 1].calls, k) == seq![cs[i + 1]]);
        }
        lemma_called_singletons(outs.drop_first(), k, cs.drop_first());
        assert(keyed(outs[0].calls, k) == seq![cs[0]]);
        assert(cs =~= seq![cs[0]] + cs.drop_first());
    } else {
        assert(cs =~= Seq::<Call<S, K>>::empty());
    }
}

/// Over any sequence of sends on a stream, the user function of one of its
/// subscriptions (an observer, a map, a filter or a filter-map) is called exactly
/// once per signal, with that signal, in order, when no other subscription calls it.
pub proof fn law_called_once_over_sends<S, K>(
    g: Seq<Seq<Sub<K>>>,
    folds: Seq<Signal<S>>,
    sinks: Seq<Seq<Signal<S>>>,
    x: usize,
    j0: int,
    k: K,
    sigs: Seq<Signal<S>>,
    rss: Seq<Seq<Option<Signal<S>>>>,
)
    requires
        wired(g, folds.len(), sinks.len()),
        x < g.len(),
        0 <= j0 < g[x as int].len(),
        uses(g[x as int][j0], k),
        !(g[x as int][j0] is Fold),
        sole_key(g, x, j0, k),
        sigs.len() == rss.len(),
    ensures
        ({
            let outs = runs(g, folds, sinks, x, sigs, rss);
            all_ok(outs) ==> called(outs, k) == sigs.map_values(
                |v: Signal<S>| call_for::<S, K>(g[x as int][j0], v, folds),
            )
        }),
{
    let outs = runs(g, folds, sinks, x, sigs, rss);
    let each = |v: Signal<S>| call_for::<S, K>(g[x as int][j0], v, folds);
    lemma_runs_len(g, folds, sinks, x, sigs, rss);
    if all_ok(outs) {
        assert forall|i: int| 0 <= i < outs.len() implies keyed(#[trigger] outs[i].calls, k) == seq![
            sigs.map_values(each)[i],
        ] by {
            let state = lemma_runs_at(g, folds, sinks, x, sigs, rss, i);
            law_called_once(g, state.0, state.1, x, j0, k, sigs[i], rss[i]);
            assert(outs[i].ok);
        }
        lemma_called_singletons(outs, k, sigs.map_values(each));
    }
}

/// The calls a fold makes, starting from accumulator `a`, when `f` combines the
/// accumulator with each of `sigs` in turn.
pub open spec fn fold_calls<S, K>(
    k: K,
    a: Signal<S>,
    sigs: Seq<Signal<S>>,
    f: spec_fn(Signal<S>, Signal<S>) -> Signal<S>,
) -> Seq<Call<S, K>>
    decreases sigs.len(),
{
    if sigs.len() == 0 {
        Seq::empty()
    } else {
        seq![Call::Fold(k, a, sigs[0])] + fold_calls(k, f(a, sigs[0]), sigs.drop_first(), f)
    }
}

/// Over any sequence of sends on its source, the user function of a fold is called
/// exactly once per signal, in order, with the accumulator before that signal, when
/// no other subscription calls it and the handler answers with `f`.
pub proof fn law_fold_called_over_sends<S, K, H: Respond<S, K>>(
    g: Seq<Seq<Sub<K>>>,
    folds: Seq<Signal<S>>,
    sinks: Seq<Seq<Signal<S>>>,
    x: usize,
    j0: int,
    k: K,
    slot: usize,
    m: usize,
    h: H,
    f: spec_fn(Signal<S>, Signal<S>) -> Signal<S>,
    sigs: Seq<Signal<S>>,
    rss: Seq<Seq<Option<Signal<S>>>>,
)
    requires
        wired(g, folds.len(), sinks.len()),
        x < g.len(),
        m < g.len(),
        x != m,
        slot < folds.len(),
        0 <= j0 < g[x as int].len(),
        g[x as int][j0] == Sub::Fold(k, slot, m),
        sole_source(g, x, j0, m),
        sole_fold(g, x, j0, slot),
        sole_key(g, x, j0, k),
        sigs.len() == rss.len(),
        forall|a: Signal<S>, v: Signal<S>, r: Option<Signal<S>>|
            #[trigger] h.answers(Call::Fold(k, a, v), r) ==> r == Some(f(a, v)),
    ensures
        ({
            let outs = runs(g, folds, sinks, x, sigs, rss);
            all_ok(outs) && all_answered(h, outs, rss) ==> called(outs, k) == fold_calls(
                k,
                folds[slot as int],
                sigs,
                f,
            )
        }),
    decreases sigs.len(),
{
    let outs = runs(g, folds, sinks, x, sigs, rss);
    if sigs.len() == 0 {
    } else if all_ok(outs) && all_answered(h, outs, rss) {
        let first = run(g, folds, sinks, x, sigs[0], rss[0]);
        let rest = runs(g, first.folds, first.sinks, x, sigs.drop_first(), rss.drop_first());
        lemma_runs_first(g, folds, sinks, x, sigs, rss, m, h);
        lemma_runs_len(g, first.folds, first.sinks, x, sigs.drop_first(), rss.drop_first());
        assert(outs.drop_first() =~= rest);
        law_called_once(g, folds, sinks, x, j0, k, sigs[0], rss[0]);
        law_fold_accumulates(g, folds, sinks, x, j0, k, slot, m, sigs[0], rss[0]);
        let i = choose|i: int|
            0 <= i < first.calls.len() && #[trigger] first.calls[i] == Call::Fold(k, folds[slot as int], sigs[0])
                && match reply_at(rss[0], i) {
                Some(v) => emissions(first.trace, m) == seq![v] && first.folds[slot as int] == v,
                None => emissions(first.trace, m) == Seq::<Signal<S>>::empty()
                    && first.folds[slot as int] == folds[slot as int],
            };
        assert(h.answers(first.calls[i], rss[0][i]));
        law_fold_called_over_sends(g, first.folds, first.sinks, x, j0, k, slot, m, h, f, sigs.drop_first(), rss.drop_first());
    }
}

/// The outcomes of sending `sigs[i]` on stream `srcs[i]`, one after another,
/// starting from the fold accumulators `folds` and the sink buffers `sinks`; the
/// send of `sigs[i]` reads the answers `rss[i]`.
pub open spec fn runs_on<S, K>(
    g: Seq<Seq<Sub<K>>>,
    folds: Seq<Signal<S>>,
    sinks: Seq<Seq<Signal<S>>>,
    srcs: Seq<usize>,
    sigs: Seq<Signal<S>>,
    rss: Seq<Seq<Option<Signal<S>>>>,
) -> Seq<Outcome<S, K>>
    decreases sigs.len(),
{
    if sigs.len() == 0 {
        Seq::empty()
    } else {
        let first = run(g, folds, sinks, srcs[0], sigs[0], rss[0]);
        seq![first] + runs_on(g, first.folds, first.sinks, srcs.drop_first(), sigs.drop_first(), rss.drop_first())
    }
}

/// The send of `sigs[i]` in a sequence of sends is a send on `srcs[i]` from the state
/// that the sends before it left, whose numbers of slots are those of the start.
proof fn lemma_runs_on_at<S, K>(
    g: Seq<Seq<Sub<K>>>,
    folds: Seq<Signal<S>>,
    sinks: Seq<Seq<Signal<S>>>,
    srcs: Seq<usize>,
    sigs: Seq<Signal<S>>,
    rss: Seq<Seq<Option<Signal<S>>>>,
    i: int,
) -> (state: (Seq<Signal<S>>, Seq<Seq<Signal<S>>>))
    requires
        wired(g, folds.len(), sinks.len()),
        sigs.len() == rss.len(),
        sigs.len() == srcs.len(),
        0 <= i < sigs.len(),
    ensures
        state.0.len() == folds.len(),
        state.1.len() == sinks.len(),
        runs_on(g, folds, sinks, srcs, sigs, rss).len() == sigs.len(),
        runs_on(g, folds, sinks, srcs, sigs, rss)[i] == run(g, state.0, state.1, srcs[i], sigs[i], rss[i]),
    decreases i,
{
    let first = run(g, folds, sinks, srcs[0], sigs[0], rss[0]);
    let rest = runs_on(g, first.folds, first.sinks, srcs.drop_first(), sigs.drop_first(), rss.drop_first());
    crate::semantics::lemma_deliver_grows(
        g,
        srcs[0],
        sigs[0],
        Seq::empty(),
        Outcome { ok: true, folds, sinks, trace: Seq::empty(), calls: Seq::empty() },
        rss[0],
    );
    lemma_runs_on_len(g, folds, sinks, srcs, sigs, rss);
    if i == 0 {
        (folds, sinks)
    } else {
        let state = lemma_runs_on_at(
            g,
            first.folds,
            first.sinks,
            srcs.drop_first(),
            sigs.drop_first(),
            rss.drop_first(),
            i - 1,
        );
        assert(runs_on(g, folds, sinks, srcs, sigs, rss)[i] == rest[i - 1]);
        assert(srcs.drop_first()[i - 1] == srcs[i]);
        assert(sigs.drop_first()[i - 1] == sigs[i]);
        assert(rss.drop_first()[i - 1] == rss[i]);
        state
    }
}

proof fn lemma_runs_on_len<S, K>(
    g: Seq<Seq<Sub<K>>>,
    folds: Seq<Signal<S>>,
    sinks: Seq<Seq<Signal<S>>>,
    srcs: Seq<usize>,
    sigs: Seq<Signal<S>>,
    rss: Seq<Seq<Option<Signal<S>>>>,
)
    ensures
        runs_on(g, folds, sinks, srcs, sigs, rss).len() == sigs.len(),
    decreases sigs.len(),
{
    if sigs.len() > 0 {
        let first = run(g, folds, sinks, srcs[0], sigs[0], rss[0]);
        lemma_runs_on_len(g, first.folds, first.sinks, srcs.drop_first(), sigs.drop_first(), rss.drop_first());
    }
}

/// Streams that emit the same in every outcome emit the same over all of them.
proof fn lemma_emitted_pointwise<S, K>(outs: Seq<Outcome<S, K>>, a: usize, b: usize)
    requires
        forall|i: int| 0 <= i < outs.len() ==> emissions(#[trigger] outs[i].trace, a) == emissions(outs[i].trace, b),
    ensures
        emitted(outs, a) == emitted(outs, b),
    decreases outs.len(),
{
    if outs.len() > 0 {
        assert forall|i: int| 0 <= i < outs.drop_first().len() implies emissions(
            #[trigger] outs.drop_first()[i].trace,
            a,
        ) == emissions(outs.drop_first()[i].trace, b) by {
            assert(outs.drop_first()[i] == outs[i + 1]);
        }
        lemma_emitted_pointwise(outs.drop_first(), a, b);
        assert(emissions(outs[0].trace, a) == emissions(outs[0].trace, b));
    }
}

/// Streams that emit the same signals, counted with multiplicity, in every outcome
/// do so over all of them.
proof fn lemma_emitted_multiset<S, K>(outs: Seq<Outcome<S, K>>, a: usize, b: usize)
    requires
        forall|i: int|
            0 <= i < outs.len() ==> emissions(#[trigger] outs[i].trace, a).to_multiset() =~= emissions(
                outs[i].trace,
                b,
            ).to_multiset(),
    ensures
        emitted(outs, a).to_multiset() =~= emitted(outs, b).to_multiset(),
    decreases outs.len(),
{
    if outs.len() > 0 {
        assert forall|i: int| 0 <= i < outs.drop_first().len() implies emissions(
            #[trigger] outs.drop_first()[i].trace,
            a,
        ).to_multiset() =~= emissions(outs.drop_first()[i].trace, b).to_multiset() by {
            assert(outs.drop_first()[i] == outs[i + 1]);
        }
        lemma_emitted_multiset(outs.drop_first(), a, b);
        assert(emissions(outs[0].trace, a).to_multiset() =~= emissions(outs[0].trace, b).to_multiset());
        vstd::seq_lib::lemma_multiset_commutative(emissions(outs[0].trace, a), emitted(outs.drop_first(), a));
        vstd::seq_lib::lemma_multiset_commutative(emissions(outs[0].trace, b), emitted(outs.drop_first(), b));
    }
}

/// A stream that emits `sigs[i]` once in outcome `i` emits `sigs` over all of them.
proof fn lemma_emitted_singletons<S, K>(outs: Seq<Outcome<S, K>>, m: usize, sigs: Seq<Signal<S>>)
    requires
        outs.len() == sigs.len(),
        forall|i: int| 0 <= i < outs.len() ==> emissions(#[trigger] outs[i].trace, m) == seq![sigs[i]],
    ensures
        emitted(outs, m) == sigs,
    decreases outs.len(),
{
    if outs.len() > 0 {
        assert forall|i: int| 0 <= i < outs.drop_first().len() implies emissions(
            #[trigger] outs.drop_first()[i].trace,
            m,
        ) == seq![sigs.drop_first()[i]] by {
            assert(outs.drop_first()[i] == outs[i + 1]);
        }
        lemma_emitted_singletons(outs.drop_first(), m, sigs.drop_first());
        assert(emissions(outs[0].trace, m) == seq![sigs[0]]);
        assert(sigs =~= seq![sigs[0]] + sigs.drop_first());
    } else {
        assert(sigs =~= Seq::<Signal<S>>::empty());
    }
}

/// Sequences with the same items, counted with multiplicity, are equal when one has
/// at most one item.
proof fn lemma_small_multiset<A>(s: Seq<A>, t: Seq<A>)
    requires
        s.to_multiset() =~= t.to_multiset(),
        t.len() <= 1,
    ensures
        s == t,
{
    broadcast use vstd::multiset::group_multiset_axioms;
    broadcast use vstd::seq_lib::group_to_multiset_ensures;
    vstd::seq_lib::to_multiset_len(s);
    vstd::seq_lib::to_multiset_len(t);
    assert(s.len() == t.len());
    if t.len() == 1 {
        assert(s.to_multiset().count(s[0]) > 0) by {
            assert(s.contains(s[0]));
        }
        assert(t.contains(s[0]));
        assert(s =~= t);
    } else {
        assert(s =~= t);
    }
}

/// A merged stream emits, counted with multiplicity, what its two sources emit, and
/// exactly their signals when at most one signal reached the sources.
pub proof fn law_merge_passes<S, K>(
    g: Seq<Seq<Sub<K>>>,
    folds: Seq<Signal<S>>,
    sinks: Seq<Seq<Signal<S>>>,
    x: usize,
    jx: int,
    y: usize,
    jy: int,
    m: usize,
    n: usize,
    sig: Signal<S>,
    rs: Seq<Option<Signal<S>>>,
)
    requires
        wired(g, folds.len(), sinks.len()),
        funnel(g, x, jx, y, jy, m),
        g[x as int][jx] == Sub::<K>::Forward(m),
        g[y as int][jy] == Sub::<K>::Forward(m),
        n != m,
    ensures
        ({
            let res = run(g, folds, sinks, n, sig, rs);
            let both = emissions(res.trace, x) + emissions(res.trace, y);
            &&& res.ok ==> emissions(res.trace, m).to_multiset() =~= both.to_multiset()
            &&& res.ok && both.len() <= 1 ==> emissions(res.trace, m) == both
        }),
{
    let res = run(g, folds, sinks, n, sig, rs);
    let both = emissions(res.trace, x) + emissions(res.trace, y);
    law_merge_combines(g, folds, sinks, x, jx, y, jy, m, n, sig, rs);
    vstd::seq_lib::lemma_multiset_commutative(emissions(res.trace, x), emissions(res.trace, y));
    if res.ok && both.len() <= 1 {
        lemma_small_multiset(emissions(res.trace, m), both);
    }
}

/// Over any sequence of sends on the two sources of a merge, each of which never
/// reaches the other source, the merged stream emits exactly the signals sent, in
/// the order of the sends.
pub proof fn law_merge_over_sends<S, K>(
    g: Seq<Seq<Sub<K>>>,
    folds: Seq<Signal<S>>,
    sinks: Seq<Seq<Signal<S>>>,
    x: usize,
    jx: int,
    y: usize,
    jy: int,
    m: usize,
    srcs: Seq<usize>,
    sigs: Seq<Signal<S>>,
    rss: Seq<Seq<Option<Signal<S>>>>,
)
    requires
        wired(g, folds.len(), sinks.len()),
        funnel(g, x, jx, y, jy, m),
        g[x as int][jx] == Sub::<K>::Forward(m),
        g[y as int][jy] == Sub::<K>::Forward(m),
        srcs.len() == sigs.len(),
        sigs.len() == rss.len(),
        forall|i: int| 0 <= i < srcs.len() ==> #[trigger] srcs[i] == x || srcs[i] == y,
    ensures
        ({
            let outs = runs_on(g, folds, sinks, srcs, sigs, rss);
            all_ok(outs) && (forall|i: int|
                0 <= i < outs.len() ==> emissions(#[trigger] outs[i].trace, if srcs[i] == x {
                    y
                } else {
                    x
                }) == Seq::<Signal<S>>::empty()) ==> emitted(outs, m) == sigs
        }),
{
    let outs = runs_on(g, folds, sinks, srcs, sigs, rss);
    lemma_runs_on_len(g, folds, sinks, srcs, sigs, rss);
    if all_ok(outs) && (forall|i: int|
        0 <= i < outs.len() ==> emissions(#[trigger] outs[i].trace, if srcs[i] == x {
            y
        } else {
            x
        }) == Seq::<Signal<S>>::empty()) {
        assert forall|i: int| 0 <= i < outs.len() implies emissions(#[trigger] outs[i].trace, m) == seq![sigs[i]] by {
            let state = lemma_runs_on_at(g, folds, sinks, srcs, sigs, rss, i);
            assert(srcs[i] == x || srcs[i] == y);
            law_merge_passes(g, state.0, state.1, x, jx, y, jy, m, srcs[i], sigs[i], rss[i]);
            law_source_emits_once(g, state.0, state.1, srcs[i], sigs[i], rss[i]);
            assert(outs[i].ok);
            if srcs[i] == x {
                assert(emissions(outs[i].trace, y) == Seq::<Signal<S>>::empty());
                assert(seq![sigs[i]] + Seq::<Signal<S>>::empty() =~= seq![sigs[i]]);
            } else {
                assert(emissions(outs[i].trace, x) == Seq::<Signal<S>>::empty());
                assert(Seq::<Signal<S>>::empty() + seq![sigs[i]] =~= seq![sigs[i]]);
            }
        }
        lemma_emitted_singletons(outs, m, sigs);
    }
}

/// Merging is commutative over any sequence of sends that begin outside the merged
/// streams: `x` merged with `y` and `y` merged with `x` emit the same signals,
/// counted with multiplicity, and the same sequence when no send brings more than
/// one signal to `x` and `y` together.
pub proof fn law_merge_commutes<S, K>(
    g: Seq<Seq<Sub<K>>>,
    folds: Seq<Signal<S>>,
    sinks: Seq<Seq<Signal<S>>>,
    x: usize,
    jx: int,
    y: usize,
    jy: int,
    m1: usize,
    jy2: int,
    jx2: int,
    m2: usize,
    srcs: Seq<usize>,
    sigs: Seq<Signal<S>>,
    rss: Seq<Seq<Option<Signal<S>>>>,
)
    requires
        wired(g, folds.len(), sinks.len()),
        funnel(g, x, jx, y, jy, m1),
        funnel(g, y, jy2, x, jx2, m2),
        g[x as int][jx] == Sub::<K>::Forward(m1),
        g[y as int][jy] == Sub::<K>::Forward(m1),
        g[y as int][jy2] == Sub::<K>::Forward(m2),
        g[x as int][jx2] == Sub::<K>::Forward(m2),
        srcs.len() == sigs.len(),
        sigs.len() == rss.len(),
        forall|i: int| 0 <= i < srcs.len() ==> #[trigger] srcs[i] != m1 && srcs[i] != m2,
    ensures
        ({
            let outs = runs_on(g, folds, sinks, srcs, sigs, rss);
            &&& all_ok(outs) ==> emitted(outs, m1).to_multiset() =~= emitted(outs, m2).to_multiset()
            &&& all_ok(outs) && (forall|i: int|
                0 <= i < outs.len() ==> (emissions(#[trigger] outs[i].trace, x) + emissions(outs[i].trace, y)).len()
                    <= 1) ==> emitted(outs, m1) == emitted(outs, m2)
        }),
{
    let outs = runs_on(g, folds, sinks, srcs, sigs, rss);
    lemma_runs_on_len(g, folds, sinks, srcs, sigs, rss);
    if all_ok(outs) {
        assert forall|i: int| 0 <= i < outs.len() implies emissions(#[trigger] outs[i].trace, m1).to_multiset()
            =~= emissions(outs[i].trace, m2).to_multiset() && ((emissions(outs[i].trace, x) + emissions(
            outs[i].trace,
            y,
        )).len() <= 1 ==> emissions(outs[i].trace, m1) == emissions(outs[i].trace, m2)) by {
            let state = lemma_runs_on_at(g, folds, sinks, srcs, sigs, rss, i);
            assert(srcs[i] != m1 && srcs[i] != m2);
            assert(outs[i].ok);
            law_merge_passes(g, state.0, state.1, x, jx, y, jy, m1, srcs[i], sigs[i], rss[i]);
            law_merge_passes(g, state.0, state.1, y, jy2, x, jx2, m2, srcs[i], sigs[i], rss[i]);
            let ex = emissions(outs[i].trace, x);
            let ey = emissions(outs[i].trace, y);
            vstd::seq_lib::lemma_seq_union_to_multiset_commutative(ex, ey);
            if (ex + ey).len() <= 1 {
                lemma_small_multiset(emissions(outs[i].trace, m2), ex + ey);
            }
        }
        lemma_emitted_multiset(outs, m1, m2);
        if forall|i: int|
            0 <= i < outs.len() ==> (emissions(#[trigger] outs[i].trace, x) + emissions(outs[i].trace, y)).len() <= 1 {
            assert forall|i: int| 0 <= i < outs.len() implies emissions(#[trigger] outs[i].trace, m1) == emissions(
                outs[i].trace,
                m2,
            ) by {
                assert((emissions(outs[i].trace, x) + emissions(outs[i].trace, y)).len() <= 1);
            }
            lemma_emitted_pointwise(outs, m1, m2);
        }
    }
}

/// Merging is associative over any sequence of sends that begin outside the merged
/// streams: `x` merged with `y`, then with `z`, and `x` merged with `y` merged with
/// `z`, emit the same signals, counted with multiplicity, and the same sequence when
/// no send brings more than one signal to `x`, `y` and `z` together.
pub proof fn law_merge_associates<S, K>(
    g: Seq<Seq<Sub<K>>>,
    folds: Seq<Signal<S>>,
    sinks: Seq<Seq<Signal<S>>>,
    x: usize,
    y: usize,
    z: usize,
    m12: usize,
    ma: usize,
    m23: usize,
    mb: usize,
    j: Seq<int>,
    srcs: Seq<usize>,
    sigs: Seq<Signal<S>>,
    rss: Seq<Seq<Option<Signal<S>>>>,
)
    requires
        wired(g, folds.len(), sinks.len()),
        j.len() == 8,
        funnel(g, x, j[0], y, j[1], m12),
        funnel(g, m12, j[2], z, j[3], ma),
        funnel(g, y, j[4], z, j[5], m23),
        funnel(g, x, j[6], m23, j[7], mb),
        g[x as int][j[0]] == Sub::<K>::Forward(m12),
        g[y as int][j[1]] == Sub::<K>::Forward(m12),
        g[m12 as int][j[2]] == Sub::<K>::Forward(ma),
        g[z as int][j[3]] == Sub::<K>::Forward(ma),
        g[y as int][j[4]] == Sub::<K>::Forward(m23),
        g[z as int][j[5]] == Sub::<K>::Forward(m23),
        g[x as int][j[6]] == Sub::<K>::Forward(mb),
        g[m23 as int][j[7]] == Sub::<K>::Forward(mb),
        srcs.len() == sigs.len(),
        sigs.len() == rss.len(),
        forall|i: int|
            0 <= i < srcs.len() ==> #[trigger] srcs[i] != m12 && srcs[i] != ma && srcs[i] != m23 && srcs[i] != mb,
    ensures
        ({
            let outs = runs_on(g, folds, sinks, srcs, sigs, rss);
            &&& all_ok(outs) ==> emitted(outs, ma).to_multiset() =~= emitted(outs, mb).to_multiset()
            &&& all_ok(outs) && (forall|i: int|
                0 <= i < outs.len() ==> (emissions(#[trigger] outs[i].trace, x) + emissions(outs[i].trace, y)
                    + emissions(outs[i].trace, z)).len() <= 1) ==> emitted(outs, ma) == emitted(outs, mb)
        }),
{
    broadcast use vstd::multiset::group_multiset_axioms;
    let outs = runs_on(g, folds, sinks, srcs, sigs, rss);
    lemma_runs_on_len(g, folds, sinks, srcs, sigs, rss);
    if all_ok(outs) {
        assert forall|i: int| 0 <= i < outs.len() implies emissions(#[trigger] outs[i].trace, ma).to_multiset()
            =~= emissions(outs[i].trace, mb).to_multiset() && ((emissions(outs[i].trace, x) + emissions(
            outs[i].trace,
            y,
        ) + emissions(outs[i].trace, z)).len() <= 1 ==> emissions(outs[i].trace, ma) == emissions(
            outs[i].trace,
            mb,
        )) by {
            let state = lemma_runs_on_at(g, folds, sinks, srcs, sigs, rss, i);
            let n = srcs[i];
            assert(n != m12 && n != ma && n != m23 && n != mb);
            assert(outs[i].ok);
            law_merge_passes(g, state.0, state.1, x, j[0], y, j[1], m12, n, sigs[i], rss[i]);
            law_merge_passes(g, state.0, state.1, m12, j[2], z, j[3], ma, n, sigs[i], rss[i]);
            law_merge_passes(g, state.0, state.1, y, j[4], z, j[5], m23, n, sigs[i], rss[i]);
            law_merge_passes(g, state.0, state.1, x, j[6], m23, j[7], mb, n, sigs[i], rss[i]);
            let t = outs[i].trace;
            let ex = emissions(t, x);
            let ey = emissions(t, y);
            let ez = emissions(t, z);
            let all = ex + ey + ez;
            vstd::seq_lib::lemma_multiset_commutative(ex, ey);
            vstd::seq_lib::lemma_multiset_commutative(ex + ey, ez);
            vstd::seq_lib::lemma_multiset_commutative(ey, ez);
            vstd::seq_lib::lemma_multiset_commutative(ex, ey + ez);
            vstd::seq_lib::lemma_multiset_commutative(emissions(t, m12), ez);
            vstd::seq_lib::lemma_multiset_commutative(ex, emissions(t, m23));
            assert(ex + (ey + ez) =~= all);
            assert(emissions(t, ma).to_multiset() =~= all.to_multiset());
            assert(emissions(t, mb).to_multiset() =~= all.to_multiset());
            if all.len() <= 1 {
                lemma_small_multiset(emissions(t, ma), all);
                lemma_small_multiset(emissions(t, mb), all);
            }
        }
        lemma_emitted_multiset(outs, ma, mb);
        if forall|i: int|
            0 <= i < outs.len() ==> (emissions(#[trigger] outs[i].trace, x) + emissions(outs[i].trace, y)
                + emissions(outs[i].trace, z)).len() <= 1 {
            assert forall|i: int| 0 <= i < outs.len() implies emissions(#[trigger] outs[i].trace, ma) == emissions(
                outs[i].trace,
                mb,
            ) by {
                assert((emissions(outs[i].trace, x) + emissions(outs[i].trace, y) + emissions(outs[i].trace, z)).len()
                    <= 1);
            }
            lemma_emitted_pointwise(outs, ma, mb);
        }
    }
}

/// Zipping the two halves of an unzip gives back each zipped signal sent on the
/// unzipped stream, and nothing for a plain one.
pub proof fn law_zip_of_unzip<S, K>(
    g: Seq<Seq<Sub<K>>>,
    folds: Seq<Signal<S>>,
    sinks: Seq<Seq<Signal<S>>>,
    x: usize,
    j0: int,
    a: usize,
    ja: int,
    b: usize,
    jb: int,
    z: usize,
    sig: Signal<S>,
    rs: Seq<Option<Signal<S>>>,
)
    requires
        wired(g, folds.len(), sinks.len()),
        x < g.len(),
        x != a,
        x != b,
        x != z,
        0 <= j0 < g[x as int].len(),
        g[x as int][j0] == Sub::<K>::Unzip(a, b),
        sole_source(g, x, j0, a),
        sole_source(g, x, j0, b),
        funnel(g, a, ja, b, jb, z),
        g[a as int][ja] == Sub::<K>::ZipLeft(z),
        g[b as int][jb] == Sub::<K>::ZipRight(z),
    ensures
        ({
            let res = run(g, folds, sinks, x, sig, rs);
            res.ok ==> emissions(res.trace, z) == (if sig is Zipped {
                seq![sig]
            } else {
                Seq::<Signal<S>>::empty()
            })
        }),
{
    broadcast use vstd::multiset::group_multiset_axioms;
    let res = run(g, folds, sinks, x, sig, rs);
    law_unzip_splits(g, folds, sinks, x, j0, a, b, sig, rs);
    law_zip_tags(g, folds, sinks, a, ja, b, jb, z, x, sig, rs);
    if res.ok {
        let ls = emissions(res.trace, a).map_values(|v: Signal<S>| tag_left(v));
        let rts = emissions(res.trace, b).map_values(|v: Signal<S>| tag_right(v));
        let expect = if sig is Zipped {
            seq![sig]
        } else {
            Seq::<Signal<S>>::empty()
        };
        match sig {
            Signal::Zipped(e) => match *e {
                Either::Left(l) => {
                    assert(ls =~= seq![sig]);
                    assert(rts =~= Seq::<Signal<S>>::empty());
                },
                Either::Right(r) => {
                    assert(ls =~= Seq::<Signal<S>>::empty());
                    assert(rts =~= seq![sig]);
                },
            },
            Signal::Value(_) => {
                assert(ls =~= Seq::<Signal<S>>::empty());
                assert(rts =~= Seq::<Signal<S>>::empty());
            },
        }
        vstd::seq_lib::lemma_multiset_commutative(ls, rts);
        assert(ls + rts =~= expect);
        lemma_small_multiset(emissions(res.trace, z), expect);
    }
}

/// Over any sequence of sends of zipped signals on a stream, zipping the two halves
/// of its unzip emits exactly the signals sent.
pub proof fn law_zip_of_unzip_over_sends<S, K>(
    g: Seq<Seq<Sub<K>>>,
    folds: Seq<Signal<S>>,
    sinks: Seq<Seq<Signal<S>>>,
    x: usize,
    j0: int,
    a: usize,
    ja: int,
    b: usize,
    jb: int,
    z: usize,
    sigs: Seq<Signal<S>>,
    rss: Seq<Seq<Option<Signal<S>>>>,
)
    requires
        wired(g, folds.len(), sinks.len()),
        x < g.len(),
        x != a,
        x != b,
        x != z,
        0 <= j0 < g[x as int].len(),
        g[x as int][j0] == Sub::<K>::Unzip(a, b),
        sole_source(g, x, j0, a),
        sole_source(g, x, j0, b),
        funnel(g, a, ja, b, jb, z),
        g[a as int][ja] == Sub::<K>::ZipLeft(z),
        g[b as int][jb] == Sub::<K>::ZipRight(z),
        sigs.len() == rss.len(),
        forall|i: int| 0 <= i < sigs.len() ==> #[trigger] sigs[i] is Zipped,
    ensures
        all_ok(runs(g, folds, sinks, x, sigs, rss)) ==> emitted(runs(g, folds, sinks, x, sigs, rss), z) == sigs,
{
    let outs = runs(g, folds, sinks, x, sigs, rss);
    lemma_runs_len(g, folds, sinks, x, sigs, rss);
    if all_ok(outs) {
        assert forall|i: int| 0 <= i < outs.len() implies emissions(#[trigger] outs[i].trace, z) == seq![sigs[i]] by {
            let state = lemma_runs_at(g, folds, sinks, x, sigs, rss, i);
            law_zip_of_unzip(g, state.0, state.1, x, j0, a, ja, b, jb, z, sigs[i], rss[i]);
            assert(outs[i].ok);
            assert(sigs[i] is Zipped);
        }
        lemma_emitted_singletons(outs, z, sigs);
    }
}

/// A filter whose handler keeps every signal emits exactly the signals sent on its
/// source, and one that keeps none emits nothing, over any sequence of sends.
pub proof fn law_filter_constant<S, K, H: Respond<S, K>>(
    g: Seq<Seq<Sub<K>>>,
    folds: Seq<Signal<S>>,
    sinks: Seq<Seq<Signal<S>>>,
    x: usize,
    j0: int,
    k: K,
    m: usize,
    h: H,
    keep: bool,
    sigs: Seq<Signal<S>>,
    rss: Seq<Seq<Option<Signal<S>>>>,
)
    requires
        wired(g, folds.len(), sinks.len()),
        x < g.len(),
        m < g.len(),
        x != m,
        0 <= j0 < g[x as int].len(),
        g[x as int][j0] == Sub::Filter(k, m),
        sole_source(g, x, j0, m),
        sigs.len() == rss.len(),
        forall|v: Signal<S>, r: Option<Signal<S>>| #[trigger] h.answers(Call::Filter(k, v), r) ==> (r is Some <==> keep),
    ensures
        ({
            let outs = runs(g, folds, sinks, x, sigs, rss);
            all_ok(outs) && all_answered(h, outs, rss) ==> emitted(outs, m) == (if keep {
                sigs
            } else {
                Seq::<Signal<S>>::empty()
            })
        }),
{
    let p = |v: Signal<S>| keep;
    law_filter_over_sends(g, folds, sinks, x, j0, k, m, h, p, sigs, rss);
    lemma_filter_constant(sigs, keep);
}

/// Filtering by a constant predicate keeps everything or nothing.
proof fn lemma_filter_constant<A>(s: Seq<A>, keep: bool)
    ensures
        s.filter(|a: A| keep) == (if keep {
            s
        } else {
            Seq::<A>::empty()
        }),
    decreases s.len(),
{
    reveal(Seq::filter);
    if s.len() > 0 {
        lemma_filter_constant(s.drop_last(), keep);
        if keep {
            assert(s.drop_last().push(s.last()) =~= s);
        }
    }
}

/// Over any sequence of sends on the first stream of an entangled pair, whatever was
/// subscribed to either stream since: the first stream emits exactly the signals
/// sent, the second exactly the answers of `f` to them (nothing where `f` has none),
/// and, when no other subscription calls `f`, `f` is called exactly once per
/// signal, in order.
pub proof fn law_entangled_over_sends<S, K, H: Respond<S, K>>(
    g: Seq<Seq<Sub<K>>>,
    folds: Seq<Signal<S>>,
    sinks: Seq<Seq<Signal<S>>>,
    fs: usize,
    gs: usize,
    f: K,
    gk: K,
    h: H,
    ff: spec_fn(Signal<S>) -> Option<Signal<S>>,
    sigs: Seq<Signal<S>>,
    rss: Seq<Seq<Option<Signal<S>>>>,
)
    requires
        wired(g, folds.len(), sinks.len()),
        fs < g.len(),
        gs < g.len(),
        fs != gs,
        g[fs as int].len() > 0,
        g[gs as int].len() > 0,
        g[fs as int][0] == Sub::FilterMap(f, gs),
        g[gs as int][0] == Sub::FilterMap(gk, fs),
        sole_source(g, fs, 0, gs),
        sigs.len() == rss.len(),
        forall|v: Signal<S>, r: Option<Signal<S>>| #[trigger] h.answers(Call::FilterMap(f, v), r) ==> r == ff(v),
    ensures
        ({
            let outs = runs(g, folds, sinks, fs, sigs, rss);
            &&& all_ok(outs) ==> emitted(outs, fs) == sigs
            &&& all_ok(outs) && all_answered(h, outs, rss) ==> emitted(outs, gs) == sigs.filter_map(ff)
            &&& all_ok(outs) && sole_key(g, fs, 0, f) ==> called(outs, f) == sigs.map_values(
                |v: Signal<S>| Call::FilterMap(f, v),
            )
        }),
{
    let outs = runs(g, folds, sinks, fs, sigs, rss);
    lemma_runs_len(g, folds, sinks, fs, sigs, rss);
    law_filter_map_over_sends(g, folds, sinks, fs, 0, f, gs, h, ff, sigs, rss);
    if all_ok(outs) {
        assert forall|i: int| 0 <= i < outs.len() implies emissions(#[trigger] outs[i].trace, fs) == seq![sigs[i]] by {
            let state = lemma_runs_at(g, folds, sinks, fs, sigs, rss, i);
            law_source_emits_once(g, state.0, state.1, fs, sigs[i], rss[i]);
        }
        lemma_emitted_singletons(outs, fs, sigs);
        if sole_key(g, fs, 0, f) {
            law_called_once_over_sends(g, folds, sinks, fs, 0, f, sigs, rss);
            assert(sigs.map_values(|v: Signal<S>| call_for::<S, K>(g[fs as int][0], v, folds)) =~= sigs.map_values(
                |v: Signal<S>| Call::FilterMap(f, v),
            ));
        }
    }
}

/// Whatever stream a send begins on, a sink collects every signal that its stream
/// emits during the send, however deep in the send the stream is reached, in the
/// order emitted: its buffer gains exactly the emissions of the sunk stream.
pub proof fn law_sink_collects_everywhere<S, K>(
    g: Seq<Seq<Sub<K>>>,
    folds: Seq<Signal<S>>,
    sinks: Seq<Seq<Signal<S>>>,
    n: usize,
    x: usize,
    j0: int,
    slot: usize,
    sig: Signal<S>,
    rs: Seq<Option<Signal<S>>>,
)
    requires
        wired(g, folds.len(), sinks.len()),
        x < g.len(),
        slot < sinks.len(),
        0 <= j0 < g[x as int].len(),
        g[x as int][j0] == Sub::<K>::Sink(slot),
        sole_sink(g, x, j0, slot),
    ensures
        ({
            let res = run(g, folds, sinks, n, sig, rs);
            &&& res.sinks.len() == sinks.len()
            &&& res.ok ==> res.sinks[slot as int] == sinks[slot as int] + emissions(res.trace, x)
        }),
{
    let o0: Outcome<S, K> = Outcome { ok: true, folds, sinks, trace: Seq::empty(), calls: Seq::empty() };
    let empty = Seq::<Signal<S>>::empty();
    assert(emissions(o0.trace, x) == empty);
    assert(sinks[slot as int] + empty =~= sinks[slot as int] + emissions(o0.trace, x));
    crate::lemmas::lemma_deliver_sink(g, n, sig, Seq::empty(), o0, rs, x, j0, slot, sinks[slot as int], empty);
    crate::semantics::lemma_deliver_grows(g, n, sig, Seq::empty(), o0, rs);
    let res = run(g, folds, sinks, n, sig, rs);
    if res.ok {
        assert(res.sinks[slot as int] + empty =~= res.sinks[slot as int]);
    }
}

/// The accumulator a fold subscription starts from in state `folds`; any signal
/// for the other kinds, which have none.
pub open spec fn acc_at<S, K>(s: Sub<K>, folds: Seq<Signal<S>>) -> Signal<S> {
    match s {
        Sub::Fold(_, slot, _) => folds[slot as int],
        _ => arbitrary(),
    }
}

/// Whatever stream a send begins on (other than the subscription's own target), and
/// however deep in the send a stream is reached, a subscription of it whose user
/// function `k` nothing else calls, and whose stream and fold slot nothing else uses:
/// - hands `k` every signal its stream emits, once each, in the order emitted, as
///   the call of its kind (a fold with the accumulator left by the calls before);
/// - makes its stream emit exactly what the answers give: each answer of a map,
///   filter-map or fold, each signal a filter keeps, in order, and nothing else;
/// - leaves a fold's accumulator at the last answer given, or where it started.
pub proof fn law_subscription_everywhere<S, K>(
    g: Seq<Seq<Sub<K>>>,
    folds: Seq<Signal<S>>,
    sinks: Seq<Seq<Signal<S>>>,
    n: usize,
    x: usize,
    j0: int,
    k: K,
    sig: Signal<S>,
    rs: Seq<Option<Signal<S>>>,
)
    requires
        wired(g, folds.len(), sinks.len()),
        crate::lemmas::sole_user(g, x, j0, k),
        crate::lemmas::target_of(g[x as int][j0]) matches Some(t) ==> n != t,
    ensures
        ({
            let res = run(g, folds, sinks, n, sig, rs);
            let s = g[x as int][j0];
            let f = crate::lemmas::fed(res.calls, rs, k);
            let a = acc_at(s, folds);
            res.ok ==> {
                &&& crate::lemmas::fed_signals(f) == emissions(res.trace, x)
                &&& crate::lemmas::shaped(s, a, f)
                &&& (crate::lemmas::target_of(s) matches Some(t) ==> emissions(res.trace, t)
                    == crate::lemmas::outputs(s, f))
                &&& (s matches Sub::Fold(_, slot, _) ==> res.folds[slot as int] == crate::lemmas::folded(a, f))
            }
        }),
{
    let s = g[x as int][j0];
    let a = acc_at(s, folds);
    let o0: Outcome<S, K> = Outcome { ok: true, folds, sinks, trace: Seq::empty(), calls: Seq::empty() };
    let empty = Seq::<Signal<S>>::empty();
    let f0 = crate::lemmas::fed(o0.calls, rs, k);
    assert(f0 == Seq::<(Call<S, K>, Option<Signal<S>>)>::empty());
    assert(crate::lemmas::fed_signals(f0) + empty =~= emissions(o0.trace, x));
    if let Some(t) = crate::lemmas::target_of(s) {
        assert(emissions(o0.trace, t) + empty =~= crate::lemmas::outputs(s, f0));
    }
    if let Sub::Fold(_, slot, _) = s {
        assert(sub_wired(s, g.len(), folds.len(), sinks.len()));
    }
    crate::lemmas::lemma_deliver_in_step(g, n, sig, Seq::empty(), o0, rs, x, j0, k, a, empty, empty);
    let res = run(g, folds, sinks, n, sig, rs);
    if res.ok {
        let f = crate::lemmas::fed(res.calls, rs, k);
        assert(crate::lemmas::fed_signals(f) + empty =~= crate::lemmas::fed_signals(f));
        if let Some(t) = crate::lemmas::target_of(s) {
            assert(emissions(res.trace, t) + empty =~= emissions(res.trace, t));
        }
    }
}

} // verus!
