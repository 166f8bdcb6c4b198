//! Facts about propagation used by the laws: which streams a send can reach, and
//! how the subscriptions of a stream split.
use vstd::prelude::*;
use vstd::multiset::Multiset;
use crate::semantics::{
    deliver, process, set_fold, step, sub_wired, tag_left, tag_right, wired, with_call, Outcome,
    Sub,
};
use crate::signal::{Either, Signal};

verus! {

/// The signals that stream `n` emitted, in order.
pub open spec fn emissions<S>(t: Seq<(usize, Signal<S>)>, n: usize) -> Seq<Signal<S>>
    decreases t.len(),
{
    if t.len() == 0 {
        Seq::empty()
    } else {
        let rest = emissions(t.drop_last(), n);
        if t.last().0 == n {
            rest.push(t.last().1)
        } else {
            rest
        }
    }
}

pub proof fn lemma_emissions_push<S>(t: Seq<(usize, Signal<S>)>, e: (usize, Signal<S>), n: usize)
    ensures
        emissions(t.push(e), n) == (if e.0 == n {
            emissions(t, n).push(e.1)
        } else {
            emissions(t, n)
        }),
{
    assert(t.push(e).drop_last() =~= t);
}

/// Subscription `s` sends to stream `m`.
pub open spec fn targets<K>(s: Sub<K>, m: usize) -> bool {
    match s {
        Sub::Observe(_) => false,
        Sub::Apply(_, t) => t == m,
        Sub::Filter(_, t) => t == m,
        Sub::FilterMap(_, t) => t == m,
        Sub::Fold(_, _, t) => t == m,
        Sub::Forward(t) => t == m,
        Sub::ZipLeft(t) => t == m,
        Sub::ZipRight(t) => t == m,
        Sub::Unzip(a, b) => a == m || b == m,
        Sub::Sink(_) => false,
    }
}

/// Subscription `s` sends to stream `m`, or uses fold slot `fslot` or sink slot `sslot`.
pub open spec fn touches<K>(s: Sub<K>, m: int, fslot: int, sslot: int) -> bool {
    ||| m >= 0 && targets(s, m as usize)
    ||| s matches Sub::Fold(_, f, _) && f as int == fslot
    ||| s matches Sub::Sink(k) && k as int == sslot
}

/// Only streams of `stack` have subscriptions that touch `m`, `fslot` or `sslot`.
pub open spec fn guarded<K>(g: Seq<Seq<Sub<K>>>, m: int, fslot: int, sslot: int, stack: Seq<usize>) -> bool {
    forall|i: int, j: int|
        0 <= i < g.len() && 0 <= j < g[i].len() && #[trigger] touches(g[i][j], m, fslot, sslot)
            ==> stack.contains(i as usize)
}

/// Subscription `j` of stream `x` is the only one that touches `m`, `fslot` or `sslot`.
pub open spec fn only_at<K>(g: Seq<Seq<Sub<K>>>, x: usize, j0: int, m: int, fslot: int, sslot: int) -> bool {
    forall|i: int, j: int|
        0 <= i < g.len() && 0 <= j < g[i].len() && #[trigger] touches(g[i][j], m, fslot, sslot)
            ==> i == x && j == j0
}

/// `o2` agrees with `o1` on the emissions of `m`, fold slot `fslot`, sink slot
/// `sslot`, and the number of slots.
pub open spec fn untouched<S, K>(o1: Outcome<S, K>, o2: Outcome<S, K>, m: int, fslot: int, sslot: int) -> bool {
    &&& m >= 0 ==> emissions(o2.trace, m as usize) == emissions(o1.trace, m as usize)
    &&& o2.folds.len() == o1.folds.len()
    &&& o2.sinks.len() == o1.sinks.len()
    &&& 0 <= fslot < o1.folds.len() ==> o2.folds[fslot] == o1.folds[fslot]
    &&& 0 <= sslot < o1.sinks.len() ==> o2.sinks[sslot] == o1.sinks[sslot]
}

/// The subscriptions of `node` with indices in `j .. stop` run for `sig`.
pub open spec fn run_subs<S, K>(
    g: Seq<Seq<Sub<K>>>,
    node: usize,
    j: int,
    stop: int,
    sig: Signal<S>,
    stack: Seq<usize>,
    o: Outcome<S, K>,
    rs: Seq<Option<Signal<S>>>,
) -> Outcome<S, K>
    decreases stop - j,
{
    if j >= stop {
        o
    } else {
        run_subs(g, node, j + 1, stop, sig, stack, step(g, node, j, sig, stack, o, rs), rs)
    }
}

/// Running the subscriptions of a stream from `j` on is running those before
/// `stop`, then the rest.
pub proof fn lemma_process_split<S, K>(
    g: Seq<Seq<Sub<K>>>,
    node: usize,
    j: int,
    stop: int,
    sig: Signal<S>,
    stack: Seq<usize>,
    o: Outcome<S, K>,
    rs: Seq<Option<Signal<S>>>,
)
    requires
        0 <= j <= stop <= g[node as int].len(),
        stack.len() <= g.len(),
    ensures
        process(g, node, j, sig, stack, o, rs) == process(
            g,
            node,
            stop,
            sig,
            stack,
            run_subs(g, node, j, stop, sig, stack, o, rs),
            rs,
        ),
    decreases stop - j,
{
    if j < stop {
        lemma_process_split(g, node, j + 1, stop, sig, stack, step(g, node, j, sig, stack, o, rs), rs);
        if !o.ok {
            lemma_run_subs_failed(g, node, j, stop, sig, stack, o, rs);
        }
    }
}

pub proof fn lemma_run_subs_failed<S, K>(
    g: Seq<Seq<Sub<K>>>,
    node: usize,
    j: int,
    stop: int,
    sig: Signal<S>,
    stack: Seq<usize>,
    o: Outcome<S, K>,
    rs: Seq<Option<Signal<S>>>,
)
    requires
        !o.ok,
    ensures
        run_subs(g, node, j, stop, sig, stack, o, rs) == o,
    decreases stop - j,
{
    if j < stop {
        lemma_run_subs_failed(g, node, j + 1, stop, sig, stack, step(g, node, j, sig, stack, o, rs), rs);
    }
}

/// A send that starts at a stream other than `m`, while every subscription touching
/// `m`, `fslot` or `sslot` belongs to a stream still emitting, leaves them alone.
pub proof fn lemma_deliver_quiet<S, K>(
    g: Seq<Seq<Sub<K>>>,
    node: usize,
    sig: Signal<S>,
    stack: Seq<usize>,
    o: Outcome<S, K>,
    rs: Seq<Option<Signal<S>>>,
    m: int,
    fslot: int,
    sslot: int,
)
    requires
        wired(g, o.folds.len(), o.sinks.len()),
        node as int != m,
        guarded(g, m, fslot, sslot, stack),
        m <= usize::MAX,
    ensures
        untouched(o, deliver(g, node, sig, stack, o, rs), m, fslot, sslot),
    decreases g.len() - stack.len(), 0int, 0int,
{
    if o.ok && !(node >= g.len() || stack.contains(node) || stack.len() >= g.len()) {
        let o1 = Outcome { trace: o.trace.push((node, sig)), ..o };
        if m >= 0 {
            lemma_emissions_push(o.trace, (node, sig), m as usize);
        }
        assert forall|j: int| 0 <= j < g[node as int].len() implies !touches(
            g[node as int][j],
            m,
            fslot,
            sslot,
        ) by {
            if touches(g[node as int][j], m, fslot, sslot) {
                assert(stack.contains(node));
            }
        }
        assert(guarded(g, m, fslot, sslot, stack.push(node))) by {
            assert forall|i: int, j: int|
                0 <= i < g.len() && 0 <= j < g[i].len() && #[trigger] touches(g[i][j], m, fslot, sslot)
                implies stack.push(node).contains(i as usize) by {
                assert(stack.contains(i as usize));
                let k = choose|k: int| 0 <= k < stack.len() && stack[k] == i as usize;
                assert(stack.push(node)[k] == i as usize);
            }
        }
        lemma_process_quiet(g, node, 0, sig, stack.push(node), o1, rs, m, fslot, sslot);
    }
}

pub proof fn lemma_process_quiet<S, K>(
    g: Seq<Seq<Sub<K>>>,
    node: usize,
    j: int,
    sig: Signal<S>,
    stack: Seq<usize>,
    o: Outcome<S, K>,
    rs: Seq<Option<Signal<S>>>,
    m: int,
    fslot: int,
    sslot: int,
)
    requires
        wired(g, o.folds.len(), o.sinks.len()),
        guarded(g, m, fslot, sslot, stack),
        m <= usize::MAX,
        node < g.len(),
        forall|j2: int| j <= j2 < g[node as int].len() ==> !touches(#[trigger] g[node as int][j2], m, fslot, sslot),
    ensures
        untouched(o, process(g, node, j, sig, stack, o, rs), m, fslot, sslot),
    decreases g.len() - stack.len(), 1int, g[node as int].len() - j,
{
    if !o.ok || j < 0 || j >= g[node as int].len() || stack.len() > g.len() {
    } else {
        let after = step(g, node, j, sig, stack, o, rs);
        lemma_step_quiet(g, node, j, sig, stack, o, rs, m, fslot, sslot);
        lemma_process_quiet(g, node, j + 1, sig, stack, after, rs, m, fslot, sslot);
    }
}

pub proof fn lemma_step_quiet<S, K>(
    g: Seq<Seq<Sub<K>>>,
    node: usize,
    j: int,
    sig: Signal<S>,
    stack: Seq<usize>,
    o: Outcome<S, K>,
    rs: Seq<Option<Signal<S>>>,
    m: int,
    fslot: int,
    sslot: int,
)
    requires
        wired(g, o.folds.len(), o.sinks.len()),
        guarded(g, m, fslot, sslot, stack),
        m <= usize::MAX,
        node < g.len(),
        0 <= j < g[node as int].len() ==> !touches(g[node as int][j], m, fslot, sslot),
    ensures
        untouched(o, step(g, node, j, sig, stack, o, rs), m, fslot, sslot),
    decreases g.len() - stack.len(), 1int, g[node as int].len() - j - 1,
{
    if !o.ok || j < 0 || j >= g[node as int].len() || stack.len() > g.len() {
    } else {
        let r = crate::semantics::reply_at(rs, o.calls.len() as int);
        assert(sub_wired(g[node as int][j], g.len(), o.folds.len(), o.sinks.len()));
        match g[node as int][j] {
            Sub::Observe(k) => {},
            Sub::Apply(k, t) => {
                if let Some(v) = r {
                    lemma_deliver_quiet(g, t, v, stack, with_call(o, crate::semantics::Call::Apply(k, sig)), rs, m, fslot, sslot);
                }
            },
            Sub::Filter(k, t) => {
                if let Some(_) = r {
                    lemma_deliver_quiet(g, t, sig, stack, with_call(o, crate::semantics::Call::Filter(k, sig)), rs, m, fslot, sslot);
                }
            },
            Sub::FilterMap(k, t) => {
                if let Some(v) = r {
                    lemma_deliver_quiet(g, t, v, stack, with_call(o, crate::semantics::Call::FilterMap(k, sig)), rs, m, fslot, sslot);
                }
            },
            Sub::Fold(k, slot, t) => {
                if let Some(v) = r {
                    let o1 = with_call(o, crate::semantics::Call::Fold(k, o.folds[slot as int], sig));
                    lemma_deliver_quiet(g, t, v, stack, set_fold(o1, slot, v), rs, m, fslot, sslot);
                }
            },
            Sub::Forward(t) => {
                lemma_deliver_quiet(g, t, sig, stack, o, rs, m, fslot, sslot);
            },
            Sub::ZipLeft(t) => {
                lemma_deliver_quiet(g, t, tag_left(sig), stack, o, rs, m, fslot, sslot);
            },
            Sub::ZipRight(t) => {
                lemma_deliver_quiet(g, t, tag_right(sig), stack, o, rs, m, fslot, sslot);
            },
            Sub::Unzip(a, b) => match sig {
                Signal::Zipped(e) => match *e {
                    Either::Left(l) => {
                        lemma_deliver_quiet(g, a, l, stack, o, rs, m, fslot, sslot);
                    },
                    Either::Right(x) => {
                        lemma_deliver_quiet(g, b, x, stack, o, rs, m, fslot, sslot);
                    },
                },
                Signal::Value(_) => {},
            },
            Sub::Sink(slot) => {},
        }
    }
}

/// Running a run of subscriptions that do not touch `m`, `fslot` or `sslot` leaves
/// them alone.
pub proof fn lemma_run_subs_quiet<S, K>(
    g: Seq<Seq<Sub<K>>>,
    node: usize,
    j: int,
    stop: int,
    sig: Signal<S>,
    stack: Seq<usize>,
    o: Outcome<S, K>,
    rs: Seq<Option<Signal<S>>>,
    m: int,
    fslot: int,
    sslot: int,
)
    requires
        wired(g, o.folds.len(), o.sinks.len()),
        guarded(g, m, fslot, sslot, stack),
        m <= usize::MAX,
        node < g.len(),
        0 <= j,
        stop <= g[node as int].len(),
        forall|j2: int| j <= j2 < stop ==> !touches(#[trigger] g[node as int][j2], m, fslot, sslot),
    ensures
        untouched(o, run_subs(g, node, j, stop, sig, stack, o, rs), m, fslot, sslot),
    decreases stop - j,
{
    if j < stop {
        let after = step(g, node, j, sig, stack, o, rs);
        lemma_step_quiet(g, node, j, sig, stack, o, rs, m, fslot, sslot);
        lemma_run_subs_quiet(g, node, j + 1, stop, sig, stack, after, rs, m, fslot, sslot);
    }
}

/// The state right after stream `x` starts emitting `sig`, in a send that began on it.
pub open spec fn entered<S, K>(
    folds: Seq<Signal<S>>,
    sinks: Seq<Seq<Signal<S>>>,
    x: usize,
    sig: Signal<S>,
) -> Outcome<S, K> {
    Outcome { ok: true, folds, sinks, trace: seq![(x, sig)], calls: Seq::empty() }
}

/// A send on `x` enters `x`, then runs its subscriptions while `x` is emitting.
pub proof fn lemma_run_entered<S, K>(
    g: Seq<Seq<Sub<K>>>,
    folds: Seq<Signal<S>>,
    sinks: Seq<Seq<Signal<S>>>,
    x: usize,
    sig: Signal<S>,
    rs: Seq<Option<Signal<S>>>,
)
    requires
        x < g.len(),
    ensures
        crate::network::run(g, folds, sinks, x, sig, rs) == process(g, x, 0, sig, seq![x], entered(folds, sinks, x, sig), rs),
        seq![x][0] == x,
        seq![x].len() == 1,
{
    let o0: Outcome<S, K> = Outcome { ok: true, folds, sinks, trace: Seq::empty(), calls: Seq::empty() };
    assert(Seq::<usize>::empty().push(x) == seq![x]);
    assert(o0.trace.push((x, sig)) == entered::<S, K>(folds, sinks, x, sig).trace);
    assert(!Seq::<usize>::empty().contains(x));
}

/// Sending on `x` runs the subscriptions of `x` before `j0` without touching `m`,
/// `fslot` or `sslot`, then subscription `j0`, then the rest, again without
/// touching them.
pub proof fn lemma_send_through<S, K>(
    g: Seq<Seq<Sub<K>>>,
    folds: Seq<Signal<S>>,
    sinks: Seq<Seq<Signal<S>>>,
    x: usize,
    j0: int,
    m: int,
    fslot: int,
    sslot: int,
    sig: Signal<S>,
    rs: Seq<Option<Signal<S>>>,
) -> (pre: Outcome<S, K>)
    requires
        wired(g, folds.len(), sinks.len()),
        x < g.len(),
        0 <= j0 < g[x as int].len(),
        only_at(g, x, j0, m, fslot, sslot),
        m <= usize::MAX,
    ensures
        pre.ok,
        untouched(entered(folds, sinks, x, sig), pre, m, fslot, sslot),
        ({
            let res = crate::network::run(g, folds, sinks, x, sig, rs);
            let mid = step(g, x, j0, sig, seq![x], pre, rs);
            &&& res.ok ==> mid.ok
            &&& untouched(mid, res, m, fslot, sslot)
            &&& forall|i: int| 0 <= i < mid.calls.len() ==> #[trigger] res.calls[i] == mid.calls[i]
            &&& res.calls.len() >= mid.calls.len()
            &&& pre == run_subs(g, x, 0, j0, sig, seq![x], entered(folds, sinks, x, sig), rs)
        }) || !crate::network::run(g, folds, sinks, x, sig, rs).ok,
{
    let st = seq![x];
    let o1 = entered::<S, K>(folds, sinks, x, sig);
    lemma_run_entered(g, folds, sinks, x, sig, rs);
    let res = crate::network::run(g, folds, sinks, x, sig, rs);
    assert(res == process(g, x, 0, sig, st, o1, rs));
    assert(guarded(g, m, fslot, sslot, st)) by {
        assert forall|i: int, j: int|
            0 <= i < g.len() && 0 <= j < g[i].len() && #[trigger] touches(g[i][j], m, fslot, sslot)
            implies st.contains(i as usize) by {
            assert(st[0] == x);
        }
    }
    lemma_process_split(g, x, 0, j0, sig, st, o1, rs);
    let pre = run_subs(g, x, 0, j0, sig, st, o1, rs);
    lemma_run_subs_quiet(g, x, 0, j0, sig, st, o1, rs, m, fslot, sslot);
    if !pre.ok {
        crate::semantics::lemma_process_grows(g, x, j0, sig, st, pre, rs);
        return o1;
    }
    let mid = step(g, x, j0, sig, st, pre, rs);
    assert(res == process(g, x, j0 + 1, sig, st, mid, rs));
    crate::semantics::lemma_step_grows(g, x, j0, sig, st, pre, rs);
    crate::semantics::lemma_process_grows(g, x, j0 + 1, sig, st, mid, rs);
    assert forall|j2: int| j0 + 1 <= j2 < g[x as int].len() implies !touches(#[trigger] g[x as int][j2], m, fslot, sslot) by {}
    if mid.ok {
        lemma_process_quiet(g, x, j0 + 1, sig, st, mid, rs, m, fslot, sslot);
    }
    pre
}

/// Stream `m`, reached from `x` alone, emits `v` once and its subscriptions leave
/// `m`, `fslot` and `sslot` alone.
pub proof fn lemma_enter_target<S, K>(
    g: Seq<Seq<Sub<K>>>,
    x: usize,
    j0: int,
    m: usize,
    fslot: int,
    sslot: int,
    v: Signal<S>,
    o: Outcome<S, K>,
    rs: Seq<Option<Signal<S>>>,
)
    requires
        wired(g, o.folds.len(), o.sinks.len()),
        x < g.len(),
        m < g.len(),
        x != m,
        o.ok,
        only_at(g, x, j0, m as int, fslot, sslot),
    ensures
        ({
            let d = deliver(g, m, v, seq![x], o, rs);
            &&& emissions(d.trace, m) == emissions(o.trace, m).push(v)
            &&& d.folds.len() == o.folds.len()
            &&& d.sinks.len() == o.sinks.len()
            &&& 0 <= fslot < o.folds.len() ==> d.folds[fslot] == o.folds[fslot]
            &&& 0 <= sslot < o.sinks.len() ==> d.sinks[sslot] == o.sinks[sslot]
        }),
{
    let st = seq![x];
    assert(!st.contains(m)) by {
        if st.contains(m) {
            assert(st[0] == x);
        }
    }
    let st2 = st.push(m);
    let o1 = Outcome { trace: o.trace.push((m, v)), ..o };
    lemma_emissions_push(o.trace, (m, v), m);
    assert(guarded(g, m as int, fslot, sslot, st2)) by {
        assert forall|i: int, j: int|
            0 <= i < g.len() && 0 <= j < g[i].len() && #[trigger] touches(g[i][j], m as int, fslot, sslot)
            implies st2.contains(i as usize) by {
            assert(st2[0] == x);
        }
    }
    assert forall|j2: int| 0 <= j2 < g[m as int].len() implies !touches(#[trigger] g[m as int][j2], m as int, fslot, sslot) by {}
    lemma_process_quiet(g, m, 0, v, st2, o1, rs, m as int, fslot, sslot);
}

/// Subscription `j0` of `x` is the only one that sends to `m`.
pub open spec fn sole_source<K>(g: Seq<Seq<Sub<K>>>, x: usize, j0: int, m: usize) -> bool {
    forall|i: int, j: int|
        0 <= i < g.len() && 0 <= j < g[i].len() && #[trigger] targets(g[i][j], m) ==> i == x && j == j0
}

/// Subscriptions `j0` and `j0 + 1` of `x` are the only ones that send to `m`.
pub open spec fn sole_pair<K>(g: Seq<Seq<Sub<K>>>, x: usize, j0: int, m: usize) -> bool {
    forall|i: int, j: int|
        0 <= i < g.len() && 0 <= j < g[i].len() && #[trigger] targets(g[i][j], m) ==> i == x && (j == j0 || j
            == j0 + 1)
}

/// Subscription `j0` of `x` is the only one that uses fold slot `slot`.
pub open spec fn sole_fold<K>(g: Seq<Seq<Sub<K>>>, x: usize, j0: int, slot: usize) -> bool {
    forall|i: int, j: int|
        0 <= i < g.len() && 0 <= j < g[i].len() && (#[trigger] g[i][j] matches Sub::Fold(_, f, _) && f == slot)
            ==> i == x && j == j0
}

/// Subscription `j0` of `x` is the only one that fills sink slot `slot`.
pub open spec fn sole_sink<K>(g: Seq<Seq<Sub<K>>>, x: usize, j0: int, slot: usize) -> bool {
    forall|i: int, j: int|
        0 <= i < g.len() && 0 <= j < g[i].len() && (#[trigger] g[i][j] matches Sub::Sink(k) && k == slot)
            ==> i == x && j == j0
}

pub proof fn lemma_only_at<K>(
    g: Seq<Seq<Sub<K>>>,
    x: usize,
    j0: int,
    m: int,
    fslot: int,
    sslot: int,
)
    requires
        m >= 0 ==> sole_source(g, x, j0, m as usize),
        fslot >= 0 ==> sole_fold(g, x, j0, fslot as usize),
        sslot >= 0 ==> sole_sink(g, x, j0, sslot as usize),
        m <= usize::MAX,
        fslot <= usize::MAX,
        sslot <= usize::MAX,
    ensures
        only_at(g, x, j0, m, fslot, sslot),
{
    assert forall|i: int, j: int|
        0 <= i < g.len() && 0 <= j < g[i].len() && #[trigger] touches(g[i][j], m, fslot, sslot)
        implies i == x && j == j0 by {
        if m >= 0 && targets(g[i][j], m as usize) {
        } else if g[i][j] matches Sub::Fold(_, f, _) && f as int == fslot {
        } else {
        }
    }
}

/// The emission of the first stream of a send is the only one in the trace so far.
pub proof fn lemma_entered_emissions<S, K>(
    folds: Seq<Signal<S>>,
    sinks: Seq<Seq<Signal<S>>>,
    x: usize,
    sig: Signal<S>,
    n: usize,
)
    ensures
        emissions(entered::<S, K>(folds, sinks, x, sig).trace, n) == (if n == x {
            seq![sig]
        } else {
            Seq::<Signal<S>>::empty()
        }),
{
    let t = entered::<S, K>(folds, sinks, x, sig).trace;
    assert(Seq::<(usize, Signal<S>)>::empty().push((x, sig)) == t);
    lemma_emissions_push(Seq::<(usize, Signal<S>)>::empty(), (x, sig), n);
    assert(emissions(Seq::<(usize, Signal<S>)>::empty(), n) == Seq::<Signal<S>>::empty());
}

/// What a subscription that passes signals on sends for `sig`: tagged for a zip,
/// unchanged otherwise.
pub open spec fn passed<S, K>(s: Sub<K>, sig: Signal<S>) -> Signal<S> {
    match s {
        Sub::ZipLeft(_) => tag_left(sig),
        Sub::ZipRight(_) => tag_right(sig),
        _ => sig,
    }
}

/// The subscription passes every signal on to `m`.
pub open spec fn passes_to<K>(s: Sub<K>, m: usize) -> bool {
    s == Sub::<K>::Forward(m) || s == Sub::<K>::ZipLeft(m) || s == Sub::<K>::ZipRight(m)
}

/// The multiset of what subscription `sub` passes on for the emissions of `n`.
pub open spec fn bag_of<S, K>(t: Seq<(usize, Signal<S>)>, n: usize, sub: Sub<K>) -> Multiset<Signal<S>>
    decreases t.len(),
{
    if t.len() == 0 {
        Multiset::empty()
    } else {
        let rest = bag_of(t.drop_last(), n, sub);
        if t.last().0 == n {
            rest.insert(passed(sub, t.last().1))
        } else {
            rest
        }
    }
}

/// Stream `m` is fed by exactly two subscriptions, of two other streams, that pass
/// signals on to it.
pub open spec fn funnel<K>(g: Seq<Seq<Sub<K>>>, x: usize, jx: int, y: usize, jy: int, m: usize) -> bool {
    &&& x < g.len() && y < g.len() && m < g.len()
    &&& x != y && m != x && m != y
    &&& 0 <= jx < g[x as int].len() && 0 <= jy < g[y as int].len()
    &&& passes_to(g[x as int][jx], m)
    &&& passes_to(g[y as int][jy], m)
    &&& forall|i: int, j: int|
        0 <= i < g.len() && 0 <= j < g[i].len() && #[trigger] targets(g[i][j], m)
            ==> (i == x && j == jx) || (i == y && j == jy)
}

/// What the feeders of the funnel passed on so far.
pub open spec fn inflow<S, K>(g: Seq<Seq<Sub<K>>>, x: usize, jx: int, y: usize, jy: int, t: Seq<(usize, Signal<S>)>) -> Multiset<Signal<S>> {
    bag_of(t, x, g[x as int][jx]).add(bag_of(t, y, g[y as int][jy]))
}

/// What the funnel emitted so far.
pub open spec fn outflow<S, K>(m: usize, t: Seq<(usize, Signal<S>)>) -> Multiset<Signal<S>> {
    bag_of(t, m, Sub::<K>::Forward(m))
}

/// The signals that `node`, emitting `sig`, still owes the funnel from its
/// subscription `j` on.
pub open spec fn pending<S, K>(g: Seq<Seq<Sub<K>>>, x: usize, jx: int, y: usize, jy: int, node: usize, j: int, sig: Signal<S>) -> Multiset<Signal<S>> {
    (if node == x && j <= jx {
        Multiset::singleton(passed(g[x as int][jx], sig))
    } else {
        Multiset::empty()
    }).add(if node == y && j <= jy {
        Multiset::singleton(passed(g[y as int][jy], sig))
    } else {
        Multiset::empty()
    })
}

pub proof fn lemma_bag_push<S, K>(t: Seq<(usize, Signal<S>)>, e: (usize, Signal<S>), n: usize, sub: Sub<K>)
    ensures
        bag_of(t.push(e), n, sub) == (if e.0 == n {
            bag_of(t, n, sub).insert(passed(sub, e.1))
        } else {
            bag_of(t, n, sub)
        }),
{
    assert(t.push(e).drop_last() =~= t);
}

/// Emitting `sig` at a stream other than the funnel, and all it causes, passes to
/// the funnel exactly what the feeders emitted, when the send completes.
pub proof fn lemma_deliver_balanced<S, K>(
    g: Seq<Seq<Sub<K>>>,
    node: usize,
    sig: Signal<S>,
    stack: Seq<usize>,
    o: Outcome<S, K>,
    rs: Seq<Option<Signal<S>>>,
    x: usize,
    jx: int,
    y: usize,
    jy: int,
    m: usize,
)
    requires
        wired(g, o.folds.len(), o.sinks.len()),
        funnel(g, x, jx, y, jy, m),
    ensures
        ({
            let res = deliver(g, node, sig, stack, o, rs);
            res.ok ==> outflow::<S, K>(m, res.trace).add(inflow(g, x, jx, y, jy, o.trace)) =~= outflow::<S, K>(
                m,
                o.trace,
            ).add(inflow(g, x, jx, y, jy, res.trace)).add(
                if node == m {
                    Multiset::singleton(sig)
                } else {
                    Multiset::empty()
                },
            )
        }),
    decreases g.len() - stack.len(), 0int, 0int,
{
    broadcast use vstd::multiset::group_multiset_axioms;
    if o.ok && !(node >= g.len() || stack.contains(node) || stack.len() >= g.len()) {
        let o1 = Outcome { trace: o.trace.push((node, sig)), ..o };
        lemma_bag_push(o.trace, (node, sig), x, g[x as int][jx]);
        lemma_bag_push(o.trace, (node, sig), y, g[y as int][jy]);
        lemma_bag_push(o.trace, (node, sig), m, Sub::<K>::Forward(m));
        lemma_process_balanced(g, node, 0, sig, stack.push(node), o1, rs, x, jx, y, jy, m);
        let res = deliver(g, node, sig, stack, o, rs);
        let p = pending(g, x, jx, y, jy, node, 0, sig);
        let mm: Multiset<Signal<S>> = if node == m {
            Multiset::singleton(sig)
        } else {
            Multiset::empty()
        };
        assert(inflow(g, x, jx, y, jy, o1.trace) =~= inflow(g, x, jx, y, jy, o.trace).add(p));
        assert(outflow::<S, K>(m, o1.trace) =~= outflow::<S, K>(m, o.trace).add(mm));
        if res.ok {
            let a = outflow::<S, K>(m, res.trace).add(inflow(g, x, jx, y, jy, o.trace));
            let b = outflow::<S, K>(m, o.trace).add(inflow(g, x, jx, y, jy, res.trace)).add(mm);
            assert forall|v: Signal<S>| a.count(v) == b.count(v) by {
                assert(outflow::<S, K>(m, res.trace).add(inflow(g, x, jx, y, jy, o1.trace)).count(v)
                    == outflow::<S, K>(m, o1.trace).add(inflow(g, x, jx, y, jy, res.trace)).add(p).count(v));
            }
            assert(a =~= b);
        }
    }
}

pub proof fn lemma_process_balanced<S, K>(
    g: Seq<Seq<Sub<K>>>,
    node: usize,
    j: int,
    sig: Signal<S>,
    stack: Seq<usize>,
    o: Outcome<S, K>,
    rs: Seq<Option<Signal<S>>>,
    x: usize,
    jx: int,
    y: usize,
    jy: int,
    m: usize,
)
    requires
        wired(g, o.folds.len(), o.sinks.len()),
        funnel(g, x, jx, y, jy, m),
        node < g.len(),
        0 <= j,
        stack.len() <= g.len(),
    ensures
        ({
            let res = process(g, node, j, sig, stack, o, rs);
            res.ok ==> outflow::<S, K>(m, res.trace).add(inflow(g, x, jx, y, jy, o.trace)) =~= outflow::<S, K>(
                m,
                o.trace,
            ).add(inflow(g, x, jx, y, jy, res.trace)).add(pending(g, x, jx, y, jy, node, j, sig))
        }),
    decreases g.len() - stack.len(), 1int, g[node as int].len() - j,
{
    broadcast use vstd::multiset::group_multiset_axioms;
    if !o.ok || j < 0 || j >= g[node as int].len() || stack.len() > g.len() {
    } else {
        let after = step(g, node, j, sig, stack, o, rs);
        lemma_step_balanced(g, node, j, sig, stack, o, rs, x, jx, y, jy, m);
        crate::semantics::lemma_step_grows(g, node, j, sig, stack, o, rs);
        lemma_process_balanced(g, node, j + 1, sig, stack, after, rs, x, jx, y, jy, m);
        crate::semantics::lemma_process_grows(g, node, j + 1, sig, stack, after, rs);
        let res = process(g, node, j, sig, stack, o, rs);
        assert(res == process(g, node, j + 1, sig, stack, after, rs));
        let sp: Multiset<Signal<S>> = (if node == x && j == jx {
            Multiset::singleton(passed(g[x as int][jx], sig))
        } else {
            Multiset::empty()
        }).add(if node == y && j == jy {
            Multiset::singleton(passed(g[y as int][jy], sig))
        } else {
            Multiset::empty()
        });
        let p0 = pending(g, x, jx, y, jy, node, j, sig);
        let p1 = pending(g, x, jx, y, jy, node, j + 1, sig);
        assert(p0 =~= sp.add(p1));
        if res.ok {
            let a = outflow::<S, K>(m, res.trace).add(inflow(g, x, jx, y, jy, o.trace));
            let b = outflow::<S, K>(m, o.trace).add(inflow(g, x, jx, y, jy, res.trace)).add(p0);
            assert forall|v: Signal<S>| a.count(v) == b.count(v) by {
                assert(outflow::<S, K>(m, after.trace).add(inflow(g, x, jx, y, jy, o.trace)).count(v)
                    == outflow::<S, K>(m, o.trace).add(inflow(g, x, jx, y, jy, after.trace)).add(sp).count(v));
                assert(outflow::<S, K>(m, res.trace).add(inflow(g, x, jx, y, jy, after.trace)).count(v)
                    == outflow::<S, K>(m, after.trace).add(inflow(g, x, jx, y, jy, res.trace)).add(p1).count(v));
            }
            assert(a =~= b);
        }
    }
}

pub proof fn lemma_step_balanced<S, K>(
    g: Seq<Seq<Sub<K>>>,
    node: usize,
    j: int,
    sig: Signal<S>,
    stack: Seq<usize>,
    o: Outcome<S, K>,
    rs: Seq<Option<Signal<S>>>,
    x: usize,
    jx: int,
    y: usize,
    jy: int,
    m: usize,
)
    requires
        wired(g, o.folds.len(), o.sinks.len()),
        funnel(g, x, jx, y, jy, m),
        node < g.len(),
        0 <= j < g[node as int].len(),
        o.ok,
        stack.len() <= g.len(),
    ensures
        ({
            let res = step(g, node, j, sig, stack, o, rs);
            res.ok ==> outflow::<S, K>(m, res.trace).add(inflow(g, x, jx, y, jy, o.trace)) =~= outflow::<S, K>(
                m,
                o.trace,
            ).add(inflow(g, x, jx, y, jy, res.trace)).add(
                (if node == x && j == jx {
                    Multiset::singleton(passed(g[x as int][jx], sig))
                } else {
                    Multiset::empty()
                }).add(if node == y && j == jy {
                    Multiset::singleton(passed(g[y as int][jy], sig))
                } else {
                    Multiset::empty()
                }),
            )
        }),
    decreases g.len() - stack.len(), 1int, g[node as int].len() - j - 1,
{
    broadcast use vstd::multiset::group_multiset_axioms;
    let r = crate::semantics::reply_at(rs, o.calls.len() as int);
    let sub = g[node as int][j];
    assert(sub_wired(sub, g.len(), o.folds.len(), o.sinks.len()));
    if targets(sub, m) {
        assert((node == x && j == jx) || (node == y && j == jy));
    }
    match sub {
        Sub::Observe(k) => {},
        Sub::Apply(k, t) => {
            if let Some(v) = r {
                lemma_deliver_balanced(g, t, v, stack, with_call(o, crate::semantics::Call::Apply(k, sig)), rs, x, jx, y, jy, m);
            }
        },
        Sub::Filter(k, t) => {
            if let Some(_) = r {
                lemma_deliver_balanced(g, t, sig, stack, with_call(o, crate::semantics::Call::Filter(k, sig)), rs, x, jx, y, jy, m);
            }
        },
        Sub::FilterMap(k, t) => {
            if let Some(v) = r {
                lemma_deliver_balanced(g, t, v, stack, with_call(o, crate::semantics::Call::FilterMap(k, sig)), rs, x, jx, y, jy, m);
            }
        },
        Sub::Fold(k, slot, t) => {
            if let Some(v) = r {
                let o1 = with_call(o, crate::semantics::Call::Fold(k, o.folds[slot as int], sig));
                lemma_deliver_balanced(g, t, v, stack, set_fold(o1, slot, v), rs, x, jx, y, jy, m);
            }
        },
        Sub::Forward(t) => {
            lemma_deliver_balanced(g, t, sig, stack, o, rs, x, jx, y, jy, m);
        },
        Sub::ZipLeft(t) => {
            lemma_deliver_balanced(g, t, tag_left(sig), stack, o, rs, x, jx, y, jy, m);
        },
        Sub::ZipRight(t) => {
            lemma_deliver_balanced(g, t, tag_right(sig), stack, o, rs, x, jx, y, jy, m);
        },
        Sub::Unzip(a, b) => match sig {
            Signal::Zipped(e) => match *e {
                Either::Left(l) => {
                    lemma_deliver_balanced(g, a, l, stack, o, rs, x, jx, y, jy, m);
                },
                Either::Right(rr) => {
                    lemma_deliver_balanced(g, b, rr, stack, o, rs, x, jx, y, jy, m);
                },
            },
            Signal::Value(_) => {},
        },
        Sub::Sink(slot) => {},
    }
}

/// What `sub` passes on for the signals of `s`, in order.
pub open spec fn passed_all<S, K>(s: Seq<Signal<S>>, sub: Sub<K>) -> Seq<Signal<S>> {
    s.map_values(|v: Signal<S>| passed(sub, v))
}

pub proof fn lemma_bag_as_multiset<S, K>(t: Seq<(usize, Signal<S>)>, n: usize, sub: Sub<K>)
    ensures
        bag_of(t, n, sub) =~= passed_all(emissions(t, n), sub).to_multiset(),
    decreases t.len(),
{
    broadcast use vstd::multiset::group_multiset_axioms, vstd::seq_lib::group_to_multiset_ensures, vstd::multiset::lemma_multiset_empty_len;
    if t.len() == 0 {
        assert(passed_all(emissions(t, n), sub) =~= Seq::<Signal<S>>::empty());
        assert(passed_all(emissions(t, n), sub).to_multiset().len() == 0);
    } else {
        lemma_bag_as_multiset(t.drop_last(), n, sub);
        let rest = emissions(t.drop_last(), n);
        if t.last().0 == n {
            assert(passed_all(rest.push(t.last().1), sub) =~= passed_all(rest, sub).push(passed(sub, t.last().1)));
        }
    }
}

/// No subscription of `g` sends to `m`.
pub open spec fn untargeted<K>(g: Seq<Seq<Sub<K>>>, m: usize) -> bool {
    forall|i: int, j: int| 0 <= i < g.len() && 0 <= j < g[i].len() ==> !#[trigger] targets(g[i][j], m)
}

/// No subscription of a wired network sends past its last stream, even when
/// streams without subscriptions are added.
pub proof fn lemma_untargeted_fresh<K>(g: Seq<Seq<Sub<K>>>, nfolds: nat, nsinks: nat, extra: nat, m: usize)
    requires
        wired(g, nfolds, nsinks),
        m >= g.len(),
    ensures
        untargeted(g + Seq::new(extra, |i: int| Seq::<Sub<K>>::empty()), m),
{
    let g2 = g + Seq::new(extra, |i: int| Seq::<Sub<K>>::empty());
    assert forall|i: int, j: int| 0 <= i < g2.len() && 0 <= j < g2[i].len() implies !#[trigger] targets(g2[i][j], m) by {
        if i < g.len() {
            assert(g2[i] == g[i]);
            assert(sub_wired(g[i][j], g.len(), nfolds, nsinks));
        }
    }
}

/// Adding a subscription to `x` in a network where nothing sends to `m` makes it
/// the sole source of `m`.
pub proof fn lemma_sole_new_sub<K>(g: Seq<Seq<Sub<K>>>, x: usize, s: Sub<K>, m: usize)
    requires
        untargeted(g, m),
        x < g.len(),
    ensures
        sole_source(crate::network::subscribed(g, x, s), x, g[x as int].len() as int, m),
        forall|n: usize| #[trigger] untargeted(g, n) && !targets(s, n) ==> untargeted(crate::network::subscribed(g, x, s), n),
{
    let g2 = crate::network::subscribed(g, x, s);
    assert forall|i: int, j: int|
        0 <= i < g2.len() && 0 <= j < g2[i].len() && #[trigger] targets(g2[i][j], m)
        implies i == x && j == g[x as int].len() by {
        if !(i == x && j == g[x as int].len()) {
            assert(g2[i][j] == g[i][j]);
        }
    }
    assert forall|n: usize| #[trigger] untargeted(g, n) && !targets(s, n) implies untargeted(g2, n) by {
        assert forall|i: int, j: int| 0 <= i < g2.len() && 0 <= j < g2[i].len() implies !#[trigger] targets(g2[i][j], n) by {
            if !(i == x && j == g[x as int].len()) {
                assert(g2[i][j] == g[i][j]);
            }
        }
    }
}

/// `g2` is `g` with more streams, slots and subscriptions, none of the new
/// subscriptions sending to a stream of `g` or using a slot of `g`.
pub open spec fn grows_from<K>(g: Seq<Seq<Sub<K>>>, g2: Seq<Seq<Sub<K>>>, nfolds: nat, nsinks: nat) -> bool {
    &&& g.len() <= g2.len()
    &&& forall|i: int| 0 <= i < g.len() ==> g[i].len() <= #[trigger] g2[i].len()
    &&& forall|i: int, j: int|
        #![trigger g2[i][j]]
        0 <= i < g.len() && 0 <= j < g[i].len() ==> g2[i][j] == g[i][j]
    &&& forall|i: int, j: int|
        0 <= i < g2.len() && 0 <= j < g2[i].len() && !(i < g.len() && j < g[i].len())
            ==> fresh_sub(#[trigger] g2[i][j], g.len(), nfolds, nsinks)
}

/// The subscription sends only to streams from `n` on and uses only slots past
/// those given.
pub open spec fn fresh_sub<K>(s: Sub<K>, n: nat, nfolds: nat, nsinks: nat) -> bool {
    match s {
        Sub::Observe(_) => true,
        Sub::Apply(_, t) => t >= n,
        Sub::Filter(_, t) => t >= n,
        Sub::FilterMap(_, t) => t >= n,
        Sub::Fold(_, slot, t) => slot >= nfolds && t >= n,
        Sub::Forward(t) => t >= n,
        Sub::ZipLeft(t) => t >= n,
        Sub::ZipRight(t) => t >= n,
        Sub::Unzip(a, b) => a >= n && b >= n,
        Sub::Sink(slot) => slot >= nsinks,
    }
}

pub proof fn lemma_grows_at<K>(g: Seq<Seq<Sub<K>>>, g2: Seq<Seq<Sub<K>>>, nf: nat, ns: nat, i: int, j: int)
    requires
        grows_from(g, g2, nf, ns),
        0 <= i < g.len(),
        0 <= j < g[i].len(),
    ensures
        j < g2[i].len(),
        g2[i][j] == g[i][j],
{
    assert(g[i].len() <= g2[i].len());
    assert(g2[i][j] == g[i][j]);
}

pub proof fn lemma_grows_refl<K>(g: Seq<Seq<Sub<K>>>, nfolds: nat, nsinks: nat)
    ensures
        grows_from(g, g, nfolds, nsinks),
{
}

pub proof fn lemma_grows_push<K>(g: Seq<Seq<Sub<K>>>, g2: Seq<Seq<Sub<K>>>, nfolds: nat, nsinks: nat)
    requires
        grows_from(g, g2, nfolds, nsinks),
    ensures
        grows_from(g, g2.push(Seq::empty()), nfolds, nsinks),
{
    let g3 = g2.push(Seq::empty());
    assert forall|i: int| 0 <= i < g.len() implies g[i].len() <= #[trigger] g3[i].len() by {
        assert(g3[i] == g2[i]);
    }
    assert forall|i: int, j: int| #![trigger g3[i][j]] 0 <= i < g.len() && 0 <= j < g[i].len() implies g3[i][j] == g[i][j] by {
        assert(g3[i] == g2[i]);
    }
    assert forall|i: int, j: int|
        0 <= i < g3.len() && 0 <= j < g3[i].len() && !(i < g.len() && j < g[i].len())
        implies fresh_sub(#[trigger] g3[i][j], g.len(), nfolds, nsinks) by {
        assert(g3[i] == g2[i]);
    }
}

pub proof fn lemma_grows_sub<K>(g: Seq<Seq<Sub<K>>>, g2: Seq<Seq<Sub<K>>>, nfolds: nat, nsinks: nat, x: usize, s: Sub<K>)
    requires
        grows_from(g, g2, nfolds, nsinks),
        x < g2.len(),
        fresh_sub(s, g.len(), nfolds, nsinks),
    ensures
        grows_from(g, crate::network::subscribed(g2, x, s), nfolds, nsinks),
{
    let g3 = crate::network::subscribed(g2, x, s);
    assert forall|i: int| 0 <= i < g.len() implies g[i].len() <= #[trigger] g3[i].len() by {
        assert(g[i].len() <= g2[i].len());
    }
    assert forall|i: int, j: int| #![trigger g3[i][j]] 0 <= i < g.len() && 0 <= j < g[i].len() implies g3[i][j] == g[i][j] by {
        assert(g[i].len() <= g2[i].len());
        assert(g3[i][j] == g2[i][j]);
    }
    assert forall|i: int, j: int|
        0 <= i < g3.len() && 0 <= j < g3[i].len() && !(i < g.len() && j < g[i].len())
        implies fresh_sub(#[trigger] g3[i][j], g.len(), nfolds, nsinks) by {
        if !(i == x && j == g2[x as int].len()) {
            assert(g3[i][j] == g2[i][j]);
        }
    }
}

/// Two new subscriptions that pass signals on to a stream nothing sent to before
/// make it a funnel.
pub proof fn lemma_funnel_new<K>(g: Seq<Seq<Sub<K>>>, x: usize, sx: Sub<K>, y: usize, sy: Sub<K>, m: usize)
    requires
        untargeted(g, m),
        x < g.len(),
        y < g.len(),
        m < g.len(),
        x != y,
        m != x,
        m != y,
        passes_to(sx, m),
        passes_to(sy, m),
    ensures
        funnel(
            crate::network::subscribed(crate::network::subscribed(g, x, sx), y, sy),
            x,
            g[x as int].len() as int,
            y,
            g[y as int].len() as int,
            m,
        ),
{
    let g1 = crate::network::subscribed(g, x, sx);
    let g2 = crate::network::subscribed(g1, y, sy);
    assert(g1[y as int] == g[y as int]);
    assert(g2[x as int] == g1[x as int]);
    assert forall|i: int, j: int|
        0 <= i < g2.len() && 0 <= j < g2[i].len() && #[trigger] targets(g2[i][j], m)
        implies (i == x && j == g[x as int].len()) || (i == y && j == g[y as int].len()) by {
        if !(i == y && j == g[y as int].len()) {
            assert(g2[i][j] == g1[i][j]);
            if !(i == x && j == g[x as int].len()) {
                assert(g1[i][j] == g[i][j]);
            }
        }
    }
}

/// No subscription of `g` uses fold slot `slot` nor sink slot `sslot`.
pub open spec fn slots_unused<K>(g: Seq<Seq<Sub<K>>>, fslot: usize, sslot: usize) -> bool {
    forall|i: int, j: int|
        0 <= i < g.len() && 0 <= j < g[i].len() ==> !(#[trigger] g[i][j] matches Sub::Fold(_, f, _) && f == fslot)
            && !(g[i][j] matches Sub::Sink(k) && k == sslot)
}

pub proof fn lemma_slots_unused_fresh<K>(g: Seq<Seq<Sub<K>>>, nfolds: nat, nsinks: nat, extra: nat, fslot: usize, sslot: usize)
    requires
        wired(g, nfolds, nsinks),
        fslot >= nfolds,
        sslot >= nsinks,
    ensures
        slots_unused(g + Seq::new(extra, |i: int| Seq::<Sub<K>>::empty()), fslot, sslot),
{
    let g2 = g + Seq::new(extra, |i: int| Seq::<Sub<K>>::empty());
    assert forall|i: int, j: int| 0 <= i < g2.len() && 0 <= j < g2[i].len() implies !(#[trigger] g2[i][j] matches Sub::Fold(_, f, _) && f == fslot)
        && !(g2[i][j] matches Sub::Sink(k) && k == sslot) by {
        if i < g.len() {
            assert(g2[i] == g[i]);
            assert(sub_wired(g[i][j], g.len(), nfolds, nsinks));
        }
    }
}

/// Adding a subscription to `x` in a network where no subscription uses the slots
/// makes it their sole user.
pub proof fn lemma_sole_slots_new_sub<K>(g: Seq<Seq<Sub<K>>>, x: usize, s: Sub<K>, fslot: usize, sslot: usize)
    requires
        slots_unused(g, fslot, sslot),
        x < g.len(),
    ensures
        sole_fold(crate::network::subscribed(g, x, s), x, g[x as int].len() as int, fslot),
        sole_sink(crate::network::subscribed(g, x, s), x, g[x as int].len() as int, sslot),
{
    let g2 = crate::network::subscribed(g, x, s);
    assert forall|i: int, j: int|
        0 <= i < g2.len() && 0 <= j < g2[i].len() && (#[trigger] g2[i][j] matches Sub::Fold(_, f, _) && f == fslot)
        implies i == x && j == g[x as int].len() by {
        if !(i == x && j == g[x as int].len()) {
            assert(g2[i][j] == g[i][j]);
        }
    }
    assert forall|i: int, j: int|
        0 <= i < g2.len() && 0 <= j < g2[i].len() && (#[trigger] g2[i][j] matches Sub::Sink(k) && k == sslot)
        implies i == x && j == g[x as int].len() by {
        if !(i == x && j == g[x as int].len()) {
            assert(g2[i][j] == g[i][j]);
        }
    }
}

/// Left and right parts of a zipped signal; nothing for a plain one.
pub open spec fn left_of<S>(sig: Signal<S>) -> Seq<Signal<S>> {
    match sig {
        Signal::Zipped(e) => match *e {
            Either::Left(l) => seq![l],
            Either::Right(_) => Seq::empty(),
        },
        Signal::Value(_) => Seq::empty(),
    }
}

pub open spec fn right_of<S>(sig: Signal<S>) -> Seq<Signal<S>> {
    match sig {
        Signal::Zipped(e) => match *e {
            Either::Left(_) => Seq::empty(),
            Either::Right(r) => seq![r],
        },
        Signal::Value(_) => Seq::empty(),
    }
}

/// One side of a zipped signal: the left part when `left`, the right part otherwise.
pub open spec fn side_of<S>(left: bool, sig: Signal<S>) -> Seq<Signal<S>> {
    if left {
        left_of(sig)
    } else {
        right_of(sig)
    }
}

/// The multiset of the parts on one side of the signals that stream `z` emitted.
pub open spec fn split_bag<S>(t: Seq<(usize, Signal<S>)>, z: usize, left: bool) -> Multiset<Signal<S>>
    decreases t.len(),
{
    if t.len() == 0 {
        Multiset::empty()
    } else {
        let rest = split_bag(t.drop_last(), z, left);
        if t.last().0 == z {
            rest.add(side_of(left, t.last().1).to_multiset())
        } else {
            rest
        }
    }
}

/// Stream `a` is fed only by subscription `jz` of `z`, which unzips into two
/// distinct streams, `a` on the side given.
pub open spec fn splitter<K>(g: Seq<Seq<Sub<K>>>, z: usize, jz: int, a: usize, left: bool) -> bool {
    &&& z < g.len() && a < g.len() && z != a
    &&& 0 <= jz < g[z as int].len()
    &&& g[z as int][jz] matches Sub::Unzip(p, q) && p != q && (if left { p == a } else { q == a })
    &&& forall|i: int, j: int|
        0 <= i < g.len() && 0 <= j < g[i].len() && #[trigger] targets(g[i][j], a) ==> i == z && j == jz
}

pub open spec fn split_pending<S>(z: usize, jz: int, left: bool, node: usize, j: int, sig: Signal<S>) -> Multiset<Signal<S>> {
    if node == z && j <= jz {
        side_of(left, sig).to_multiset()
    } else {
        Multiset::empty()
    }
}

pub proof fn lemma_split_push<S>(t: Seq<(usize, Signal<S>)>, e: (usize, Signal<S>), z: usize, left: bool)
    ensures
        split_bag(t.push(e), z, left) == (if e.0 == z {
            split_bag(t, z, left).add(side_of(left, e.1).to_multiset())
        } else {
            split_bag(t, z, left)
        }),
{
    assert(t.push(e).drop_last() =~= t);
}

/// Emitting `sig` at a stream, and all it causes, brings `a` exactly the parts of
/// what `z` emitted, when the send completes.
pub proof fn lemma_deliver_split<S, K>(
    g: Seq<Seq<Sub<K>>>,
    node: usize,
    sig: Signal<S>,
    stack: Seq<usize>,
    o: Outcome<S, K>,
    rs: Seq<Option<Signal<S>>>,
    z: usize,
    jz: int,
    a: usize,
    left: bool,
)
    requires
        wired(g, o.folds.len(), o.sinks.len()),
        splitter(g, z, jz, a, left),
    ensures
        ({
            let res = deliver(g, node, sig, stack, o, rs);
            res.ok ==> outflow::<S, K>(a, res.trace).add(split_bag(o.trace, z, left)) =~= outflow::<S, K>(
                a,
                o.trace,
            ).add(split_bag(res.trace, z, left)).add(
                if node == a {
                    Multiset::singleton(sig)
                } else {
                    Multiset::empty()
                },
            )
        }),
    decreases g.len() - stack.len(), 0int, 0int,
{
    broadcast use vstd::multiset::group_multiset_axioms;
    if o.ok && !(node >= g.len() || stack.contains(node) || stack.len() >= g.len()) {
        let o1 = Outcome { trace: o.trace.push((node, sig)), ..o };
        lemma_split_push(o.trace, (node, sig), z, left);
        lemma_bag_push(o.trace, (node, sig), a, Sub::<K>::Forward(a));
        lemma_process_split_balanced(g, node, 0, sig, stack.push(node), o1, rs, z, jz, a, left);
        let res = deliver(g, node, sig, stack, o, rs);
        let p = split_pending(z, jz, left, node, 0, sig);
        let mm: Multiset<Signal<S>> = if node == a {
            Multiset::singleton(sig)
        } else {
            Multiset::empty()
        };
        assert(split_bag(o1.trace, z, left) =~= split_bag(o.trace, z, left).add(p));
        assert(outflow::<S, K>(a, o1.trace) =~= outflow::<S, K>(a, o.trace).add(mm));
        if res.ok {
            let x1 = outflow::<S, K>(a, res.trace).add(split_bag(o.trace, z, left));
            let x2 = outflow::<S, K>(a, o.trace).add(split_bag(res.trace, z, left)).add(mm);
            assert forall|v: Signal<S>| x1.count(v) == x2.count(v) by {
                assert(outflow::<S, K>(a, res.trace).add(split_bag(o1.trace, z, left)).count(v)
                    == outflow::<S, K>(a, o1.trace).add(split_bag(res.trace, z, left)).add(p).count(v));
            }
            assert(x1 =~= x2);
        }
    }
}

pub proof fn lemma_process_split_balanced<S, K>(
    g: Seq<Seq<Sub<K>>>,
    node: usize,
    j: int,
    sig: Signal<S>,
    stack: Seq<usize>,
    o: Outcome<S, K>,
    rs: Seq<Option<Signal<S>>>,
    z: usize,
    jz: int,
    a: usize,
    left: bool,
)
    requires
        wired(g, o.folds.len(), o.sinks.len()),
        splitter(g, z, jz, a, left),
        node < g.len(),
        0 <= j,
        stack.len() <= g.len(),
    ensures
        ({
            let res = process(g, node, j, sig, stack, o, rs);
            res.ok ==> outflow::<S, K>(a, res.trace).add(split_bag(o.trace, z, left)) =~= outflow::<S, K>(
                a,
                o.trace,
            ).add(split_bag(res.trace, z, left)).add(split_pending(z, jz, left, node, j, sig))
        }),
    decreases g.len() - stack.len(), 1int, g[node as int].len() - j,
{
    broadcast use vstd::multiset::group_multiset_axioms;
    if !o.ok || j < 0 || j >= g[node as int].len() || stack.len() > g.len() {
    } else {
        let after = step(g, node, j, sig, stack, o, rs);
        lemma_step_split_balanced(g, node, j, sig, stack, o, rs, z, jz, a, left);
        crate::semantics::lemma_step_grows(g, node, j, sig, stack, o, rs);
        lemma_process_split_balanced(g, node, j + 1, sig, stack, after, rs, z, jz, a, left);
        crate::semantics::lemma_process_grows(g, node, j + 1, sig, stack, after, rs);
        let res = process(g, node, j, sig, stack, o, rs);
        assert(res == process(g, node, j + 1, sig, stack, after, rs));
        let sp: Multiset<Signal<S>> = if node == z && j == jz {
            side_of(left, sig).to_multiset()
        } else {
            Multiset::empty()
        };
        let p0 = split_pending(z, jz, left, node, j, sig);
        let p1 = split_pending(z, jz, left, node, j + 1, sig);
        assert(p0 =~= sp.add(p1));
        if res.ok {
            let x1 = outflow::<S, K>(a, res.trace).add(split_bag(o.trace, z, left));
            let x2 = outflow::<S, K>(a, o.trace).add(split_bag(res.trace, z, left)).add(p0);
            assert forall|v: Signal<S>| x1.count(v) == x2.count(v) by {
                assert(outflow::<S, K>(a, after.trace).add(split_bag(o.trace, z, left)).count(v)
                    == outflow::<S, K>(a, o.trace).add(split_bag(after.trace, z, left)).add(sp).count(v));
                assert(outflow::<S, K>(a, res.trace).add(split_bag(after.trace, z, left)).count(v)
                    == outflow::<S, K>(a, after.trace).add(split_bag(res.trace, z, left)).add(p1).count(v));
            }
            assert(x1 =~= x2);
        }
    }
}

pub proof fn lemma_step_split_balanced<S, K>(
    g: Seq<Seq<Sub<K>>>,
    node: usize,
    j: int,
    sig: Signal<S>,
    stack: Seq<usize>,
    o: Outcome<S, K>,
    rs: Seq<Option<Signal<S>>>,
    z: usize,
    jz: int,
    a: usize,
    left: bool,
)
    requires
        wired(g, o.folds.len(), o.sinks.len()),
        splitter(g, z, jz, a, left),
        node < g.len(),
        0 <= j < g[node as int].len(),
        o.ok,
        stack.len() <= g.len(),
    ensures
        ({
            let res = step(g, node, j, sig, stack, o, rs);
            res.ok ==> outflow::<S, K>(a, res.trace).add(split_bag(o.trace, z, left)) =~= outflow::<S, K>(
                a,
                o.trace,
            ).add(split_bag(res.trace, z, left)).add(
                if node == z && j == jz {
                    side_of(left, sig).to_multiset()
                } else {
                    Multiset::empty()
                },
            )
        }),
    decreases g.len() - stack.len(), 1int, g[node as int].len() - j - 1,
{
    broadcast use vstd::multiset::group_multiset_axioms, vstd::seq_lib::group_to_multiset_ensures, vstd::multiset::lemma_multiset_empty_len;
    let r = crate::semantics::reply_at(rs, o.calls.len() as int);
    let sub = g[node as int][j];
    assert(sub_wired(sub, g.len(), o.folds.len(), o.sinks.len()));
    if targets(sub, a) {
        assert(node == z && j == jz);
    }
    match sub {
        Sub::Observe(k) => {},
        Sub::Apply(k, t) => {
            if let Some(v) = r {
                lemma_deliver_split(g, t, v, stack, with_call(o, crate::semantics::Call::Apply(k, sig)), rs, z, jz, a, left);
            }
        },
        Sub::Filter(k, t) => {
            if let Some(_) = r {
                lemma_deliver_split(g, t, sig, stack, with_call(o, crate::semantics::Call::Filter(k, sig)), rs, z, jz, a, left);
            }
        },
        Sub::FilterMap(k, t) => {
            if let Some(v) = r {
                lemma_deliver_split(g, t, v, stack, with_call(o, crate::semantics::Call::FilterMap(k, sig)), rs, z, jz, a, left);
            }
        },
        Sub::Fold(k, slot, t) => {
            if let Some(v) = r {
                let o1 = with_call(o, crate::semantics::Call::Fold(k, o.folds[slot as int], sig));
                lemma_deliver_split(g, t, v, stack, set_fold(o1, slot, v), rs, z, jz, a, left);
            }
        },
        Sub::Forward(t) => {
            lemma_deliver_split(g, t, sig, stack, o, rs, z, jz, a, left);
        },
        Sub::ZipLeft(t) => {
            lemma_deliver_split(g, t, tag_left(sig), stack, o, rs, z, jz, a, left);
        },
        Sub::ZipRight(t) => {
            lemma_deliver_split(g, t, tag_right(sig), stack, o, rs, z, jz, a, left);
        },
        Sub::Unzip(p, q) => match sig {
            Signal::Zipped(e) => match *e {
                Either::Left(l) => {
                    lemma_deliver_split(g, p, l, stack, o, rs, z, jz, a, left);
                    assert(left_of(sig) == seq![l]);
                    assert(right_of(sig) =~= Seq::<Signal<S>>::empty());
                    assert(seq![l] == Seq::<Signal<S>>::empty().push(l));
                    assert(seq![l].to_multiset() =~= Multiset::singleton(l));
                },
                Either::Right(rr) => {
                    lemma_deliver_split(g, q, rr, stack, o, rs, z, jz, a, left);
                    assert(right_of(sig) == seq![rr]);
                    assert(left_of(sig) =~= Seq::<Signal<S>>::empty());
                    assert(seq![rr] == Seq::<Signal<S>>::empty().push(rr));
                    assert(seq![rr].to_multiset() =~= Multiset::singleton(rr));
                },
            },
            Signal::Value(_) => {
                assert(left_of(sig) =~= Seq::<Signal<S>>::empty());
                assert(right_of(sig) =~= Seq::<Signal<S>>::empty());
            },
        },
        Sub::Sink(slot) => {},
    }
}

/// The parts on one side of what `z` emitted are counted by the tagged signals it
/// emitted.
pub proof fn lemma_split_count<S>(t: Seq<(usize, Signal<S>)>, z: usize, left: bool, v: Signal<S>)
    ensures
        split_bag(t, z, left).count(v) == emissions(t, z).to_multiset().count(
            if left {
                tag_left(v)
            } else {
                tag_right(v)
            },
        ),
    decreases t.len(),
{
    broadcast use vstd::multiset::group_multiset_axioms, vstd::seq_lib::group_to_multiset_ensures, vstd::multiset::lemma_multiset_empty_len;
    let tv = if left {
        tag_left(v)
    } else {
        tag_right(v)
    };
    if t.len() == 0 {
        assert(emissions(t, z).to_multiset().len() == 0);
    } else {
        lemma_split_count(t.drop_last(), z, left, v);
        let s = t.last().1;
        if t.last().0 == z {
            let part = side_of(left, s);
            match s {
                Signal::Zipped(e) => match *e {
                    Either::Left(l) => {
                        assert(s == tag_left(l));
                        if left {
                            assert(part == seq![l]);
                            assert(seq![l] == Seq::<Signal<S>>::empty().push(l));
                            assert(seq![l].to_multiset() =~= Multiset::singleton(l));
                            assert((s == tv) == (l == v));
                        } else {
                            assert(part =~= Seq::<Signal<S>>::empty());
                            assert(s != tv);
                        }
                    },
                    Either::Right(r) => {
                        assert(s == tag_right(r));
                        if left {
                            assert(part =~= Seq::<Signal<S>>::empty());
                            assert(s != tv);
                        } else {
                            assert(part == seq![r]);
                            assert(seq![r] == Seq::<Signal<S>>::empty().push(r));
                            assert(seq![r].to_multiset() =~= Multiset::singleton(r));
                            assert((s == tv) == (r == v));
                        }
                    },
                },
                Signal::Value(_) => {
                    assert(part =~= Seq::<Signal<S>>::empty());
                },
            }
        }
    }
}

/// Tagging keeps the count of each signal and never gives the other tag.
pub proof fn lemma_tag_count<S>(s: Seq<Signal<S>>, v: Signal<S>)
    ensures
        s.map_values(|w: Signal<S>| tag_left(w)).to_multiset().count(tag_left(v)) == s.to_multiset().count(v),
        s.map_values(|w: Signal<S>| tag_right(w)).to_multiset().count(tag_right(v)) == s.to_multiset().count(v),
        s.map_values(|w: Signal<S>| tag_right(w)).to_multiset().count(tag_left(v)) == 0,
        s.map_values(|w: Signal<S>| tag_left(w)).to_multiset().count(tag_right(v)) == 0,
    decreases s.len(),
{
    broadcast use vstd::multiset::group_multiset_axioms, vstd::seq_lib::group_to_multiset_ensures, vstd::multiset::lemma_multiset_empty_len;
    let ml = s.map_values(|w: Signal<S>| tag_left(w));
    let mr = s.map_values(|w: Signal<S>| tag_right(w));
    if s.len() == 0 {
        assert(ml.to_multiset().len() == 0);
        assert(mr.to_multiset().len() == 0);
        assert(s.to_multiset().len() == 0);
    } else {
        let init = s.drop_last();
        lemma_tag_count(init, v);
        assert(s =~= init.push(s.last()));
        assert(ml =~= init.map_values(|w: Signal<S>| tag_left(w)).push(tag_left(s.last())));
        assert(mr =~= init.map_values(|w: Signal<S>| tag_right(w)).push(tag_right(s.last())));
        assert((tag_left(s.last()) == tag_left(v)) == (s.last() == v));
        assert((tag_right(s.last()) == tag_right(v)) == (s.last() == v));
    }
}

/// The subscription sends only to streams after `i`.
pub open spec fn sends_after<K>(s: Sub<K>, i: int) -> bool {
    match s {
        Sub::Observe(_) => true,
        Sub::Apply(_, t) => t > i,
        Sub::Filter(_, t) => t > i,
        Sub::FilterMap(_, t) => t > i,
        Sub::Fold(_, _, t) => t > i,
        Sub::Forward(t) => t > i,
        Sub::ZipLeft(t) => t > i,
        Sub::ZipRight(t) => t > i,
        Sub::Unzip(a, b) => a > i && b > i,
        Sub::Sink(_) => true,
    }
}

/// Every subscription sends only to streams made after its own.
pub open spec fn forward<K>(g: Seq<Seq<Sub<K>>>) -> bool {
    forall|i: int, j: int| 0 <= i < g.len() && 0 <= j < g[i].len() ==> sends_after(#[trigger] g[i][j], i)
}

/// The streams of `stack` are in increasing order and all before `bound`.
pub open spec fn rising_below(stack: Seq<usize>, bound: int) -> bool {
    &&& forall|k1: int, k2: int| 0 <= k1 < k2 < stack.len() ==> stack[k1] < stack[k2]
    &&& forall|k: int| 0 <= k < stack.len() ==> stack[k] < bound
}

proof fn lemma_rising_len(stack: Seq<usize>, bound: int)
    requires
        rising_below(stack, bound),
        bound >= 0,
    ensures
        stack.len() <= bound,
    decreases stack.len(),
{
    if stack.len() > 0 {
        let init = stack.drop_last();
        let last = stack.last();
        assert(rising_below(init, last as int)) by {
            assert forall|k: int| 0 <= k < init.len() implies init[k] < last by {
                assert(stack[k] < stack[stack.len() - 1]);
            }
        }
        lemma_rising_len(init, last as int);
        assert(stack[stack.len() - 1] < bound);
    }
}

/// A send on a network wired forward never reaches a stream that is still
/// emitting.
pub proof fn lemma_deliver_completes<S, K>(
    g: Seq<Seq<Sub<K>>>,
    node: usize,
    sig: Signal<S>,
    stack: Seq<usize>,
    o: Outcome<S, K>,
    rs: Seq<Option<Signal<S>>>,
)
    requires
        wired(g, o.folds.len(), o.sinks.len()),
        forward(g),
        o.ok,
        node < g.len(),
        rising_below(stack, node as int),
    ensures
        deliver(g, node, sig, stack, o, rs).ok,
    decreases g.len() - stack.len(), 0int, 0int,
{
    lemma_rising_len(stack, node as int);
    assert(!stack.contains(node)) by {
        if stack.contains(node) {
            let k = choose|k: int| 0 <= k < stack.len() && stack[k] == node;
            assert(stack[k] < node);
        }
    }
    let st = stack.push(node);
    assert(rising_below(st, g.len() as int));
    lemma_process_completes(g, node, 0, sig, st, Outcome { trace: o.trace.push((node, sig)), ..o }, rs);
}

pub proof fn lemma_process_completes<S, K>(
    g: Seq<Seq<Sub<K>>>,
    node: usize,
    j: int,
    sig: Signal<S>,
    stack: Seq<usize>,
    o: Outcome<S, K>,
    rs: Seq<Option<Signal<S>>>,
)
    requires
        wired(g, o.folds.len(), o.sinks.len()),
        forward(g),
        o.ok,
        node < g.len(),
        stack.len() > 0,
        stack.last() == node,
        rising_below(stack, g.len() as int),
    ensures
        process(g, node, j, sig, stack, o, rs).ok,
    decreases g.len() - stack.len(), 1int, g[node as int].len() - j,
{
    if j < 0 || j >= g[node as int].len() || stack.len() > g.len() {
    } else {
        let after = step(g, node, j, sig, stack, o, rs);
        lemma_step_completes(g, node, j, sig, stack, o, rs);
        crate::semantics::lemma_step_grows(g, node, j, sig, stack, o, rs);
        lemma_process_completes(g, node, j + 1, sig, stack, after, rs);
    }
}

pub proof fn lemma_step_completes<S, K>(
    g: Seq<Seq<Sub<K>>>,
    node: usize,
    j: int,
    sig: Signal<S>,
    stack: Seq<usize>,
    o: Outcome<S, K>,
    rs: Seq<Option<Signal<S>>>,
)
    requires
        wired(g, o.folds.len(), o.sinks.len()),
        forward(g),
        o.ok,
        node < g.len(),
        stack.len() > 0,
        stack.last() == node,
        rising_below(stack, g.len() as int),
    ensures
        step(g, node, j, sig, stack, o, rs).ok,
    decreases g.len() - stack.len(), 1int, g[node as int].len() - j - 1,
{
    if j < 0 || j >= g[node as int].len() || stack.len() > g.len() {
    } else {
        let r = crate::semantics::reply_at(rs, o.calls.len() as int);
        let sub = g[node as int][j];
        assert(sub_wired(sub, g.len(), o.folds.len(), o.sinks.len()));
        assert(sends_after(sub, node as int));
        assert forall|t: usize| t > node implies rising_below(stack, t as int) by {
            assert forall|k: int| 0 <= k < stack.len() implies stack[k] < t by {
                if k < stack.len() - 1 {
                    assert(stack[k] < stack[stack.len() - 1]);
                }
            }
        }
        match sub {
            Sub::Observe(k) => {},
            Sub::Apply(k, t) => {
                if let Some(v) = r {
                    lemma_deliver_completes(g, t, v, stack, with_call(o, crate::semantics::Call::Apply(k, sig)), rs);
                }
            },
            Sub::Filter(k, t) => {
                if let Some(_) = r {
                    lemma_deliver_completes(g, t, sig, stack, with_call(o, crate::semantics::Call::Filter(k, sig)), rs);
                }
            },
            Sub::FilterMap(k, t) => {
                if let Some(v) = r {
                    lemma_deliver_completes(g, t, v, stack, with_call(o, crate::semantics::Call::FilterMap(k, sig)), rs);
                }
            },
            Sub::Fold(k, slot, t) => {
                if let Some(v) = r {
                    let o1 = with_call(o, crate::semantics::Call::Fold(k, o.folds[slot as int], sig));
                    lemma_deliver_completes(g, t, v, stack, set_fold(o1, slot, v), rs);
                }
            },
            Sub::Forward(t) => {
                lemma_deliver_completes(g, t, sig, stack, o, rs);
            },
            Sub::ZipLeft(t) => {
                lemma_deliver_completes(g, t, tag_left(sig), stack, o, rs);
            },
            Sub::ZipRight(t) => {
                lemma_deliver_completes(g, t, tag_right(sig), stack, o, rs);
            },
            Sub::Unzip(a, b) => match sig {
                Signal::Zipped(e) => match *e {
                    Either::Left(l) => {
                        lemma_deliver_completes(g, a, l, stack, o, rs);
                    },
                    Either::Right(x) => {
                        lemma_deliver_completes(g, b, x, stack, o, rs);
                    },
                },
                Signal::Value(_) => {},
            },
            Sub::Sink(slot) => {},
        }
    }
}

pub proof fn lemma_forward_push<K>(g: Seq<Seq<Sub<K>>>)
    requires
        forward(g),
    ensures
        forward(g.push(Seq::empty())),
{
    let g2 = g.push(Seq::empty());
    assert forall|i: int, j: int| 0 <= i < g2.len() && 0 <= j < g2[i].len() implies sends_after(#[trigger] g2[i][j], i) by {
        assert(g2[i] == g[i]);
    }
}

pub proof fn lemma_forward_sub<K>(g: Seq<Seq<Sub<K>>>, x: usize, s: Sub<K>)
    requires
        forward(g),
        x < g.len(),
        sends_after(s, x as int),
    ensures
        forward(crate::network::subscribed(g, x, s)),
{
    let g2 = crate::network::subscribed(g, x, s);
    assert forall|i: int, j: int| 0 <= i < g2.len() && 0 <= j < g2[i].len() implies sends_after(#[trigger] g2[i][j], i) by {
        if !(i == x && j == g[x as int].len()) {
            assert(g2[i][j] == g[i][j]);
        }
    }
}

/// Only subscriptions of `m1` send to `m2`.
pub open spec fn fed_by<K>(g: Seq<Seq<Sub<K>>>, m1: usize, m2: usize) -> bool {
    forall|i: int, j: int| 0 <= i < g.len() && 0 <= j < g[i].len() && #[trigger] targets(g[i][j], m2) ==> i == m1
}

/// A send that enters neither `m1` nor `m2` first, while every subscription that
/// sends to `m1` belongs to a stream still emitting and only `m1` sends to `m2`,
/// never makes `m2` emit.
pub proof fn lemma_deliver_shadow<S, K>(
    g: Seq<Seq<Sub<K>>>,
    node: usize,
    sig: Signal<S>,
    stack: Seq<usize>,
    o: Outcome<S, K>,
    rs: Seq<Option<Signal<S>>>,
    m1: usize,
    m2: usize,
)
    requires
        wired(g, o.folds.len(), o.sinks.len()),
        node != m1,
        node != m2,
        guarded(g, m1 as int, -1, -1, stack),
        fed_by(g, m1, m2),
    ensures
        emissions(deliver(g, node, sig, stack, o, rs).trace, m2) == emissions(o.trace, m2),
    decreases g.len() - stack.len(), 0int, 0int,
{
    if o.ok && !(node >= g.len() || stack.contains(node) || stack.len() >= g.len()) {
        let o1 = Outcome { trace: o.trace.push((node, sig)), ..o };
        lemma_emissions_push(o.trace, (node, sig), m2);
        assert forall|j: int| 0 <= j < g[node as int].len() implies !targets(#[trigger] g[node as int][j], m1) by {
            if targets(g[node as int][j], m1) {
                assert(touches(g[node as int][j], m1 as int, -1, -1));
            }
        }
        assert(guarded(g, m1 as int, -1, -1, stack.push(node))) by {
            assert forall|i: int, j: int|
                0 <= i < g.len() && 0 <= j < g[i].len() && #[trigger] touches(g[i][j], m1 as int, -1, -1)
                implies stack.push(node).contains(i as usize) by {
                assert(stack.contains(i as usize));
                let k = choose|k: int| 0 <= k < stack.len() && stack[k] == i as usize;
                assert(stack.push(node)[k] == i as usize);
            }
        }
        lemma_process_shadow(g, node, 0, sig, stack.push(node), o1, rs, m1, m2);
    }
}

pub proof fn lemma_process_shadow<S, K>(
    g: Seq<Seq<Sub<K>>>,
    node: usize,
    j: int,
    sig: Signal<S>,
    stack: Seq<usize>,
    o: Outcome<S, K>,
    rs: Seq<Option<Signal<S>>>,
    m1: usize,
    m2: usize,
)
    requires
        wired(g, o.folds.len(), o.sinks.len()),
        guarded(g, m1 as int, -1, -1, stack),
        fed_by(g, m1, m2),
        node < g.len(),
        node != m1,
        forall|j2: int| j <= j2 < g[node as int].len() ==> !targets(#[trigger] g[node as int][j2], m1),
    ensures
        emissions(process(g, node, j, sig, stack, o, rs).trace, m2) == emissions(o.trace, m2),
    decreases g.len() - stack.len(), 1int, g[node as int].len() - j,
{
    if !o.ok || j < 0 || j >= g[node as int].len() || stack.len() > g.len() {
    } else {
        let after = step(g, node, j, sig, stack, o, rs);
        lemma_step_shadow(g, node, j, sig, stack, o, rs, m1, m2);
        crate::semantics::lemma_step_grows(g, node, j, sig, stack, o, rs);
        lemma_process_shadow(g, node, j + 1, sig, stack, after, rs, m1, m2);
    }
}

pub proof fn lemma_step_shadow<S, K>(
    g: Seq<Seq<Sub<K>>>,
    node: usize,
    j: int,
    sig: Signal<S>,
    stack: Seq<usize>,
    o: Outcome<S, K>,
    rs: Seq<Option<Signal<S>>>,
    m1: usize,
    m2: usize,
)
    requires
        wired(g, o.folds.len(), o.sinks.len()),
        guarded(g, m1 as int, -1, -1, stack),
        fed_by(g, m1, m2),
        node < g.len(),
        node != m1,
        0 <= j < g[node as int].len() ==> !targets(g[node as int][j], m1),
    ensures
        emissions(step(g, node, j, sig, stack, o, rs).trace, m2) == emissions(o.trace, m2),
    decreases g.len() - stack.len(), 1int, g[node as int].len() - j - 1,
{
    if !o.ok || j < 0 || j >= g[node as int].len() || stack.len() > g.len() {
    } else {
        let r = crate::semantics::reply_at(rs, o.calls.len() as int);
        assert(sub_wired(g[node as int][j], g.len(), o.folds.len(), o.sinks.len()));
        assert(!targets(g[node as int][j], m2));
        match g[node as int][j] {
            Sub::Observe(k) => {},
            Sub::Apply(k, t) => {
                if let Some(v) = r {
                    lemma_deliver_shadow(g, t, v, stack, with_call(o, crate::semantics::Call::Apply(k, sig)), rs, m1, m2);
                }
            },
            Sub::Filter(k, t) => {
                if let Some(_) = r {
                    lemma_deliver_shadow(g, t, sig, stack, with_call(o, crate::semantics::Call::Filter(k, sig)), rs, m1, m2);
                }
            },
            Sub::FilterMap(k, t) => {
                if let Some(v) = r {
                    lemma_deliver_shadow(g, t, v, stack, with_call(o, crate::semantics::Call::FilterMap(k, sig)), rs, m1, m2);
                }
            },
            Sub::Fold(k, slot, t) => {
                if let Some(v) = r {
                    let o1 = with_call(o, crate::semantics::Call::Fold(k, o.folds[slot as int], sig));
                    lemma_deliver_shadow(g, t, v, stack, set_fold(o1, slot, v), rs, m1, m2);
                }
            },
            Sub::Forward(t) => {
                lemma_deliver_shadow(g, t, sig, stack, o, rs, m1, m2);
            },
            Sub::ZipLeft(t) => {
                lemma_deliver_shadow(g, t, tag_left(sig), stack, o, rs, m1, m2);
            },
            Sub::ZipRight(t) => {
                lemma_deliver_shadow(g, t, tag_right(sig), stack, o, rs, m1, m2);
            },
            Sub::Unzip(a, b) => match sig {
                Signal::Zipped(e) => match *e {
                    Either::Left(l) => {
                        lemma_deliver_shadow(g, a, l, stack, o, rs, m1, m2);
                    },
                    Either::Right(x) => {
                        lemma_deliver_shadow(g, b, x, stack, o, rs, m1, m2);
                    },
                },
                Signal::Value(_) => {},
            },
            Sub::Sink(slot) => {},
        }
    }
}

pub proof fn lemma_run_subs_shadow<S, K>(
    g: Seq<Seq<Sub<K>>>,
    node: usize,
    j: int,
    stop: int,
    sig: Signal<S>,
    stack: Seq<usize>,
    o: Outcome<S, K>,
    rs: Seq<Option<Signal<S>>>,
    m1: usize,
    m2: usize,
)
    requires
        wired(g, o.folds.len(), o.sinks.len()),
        guarded(g, m1 as int, -1, -1, stack),
        fed_by(g, m1, m2),
        node < g.len(),
        node != m1,
        0 <= j,
        stop <= g[node as int].len(),
        forall|j2: int| j <= j2 < stop ==> !targets(#[trigger] g[node as int][j2], m1),
    ensures
        emissions(run_subs(g, node, j, stop, sig, stack, o, rs).trace, m2) == emissions(o.trace, m2),
    decreases stop - j,
{
    if j < stop {
        let after = step(g, node, j, sig, stack, o, rs);
        lemma_step_shadow(g, node, j, sig, stack, o, rs, m1, m2);
        crate::semantics::lemma_step_grows(g, node, j, sig, stack, o, rs);
        lemma_run_subs_shadow(g, node, j + 1, stop, sig, stack, after, rs, m1, m2);
    }
}

/// A stream that is still emitting emits nothing more: reaching it again fails.
pub proof fn lemma_deliver_pinned<S, K>(
    g: Seq<Seq<Sub<K>>>,
    node: usize,
    sig: Signal<S>,
    stack: Seq<usize>,
    o: Outcome<S, K>,
    rs: Seq<Option<Signal<S>>>,
    p: usize,
)
    requires
        stack.contains(p),
    ensures
        emissions(deliver(g, node, sig, stack, o, rs).trace, p) == emissions(o.trace, p),
    decreases g.len() - stack.len(), 0int, 0int,
{
    if o.ok && !(node >= g.len() || stack.contains(node) || stack.len() >= g.len()) {
        let o1 = Outcome { trace: o.trace.push((node, sig)), ..o };
        lemma_emissions_push(o.trace, (node, sig), p);
        let k = choose|k: int| 0 <= k < stack.len() && stack[k] == p;
        assert(stack.push(node)[k] == p);
        lemma_process_pinned(g, node, 0, sig, stack.push(node), o1, rs, p);
    }
}

pub proof fn lemma_process_pinned<S, K>(
    g: Seq<Seq<Sub<K>>>,
    node: usize,
    j: int,
    sig: Signal<S>,
    stack: Seq<usize>,
    o: Outcome<S, K>,
    rs: Seq<Option<Signal<S>>>,
    p: usize,
)
    requires
        stack.contains(p),
    ensures
        emissions(process(g, node, j, sig, stack, o, rs).trace, p) == emissions(o.trace, p),
    decreases g.len() - stack.len(), 1int, g[node as int].len() - j,
{
    if !o.ok || j < 0 || j >= g[node as int].len() || stack.len() > g.len() {
    } else {
        lemma_step_pinned(g, node, j, sig, stack, o, rs, p);
        lemma_process_pinned(g, node, j + 1, sig, stack, step(g, node, j, sig, stack, o, rs), rs, p);
    }
}

pub proof fn lemma_step_pinned<S, K>(
    g: Seq<Seq<Sub<K>>>,
    node: usize,
    j: int,
    sig: Signal<S>,
    stack: Seq<usize>,
    o: Outcome<S, K>,
    rs: Seq<Option<Signal<S>>>,
    p: usize,
)
    requires
        stack.contains(p),
    ensures
        emissions(step(g, node, j, sig, stack, o, rs).trace, p) == emissions(o.trace, p),
    decreases g.len() - stack.len(), 1int, g[node as int].len() - j - 1,
{
    if !o.ok || j < 0 || j >= g[node as int].len() || stack.len() > g.len() {
    } else {
        let r = crate::semantics::reply_at(rs, o.calls.len() as int);
        match g[node as int][j] {
            Sub::Observe(k) => {},
            Sub::Apply(k, t) => {
                if let Some(v) = r {
                    lemma_deliver_pinned(g, t, v, stack, with_call(o, crate::semantics::Call::Apply(k, sig)), rs, p);
                }
            },
            Sub::Filter(k, t) => {
                if let Some(_) = r {
                    lemma_deliver_pinned(g, t, sig, stack, with_call(o, crate::semantics::Call::Filter(k, sig)), rs, p);
                }
            },
            Sub::FilterMap(k, t) => {
                if let Some(v) = r {
                    lemma_deliver_pinned(g, t, v, stack, with_call(o, crate::semantics::Call::FilterMap(k, sig)), rs, p);
                }
            },
            Sub::Fold(k, slot, t) => {
                if let Some(v) = r {
                    let o1 = with_call(o, crate::semantics::Call::Fold(k, o.folds[slot as int], sig));
                    lemma_deliver_pinned(g, t, v, stack, set_fold(o1, slot, v), rs, p);
                }
            },
            Sub::Forward(t) => {
                lemma_deliver_pinned(g, t, sig, stack, o, rs, p);
            },
            Sub::ZipLeft(t) => {
                lemma_deliver_pinned(g, t, tag_left(sig), stack, o, rs, p);
            },
            Sub::ZipRight(t) => {
                lemma_deliver_pinned(g, t, tag_right(sig), stack, o, rs, p);
            },
            Sub::Unzip(a, b) => match sig {
                Signal::Zipped(e) => match *e {
                    Either::Left(l) => {
                        lemma_deliver_pinned(g, a, l, stack, o, rs, p);
                    },
                    Either::Right(x) => {
                        lemma_deliver_pinned(g, b, x, stack, o, rs, p);
                    },
                },
                Signal::Value(_) => {},
            },
            Sub::Sink(slot) => {},
        }
    }
}

/// The key of the user function that call `c` names.
pub open spec fn key_of<S, K>(c: crate::semantics::Call<S, K>) -> K {
    match c {
        crate::semantics::Call::Observe(k, _) => k,
        crate::semantics::Call::Apply(k, _) => k,
        crate::semantics::Call::Filter(k, _) => k,
        crate::semantics::Call::FilterMap(k, _) => k,
        crate::semantics::Call::Fold(k, _, _) => k,
    }
}

/// Subscription `s` calls the user function `k`.
pub open spec fn uses<K>(s: Sub<K>, k: K) -> bool {
    match s {
        Sub::Observe(a) => a == k,
        Sub::Apply(a, _) => a == k,
        Sub::Filter(a, _) => a == k,
        Sub::FilterMap(a, _) => a == k,
        Sub::Fold(a, _, _) => a == k,
        _ => false,
    }
}

/// The call that subscription `s`, which calls a user function, makes for `sig`
/// when the fold accumulators are `folds`.
pub open spec fn call_for<S, K>(s: Sub<K>, sig: Signal<S>, folds: Seq<Signal<S>>) -> crate::semantics::Call<S, K>
    recommends
        s is Observe || s is Apply || s is Filter || s is FilterMap || s is Fold,
{
    match s {
        Sub::Observe(k) => crate::semantics::Call::Observe(k, sig),
        Sub::Apply(k, _) => crate::semantics::Call::Apply(k, sig),
        Sub::Filter(k, _) => crate::semantics::Call::Filter(k, sig),
        Sub::FilterMap(k, _) => crate::semantics::Call::FilterMap(k, sig),
        Sub::Fold(k, slot, _) => crate::semantics::Call::Fold(k, folds[slot as int], sig),
        _ => arbitrary(),
    }
}

/// The calls of `calls` that name user function `k`, in order.
pub open spec fn keyed<S, K>(calls: Seq<crate::semantics::Call<S, K>>, k: K) -> Seq<crate::semantics::Call<S, K>>
    decreases calls.len(),
{
    if calls.len() == 0 {
        Seq::empty()
    } else {
        let rest = keyed(calls.drop_last(), k);
        if key_of(calls.last()) == k {
            rest.push(calls.last())
        } else {
            rest
        }
    }
}

pub proof fn lemma_keyed_push<S, K>(calls: Seq<crate::semantics::Call<S, K>>, c: crate::semantics::Call<S, K>, k: K)
    ensures
        keyed(calls.push(c), k) == (if key_of(c) == k {
            keyed(calls, k).push(c)
        } else {
            keyed(calls, k)
        }),
{
    assert(calls.push(c).drop_last() =~= calls);
}

/// Only streams of `stack` have subscriptions that call `k`.
pub open spec fn key_guarded<K>(g: Seq<Seq<Sub<K>>>, k: K, stack: Seq<usize>) -> bool {
    forall|i: int, j: int|
        0 <= i < g.len() && 0 <= j < g[i].len() && #[trigger] uses(g[i][j], k) ==> stack.contains(i as usize)
}

/// Subscription `j0` of `x` is the only one that calls `k`.
pub open spec fn sole_key<K>(g: Seq<Seq<Sub<K>>>, x: usize, j0: int, k: K) -> bool {
    forall|i: int, j: int| 0 <= i < g.len() && 0 <= j < g[i].len() && #[trigger] uses(g[i][j], k) ==> i == x && j == j0
}

/// A send that enters streams none of whose subscriptions call `k` makes no call to `k`.
pub proof fn lemma_deliver_keyed<S, K>(
    g: Seq<Seq<Sub<K>>>,
    node: usize,
    sig: Signal<S>,
    stack: Seq<usize>,
    o: Outcome<S, K>,
    rs: Seq<Option<Signal<S>>>,
    k: K,
)
    requires
        key_guarded(g, k, stack),
    ensures
        keyed(deliver(g, node, sig, stack, o, rs).calls, k) == keyed(o.calls, k),
    decreases g.len() - stack.len(), 0int, 0int,
{
    if o.ok && !(node >= g.len() || stack.contains(node) || stack.len() >= g.len()) {
        let o1 = Outcome { trace: o.trace.push((node, sig)), ..o };
        assert forall|j: int| 0 <= j < g[node as int].len() implies !#[trigger] uses(g[node as int][j], k) by {}
        assert(key_guarded(g, k, stack.push(node))) by {
            assert forall|i: int, j: int|
                0 <= i < g.len() && 0 <= j < g[i].len() && #[trigger] uses(g[i][j], k)
                implies stack.push(node).contains(i as usize) by {
                assert(stack.contains(i as usize));
                let q = choose|q: int| 0 <= q < stack.len() && stack[q] == i as usize;
                assert(stack.push(node)[q] == i as usize);
            }
        }
        lemma_process_keyed(g, node, 0, sig, stack.push(node), o1, rs, k);
    }
}

pub proof fn lemma_process_keyed<S, K>(
    g: Seq<Seq<Sub<K>>>,
    node: usize,
    j: int,
    sig: Signal<S>,
    stack: Seq<usize>,
    o: Outcome<S, K>,
    rs: Seq<Option<Signal<S>>>,
    k: K,
)
    requires
        key_guarded(g, k, stack),
        node < g.len(),
        forall|j2: int| j <= j2 < g[node as int].len() ==> !#[trigger] uses(g[node as int][j2], k),
    ensures
        keyed(process(g, node, j, sig, stack, o, rs).calls, k) == keyed(o.calls, k),
    decreases g.len() - stack.len(), 1int, g[node as int].len() - j,
{
    if !o.ok || j < 0 || j >= g[node as int].len() || stack.len() > g.len() {
    } else {
        lemma_step_keyed(g, node, j, sig, stack, o, rs, k);
        lemma_process_keyed(g, node, j + 1, sig, stack, step(g, node, j, sig, stack, o, rs), rs, k);
    }
}

pub proof fn lemma_step_keyed<S, K>(
    g: Seq<Seq<Sub<K>>>,
    node: usize,
    j: int,
    sig: Signal<S>,
    stack: Seq<usize>,
    o: Outcome<S, K>,
    rs: Seq<Option<Signal<S>>>,
    k: K,
)
    requires
        key_guarded(g, k, stack),
        node < g.len(),
        0 <= j < g[node as int].len() ==> !uses(g[node as int][j], k),
    ensures
        keyed(step(g, node, j, sig, stack, o, rs).calls, k) == keyed(o.calls, k),
    decreases g.len() - stack.len(), 1int, g[node as int].len() - j - 1,
{
    if !o.ok || j < 0 || j >= g[node as int].len() || stack.len() > g.len() {
    } else {
        let r = crate::semantics::reply_at(rs, o.calls.len() as int);
        match g[node as int][j] {
            Sub::Observe(a) => {
                lemma_keyed_push(o.calls, crate::semantics::Call::Observe(a, sig), k);
            },
            Sub::Apply(a, t) => {
                let c = crate::semantics::Call::Apply(a, sig);
                lemma_keyed_push(o.calls, c, k);
                if let Some(v) = r {
                    lemma_deliver_keyed(g, t, v, stack, with_call(o, c), rs, k);
                }
            },
            Sub::Filter(a, t) => {
                let c = crate::semantics::Call::Filter(a, sig);
                lemma_keyed_push(o.calls, c, k);
                if let Some(_) = r {
                    lemma_deliver_keyed(g, t, sig, stack, with_call(o, c), rs, k);
                }
            },
            Sub::FilterMap(a, t) => {
                let c = crate::semantics::Call::FilterMap(a, sig);
                lemma_keyed_push(o.calls, c, k);
                if let Some(v) = r {
                    lemma_deliver_keyed(g, t, v, stack, with_call(o, c), rs, k);
                }
            },
            Sub::Fold(a, slot, t) => {
                let c = crate::semantics::Call::Fold(a, o.folds[slot as int], sig);
                lemma_keyed_push(o.calls, c, k);
                if let Some(v) = r {
                    lemma_deliver_keyed(g, t, v, stack, set_fold(with_call(o, c), slot, v), rs, k);
                }
            },
            Sub::Forward(t) => {
                lemma_deliver_keyed(g, t, sig, stack, o, rs, k);
            },
            Sub::ZipLeft(t) => {
                lemma_deliver_keyed(g, t, tag_left(sig), stack, o, rs, k);
            },
            Sub::ZipRight(t) => {
                lemma_deliver_keyed(g, t, tag_right(sig), stack, o, rs, k);
            },
            Sub::Unzip(a, b) => match sig {
                Signal::Zipped(e) => match *e {
                    Either::Left(l) => {
                        lemma_deliver_keyed(g, a, l, stack, o, rs, k);
                    },
                    Either::Right(x) => {
                        lemma_deliver_keyed(g, b, x, stack, o, rs, k);
                    },
                },
                Signal::Value(_) => {},
            },
            Sub::Sink(slot) => {},
        }
    }
}

/// The subscription that calls `k` runs: the calls naming `k` gain its call.
pub proof fn lemma_step_calls_key<S, K>(
    g: Seq<Seq<Sub<K>>>,
    node: usize,
    j: int,
    sig: Signal<S>,
    stack: Seq<usize>,
    o: Outcome<S, K>,
    rs: Seq<Option<Signal<S>>>,
    k: K,
)
    requires
        key_guarded(g, k, stack),
        node < g.len(),
        0 <= j < g[node as int].len(),
        stack.len() <= g.len(),
        o.ok,
        uses(g[node as int][j], k),
    ensures
        keyed(step(g, node, j, sig, stack, o, rs).calls, k) == keyed(o.calls, k).push(
            call_for(g[node as int][j], sig, o.folds),
        ),
{
    let r = crate::semantics::reply_at(rs, o.calls.len() as int);
    let c = call_for::<S, K>(g[node as int][j], sig, o.folds);
    lemma_keyed_push(o.calls, c, k);
    match g[node as int][j] {
        Sub::Observe(a) => {},
        Sub::Apply(a, t) => {
            if let Some(v) = r {
                lemma_deliver_keyed(g, t, v, stack, with_call(o, c), rs, k);
            }
        },
        Sub::Filter(a, t) => {
            if let Some(_) = r {
                lemma_deliver_keyed(g, t, sig, stack, with_call(o, c), rs, k);
            }
        },
        Sub::FilterMap(a, t) => {
            if let Some(v) = r {
                lemma_deliver_keyed(g, t, v, stack, with_call(o, c), rs, k);
            }
        },
        Sub::Fold(a, slot, t) => {
            if let Some(v) = r {
                lemma_deliver_keyed(g, t, v, stack, set_fold(with_call(o, c), slot, v), rs, k);
            }
        },
        _ => {},
    }
}

pub proof fn lemma_run_subs_keyed<S, K>(
    g: Seq<Seq<Sub<K>>>,
    node: usize,
    j: int,
    stop: int,
    sig: Signal<S>,
    stack: Seq<usize>,
    o: Outcome<S, K>,
    rs: Seq<Option<Signal<S>>>,
    k: K,
)
    requires
        key_guarded(g, k, stack),
        node < g.len(),
        0 <= j,
        stop <= g[node as int].len(),
        forall|j2: int| j <= j2 < stop ==> !#[trigger] uses(g[node as int][j2], k),
    ensures
        keyed(run_subs(g, node, j, stop, sig, stack, o, rs).calls, k) == keyed(o.calls, k),
    decreases stop - j,
{
    if j < stop {
        lemma_step_keyed(g, node, j, sig, stack, o, rs, k);
        lemma_run_subs_keyed(g, node, j + 1, stop, sig, stack, step(g, node, j, sig, stack, o, rs), rs, k);
    }
}

/// Sink buffer `slot`, followed by the signals `p` that stream `x` emitted but
/// whose sink subscription has not run yet, holds `base` followed by every
/// emission of `x`.
pub open spec fn sink_kept<S, K>(
    o: Outcome<S, K>,
    x: usize,
    slot: usize,
    base: Seq<Signal<S>>,
    p: Seq<Signal<S>>,
) -> bool {
    o.sinks[slot as int] + p == base + emissions(o.trace, x)
}

/// A send reached at any depth keeps sink buffer `slot`, filled only by
/// subscription `j0` of `x`, in step with the emissions of `x`.
pub proof fn lemma_deliver_sink<S, K>(
    g: Seq<Seq<Sub<K>>>,
    node: usize,
    sig: Signal<S>,
    stack: Seq<usize>,
    o: Outcome<S, K>,
    rs: Seq<Option<Signal<S>>>,
    x: usize,
    j0: int,
    slot: usize,
    base: Seq<Signal<S>>,
    p: Seq<Signal<S>>,
)
    requires
        wired(g, o.folds.len(), o.sinks.len()),
        slot < o.sinks.len(),
        x < g.len(),
        0 <= j0 < g[x as int].len(),
        g[x as int][j0] == Sub::<K>::Sink(slot),
        sole_sink(g, x, j0, slot),
        sink_kept(o, x, slot, base, p),
        p.len() > 0 ==> stack.contains(x),
    ensures
        deliver(g, node, sig, stack, o, rs).ok ==> sink_kept(deliver(g, node, sig, stack, o, rs), x, slot, base, p),
    decreases g.len() - stack.len(), 0int, 0int,
{
    if o.ok && !(node >= g.len() || stack.contains(node) || stack.len() >= g.len()) {
        let o1 = Outcome { trace: o.trace.push((node, sig)), ..o };
        lemma_emissions_push(o.trace, (node, sig), x);
        let st = stack.push(node);
        assert(st[stack.len() as int] == node);
        if p.len() > 0 {
            let q = choose|q: int| 0 <= q < stack.len() && stack[q] == x;
            assert(st[q] == x);
        }
        if node == x {
            assert(p.len() == 0);
            assert(o1.sinks[slot as int] + seq![sig] =~= base + emissions(o1.trace, x)) by {
                assert(o.sinks[slot as int] + p =~= o.sinks[slot as int]);
            }
            lemma_process_sink(g, node, 0, sig, st, o1, rs, x, j0, slot, base, seq![sig]);
        } else {
            lemma_process_sink(g, node, 0, sig, st, o1, rs, x, j0, slot, base, p);
        }
    }
}

pub proof fn lemma_process_sink<S, K>(
    g: Seq<Seq<Sub<K>>>,
    node: usize,
    j: int,
    sig: Signal<S>,
    stack: Seq<usize>,
    o: Outcome<S, K>,
    rs: Seq<Option<Signal<S>>>,
    x: usize,
    j0: int,
    slot: usize,
    base: Seq<Signal<S>>,
    p: Seq<Signal<S>>,
)
    requires
        wired(g, o.folds.len(), o.sinks.len()),
        slot < o.sinks.len(),
        x < g.len(),
        node < g.len(),
        stack.len() <= g.len(),
        0 <= j,
        0 <= j0 < g[x as int].len(),
        g[x as int][j0] == Sub::<K>::Sink(slot),
        sole_sink(g, x, j0, slot),
        sink_kept(o, x, slot, base, p),
        p.len() > 0 ==> stack.contains(x),
        node == x ==> stack.contains(x) && p == (if j <= j0 {
            seq![sig]
        } else {
            Seq::<Signal<S>>::empty()
        }),
    ensures
        ({
            let res = process(g, node, j, sig, stack, o, rs);
            res.ok ==> sink_kept(res, x, slot, base, if node == x {
                Seq::<Signal<S>>::empty()
            } else {
                p
            })
        }),
    decreases g.len() - stack.len(), 1int, g[node as int].len() - j,
{
    if !o.ok || j >= g[node as int].len() || stack.len() > g.len() {
    } else {
        let after = step(g, node, j, sig, stack, o, rs);
        let p2 = if node == x && j == j0 {
            Seq::<Signal<S>>::empty()
        } else {
            p
        };
        lemma_step_sink(g, node, j, sig, stack, o, rs, x, j0, slot, base, p);
        crate::semantics::lemma_step_grows(g, node, j, sig, stack, o, rs);
        if after.ok {
            lemma_process_sink(g, node, j + 1, sig, stack, after, rs, x, j0, slot, base, p2);
        } else {
            crate::semantics::lemma_process_grows(g, node, j + 1, sig, stack, after, rs);
        }
    }
}

pub proof fn lemma_step_sink<S, K>(
    g: Seq<Seq<Sub<K>>>,
    node: usize,
    j: int,
    sig: Signal<S>,
    stack: Seq<usize>,
    o: Outcome<S, K>,
    rs: Seq<Option<Signal<S>>>,
    x: usize,
    j0: int,
    slot: usize,
    base: Seq<Signal<S>>,
    p: Seq<Signal<S>>,
)
    requires
        wired(g, o.folds.len(), o.sinks.len()),
        slot < o.sinks.len(),
        x < g.len(),
        node < g.len(),
        stack.len() <= g.len(),
        0 <= j < g[node as int].len(),
        0 <= j0 < g[x as int].len(),
        g[x as int][j0] == Sub::<K>::Sink(slot),
        sole_sink(g, x, j0, slot),
        sink_kept(o, x, slot, base, p),
        p.len() > 0 ==> stack.contains(x),
        node == x ==> stack.contains(x) && p == (if j <= j0 {
            seq![sig]
        } else {
            Seq::<Signal<S>>::empty()
        }),
    ensures
        ({
            let res = step(g, node, j, sig, stack, o, rs);
            res.ok ==> sink_kept(res, x, slot, base, if node == x && j == j0 {
                Seq::<Signal<S>>::empty()
            } else {
                p
            })
        }),
    decreases g.len() - stack.len(), 1int, g[node as int].len() - j - 1,
{
    if !o.ok || stack.len() > g.len() {
    } else {
        let r = crate::semantics::reply_at(rs, o.calls.len() as int);
        assert(sub_wired(g[node as int][j], g.len(), o.folds.len(), o.sinks.len()));
        if node == x && j == j0 {
            let res = crate::semantics::push_sink(o, slot, sig);
            assert(p == seq![sig]);
            assert(res == step(g, node, j, sig, stack, o, rs));
            assert(res.sinks[slot as int] == o.sinks[slot as int].push(sig));
            assert(res.sinks[slot as int] + Seq::<Signal<S>>::empty() =~= o.sinks[slot as int] + p);
        } else {
            match g[node as int][j] {
                Sub::Observe(k) => {},
                Sub::Apply(k, t) => {
                    if let Some(v) = r {
                        lemma_deliver_sink(g, t, v, stack, with_call(o, crate::semantics::Call::Apply(k, sig)), rs, x, j0, slot, base, p);
                    }
                },
                Sub::Filter(k, t) => {
                    if let Some(_) = r {
                        lemma_deliver_sink(g, t, sig, stack, with_call(o, crate::semantics::Call::Filter(k, sig)), rs, x, j0, slot, base, p);
                    }
                },
                Sub::FilterMap(k, t) => {
                    if let Some(v) = r {
                        lemma_deliver_sink(g, t, v, stack, with_call(o, crate::semantics::Call::FilterMap(k, sig)), rs, x, j0, slot, base, p);
                    }
                },
                Sub::Fold(k, fslot, t) => {
                    if let Some(v) = r {
                        let o1 = with_call(o, crate::semantics::Call::Fold(k, o.folds[fslot as int], sig));
                        lemma_deliver_sink(g, t, v, stack, set_fold(o1, fslot, v), rs, x, j0, slot, base, p);
                    }
                },
                Sub::Forward(t) => {
                    lemma_deliver_sink(g, t, sig, stack, o, rs, x, j0, slot, base, p);
                },
                Sub::ZipLeft(t) => {
                    lemma_deliver_sink(g, t, tag_left(sig), stack, o, rs, x, j0, slot, base, p);
                },
                Sub::ZipRight(t) => {
                    lemma_deliver_sink(g, t, tag_right(sig), stack, o, rs, x, j0, slot, base, p);
                },
                Sub::Unzip(a, b) => match sig {
                    Signal::Zipped(e) => match *e {
                        Either::Left(l) => {
                            lemma_deliver_sink(g, a, l, stack, o, rs, x, j0, slot, base, p);
                        },
                        Either::Right(y) => {
                            lemma_deliver_sink(g, b, y, stack, o, rs, x, j0, slot, base, p);
                        },
                    },
                    Signal::Value(_) => {},
                },
                Sub::Sink(s2) => {
                    assert(s2 != slot);
                    let res = crate::semantics::push_sink(o, s2, sig);
                    assert(res.sinks[slot as int] == o.sinks[slot as int]);
                },
            }
        }
    }
}

/// The signal argument of call `c`.
pub open spec fn sig_of<S, K>(c: crate::semantics::Call<S, K>) -> Signal<S> {
    match c {
        crate::semantics::Call::Observe(_, s) => s,
        crate::semantics::Call::Apply(_, s) => s,
        crate::semantics::Call::Filter(_, s) => s,
        crate::semantics::Call::FilterMap(_, s) => s,
        crate::semantics::Call::Fold(_, _, s) => s,
    }
}

/// The calls of `calls` that name user function `k`, in order, each with the answer
/// at its index in `rs`.
pub open spec fn fed<S, K>(
    calls: Seq<crate::semantics::Call<S, K>>,
    rs: Seq<Option<Signal<S>>>,
    k: K,
) -> Seq<(crate::semantics::Call<S, K>, Option<Signal<S>>)>
    decreases calls.len(),
{
    if calls.len() == 0 {
        Seq::empty()
    } else {
        let rest = fed(calls.drop_last(), rs, k);
        if key_of(calls.last()) == k {
            rest.push((calls.last(), crate::semantics::reply_at(rs, calls.len() - 1)))
        } else {
            rest
        }
    }
}

pub proof fn lemma_fed_push<S, K>(
    calls: Seq<crate::semantics::Call<S, K>>,
    c: crate::semantics::Call<S, K>,
    rs: Seq<Option<Signal<S>>>,
    k: K,
)
    ensures
        fed(calls.push(c), rs, k) == (if key_of(c) == k {
            fed(calls, rs, k).push((c, crate::semantics::reply_at(rs, calls.len() as int)))
        } else {
            fed(calls, rs, k)
        }),
{
    assert(calls.push(c).drop_last() =~= calls);
}

/// The signals of the calls in `f`, in order.
pub open spec fn fed_signals<S, K>(f: Seq<(crate::semantics::Call<S, K>, Option<Signal<S>>)>) -> Seq<Signal<S>> {
    f.map_values(|e: (crate::semantics::Call<S, K>, Option<Signal<S>>)| sig_of(e.0))
}

/// The stream that subscription `s` sends to, if any.
pub open spec fn target_of<K>(s: Sub<K>) -> Option<usize> {
    match s {
        Sub::Apply(_, t) => Some(t),
        Sub::Filter(_, t) => Some(t),
        Sub::FilterMap(_, t) => Some(t),
        Sub::Fold(_, _, t) => Some(t),
        _ => None,
    }
}

/// What subscription `s` sends to its stream after its call `c` got answer `r`: the
/// signal itself for a kept filter, the answer for the others.
pub open spec fn sent_on<S, K>(s: Sub<K>, c: crate::semantics::Call<S, K>, r: Option<Signal<S>>) -> Seq<Signal<S>> {
    match s {
        Sub::Filter(_, _) => if r is Some {
            seq![sig_of(c)]
        } else {
            Seq::empty()
        },
        _ => crate::laws::option_seq(r),
    }
}

/// What subscription `s` sent to its stream for the answered calls `f`, in order.
pub open spec fn outputs<S, K>(s: Sub<K>, f: Seq<(crate::semantics::Call<S, K>, Option<Signal<S>>)>) -> Seq<Signal<S>>
    decreases f.len(),
{
    if f.len() == 0 {
        Seq::empty()
    } else {
        outputs(s, f.drop_last()) + sent_on(s, f.last().0, f.last().1)
    }
}

/// The accumulator of a fold that started at `a` after the answered calls `f`: the
/// last answer given, or `a` when none was.
pub open spec fn folded<S, K>(a: Signal<S>, f: Seq<(crate::semantics::Call<S, K>, Option<Signal<S>>)>) -> Signal<S>
    decreases f.len(),
{
    if f.len() == 0 {
        a
    } else {
        match f.last().1 {
            Some(v) => v,
            None => folded(a, f.drop_last()),
        }
    }
}

/// The call that subscription `s` makes for `sig` when its accumulator (for a fold)
/// is `acc`.
pub open spec fn call_with<S, K>(s: Sub<K>, sig: Signal<S>, acc: Signal<S>) -> crate::semantics::Call<S, K> {
    match s {
        Sub::Observe(k) => crate::semantics::Call::Observe(k, sig),
        Sub::Apply(k, _) => crate::semantics::Call::Apply(k, sig),
        Sub::Filter(k, _) => crate::semantics::Call::Filter(k, sig),
        Sub::FilterMap(k, _) => crate::semantics::Call::FilterMap(k, sig),
        Sub::Fold(k, _, _) => crate::semantics::Call::Fold(k, acc, sig),
        _ => arbitrary(),
    }
}

/// Every call in `f` is the one that subscription `s` makes for its signal, a fold
/// passing the accumulator left by the calls before it, starting from `a`.
pub open spec fn shaped<S, K>(s: Sub<K>, a: Signal<S>, f: Seq<(crate::semantics::Call<S, K>, Option<Signal<S>>)>) -> bool {
    forall|i: int| 0 <= i < f.len() ==> #[trigger] f[i].0 == call_with(s, sig_of(f[i].0), folded(a, f.take(i)))
}

/// The state of a send in step with subscription `j0` of `x`, which alone calls `k`:
/// its calls carry the emissions of `x` (but `p`, not yet handed over), its stream
/// emitted what the answers gave it (but `q`, not yet entered), and a fold's
/// accumulator is the last answer.
pub open spec fn in_step<S, K>(
    g: Seq<Seq<Sub<K>>>,
    o: Outcome<S, K>,
    rs: Seq<Option<Signal<S>>>,
    x: usize,
    j0: int,
    k: K,
    a: Signal<S>,
    p: Seq<Signal<S>>,
    q: Seq<Signal<S>>,
) -> bool {
    let s = g[x as int][j0];
    let f = fed(o.calls, rs, k);
    &&& fed_signals(f) + p == emissions(o.trace, x)
    &&& shaped(s, a, f)
    &&& (target_of(s) matches Some(t) ==> emissions(o.trace, t) + q == outputs(s, f))
    &&& (target_of(s) is None ==> q.len() == 0)
    &&& (s matches Sub::Fold(_, slot, _) ==> slot < o.folds.len() && o.folds[slot as int] == folded(a, f))
}

/// The requirements on the wiring for `in_step`: `j0` of `x` alone calls `k`, alone
/// feeds its stream, which is not `x`, and alone uses its fold slot.
pub open spec fn sole_user<K>(g: Seq<Seq<Sub<K>>>, x: usize, j0: int, k: K) -> bool {
    &&& x < g.len()
    &&& 0 <= j0 < g[x as int].len()
    &&& uses(g[x as int][j0], k)
    &&& sole_key(g, x, j0, k)
    &&& (target_of(g[x as int][j0]) matches Some(t) ==> t < g.len() && t != x && sole_source(g, x, j0, t))
    &&& (g[x as int][j0] matches Sub::Fold(_, slot, _) ==> sole_fold(g, x, j0, slot))
}

/// Appending one answered call of the subscription keeps the records in step.
pub proof fn lemma_fed_grow<S, K>(
    s: Sub<K>,
    a: Signal<S>,
    f: Seq<(crate::semantics::Call<S, K>, Option<Signal<S>>)>,
    e: (crate::semantics::Call<S, K>, Option<Signal<S>>),
)
    requires
        shaped(s, a, f),
        e.0 == call_with(s, sig_of(e.0), folded(a, f)),
    ensures
        shaped(s, a, f.push(e)),
        fed_signals(f.push(e)) == fed_signals(f).push(sig_of(e.0)),
        outputs(s, f.push(e)) == outputs(s, f) + sent_on(s, e.0, e.1),
        folded(a, f.push(e)) == (match e.1 {
            Some(v) => v,
            None => folded(a, f),
        }),
{
    let f2 = f.push(e);
    assert(f2.drop_last() =~= f);
    assert(fed_signals(f2) =~= fed_signals(f).push(sig_of(e.0)));
    assert forall|i: int| 0 <= i < f2.len() implies #[trigger] f2[i].0 == call_with(s, sig_of(f2[i].0), folded(a, f2.take(i))) by {
        if i < f.len() {
            assert(f2.take(i) =~= f.take(i));
            assert(f2[i] == f[i]);
        } else {
            assert(f2.take(i) =~= f);
        }
    }
}

/// A send reached at any depth keeps the subscription and its stream in step.
pub proof fn lemma_deliver_in_step<S, K>(
    g: Seq<Seq<Sub<K>>>,
    node: usize,
    sig: Signal<S>,
    stack: Seq<usize>,
    o: Outcome<S, K>,
    rs: Seq<Option<Signal<S>>>,
    x: usize,
    j0: int,
    k: K,
    a: Signal<S>,
    p: Seq<Signal<S>>,
    q: Seq<Signal<S>>,
)
    requires
        wired(g, o.folds.len(), o.sinks.len()),
        sole_user(g, x, j0, k),
        in_step(g, o, rs, x, j0, k, a, p, q),
        p.len() > 0 ==> stack.contains(x),
        target_of(g[x as int][j0]) matches Some(t) ==> ((node == t) == (q.len() > 0)),
        q.len() > 0 ==> q == seq![sig],
    ensures
        deliver(g, node, sig, stack, o, rs).ok ==> in_step(
            g,
            deliver(g, node, sig, stack, o, rs),
            rs,
            x,
            j0,
            k,
            a,
            p,
            Seq::empty(),
        ),
    decreases g.len() - stack.len(), 0int, 0int,
{
    if o.ok && !(node >= g.len() || stack.contains(node) || stack.len() >= g.len()) {
        let s = g[x as int][j0];
        let o1 = Outcome { trace: o.trace.push((node, sig)), ..o };
        let st = stack.push(node);
        lemma_emissions_push(o.trace, (node, sig), x);
        assert(st[stack.len() as int] == node);
        if p.len() > 0 {
            let i = choose|i: int| 0 <= i < stack.len() && stack[i] == x;
            assert(st[i] == x);
        }
        let f = fed(o.calls, rs, k);
        if let Some(t) = target_of(s) {
            lemma_emissions_push(o.trace, (node, sig), t);
        }
        if node == x {
            assert(p.len() == 0);
            assert(q.len() == 0);
            assert(fed_signals(f) + seq![sig] =~= emissions(o1.trace, x)) by {
                assert(fed_signals(f) + p =~= fed_signals(f));
            }
            if let Some(t) = target_of(s) {
                assert(emissions(o1.trace, t) + Seq::<Signal<S>>::empty() =~= emissions(o.trace, t) + q);
            }
            lemma_process_in_step(g, node, 0, sig, st, o1, rs, x, j0, k, a, seq![sig]);
        } else {
            if let Some(t) = target_of(s) {
                if node == t {
                    assert(emissions(o1.trace, t) + Seq::<Signal<S>>::empty() =~= emissions(o.trace, t) + q);
                } else {
                    assert(q.len() == 0);
                    assert(emissions(o1.trace, t) + Seq::<Signal<S>>::empty() =~= emissions(o.trace, t) + q);
                }
            }
            lemma_process_in_step(g, node, 0, sig, st, o1, rs, x, j0, k, a, p);
        }
    }
}

pub proof fn lemma_process_in_step<S, K>(
    g: Seq<Seq<Sub<K>>>,
    node: usize,
    j: int,
    sig: Signal<S>,
    stack: Seq<usize>,
    o: Outcome<S, K>,
    rs: Seq<Option<Signal<S>>>,
    x: usize,
    j0: int,
    k: K,
    a: Signal<S>,
    p: Seq<Signal<S>>,
)
    requires
        wired(g, o.folds.len(), o.sinks.len()),
        sole_user(g, x, j0, k),
        node < g.len(),
        stack.len() <= g.len(),
        0 <= j,
        in_step(g, o, rs, x, j0, k, a, p, Seq::empty()),
        p.len() > 0 ==> stack.contains(x),
        node == x ==> stack.contains(x) && p == (if j <= j0 {
            seq![sig]
        } else {
            Seq::<Signal<S>>::empty()
        }),
    ensures
        ({
            let res = process(g, node, j, sig, stack, o, rs);
            res.ok ==> in_step(g, res, rs, x, j0, k, a, if node == x {
                Seq::<Signal<S>>::empty()
            } else {
                p
            }, Seq::empty())
        }),
    decreases g.len() - stack.len(), 1int, g[node as int].len() - j,
{
    if !o.ok || j >= g[node as int].len() || stack.len() > g.len() {
    } else {
        let after = step(g, node, j, sig, stack, o, rs);
        let p2 = if node == x && j == j0 {
            Seq::<Signal<S>>::empty()
        } else {
            p
        };
        if node == x && j == j0 {
            lemma_step_in_step_self(g, sig, stack, o, rs, x, j0, k, a);
        } else {
            lemma_step_in_step_other(g, node, j, sig, stack, o, rs, x, j0, k, a, p);
        }
        crate::semantics::lemma_step_grows(g, node, j, sig, stack, o, rs);
        if after.ok {
            lemma_process_in_step(g, node, j + 1, sig, stack, after, rs, x, j0, k, a, p2);
        } else {
            crate::semantics::lemma_process_grows(g, node, j + 1, sig, stack, after, rs);
        }
    }
}

/// The subscription itself runs: its call and answer join the record, and what it
/// sends enters its stream.
pub proof fn lemma_step_in_step_self<S, K>(
    g: Seq<Seq<Sub<K>>>,
    sig: Signal<S>,
    stack: Seq<usize>,
    o: Outcome<S, K>,
    rs: Seq<Option<Signal<S>>>,
    x: usize,
    j0: int,
    k: K,
    a: Signal<S>,
)
    requires
        wired(g, o.folds.len(), o.sinks.len()),
        sole_user(g, x, j0, k),
        stack.len() <= g.len(),
        stack.contains(x),
        in_step(g, o, rs, x, j0, k, a, seq![sig], Seq::empty()),
    ensures
        ({
            let res = step(g, x, j0, sig, stack, o, rs);
            res.ok ==> in_step(g, res, rs, x, j0, k, a, Seq::empty(), Seq::empty())
        }),
    decreases g.len() - stack.len(), 1int, g[x as int].len() - j0 - 1,
{
    if o.ok {
        let s = g[x as int][j0];
        let f = fed(o.calls, rs, k);
        let acc = folded(a, f);
        let c = call_with::<S, K>(s, sig, acc);
        let r = crate::semantics::reply_at(rs, o.calls.len() as int);
        let o1 = with_call(o, c);
        let e = (c, r);
        lemma_fed_push(o.calls, c, rs, k);
        assert(key_of(c) == k);
        assert(sig_of(c) == sig);
        lemma_fed_grow(s, a, f, e);
        let f2 = f.push(e);
        assert(fed(o1.calls, rs, k) == f2);
        assert(fed_signals(f2) + Seq::<Signal<S>>::empty() =~= emissions(o.trace, x)) by {
            assert(fed_signals(f) + seq![sig] =~= fed_signals(f).push(sig));
        }
        let empty = Seq::<Signal<S>>::empty();
        match s {
            Sub::Observe(kk) => {
                assert(step(g, x, j0, sig, stack, o, rs) == o1);
            },
            Sub::Apply(kk, t) => {
                assert(emissions(o.trace, t) + empty =~= outputs(s, f));
                match r {
                    Some(v) => {
                        assert(emissions(o1.trace, t) + seq![v] =~= outputs(s, f2));
                        lemma_deliver_in_step(g, t, v, stack, o1, rs, x, j0, k, a, empty, seq![v]);
                    },
                    None => {
                        assert(emissions(o1.trace, t) + empty =~= outputs(s, f2));
                    },
                }
            },
            Sub::Filter(kk, t) => {
                assert(emissions(o.trace, t) + empty =~= outputs(s, f));
                match r {
                    Some(_) => {
                        assert(emissions(o1.trace, t) + seq![sig] =~= outputs(s, f2));
                        lemma_deliver_in_step(g, t, sig, stack, o1, rs, x, j0, k, a, empty, seq![sig]);
                    },
                    None => {
                        assert(emissions(o1.trace, t) + empty =~= outputs(s, f2));
                    },
                }
            },
            Sub::FilterMap(kk, t) => {
                assert(emissions(o.trace, t) + empty =~= outputs(s, f));
                match r {
                    Some(v) => {
                        assert(emissions(o1.trace, t) + seq![v] =~= outputs(s, f2));
                        lemma_deliver_in_step(g, t, v, stack, o1, rs, x, j0, k, a, empty, seq![v]);
                    },
                    None => {
                        assert(emissions(o1.trace, t) + empty =~= outputs(s, f2));
                    },
                }
            },
            Sub::Fold(kk, slot, t) => {
                assert(emissions(o.trace, t) + empty =~= outputs(s, f));
                assert(c == crate::semantics::Call::Fold(kk, o.folds[slot as int], sig));
                match r {
                    Some(v) => {
                        let o2 = set_fold(o1, slot, v);
                        assert(emissions(o2.trace, t) + seq![v] =~= outputs(s, f2));
                        assert(fed(o2.calls, rs, k) == f2);
                        lemma_deliver_in_step(g, t, v, stack, o2, rs, x, j0, k, a, empty, seq![v]);
                    },
                    None => {
                        assert(emissions(o1.trace, t) + empty =~= outputs(s, f2));
                    },
                }
            },
            _ => {},
        }
    }
}

/// Any other subscription runs: the record, the subscription's stream and its fold
/// slot are left alone, wherever the send goes from there.
pub proof fn lemma_step_in_step_other<S, K>(
    g: Seq<Seq<Sub<K>>>,
    node: usize,
    j: int,
    sig: Signal<S>,
    stack: Seq<usize>,
    o: Outcome<S, K>,
    rs: Seq<Option<Signal<S>>>,
    x: usize,
    j0: int,
    k: K,
    a: Signal<S>,
    p: Seq<Signal<S>>,
)
    requires
        wired(g, o.folds.len(), o.sinks.len()),
        sole_user(g, x, j0, k),
        node < g.len(),
        stack.len() <= g.len(),
        0 <= j < g[node as int].len(),
        !(node == x && j == j0),
        in_step(g, o, rs, x, j0, k, a, p, Seq::empty()),
        p.len() > 0 ==> stack.contains(x),
    ensures
        ({
            let res = step(g, node, j, sig, stack, o, rs);
            res.ok ==> in_step(g, res, rs, x, j0, k, a, p, Seq::empty())
        }),
    decreases g.len() - stack.len(), 1int, g[node as int].len() - j - 1,
{
    if o.ok {
        let s = g[x as int][j0];
        let sub = g[node as int][j];
        let r = crate::semantics::reply_at(rs, o.calls.len() as int);
        let empty = Seq::<Signal<S>>::empty();
        assert(sub_wired(sub, g.len(), o.folds.len(), o.sinks.len()));
        assert(!uses(sub, k));
        if let Some(t) = target_of(s) {
            assert(!targets(sub, t));
        }
        if let Sub::Fold(_, slot, _) = s {
            assert(!(sub matches Sub::Fold(_, f2, _) && f2 == slot));
        }
        match sub {
            Sub::Observe(kk) => {
                lemma_fed_push(o.calls, crate::semantics::Call::Observe(kk, sig), rs, k);
            },
            Sub::Apply(kk, t2) => {
                let c = crate::semantics::Call::Apply(kk, sig);
                lemma_fed_push(o.calls, c, rs, k);
                if let Some(v) = r {
                    lemma_deliver_in_step(g, t2, v, stack, with_call(o, c), rs, x, j0, k, a, p, empty);
                }
            },
            Sub::Filter(kk, t2) => {
                let c = crate::semantics::Call::Filter(kk, sig);
                lemma_fed_push(o.calls, c, rs, k);
                if let Some(_) = r {
                    lemma_deliver_in_step(g, t2, sig, stack, with_call(o, c), rs, x, j0, k, a, p, empty);
                }
            },
            Sub::FilterMap(kk, t2) => {
                let c = crate::semantics::Call::FilterMap(kk, sig);
                lemma_fed_push(o.calls, c, rs, k);
                if let Some(v) = r {
                    lemma_deliver_in_step(g, t2, v, stack, with_call(o, c), rs, x, j0, k, a, p, empty);
                }
            },
            Sub::Fold(kk, fslot, t2) => {
                let c = crate::semantics::Call::Fold(kk, o.folds[fslot as int], sig);
                lemma_fed_push(o.calls, c, rs, k);
                if let Some(v) = r {
                    let o2 = set_fold(with_call(o, c), fslot, v);
                    if let Sub::Fold(_, slot, _) = s {
                        assert(o2.folds[slot as int] == o.folds[slot as int]);
                    }
                    lemma_deliver_in_step(g, t2, v, stack, o2, rs, x, j0, k, a, p, empty);
                }
            },
            Sub::Forward(t2) => {
                lemma_deliver_in_step(g, t2, sig, stack, o, rs, x, j0, k, a, p, empty);
            },
            Sub::ZipLeft(t2) => {
                lemma_deliver_in_step(g, t2, tag_left(sig), stack, o, rs, x, j0, k, a, p, empty);
            },
            Sub::ZipRight(t2) => {
                lemma_deliver_in_step(g, t2, tag_right(sig), stack, o, rs, x, j0, k, a, p, empty);
            },
            Sub::Unzip(ua, ub) => match sig {
                Signal::Zipped(e) => match *e {
                    Either::Left(l) => {
                        lemma_deliver_in_step(g, ua, l, stack, o, rs, x, j0, k, a, p, empty);
                    },
                    Either::Right(y) => {
                        lemma_deliver_in_step(g, ub, y, stack, o, rs, x, j0, k, a, p, empty);
                    },
                },
                Signal::Value(_) => {},
            },
            Sub::Sink(_) => {},
        }
    }
}

} // verus!
