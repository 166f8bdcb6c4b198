use bidule::{Call, Either, Handler, Network, Signal, Stream};
use std::cell::RefCell;
use std::rc::Rc;

#[derive(Clone, Copy, Debug, PartialEq, Eq)]
enum Op {
    Double,
    Even,
    HalfIfEven,
    Sum,
    Nothing,
    Log(u8),
}

fn value(s: &Signal<u32>) -> u32 {
    match s {
        Signal::Value(v) => *v,
        Signal::Zipped(_) => panic!("zipped signal"),
    }
}

fn v(x: u32) -> Signal<u32> {
    Signal::Value(x)
}

fn left(s: Signal<u32>) -> Signal<u32> {
    Signal::Zipped(Box::new(Either::Left(s)))
}

fn right(s: Signal<u32>) -> Signal<u32> {
    Signal::Zipped(Box::new(Either::Right(s)))
}

fn handler(call: Call<u32, Op>) -> Option<Signal<u32>> {
    match call {
        Call::Apply(Op::Double, s) => Some(v(value(&s) * 2)),
        Call::Apply(Op::Nothing, _) => None,
        Call::Filter(Op::Even, s) => {
            if value(&s) % 2 == 0 {
                Some(s)
            } else {
                None
            }
        }
        Call::FilterMap(Op::HalfIfEven, s) => {
            let x = value(&s);
            if x % 2 == 0 {
                Some(v(x / 2))
            } else {
                None
            }
        }
        Call::Fold(Op::Sum, acc, s) => Some(v(value(&acc) + value(&s))),
        Call::Fold(Op::Nothing, _, _) => None,
        _ => None,
    }
}

#[test]
fn map_sends_each_answer() {
    let mut net = Network::new(Handler::new(handler));
    let x = Stream::new(&mut net);
    let m = x.map(&mut net, Op::Double);
    let out = m.sink(&mut net);
    for i in 1..4 {
        x.send(&mut net, &v(i)).unwrap();
    }
    assert_eq!(out.drain(&mut net), vec![v(2), v(4), v(6)]);
}

#[test]
fn map_without_answer_sends_nothing() {
    let mut net = Network::new(Handler::new(handler));
    let x = Stream::new(&mut net);
    let m = x.map(&mut net, Op::Nothing);
    let out = m.sink(&mut net);
    x.send(&mut net, &v(7)).unwrap();
    assert_eq!(out.drain(&mut net), Vec::<Signal<u32>>::new());
}

#[test]
fn filter_keeps_what_the_handler_keeps() {
    let mut net = Network::new(Handler::new(handler));
    let x = Stream::new(&mut net);
    let even = x.filter(&mut net, Op::Even);
    let out = even.sink(&mut net);
    for i in 0..6 {
        x.send(&mut net, &v(i)).unwrap();
    }
    assert_eq!(out.drain(&mut net), vec![v(0), v(2), v(4)]);
}

#[test]
fn filter_map_sends_answers_only() {
    let mut net = Network::new(Handler::new(handler));
    let x = Stream::new(&mut net);
    let halves = x.filter_map(&mut net, Op::HalfIfEven);
    let out = halves.sink(&mut net);
    for i in [3, 8, 5, 10] {
        x.send(&mut net, &v(i)).unwrap();
    }
    assert_eq!(out.drain(&mut net), vec![v(4), v(5)]);
}

#[test]
fn fold_accumulates() {
    let mut net = Network::new(Handler::new(handler));
    let x = Stream::new(&mut net);
    let sums = x.fold(&mut net, v(100), Op::Sum);
    let out = sums.sink(&mut net);
    for i in 1..5 {
        x.send(&mut net, &v(i)).unwrap();
    }
    assert_eq!(out.drain(&mut net), vec![v(101), v(103), v(106), v(110)]);
}

#[test]
fn fold_without_answer_keeps_its_value() {
    let mut net = Network::new(Handler::new(handler));
    let x = Stream::new(&mut net);
    let folded = x.fold(&mut net, v(5), Op::Nothing);
    let out = folded.sink(&mut net);
    x.send(&mut net, &v(1)).unwrap();
    x.send(&mut net, &v(2)).unwrap();
    assert_eq!(out.drain(&mut net), Vec::<Signal<u32>>::new());
}

#[test]
fn merge_emits_both_sources() {
    let mut net = Network::new(Handler::new(handler));
    let x = Stream::new(&mut net);
    let y = Stream::new(&mut net);
    let m = x.merge(&mut net, &y);
    let out = m.sink(&mut net);
    x.send(&mut net, &v(1)).unwrap();
    y.send(&mut net, &v(2)).unwrap();
    x.send(&mut net, &v(3)).unwrap();
    assert_eq!(out.drain(&mut net), vec![v(1), v(2), v(3)]);
}

#[test]
fn merge_follows_subscription_order() {
    // y is fed by x before the merge subscribes to x: a signal on x first reaches
    // the merged stream through y.
    let mut net = Network::new(Handler::new(handler));
    let x = Stream::new(&mut net);
    let y = x.map(&mut net, Op::Double);
    let m = x.merge(&mut net, &y);
    let out = m.sink(&mut net);
    x.send(&mut net, &v(5)).unwrap();
    assert_eq!(out.drain(&mut net), vec![v(10), v(5)]);
}

#[test]
fn zip_tags_each_side() {
    let mut net = Network::new(Handler::new(handler));
    let x = Stream::new(&mut net);
    let y = Stream::new(&mut net);
    let z = x.zip(&mut net, &y);
    let out = z.sink(&mut net);
    x.send(&mut net, &v(1)).unwrap();
    y.send(&mut net, &v(2)).unwrap();
    assert_eq!(out.drain(&mut net), vec![left(v(1)), right(v(2))]);
}

#[test]
fn unzip_splits_each_side() {
    let mut net = Network::new(Handler::new(handler));
    let z = Stream::new(&mut net);
    let (a, b) = z.unzip(&mut net);
    let out_a = a.sink(&mut net);
    let out_b = b.sink(&mut net);
    z.send(&mut net, &left(v(1))).unwrap();
    z.send(&mut net, &right(v(2))).unwrap();
    z.send(&mut net, &v(3)).unwrap();
    assert_eq!(out_a.drain(&mut net), vec![v(1)]);
    assert_eq!(out_b.drain(&mut net), vec![v(2)]);
}

#[test]
fn unzip_undoes_zip() {
    let mut net = Network::new(Handler::new(handler));
    let x = Stream::new(&mut net);
    let y = Stream::new(&mut net);
    let (a, b) = x.zip(&mut net, &y).unzip(&mut net);
    let out_a = a.sink(&mut net);
    let out_b = b.sink(&mut net);
    x.send(&mut net, &v(4)).unwrap();
    y.send(&mut net, &v(5)).unwrap();
    x.send(&mut net, &v(6)).unwrap();
    assert_eq!(out_a.drain(&mut net), vec![v(4), v(6)]);
    assert_eq!(out_b.drain(&mut net), vec![v(5)]);
}

#[test]
fn observers_run_in_subscription_order() {
    let log = Rc::new(RefCell::new(Vec::new()));
    let log_ = log.clone();
    let observer = move |call: Call<u32, Op>| -> Option<Signal<u32>> {
        if let Call::Observe(Op::Log(n), s) = call {
            log_.borrow_mut().push((n, value(&s)));
        }
        None
    };
    let mut net = Network::new(Handler::new(observer));
    let x = Stream::new(&mut net);
    x.subscribe(&mut net, Op::Log(1));
    x.subscribe(&mut net, Op::Log(2));
    x.subscribe(&mut net, Op::Log(3));
    x.send(&mut net, &v(9)).unwrap();
    assert_eq!(*log.borrow(), vec![(1, 9), (2, 9), (3, 9)]);
}

#[test]
fn send_without_subscriptions_does_nothing() {
    let mut net = Network::new(Handler::new(handler));
    let x = Stream::new(&mut net);
    assert_eq!(x.send(&mut net, &v(1)), Ok(()));
}

#[test]
fn drain_empties_the_buffer() {
    let mut net = Network::new(Handler::new(handler));
    let x = Stream::new(&mut net);
    let out = x.sink(&mut net);
    x.send(&mut net, &v(1)).unwrap();
    assert_eq!(out.drain(&mut net), vec![v(1)]);
    assert_eq!(out.drain(&mut net), Vec::<Signal<u32>>::new());
    x.send(&mut net, &v(2)).unwrap();
    assert_eq!(out.drain(&mut net), vec![v(2)]);
}

#[test]
fn duplicate_is_an_exact_copy() {
    let s = left(right(v(3)));
    assert_eq!(s.duplicate(), s);
}

#[test]
fn a_stream_merged_with_itself_emits_twice() {
    let mut net = Network::new(Handler::new(handler));
    let x = Stream::new(&mut net);
    let m = x.merge(&mut net, &x);
    let out = m.sink(&mut net);
    x.send(&mut net, &v(1)).unwrap();
    assert_eq!(out.drain(&mut net), vec![v(1), v(1)]);
}

#[test]
fn a_subscriber_sees_each_signal_once() {
    let log = Rc::new(RefCell::new(Vec::new()));
    let log_ = log.clone();
    let observer = move |call: Call<u32, Op>| -> Option<Signal<u32>> {
        if let Call::Observe(_, s) = call {
            log_.borrow_mut().push(value(&s));
        }
        None
    };
    let mut net = Network::new(Handler::new(observer));
    let x = Stream::new(&mut net);
    x.subscribe(&mut net, Op::Log(0));
    x.send(&mut net, &v(1)).unwrap();
    x.send(&mut net, &v(2)).unwrap();
    x.send(&mut net, &v(3)).unwrap();
    assert_eq!(*log.borrow(), vec![1, 2, 3]);
}

#[test]
fn building_calls_no_user_function() {
    let calls = Rc::new(RefCell::new(0u32));
    let calls_ = calls.clone();
    let counting = move |call: Call<u32, Op>| -> Option<Signal<u32>> {
        *calls_.borrow_mut() += 1;
        handler(call)
    };
    let mut net = Network::new(Handler::new(counting));
    let x = Stream::new(&mut net);
    let y = Stream::new(&mut net);
    let m = x.map(&mut net, Op::Double);
    let f = m.filter(&mut net, Op::Even);
    let h = f.filter_map(&mut net, Op::HalfIfEven);
    let s = h.fold(&mut net, v(0), Op::Sum);
    let z = s.zip(&mut net, &y);
    let (a, _b) = z.unzip(&mut net);
    let _j = a.merge(&mut net, &y);
    let _out = a.sink(&mut net);
    let _pair = Stream::entangled(&mut net, Op::HalfIfEven, Op::HalfIfEven);
    x.subscribe(&mut net, Op::Log(0));
    assert_eq!(*calls.borrow(), 0);
    x.send(&mut net, &v(3)).unwrap();
    // map, filter, filter_map, fold, then the observer: one call each
    assert_eq!(*calls.borrow(), 5);
}

#[test]
fn a_fold_accumulates_over_sends() {
    let mut net = Network::new(Handler::new(handler));
    let x = Stream::new(&mut net);
    let total = x.fold(&mut net, v(10), Op::Sum);
    let out = total.sink(&mut net);
    x.send(&mut net, &v(1)).unwrap();
    x.send(&mut net, &v(2)).unwrap();
    x.send(&mut net, &v(3)).unwrap();
    assert_eq!(out.drain(&mut net), vec![v(11), v(13), v(16)]);
}

#[test]
fn a_map_of_a_map_composes() {
    let mut net = Network::new(Handler::new(handler));
    let x = Stream::new(&mut net);
    let quadrupled = x.map(&mut net, Op::Double).map(&mut net, Op::Double);
    let out = quadrupled.sink(&mut net);
    for i in 1..4 {
        x.send(&mut net, &v(i)).unwrap();
    }
    assert_eq!(out.drain(&mut net), vec![v(4), v(8), v(12)]);
}

#[test]
fn filtering_twice_by_the_same_predicate_changes_nothing() {
    let mut net = Network::new(Handler::new(handler));
    let x = Stream::new(&mut net);
    let once = x.filter(&mut net, Op::Even);
    let twice = once.filter(&mut net, Op::Even);
    let out_once = once.sink(&mut net);
    let out_twice = twice.sink(&mut net);
    for i in 0..6 {
        x.send(&mut net, &v(i)).unwrap();
    }
    let kept = out_once.drain(&mut net);
    assert_eq!(kept, vec![v(0), v(2), v(4)]);
    assert_eq!(out_twice.drain(&mut net), kept);
}

#[test]
fn a_filter_map_that_always_answers_is_a_map() {
    let answers = |call: Call<u32, Op>| -> Option<Signal<u32>> {
        match call {
            Call::Apply(Op::Double, s) | Call::FilterMap(Op::Double, s) => Some(v(value(&s) * 2)),
            _ => None,
        }
    };
    let mut net = Network::new(Handler::new(answers));
    let x = Stream::new(&mut net);
    let mapped = x.map(&mut net, Op::Double).sink(&mut net);
    let filter_mapped = x.filter_map(&mut net, Op::Double).sink(&mut net);
    for i in [3, 0, 7] {
        x.send(&mut net, &v(i)).unwrap();
    }
    let a = mapped.drain(&mut net);
    assert_eq!(a, vec![v(6), v(0), v(14)]);
    assert_eq!(filter_mapped.drain(&mut net), a);
}

#[test]
fn a_filter_map_that_keeps_signals_is_a_filter() {
    let answers = |call: Call<u32, Op>| -> Option<Signal<u32>> {
        match call {
            Call::Filter(Op::Even, s) | Call::FilterMap(Op::Even, s) => {
                if value(&s) % 2 == 0 {
                    Some(s)
                } else {
                    None
                }
            }
            _ => None,
        }
    };
    let mut net = Network::new(Handler::new(answers));
    let x = Stream::new(&mut net);
    let filtered = x.filter(&mut net, Op::Even).sink(&mut net);
    let filter_mapped = x.filter_map(&mut net, Op::Even).sink(&mut net);
    for i in [1, 2, 3, 4, 6] {
        x.send(&mut net, &v(i)).unwrap();
    }
    let a = filtered.drain(&mut net);
    assert_eq!(a, vec![v(2), v(4), v(6)]);
    assert_eq!(filter_mapped.drain(&mut net), a);
}

#[test]
fn subscriptions_run_in_the_order_they_were_made() {
    let log = Rc::new(RefCell::new(Vec::new()));
    let log_ = log.clone();
    let answers = move |call: Call<u32, Op>| -> Option<Signal<u32>> {
        match call {
            Call::Observe(Op::Log(n), s) => {
                log_.borrow_mut().push((n, value(&s)));
                None
            }
            other => handler(other),
        }
    };
    let mut net = Network::new(Handler::new(answers));
    let x = Stream::new(&mut net);
    x.subscribe(&mut net, Op::Log(1));
    let doubled = x.map(&mut net, Op::Double);
    doubled.subscribe(&mut net, Op::Log(2));
    x.subscribe(&mut net, Op::Log(3));
    x.send(&mut net, &v(5)).unwrap();
    assert_eq!(*log.borrow(), vec![(1, 5), (2, 10), (3, 5)]);
}

#[test]
fn each_user_function_runs_once_per_signal_in_order() {
    let log = Rc::new(RefCell::new(Vec::new()));
    let log_ = log.clone();
    let logging = move |call: Call<u32, Op>| -> Option<Signal<u32>> {
        let entry = match &call {
            Call::Observe(k, s) => (*k, value(s)),
            Call::Apply(k, s) => (*k, value(s)),
            Call::Filter(k, s) => (*k, value(s)),
            Call::FilterMap(k, s) => (*k, value(s)),
            Call::Fold(k, acc, s) => (*k, value(acc) * 100 + value(s)),
        };
        log_.borrow_mut().push(entry);
        handler(call)
    };
    let mut net = Network::new(Handler::new(logging));
    let x = Stream::new(&mut net);
    let doubled = x.map(&mut net, Op::Double);
    let total = x.fold(&mut net, v(0), Op::Sum);
    x.subscribe(&mut net, Op::Log(0));
    let _ = (doubled, total);
    for i in 1..4 {
        x.send(&mut net, &v(i)).unwrap();
    }
    let calls = log.borrow().clone();
    let of = |k: Op| calls.iter().filter(|c| c.0 == k).map(|c| c.1).collect::<Vec<u32>>();
    assert_eq!(of(Op::Double), vec![1, 2, 3]);
    // the accumulator before each signal: 0, then 1, then 3
    assert_eq!(of(Op::Sum), vec![1, 102, 303]);
    assert_eq!(of(Op::Log(0)), vec![1, 2, 3]);
    assert_eq!(calls.len(), 9);
}

#[test]
fn merging_commutes_and_associates() {
    let mut net = Network::new(Handler::new(handler));
    let x = Stream::new(&mut net);
    let y = Stream::new(&mut net);
    let z = Stream::new(&mut net);
    let xy = x.merge(&mut net, &y);
    let yx = y.merge(&mut net, &x);
    let left = xy.merge(&mut net, &z);
    let yz = y.merge(&mut net, &z);
    let right = x.merge(&mut net, &yz);
    let out_xy = xy.sink(&mut net);
    let out_yx = yx.sink(&mut net);
    let out_left = left.sink(&mut net);
    let out_right = right.sink(&mut net);
    x.send(&mut net, &v(1)).unwrap();
    z.send(&mut net, &v(2)).unwrap();
    y.send(&mut net, &v(3)).unwrap();
    x.send(&mut net, &v(4)).unwrap();
    let a = out_xy.drain(&mut net);
    assert_eq!(a, vec![v(1), v(3), v(4)]);
    assert_eq!(out_yx.drain(&mut net), a);
    let b = out_left.drain(&mut net);
    assert_eq!(b, vec![v(1), v(2), v(3), v(4)]);
    assert_eq!(out_right.drain(&mut net), b);
}

#[test]
fn zipping_the_halves_of_an_unzip_gives_back_the_signals() {
    let mut net = Network::new(Handler::new(handler));
    let s = Stream::new(&mut net);
    let (a, b) = s.unzip(&mut net);
    let z = a.zip(&mut net, &b);
    let out = z.sink(&mut net);
    let sent = vec![left(v(1)), right(v(2)), right(v(3)), left(v(4))];
    for sig in &sent {
        s.send(&mut net, sig).unwrap();
    }
    s.send(&mut net, &v(9)).unwrap();
    assert_eq!(out.drain(&mut net), sent);
}

#[test]
fn constant_filters_keep_all_or_nothing() {
    let answers = |call: Call<u32, Op>| -> Option<Signal<u32>> {
        match call {
            Call::Filter(Op::Log(1), s) => Some(s),
            _ => None,
        }
    };
    let mut net = Network::new(Handler::new(answers));
    let x = Stream::new(&mut net);
    let all = x.filter(&mut net, Op::Log(1)).sink(&mut net);
    let none = x.filter(&mut net, Op::Log(0)).sink(&mut net);
    for i in [5, 6, 7] {
        x.send(&mut net, &v(i)).unwrap();
    }
    assert_eq!(all.drain(&mut net), vec![v(5), v(6), v(7)]);
    assert_eq!(none.drain(&mut net), Vec::<Signal<u32>>::new());
}
