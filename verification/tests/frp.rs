use bidule::{Call, Handler, Network, Signal, Stream};
use std::cell::RefCell;
use std::rc::Rc;

#[derive(Clone, Copy, Debug, PartialEq, Eq)]
enum Button {
    Push,
}

#[derive(Clone, Copy, Debug, PartialEq, Eq)]
enum Counter {
    Increment,
    Decrement,
    Reset,
}

#[derive(Clone, Copy, Debug, PartialEq, Eq)]
enum Sig {
    Button(Button),
    Counter(Counter),
    Label(i32),
}

#[derive(Clone, Copy, Debug, PartialEq, Eq)]
enum Op {
    Minus,
    Plus,
    Reset,
    Count,
    Even,
    Show,
}

#[test]
fn frp() {
    let counter = Rc::new(RefCell::new(0));
    let counter_ = counter.clone();
    let handler = move |call: Call<Sig, Op>| -> Option<Signal<Sig>> {
        match call {
            Call::Apply(Op::Minus, _) => Some(Signal::Value(Sig::Counter(Counter::Decrement))),
            Call::Apply(Op::Plus, _) => Some(Signal::Value(Sig::Counter(Counter::Increment))),
            Call::Apply(Op::Reset, _) => Some(Signal::Value(Sig::Counter(Counter::Reset))),
            Call::Fold(Op::Count, Signal::Value(Sig::Label(x)), Signal::Value(Sig::Counter(c))) => {
                Some(Signal::Value(Sig::Label(match c {
                    Counter::Increment => x + 1,
                    Counter::Decrement => x - 1,
                    Counter::Reset => 0,
                })))
            }
            Call::Filter(Op::Even, Signal::Value(Sig::Label(x))) => {
                if x % 2 == 0 {
                    Some(Signal::Value(Sig::Label(x)))
                } else {
                    None
                }
            }
            Call::Observe(Op::Show, Signal::Value(Sig::Label(x))) => {
                *counter_.borrow_mut() = x;
                None
            }
            _ => None,
        }
    };
    let mut net = Network::new(Handler::new(handler));

    let minus_button = Stream::new(&mut net);
    let plus_button = Stream::new(&mut net);
    let reset_button = Stream::new(&mut net);

    let minus = minus_button.map(&mut net, Op::Minus);
    let plus = plus_button.map(&mut net, Op::Plus);
    let reset = reset_button.map(&mut net, Op::Reset);

    let merged = minus.merge(&mut net, &plus).merge(&mut net, &reset);
    let label = merged
        .fold(&mut net, Signal::Value(Sig::Label(0)), Op::Count)
        .filter(&mut net, Op::Even); // get only even counters

    label.subscribe(&mut net, Op::Show);

    assert_eq!(*counter.borrow(), 0);

    let push = Signal::Value(Sig::Button(Button::Push));
    minus_button.send(&mut net, &push).unwrap();
    assert_eq!(*counter.borrow(), 0); // not -1 because -1 is odd

    minus_button.send(&mut net, &push).unwrap();
    assert_eq!(*counter.borrow(), -2);

    plus_button.send(&mut net, &push).unwrap();
    assert_eq!(*counter.borrow(), -2); // not -1, it’s odd

    reset_button.send(&mut net, &push).unwrap();
    assert_eq!(*counter.borrow(), 0);
}
