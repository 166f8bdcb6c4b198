use bidule::{Call, Handler, Network, Reentered, Signal, Stream};
use std::cell::RefCell;
use std::rc::Rc;

#[derive(Clone, Copy, Debug, Eq, PartialEq)]
enum Button {
    ChangeLabel(&'static str),
    Push,
}

#[derive(Clone, Copy, Debug, Eq, PartialEq)]
enum Op {
    F,
    ObserveX,
    ObserveY,
}

fn f(sig: &Signal<Button>) -> Option<Signal<Button>> {
    match *sig {
        Signal::Value(Button::Push) => Some(Signal::Value(Button::ChangeLabel("foo"))),
        _ => None,
    }
}

#[test]
fn mutual_recursion() {
    let x_ref = Rc::new(RefCell::new(Button::Push));
    let x_ref_ = x_ref.clone();

    let y_ref = Rc::new(RefCell::new(Button::Push));
    let y_ref_ = y_ref.clone();

    let handler = move |call: Call<Button, Op>| -> Option<Signal<Button>> {
        match call {
            Call::FilterMap(Op::F, sig) => f(&sig),
            Call::Observe(Op::ObserveX, Signal::Value(a)) => {
                *x_ref_.borrow_mut() = a;
                None
            }
            Call::Observe(Op::ObserveY, Signal::Value(a)) => {
                *y_ref_.borrow_mut() = a;
                None
            }
            _ => None,
        }
    };
    let mut net = Network::new(Handler::new(handler));
    let (x, y) = Stream::entangled(&mut net, Op::F, Op::F);

    x.subscribe(&mut net, Op::ObserveX);
    y.subscribe(&mut net, Op::ObserveY);

    assert_eq!(*x_ref.borrow(), Button::Push);
    assert_eq!(*y_ref.borrow(), Button::Push);

    x.send(&mut net, &Signal::Value(Button::Push)).unwrap();
    assert_eq!(*x_ref.borrow(), Button::Push);
    assert_eq!(*y_ref.borrow(), Button::ChangeLabel("foo"));

    y.send(&mut net, &Signal::Value(Button::Push)).unwrap();
    assert_eq!(*x_ref.borrow(), Button::ChangeLabel("foo"));
    assert_eq!(*y_ref.borrow(), Button::Push);
}

#[test]
fn entangled_echo_is_refused() {
    // Both directions answer every signal: the second answer reaches the first
    // stream while it is still emitting.
    let handler = |call: Call<u8, u8>| -> Option<Signal<u8>> {
        match call {
            Call::FilterMap(_, Signal::Value(v)) => Some(Signal::Value(v + 1)),
            _ => None,
        }
    };
    let mut net = Network::new(Handler::new(handler));
    let (x, y) = Stream::entangled(&mut net, 0, 1);
    let sx = x.sink(&mut net);
    let sy = y.sink(&mut net);
    assert_eq!(x.send(&mut net, &Signal::Value(1)), Err(Reentered));
    assert_eq!(sx.drain(&mut net), Vec::<Signal<u8>>::new());
    // The sending stopped before the sinks, which come after the entangling
    // subscriptions, were reached.
    assert_eq!(sy.drain(&mut net), Vec::<Signal<u8>>::new());
}

#[test]
fn entangled_exchange_comes_before_later_subscribers() {
    let log = Rc::new(RefCell::new(Vec::new()));
    let log_ = log.clone();
    let handler = move |call: Call<u8, u8>| -> Option<Signal<u8>> {
        match call {
            Call::FilterMap(0, Signal::Value(v)) => Some(Signal::Value(v + 1)),
            Call::Observe(k, Signal::Value(v)) => {
                log_.borrow_mut().push((k, v));
                None
            }
            _ => None,
        }
    };
    let mut net = Network::new(Handler::new(handler));
    let (x, y) = Stream::entangled(&mut net, 0, 1);
    x.subscribe(&mut net, 10);
    y.subscribe(&mut net, 20);
    assert_eq!(x.send(&mut net, &Signal::Value(5)), Ok(()));
    assert_eq!(*log.borrow(), vec![(20, 6), (10, 5)]);
    assert_eq!(y.send(&mut net, &Signal::Value(7)), Ok(()));
    assert_eq!(*log.borrow(), vec![(20, 6), (10, 5), (20, 7)]);
}
