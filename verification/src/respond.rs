//! Responders: what runs the user functions that subscriptions name by their keys.
use vstd::prelude::*;
use crate::semantics::Call;
use crate::signal::Signal;

verus! {

/// Runs the user functions of a network. Each call names a function by its key and
/// carries its arguments; the answer is the function's result, if it has one.
pub trait Respond<S, K> {
    /// The responder accepts any call.
    spec fn ready(&self) -> bool;

    /// `r` is an answer that the responder may give to call `c`.
    spec fn answers(&self, c: Call<S, K>, r: Option<Signal<S>>) -> bool;

    /// The calls answered so far, oldest first.
    spec fn heard(&self) -> Seq<Call<S, K>>;

    /// Run the user function that `c` names, exactly once, and give its answer.
    fn respond(&mut self, c: Call<S, K>) -> (r: Option<Signal<S>>)
        requires
            old(self).ready(),
        ensures
            final(self).ready(),
            final(self).heard() == old(self).heard().push(c),
            old(self).answers(c, r),
            forall|c2: Call<S, K>, r2: Option<Signal<S>>|
                #[trigger] final(self).answers(c2, r2) == old(self).answers(c2, r2),
    ;
}

/// A responder that hands every call to one closure and records the calls it heard.
pub struct Handler<S, K, F> {
    f: F,
    heard: Ghost<Seq<Call<S, K>>>,
}

impl<S, K, F: Fn(Call<S, K>) -> Option<Signal<S>>> Handler<S, K, F> {
    /// A handler that runs `f` on every call and has heard none yet.
    pub fn new(f: F) -> (h: Self)
        requires
            forall|c: Call<S, K>| call_requires(f, (c,)),
        ensures
            h.ready(),
            h.heard() == Seq::<Call<S, K>>::empty(),
            forall|c: Call<S, K>, r: Option<Signal<S>>|
                #[trigger] h.answers(c, r) == call_ensures(f, (c,), r),
    {
        Handler { f, heard: Ghost(Seq::empty()) }
    }
}

impl<S, K, F: Fn(Call<S, K>) -> Option<Signal<S>>> Respond<S, K> for Handler<S, K, F> {
    closed spec fn ready(&self) -> bool {
        forall|c: Call<S, K>| call_requires(self.f, (c,))
    }

    closed spec fn answers(&self, c: Call<S, K>, r: Option<Signal<S>>) -> bool {
        call_ensures(self.f, (c,), r)
    }

    closed spec fn heard(&self) -> Seq<Call<S, K>> {
        self.heard@
    }

    fn respond(&mut self, c: Call<S, K>) -> (r: Option<Signal<S>>) {
        let ghost asked = c;
        let r = (self.f)(c);
        proof {
            self.heard@ = self.heard@.push(asked);
        }
        r
    }
}

/// Two responders give the same answers to every call.
pub open spec fn agrees<S, K, H: Respond<S, K>>(a: H, b: H) -> bool {
    forall|c: Call<S, K>, r: Option<Signal<S>>| #[trigger] a.answers(c, r) == b.answers(c, r)
}

/// Agreeing on the answers is an equivalence.
pub proof fn lemma_agrees<S, K, H: Respond<S, K>>(a: H, b: H, c: H)
    ensures
        agrees(a, a),
        agrees(a, b) ==> agrees(b, a),
        agrees(a, b) && agrees(b, c) ==> agrees(a, c),
{
    if agrees(a, b) {
        assert forall|x: Call<S, K>, r: Option<Signal<S>>| #[trigger] b.answers(x, r) == a.answers(x, r) by {
            assert(a.answers(x, r) == b.answers(x, r));
        }
        if agrees(b, c) {
            assert forall|x: Call<S, K>, r: Option<Signal<S>>| #[trigger] a.answers(x, r) == c.answers(x, r) by {
                assert(a.answers(x, r) == b.answers(x, r));
                assert(b.answers(x, r) == c.answers(x, r));
            }
        }
    }
}

} // verus!
