use vstd::prelude::*;

verus! {

/// Either one or another type.
///
/// A zipped stream carries `Either` values: the left side for signals that came from
/// the first stream, the right side for those of the second.
#[derive(Debug, PartialEq, Eq, Clone)]
pub enum Either<A, B> {
    Left(A),
    Right(B),
}

/// A signal flowing through a network: a plain value, or one side of a zip.
#[derive(Debug, PartialEq, Eq)]
pub enum Signal<S> {
    Value(S),
    Zipped(Box<Either<Signal<S>, Signal<S>>>),
}

impl<S: Copy> Signal<S> {
    /// An exact copy of this signal.
    pub fn duplicate(&self) -> (r: Self)
        ensures
            r == *self,
        decreases *self,
    {
        match self {
            Signal::Value(v) => Signal::Value(*v),
            Signal::Zipped(b) => {
                match &**b {
                    Either::Left(l) => Signal::Zipped(Box::new(Either::Left(l.duplicate()))),
                    Either::Right(r) => Signal::Zipped(Box::new(Either::Right(r.duplicate()))),
                }
            },
        }
    }
}

} // verus!
