//! The signature functor `X |-> (A, X)`, a layer that yields an `A` beside
//! the rest, and the free monad over it: a source of `A`s that ends with a
//! value, built as a [`Trampoline`] whose suspended steps are layers that
//! split into an item and the rest ([`Emit`]).
use vstd::prelude::*;
use crate::trampoline::{rewrap, Suspension, Trampoline};

verus! {

/// Maps `f` over the second component of the pair, keeping the first.
pub fn map<A, X, Y, F: FnOnce(X) -> Y>(m: (A, X), f: F) -> (r: (A, Y))
    requires
        f.requires((m.1,)),
    ensures
        r.0 == m.0,
        f.ensures((m.1,), r.1),
        forall|g: spec_fn(X) -> Y|
            (forall|y: Y| f.ensures((m.1,), y) ==> y == g(m.1)) ==> #[trigger] spec_map(m, g) == r,
{
    match m {
        (a, x) => (a, f(x)),
    }
}

/// What [`map`] gives for a function `g` with no side conditions.
pub open spec fn spec_map<A, X, Y>(m: (A, X), g: spec_fn(X) -> Y) -> (A, Y) {
    (m.0, g(m.1))
}

/// Mapping the identity changes nothing.
pub proof fn lemma_map_identity<A, X>(m: (A, X))
    ensures
        spec_map(m, |x: X| x) == m,
{
}

/// Mapping `f` and then `g` is mapping their composition.
pub proof fn lemma_map_compose<A, X, Y, Z>(m: (A, X), f: spec_fn(X) -> Y, g: spec_fn(Y) -> Z)
    ensures
        spec_map(spec_map(m, f), g) == spec_map(m, |x: X| g(f(x))),
{
}

/// A layer of a source: splitting it gives the item it yields and the rest
/// of the source.
pub trait Emit<A, V, C>: Sized {
    /// The item and the rest that splitting `self` gives.
    spec fn spec_split(self) -> (A, Trampoline<V, Self, C>);

    fn split(self) -> (r: (A, Trampoline<V, Self, C>))
        ensures
            r == self.spec_split(),
    ;
}

impl<K, C> Suspension<K, C> {
    /// The item that a resumed source yields, and the rest of the source with
    /// the continuations that were waiting put back around it.
    pub fn next<A, V>(self) -> (r: (A, Trampoline<V, K, C>)) where K: Emit<A, V, C>
        ensures
            r.0 == self.thunk.spec_split().0,
            r.1 == self.thunk.spec_split().1.spec_rebuilt(self.conts@),
    {
        let Suspension { thunk, conts } = self;
        let ghost ks = conts@;
        let put_back = move |t: Trampoline<V, K, C>| -> (u: Trampoline<V, K, C>)
            ensures
                u == t.spec_rebuilt(ks),
            { rewrap(t, conts) };
        map(thunk.split(), put_back)
    }
}

} // verus!
