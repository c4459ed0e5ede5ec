//! The signature functor `X |-> (A -> X)`, a layer that waits for an `A`,
//! and the free monad over it: a sink of `A`s that ends with a value, built
//! as a [`Trampoline`] whose suspended steps are layers that take the next
//! item ([`Await`]).
use vstd::prelude::*;
use crate::trampoline::{rewrap, Suspension, Trampoline};

verus! {

/// Composes `f` after the consumer `m`: feeding `a` to the result feeds `a`
/// to `m` and hands what `m` gives to `f`.
pub fn map<A, X, Y, M: FnOnce(A) -> X, F: FnOnce(X) -> Y>(m: M, f: F) -> (r: impl FnOnce(A) -> Y)
    ensures
        forall|a: A|
            #![trigger r.requires((a,))]
            (m.requires((a,)) && forall|x: X| m.ensures((a,), x) ==> f.requires((x,)))
                ==> r.requires((a,)),
        forall|a: A, y: Y|
            #[trigger] r.ensures((a,), y) ==> exists|x: X| m.ensures((a,), x) && f.ensures((x,), y),
        forall|sm: spec_fn(A) -> X, sf: spec_fn(X) -> Y|
            (forall|a: A, x: X| #[trigger] m.ensures((a,), x) ==> x == sm(a)) && (forall|x: X, y: Y|
                #[trigger] f.ensures((x,), y) ==> y == sf(x)) ==> forall|a: A, y: Y|
                #[trigger] r.ensures((a,), y) ==> y == (#[trigger] spec_map(sm, sf))(a),
{
    move |a: A| -> (y: Y)
        requires
            m.requires((a,)),
            forall|x: X| m.ensures((a,), x) ==> f.requires((x,)),
        ensures
            exists|x: X| m.ensures((a,), x) && f.ensures((x,), y),
        {
            let x = m(a);
            f(x)
        }
}

/// What [`map`] gives for a consumer `m` and a function `g` with no side
/// conditions.
pub open spec fn spec_map<A, X, Y>(m: spec_fn(A) -> X, g: spec_fn(X) -> Y) -> spec_fn(A) -> Y {
    |a: A| g(m(a))
}

/// Mapping the identity changes nothing.
pub proof fn lemma_map_identity<A, X>(m: spec_fn(A) -> X)
    ensures
        spec_map(m, |x: X| x) == m,
{
    assert(spec_map(m, |x: X| x) =~= m);
}

/// Mapping `f` and then `g` is mapping their composition.
pub proof fn lemma_map_compose<A, X, Y, Z>(m: spec_fn(A) -> X, f: spec_fn(X) -> Y, g: spec_fn(Y) -> Z)
    ensures
        spec_map(spec_map(m, f), g) == spec_map(m, |x: X| g(f(x))),
{
    assert(spec_map(spec_map(m, f), g) =~= spec_map(m, |x: X| g(f(x))));
}

/// A layer of a sink: feeding it an item gives the rest of the sink.
pub trait Await<A, V, C>: Sized {
    /// The rest of the sink that feeding `a` to `self` gives.
    spec fn spec_feed(self, a: A) -> Trampoline<V, Self, C>;

    fn feed(self, a: A) -> (t: Trampoline<V, Self, C>)
        ensures
            t == self.spec_feed(a),
    ;
}

impl<K, C> Suspension<K, C> {
    /// Feeds `a` to a resumed sink: the rest of the sink, with the
    /// continuations that were waiting put back around it.
    pub fn feed<A, V>(self, a: A) -> (t: Trampoline<V, K, C>) where K: Await<A, V, C>
        ensures
            t == self.thunk.spec_feed(a).spec_rebuilt(self.conts@),
    {
        let Suspension { thunk, conts } = self;
        rewrap(thunk.feed(a), conts)
    }
}

} // verus!
