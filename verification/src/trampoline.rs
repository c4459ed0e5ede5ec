//! Trampolines: computations that are either finished, suspended behind a
//! layer, or sequenced with a continuation, run by a loop in constant stack.
//!
//! `Trampoline<V, K, C>` is the free monad over the layers `K`: `done`,
//! `more`, `bind`, `resume`, `bounce` and `fold` work for any layer. When the
//! layer is a suspended step ([`Thunk`]) the computation can be `run`; the
//! layers of sources and sinks are in [`crate::source`] and [`crate::sink`].
//! A continuation is a value of a type implementing [`Cont`]. Every value
//! that flows through a trampoline has the one type `V`, so continuations
//! are composed without erasing types.
use vstd::prelude::*;

verus! {

/// A suspended step of a trampoline: forcing it yields the trampoline that
/// continues the computation.
pub trait Thunk<V, C>: Sized {
    /// The trampoline that forcing `self` yields.
    spec fn spec_force(self) -> Trampoline<V, Self, C>;

    fn force(self) -> (t: Trampoline<V, Self, C>)
        ensures
            t == self.spec_force(),
    ;
}

/// What a `bind` runs on the value that the computation before it produced.
pub trait Cont<V, K>: Sized {
    /// The trampoline that applying `self` to `v` yields.
    spec fn spec_apply(self, v: V) -> Trampoline<V, K, Self>;

    fn apply(self, v: V) -> (t: Trampoline<V, K, Self>)
        ensures
            t == self.spec_apply(v),
    ;
}

enum Free<V, K, C> {
    Pure(V),
    Roll(K),
    Bind(Box<Free<V, K, C>>, C),
}

/// A trampolined computation of a `V`.
pub struct Trampoline<V, K, C> {
    node: Free<V, K, C>,
}

/// What `resume` hands back when the computation stops at a suspended step:
/// the step and the continuations waiting for the value, outermost first.
pub struct Suspension<K, C> {
    pub thunk: K,
    pub conts: Vec<C>,
}

// ---------------------------------------------------------------------------
// The machine: a control node and a stack of continuations (top last).

spec fn is_final<V, K, C>(f: Free<V, K, C>, ks: Seq<C>) -> bool {
    f is Pure && ks.len() == 0
}

/// One step of the machine that forces no suspended step: a finished value
/// goes to the top continuation, a bind pushes its continuation.
spec fn step<V, K, C: Cont<V, K>>(f: Free<V, K, C>, ks: Seq<C>) -> (Free<V, K, C>, Seq<C>) {
    match f {
        Free::Pure(v) => (ks.last().spec_apply(v).node, ks.drop_last()),
        Free::Roll(k) => (f, ks),
        Free::Bind(m, c) => (*m, ks.push(c)),
    }
}

/// One step of a run: a suspended step is forced, anything else steps.
spec fn next<V, K: Thunk<V, C>, C: Cont<V, K>>(f: Free<V, K, C>, ks: Seq<C>) -> (
    Free<V, K, C>,
    Seq<C>,
) {
    match f {
        Free::Roll(k) => (k.spec_force().node, ks),
        _ => step(f, ks),
    }
}

/// The value reached from `(f, ks)` within `n` checks of the state, if any.
spec fn eval<V, K: Thunk<V, C>, C: Cont<V, K>>(f: Free<V, K, C>, ks: Seq<C>, n: nat) -> Option<V>
    decreases n,
{
    if n == 0 {
        None
    } else if is_final(f, ks) {
        Some(f->Pure_0)
    } else {
        eval(next(f, ks).0, next(f, ks).1, (n - 1) as nat)
    }
}

/// Where `(f, ks)` comes to rest within `n` checks without forcing a step:
/// a final value, or a suspended step with the continuations left.
spec fn settle<V, K, C: Cont<V, K>>(f: Free<V, K, C>, ks: Seq<C>, n: nat) -> Option<
    Result<V, (K, Seq<C>)>,
>
    decreases n,
{
    if n == 0 {
        None
    } else if is_final(f, ks) {
        Some(Ok(f->Pure_0))
    } else if f is Roll {
        Some(Err((f->Roll_0, ks)))
    } else {
        settle(step(f, ks).0, step(f, ks).1, (n - 1) as nat)
    }
}

/// Wraps `g` in binds to the continuations `ks`, the last innermost.
spec fn rebuild<V, K, C>(g: Free<V, K, C>, ks: Seq<C>) -> Free<V, K, C>
    decreases ks.len(),
{
    if ks.len() == 0 {
        g
    } else {
        rebuild(Free::Bind(Box::new(g), ks.last()), ks.drop_last())
    }
}

/// Every run from `(f, ks)` that replaces each suspended step `k` by some
/// `t` with `h.ensures((k,), t)` ends within `n` checks.
spec fn must_end<V, K, C: Cont<V, K>, F: Fn(K) -> Trampoline<V, K, C>>(
    h: F,
    f: Free<V, K, C>,
    ks: Seq<C>,
    n: nat,
) -> bool
    decreases n,
{
    if n == 0 {
        false
    } else if is_final(f, ks) {
        true
    } else {
        match f {
            Free::Roll(k) => forall|t: Trampoline<V, K, C>|
                #[trigger] h.ensures((k,), t) ==> must_end(h, t.node, ks, (n - 1) as nat),
            _ => must_end(h, step(f, ks).0, step(f, ks).1, (n - 1) as nat),
        }
    }
}

/// Some run from `(f, ks)` that replaces each suspended step `k` by some `t`
/// with `h.ensures((k,), t)` ends with `w` within `n` checks.
spec fn may_end<V, K, C: Cont<V, K>, F: Fn(K) -> Trampoline<V, K, C>>(
    h: F,
    f: Free<V, K, C>,
    ks: Seq<C>,
    n: nat,
    w: V,
) -> bool
    decreases n,
{
    if n == 0 {
        false
    } else if is_final(f, ks) {
        f->Pure_0 == w
    } else {
        match f {
            Free::Roll(k) => exists|t: Trampoline<V, K, C>|
                #[trigger] h.ensures((k,), t) && may_end(h, t.node, ks, (n - 1) as nat, w),
            _ => may_end(h, step(f, ks).0, step(f, ks).1, (n - 1) as nat, w),
        }
    }
}

/// The state at which resuming comes to rest.
spec fn rest_node<V, K, C>(o: Result<V, (K, Seq<C>)>) -> Free<V, K, C> {
    match o {
        Ok(v) => Free::Pure(v),
        Err(p) => Free::Roll(p.0),
    }
}

spec fn rest_stack<V, K, C>(o: Result<V, (K, Seq<C>)>) -> Seq<C> {
    match o {
        Ok(v) => Seq::empty(),
        Err(p) => p.1,
    }
}

impl<V, K, C> Trampoline<V, K, C> {
    /// The finished computation of `v`.
    pub closed spec fn spec_done(v: V) -> Self {
        Trampoline { node: Free::Pure(v) }
    }

    /// The computation suspended behind `k`.
    pub closed spec fn spec_more(k: K) -> Self {
        Trampoline { node: Free::Roll(k) }
    }

    /// `self` followed by the continuation `c`.
    pub closed spec fn spec_bind(self, c: C) -> Self {
        Trampoline { node: Free::Bind(Box::new(self.node), c) }
    }

    /// `self` with the continuations `ks` waiting for its value, the last
    /// applied first.
    pub closed spec fn spec_rebuilt(self, ks: Seq<C>) -> Self {
        Trampoline { node: rebuild(self.node, ks) }
    }
}

impl<V, K, C: Cont<V, K>> Trampoline<V, K, C> {
    /// Resuming `self` comes to rest: at a value or at a suspended step.
    pub closed spec fn settles(self) -> bool {
        exists|n: nat| #[trigger] settle(self.node, Seq::<C>::empty(), n) is Some
    }

    /// Where resuming `self` comes to rest (meaningful when it settles).
    pub closed spec fn outcome(self) -> Result<V, (K, Seq<C>)> {
        settle(
            self.node,
            Seq::<C>::empty(),
            choose|n: nat| #[trigger] settle(self.node, Seq::<C>::empty(), n) is Some,
        )->Some_0
    }
}

impl<V, K: Thunk<V, C>, C: Cont<V, K>> Trampoline<V, K, C> {
    /// Running `self` comes to an end.
    pub closed spec fn terminates(self) -> bool {
        exists|n: nat| #[trigger] eval(self.node, Seq::<C>::empty(), n) is Some
    }

    /// The value that running `self` ends with (meaningful when it terminates).
    pub closed spec fn value(self) -> V {
        eval(
            self.node,
            Seq::<C>::empty(),
            choose|n: nat| #[trigger] eval(self.node, Seq::<C>::empty(), n) is Some,
        )->Some_0
    }

    /// The computation that forcing the suspension `(k, ks)` yields.
    pub closed spec fn spec_resumed(k: K, ks: Seq<C>) -> Self {
        Trampoline { node: rebuild(k.spec_force().node, ks) }
    }

    /// Running `self` and running `other` end alike: both or neither end,
    /// and with the same value.
    pub open spec fn same_run(self, other: Self) -> bool {
        &&& self.terminates() <==> other.terminates()
        &&& self.terminates() ==> self.value() == other.value()
    }
}

// ---------------------------------------------------------------------------
// Facts about the machine.

proof fn lemma_eval_mono<V, K: Thunk<V, C>, C: Cont<V, K>>(
    f: Free<V, K, C>,
    ks: Seq<C>,
    n: nat,
    n2: nat,
)
    requires
        eval(f, ks, n) is Some,
        n <= n2,
    ensures
        eval(f, ks, n2) == eval(f, ks, n),
    decreases n,
{
    if !is_final(f, ks) {
        lemma_eval_mono(next(f, ks).0, next(f, ks).1, (n - 1) as nat, (n2 - 1) as nat);
    }
}

proof fn lemma_eval_unique<V, K: Thunk<V, C>, C: Cont<V, K>>(
    f: Free<V, K, C>,
    ks: Seq<C>,
    n1: nat,
    n2: nat,
)
    requires
        eval(f, ks, n1) is Some,
        eval(f, ks, n2) is Some,
    ensures
        eval(f, ks, n1) == eval(f, ks, n2),
{
    if n1 <= n2 {
        lemma_eval_mono(f, ks, n1, n2);
    } else {
        lemma_eval_mono(f, ks, n2, n1);
    }
}

proof fn lemma_settle_mono<V, K, C: Cont<V, K>>(
    f: Free<V, K, C>,
    ks: Seq<C>,
    n: nat,
    n2: nat,
)
    requires
        settle(f, ks, n) is Some,
        n <= n2,
    ensures
        settle(f, ks, n2) == settle(f, ks, n),
    decreases n,
{
    if !is_final(f, ks) && !(f is Roll) {
        lemma_settle_mono(step(f, ks).0, step(f, ks).1, (n - 1) as nat, (n2 - 1) as nat);
    }
}

proof fn lemma_settle_unique<V, K, C: Cont<V, K>>(
    f: Free<V, K, C>,
    ks: Seq<C>,
    n1: nat,
    n2: nat,
)
    requires
        settle(f, ks, n1) is Some,
        settle(f, ks, n2) is Some,
    ensures
        settle(f, ks, n1) == settle(f, ks, n2),
{
    if n1 <= n2 {
        lemma_settle_mono(f, ks, n1, n2);
    } else {
        lemma_settle_mono(f, ks, n2, n1);
    }
}

/// A run that ends passes through a point where it comes to rest.
proof fn lemma_eval_settles<V, K: Thunk<V, C>, C: Cont<V, K>>(
    f: Free<V, K, C>,
    ks: Seq<C>,
    n: nat,
)
    requires
        eval(f, ks, n) is Some,
    ensures
        settle(f, ks, n) is Some,
    decreases n,
{
    if !is_final(f, ks) && !(f is Roll) {
        lemma_eval_settles(step(f, ks).0, step(f, ks).1, (n - 1) as nat);
    }
}

/// The `j` steps to where `(f, ks)` comes to rest: with fewer checks the run
/// ends nowhere, and past them it goes on as from the resting point.
proof fn lemma_settle_path<V, K: Thunk<V, C>, C: Cont<V, K>>(
    f: Free<V, K, C>,
    ks: Seq<C>,
    m: nat,
) -> (j: nat)
    requires
        settle(f, ks, m) is Some,
    ensures
        forall|n: nat| n <= j ==> #[trigger] eval(f, ks, n) is None,
        match settle(f, ks, m)->Some_0 {
            Ok(v) => forall|n: nat|
                eval(f, ks, n + j) == #[trigger] eval(Free::<V, K, C>::Pure(v), Seq::<C>::empty(), n),
            Err(p) => p.1.len() <= ks.len() + j && forall|n: nat|
                eval(f, ks, n + j) == #[trigger] eval(Free::<V, K, C>::Roll(p.0), p.1, n),
        },
    decreases m,
{
    if is_final(f, ks) || f is Roll {
        assert forall|n: nat| n <= 0 implies #[trigger] eval(f, ks, n) is None by {}
        match settle(f, ks, m)->Some_0 {
            Ok(v) => {
                assert forall|n: nat|
                    eval(f, ks, n + 0) == #[trigger] eval(
                        Free::<V, K, C>::Pure(v),
                        Seq::<C>::empty(),
                        n,
                    ) by {
                    assert(n + 0 == n);
                }
            },
            Err(p) => {
                assert forall|n: nat|
                    eval(f, ks, n + 0) == #[trigger] eval(Free::<V, K, C>::Roll(p.0), p.1, n) by {
                    assert(n + 0 == n);
                }
            },
        }
        0
    } else {
        let g = step(f, ks).0;
        let gs = step(f, ks).1;
        let j1 = lemma_settle_path(g, gs, (m - 1) as nat);
        assert forall|n: nat| n <= j1 + 1 implies #[trigger] eval(f, ks, n) is None by {
            if n > 0 {
                assert(eval(g, gs, (n - 1) as nat) is None);
            }
        }
        match settle(f, ks, m)->Some_0 {
            Ok(v) => {
                assert forall|n: nat|
                    eval(f, ks, n + (j1 + 1)) == #[trigger] eval(
                        Free::<V, K, C>::Pure(v),
                        Seq::<C>::empty(),
                        n,
                    ) by {
                    assert(eval(f, ks, n + (j1 + 1)) == eval(g, gs, n + j1));
                }
            },
            Err(p) => {
                assert forall|n: nat|
                    eval(f, ks, n + (j1 + 1)) == #[trigger] eval(
                        Free::<V, K, C>::Roll(p.0),
                        p.1,
                        n,
                    ) by {
                    assert(eval(f, ks, n + (j1 + 1)) == eval(g, gs, n + j1));
                }
            },
        }
        j1 + 1
    }
}

/// Running a rebuilt node first moves its binds onto the stack, one step each.
proof fn lemma_unwind<V, K: Thunk<V, C>, C: Cont<V, K>>(
    g: Free<V, K, C>,
    base: Seq<C>,
    ks: Seq<C>,
    n: nat,
)
    ensures
        eval(rebuild(g, ks), base, n + ks.len()) == eval(g, base + ks, n),
    decreases ks.len(),
{
    if ks.len() == 0 {
        assert(base + ks =~= base);
    } else {
        let g2 = Free::Bind(Box::new(g), ks.last());
        lemma_unwind(g2, base, ks.drop_last(), n + 1);
        assert((base + ks.drop_last()).push(ks.last()) =~= base + ks);
        assert(n + 1 + ks.drop_last().len() == n + ks.len());
    }
}

/// A rebuilt node needs at least one step per bind before it can end.
proof fn lemma_unwind_short<V, K: Thunk<V, C>, C: Cont<V, K>>(
    g: Free<V, K, C>,
    base: Seq<C>,
    ks: Seq<C>,
    n: nat,
)
    requires
        n < ks.len(),
    ensures
        eval(rebuild(g, ks), base, n) is None,
    decreases ks.len(),
{
    let g2 = Free::Bind(Box::new(g), ks.last());
    if n < ks.len() - 1 {
        lemma_unwind_short(g2, base, ks.drop_last(), n);
    } else {
        lemma_unwind(g2, base, ks.drop_last(), 0);
    }
}

/// A run that ends from `(f, ks)` ends from `(f, base + ks)` at `(Pure(v), base)`.
proof fn lemma_under<V, K: Thunk<V, C>, C: Cont<V, K>>(
    f: Free<V, K, C>,
    ks: Seq<C>,
    base: Seq<C>,
    n1: nat,
    n2: nat,
)
    requires
        eval(f, ks, n1) is Some,
        eval(Free::<V, K, C>::Pure(eval(f, ks, n1)->Some_0), base, n2) is Some,
    ensures
        eval(f, base + ks, n1 + n2) == eval(
            Free::<V, K, C>::Pure(eval(f, ks, n1)->Some_0),
            base,
            n2,
        ),
    decreases n1,
{
    let v = eval(f, ks, n1)->Some_0;
    if is_final(f, ks) {
        assert(base + ks =~= base);
        lemma_eval_mono(Free::<V, K, C>::Pure(v), base, n2, n1 + n2);
    } else {
        lemma_next_under(f, ks, base);
        lemma_under(next(f, ks).0, next(f, ks).1, base, (n1 - 1) as nat, n2);
        assert((n1 - 1) as nat + n2 == (n1 + n2 - 1) as nat);
    }
}

/// Stepping a state with a stack under it steps the state and keeps the stack.
proof fn lemma_step_under<V, K, C: Cont<V, K>>(
    f: Free<V, K, C>,
    ks: Seq<C>,
    base: Seq<C>,
)
    requires
        !is_final(f, ks),
    ensures
        !is_final(f, base + ks),
        step(f, base + ks).0 == step(f, ks).0,
        step(f, base + ks).1 == base + step(f, ks).1,
{
    match f {
        Free::Pure(v) => {
            assert((base + ks).last() == ks.last());
            assert((base + ks).drop_last() =~= base + ks.drop_last());
        },
        Free::Roll(k) => {},
        Free::Bind(m, c) => {
            assert((base + ks).push(c) =~= base + ks.push(c));
        },
    }
}

/// Running one step with a stack under the state runs it and keeps the stack.
proof fn lemma_next_under<V, K: Thunk<V, C>, C: Cont<V, K>>(
    f: Free<V, K, C>,
    ks: Seq<C>,
    base: Seq<C>,
)
    requires
        !is_final(f, ks),
    ensures
        !is_final(f, base + ks),
        next(f, base + ks).0 == next(f, ks).0,
        next(f, base + ks).1 == base + next(f, ks).1,
{
    lemma_step_under(f, ks, base);
}

/// A run that ends from `(f, base + ks)` first ends the run from `(f, ks)`
/// and then goes on from `(Pure(v), base)`.
proof fn lemma_over<V, K: Thunk<V, C>, C: Cont<V, K>>(
    f: Free<V, K, C>,
    ks: Seq<C>,
    base: Seq<C>,
    n: nat,
) -> (w: (nat, nat))
    requires
        eval(f, base + ks, n) is Some,
    ensures
        eval(f, ks, w.0) is Some,
        eval(Free::<V, K, C>::Pure(eval(f, ks, w.0)->Some_0), base, w.1) == eval(f, base + ks, n),
    decreases n,
{
    if is_final(f, ks) {
        assert(base + ks =~= base);
        (1, n)
    } else {
        lemma_next_under(f, ks, base);
        let w1 = lemma_over(next(f, ks).0, next(f, ks).1, base, (n - 1) as nat);
        (w1.0 + 1, w1.1)
    }
}

/// Coming to rest at a suspended step from `(f, ks)` comes to rest there from
/// `(f, base + ks)`, with `base` under the continuations left.
proof fn lemma_settle_under_err<V, K, C: Cont<V, K>>(
    f: Free<V, K, C>,
    ks: Seq<C>,
    base: Seq<C>,
    n: nat,
)
    requires
        settle(f, ks, n) matches Some(Err(_)),
    ensures
        settle(f, base + ks, n) == Some(
            Err::<V, (K, Seq<C>)>(
                ((settle(f, ks, n)->Some_0)->Err_0.0, base + (settle(f, ks, n)->Some_0)->Err_0.1),
            ),
        ),
    decreases n,
{
    if !is_final(f, ks) && !(f is Roll) {
        lemma_step_under(f, ks, base);
        lemma_settle_under_err(step(f, ks).0, step(f, ks).1, base, (n - 1) as nat);
    } else if f is Roll {
        assert(!is_final(f, base + ks));
    }
}

/// Coming to rest at `v` from `(f, ks)` leads from `(f, base + ks)` to
/// `(Pure(v), base)`, which comes to rest as it does on its own.
proof fn lemma_settle_under_ok<V, K, C: Cont<V, K>>(
    f: Free<V, K, C>,
    ks: Seq<C>,
    base: Seq<C>,
    v: V,
    n1: nat,
    n2: nat,
)
    requires
        settle(f, ks, n1) == Some(Ok::<V, (K, Seq<C>)>(v)),
        settle(Free::<V, K, C>::Pure(v), base, n2) is Some,
    ensures
        settle(f, base + ks, n1 + n2) == settle(Free::<V, K, C>::Pure(v), base, n2),
    decreases n1,
{
    if is_final(f, ks) {
        assert(base + ks =~= base);
        lemma_settle_mono(Free::<V, K, C>::Pure(v), base, n2, n1 + n2);
    } else {
        lemma_step_under(f, ks, base);
        lemma_settle_under_ok(step(f, ks).0, step(f, ks).1, base, v, (n1 - 1) as nat, n2);
        assert((n1 - 1) as nat + n2 == (n1 + n2 - 1) as nat);
    }
}

/// When `(f, ks)` comes to rest at `v`, whatever `(f, base + ks)` comes to
/// rest at is what `(Pure(v), base)` comes to rest at.
proof fn lemma_settle_over_ok<V, K, C: Cont<V, K>>(
    f: Free<V, K, C>,
    ks: Seq<C>,
    base: Seq<C>,
    v: V,
    n1: nat,
    n: nat,
) -> (n2: nat)
    requires
        settle(f, ks, n1) == Some(Ok::<V, (K, Seq<C>)>(v)),
        settle(f, base + ks, n) is Some,
    ensures
        settle(Free::<V, K, C>::Pure(v), base, n2) == settle(f, base + ks, n),
    decreases n1,
{
    if is_final(f, ks) {
        assert(base + ks =~= base);
        n
    } else {
        lemma_step_under(f, ks, base);
        lemma_settle_over_ok(step(f, ks).0, step(f, ks).1, base, v, (n1 - 1) as nat, (n - 1) as nat)
    }
}

/// Putting a continuation under the ones left around a forced step is
/// binding it after the rebuilt computation.
proof fn lemma_rebuild_under<V, K, C>(g: Free<V, K, C>, c: C, ks: Seq<C>)
    ensures
        rebuild(g, seq![c] + ks) == Free::Bind(Box::new(rebuild(g, ks)), c),
    decreases ks.len(),
{
    if ks.len() == 0 {
        assert(seq![c] + ks =~= seq![c]);
        assert(seq![c].drop_last() =~= Seq::<C>::empty());
        assert(rebuild(Free::Bind(Box::new(g), c), Seq::<C>::empty()) == Free::Bind(Box::new(g), c));
        assert(rebuild(g, ks) == g);
    } else {
        let g2 = Free::Bind(Box::new(g), ks.last());
        lemma_rebuild_under(g2, c, ks.drop_last());
        assert((seq![c] + ks).last() == ks.last());
        assert((seq![c] + ks).drop_last() =~= seq![c] + ks.drop_last());
        assert(rebuild(g, seq![c] + ks) == rebuild(g2, seq![c] + ks.drop_last()));
        assert(rebuild(g, ks) == rebuild(g2, ks.drop_last()));
    }
}

proof fn lemma_outcome_at<V, K, C: Cont<V, K>>(t: Trampoline<V, K, C>, n: nat)
    requires
        settle(t.node, Seq::<C>::empty(), n) is Some,
    ensures
        t.settles(),
        t.outcome() == settle(t.node, Seq::<C>::empty(), n)->Some_0,
{
    let m = choose|n: nat| #[trigger] settle(t.node, Seq::<C>::empty(), n) is Some;
    lemma_settle_unique(t.node, Seq::<C>::empty(), m, n);
}

proof fn lemma_value_at<V, K: Thunk<V, C>, C: Cont<V, K>>(t: Trampoline<V, K, C>, n: nat)
    requires
        eval(t.node, Seq::<C>::empty(), n) is Some,
    ensures
        t.terminates(),
        t.value() == eval(t.node, Seq::<C>::empty(), n)->Some_0,
{
    let m = choose|n: nat| #[trigger] eval(t.node, Seq::<C>::empty(), n) is Some;
    lemma_eval_unique(t.node, Seq::<C>::empty(), m, n);
}

/// A run that must end comes to rest first.
proof fn lemma_must_settles<V, K, C: Cont<V, K>, F: Fn(K) -> Trampoline<V, K, C>>(
    h: F,
    f: Free<V, K, C>,
    ks: Seq<C>,
    n: nat,
)
    requires
        must_end(h, f, ks, n),
    ensures
        settle(f, ks, n) is Some,
    decreases n,
{
    if !is_final(f, ks) && !(f is Roll) {
        lemma_must_settles(h, step(f, ks).0, step(f, ks).1, (n - 1) as nat);
    }
}

/// The `j` steps to where `(f, ks)` comes to rest: every run must end from
/// there with `j` fewer checks, and what may end from there may end from
/// `(f, ks)` with `j` more.
proof fn lemma_handled_path<V, K, C: Cont<V, K>, F: Fn(K) -> Trampoline<V, K, C>>(
    h: F,
    f: Free<V, K, C>,
    ks: Seq<C>,
    m: nat,
) -> (j: nat)
    requires
        settle(f, ks, m) is Some,
    ensures
        forall|n: nat| #[trigger] must_end(h, f, ks, n) ==> n > j && must_end(
            h,
            rest_node(settle(f, ks, m)->Some_0),
            rest_stack(settle(f, ks, m)->Some_0),
            (n - j) as nat,
        ),
        forall|n: nat, w: V|
            #[trigger] may_end(
                h,
                rest_node(settle(f, ks, m)->Some_0),
                rest_stack(settle(f, ks, m)->Some_0),
                n,
                w,
            ) ==> may_end(h, f, ks, n + j, w),
    decreases m,
{
    let o = settle(f, ks, m)->Some_0;
    if is_final(f, ks) || f is Roll {
        if is_final(f, ks) {
            assert(ks =~= Seq::<C>::empty());
        }
        assert(rest_node(o) == f && rest_stack(o) == ks);
        assert forall|n: nat, w: V| #[trigger] may_end(h, rest_node(o), rest_stack(o), n, w)
            implies may_end(h, f, ks, n + 0, w) by {
            assert(n + 0 == n);
        }
        0
    } else {
        let g = step(f, ks).0;
        let gs = step(f, ks).1;
        let j1 = lemma_handled_path(h, g, gs, (m - 1) as nat);
        assert forall|n: nat| #[trigger] must_end(h, f, ks, n) implies n > j1 + 1 && must_end(
            h,
            rest_node(o),
            rest_stack(o),
            (n - (j1 + 1)) as nat,
        ) by {
            assert(must_end(h, g, gs, (n - 1) as nat));
            assert((n - 1 - j1) as nat == (n - (j1 + 1)) as nat);
        }
        assert forall|n: nat, w: V| #[trigger] may_end(h, rest_node(o), rest_stack(o), n, w)
            implies may_end(h, f, ks, n + (j1 + 1), w) by {
            assert(may_end(h, g, gs, n + j1, w));
            assert((n + (j1 + 1) - 1) as nat == n + j1);
        }
        j1 + 1
    }
}

/// Forcing a suspended step by a `t` that `h` may give: what may end from
/// `t` may end from the step with one more check.
proof fn lemma_may_roll<V, K, C: Cont<V, K>, F: Fn(K) -> Trampoline<V, K, C>>(
    h: F,
    k: K,
    ks: Seq<C>,
    t: Trampoline<V, K, C>,
    m: nat,
    w: V,
)
    requires
        h.ensures((k,), t),
        may_end(h, t.node, ks, m, w),
    ensures
        may_end(h, Free::<V, K, C>::Roll(k), ks, m + 1, w),
{
    assert((m + 1 - 1) as nat == m);
    let f = Free::<V, K, C>::Roll(k);
    assert(h.ensures((f->Roll_0,), t));
}

/// Forcing a suspended step from which every run must end by a `t` that `h`
/// may give: every run must end from `t` with one check fewer.
proof fn lemma_must_roll<V, K, C: Cont<V, K>, F: Fn(K) -> Trampoline<V, K, C>>(
    h: F,
    k: K,
    ks: Seq<C>,
    t: Trampoline<V, K, C>,
    n: nat,
)
    requires
        h.ensures((k,), t),
        must_end(h, Free::<V, K, C>::Roll(k), ks, n),
    ensures
        n > 0,
        must_end(h, t.node, ks, (n - 1) as nat),
{
    let f = Free::<V, K, C>::Roll(k);
    assert(h.ensures((f->Roll_0,), t));
}

/// When each suspended step may only be replaced by what forcing it gives,
/// a run that ends with enough checks must end.
proof fn lemma_forcing_must<V, K: Thunk<V, C>, C: Cont<V, K>, F: Fn(K) -> Trampoline<V, K, C>>(
    h: F,
    f: Free<V, K, C>,
    ks: Seq<C>,
    n: nat,
)
    requires
        forall|k: K, t: Trampoline<V, K, C>| #[trigger] h.ensures((k,), t) ==> t == k.spec_force(),
        eval(f, ks, n) is Some,
    ensures
        must_end(h, f, ks, n),
    decreases n,
{
    if !is_final(f, ks) {
        lemma_forcing_must(h, next(f, ks).0, next(f, ks).1, (n - 1) as nat);
    }
}

/// When each suspended step may only be replaced by what forcing it gives,
/// a run that may end with `w` is the run, and it ends with `w`.
proof fn lemma_forcing_may<V, K: Thunk<V, C>, C: Cont<V, K>, F: Fn(K) -> Trampoline<V, K, C>>(
    h: F,
    f: Free<V, K, C>,
    ks: Seq<C>,
    n: nat,
    w: V,
)
    requires
        forall|k: K, t: Trampoline<V, K, C>| #[trigger] h.ensures((k,), t) ==> t == k.spec_force(),
        may_end(h, f, ks, n, w),
    ensures
        eval(f, ks, n) == Some(w),
    decreases n,
{
    if !is_final(f, ks) {
        if f is Roll {
            let t = choose|t: Trampoline<V, K, C>| #[trigger] h.ensures((f->Roll_0,), t) && may_end(h, t.node, ks, (n - 1) as nat, w);
            lemma_forcing_may(h, t.node, ks, (n - 1) as nat, w);
        } else {
            lemma_forcing_may(h, step(f, ks).0, step(f, ks).1, (n - 1) as nat, w);
        }
    }
}

// ---------------------------------------------------------------------------
// Laws.

/// A finished computation ends at once with its value, and resuming it gives
/// that value.
pub proof fn lemma_done<V, K: Thunk<V, C>, C: Cont<V, K>>(v: V)
    ensures
        Trampoline::<V, K, C>::spec_done(v).terminates(),
        Trampoline::<V, K, C>::spec_done(v).value() == v,
        Trampoline::<V, K, C>::spec_done(v).settles(),
        Trampoline::<V, K, C>::spec_done(v).outcome() == Ok::<V, (K, Seq<C>)>(v),
{
    let t = Trampoline::<V, K, C>::spec_done(v);
    assert(eval(t.node, Seq::<C>::empty(), 1) is Some);
    assert(settle(t.node, Seq::<C>::empty(), 1) is Some);
    let n = choose|n: nat| #[trigger] eval(t.node, Seq::<C>::empty(), n) is Some;
    lemma_eval_unique(t.node, Seq::<C>::empty(), n, 1);
    let m = choose|n: nat| #[trigger] settle(t.node, Seq::<C>::empty(), n) is Some;
    lemma_settle_unique(t.node, Seq::<C>::empty(), m, 1);
}

/// A suspended computation resumes to its step with no continuation, and it
/// ends, with a given value, exactly when what forcing the step yields does.
pub proof fn lemma_more<V, K: Thunk<V, C>, C: Cont<V, K>>(k: K)
    ensures
        Trampoline::<V, K, C>::spec_more(k).settles(),
        Trampoline::<V, K, C>::spec_more(k).outcome() == Err::<V, (K, Seq<C>)>(
            (k, Seq::<C>::empty()),
        ),
        Trampoline::<V, K, C>::spec_more(k).terminates() <==> k.spec_force().terminates(),
        k.spec_force().terminates() ==> Trampoline::<V, K, C>::spec_more(k).value()
            == k.spec_force().value(),
{
    let t = Trampoline::<V, K, C>::spec_more(k);
    let e = Seq::<C>::empty();
    assert(settle(t.node, e, 1) is Some);
    let m = choose|n: nat| #[trigger] settle(t.node, e, n) is Some;
    lemma_settle_unique(t.node, e, m, 1);
    if t.terminates() {
        let n = choose|n: nat| #[trigger] eval(t.node, e, n) is Some;
        assert(eval(k.spec_force().node, e, (n - 1) as nat) is Some);
        let n2 = choose|n: nat| #[trigger] eval(k.spec_force().node, e, n) is Some;
        lemma_eval_unique(k.spec_force().node, e, (n - 1) as nat, n2);
    }
    if k.spec_force().terminates() {
        let n2 = choose|n: nat| #[trigger] eval(k.spec_force().node, e, n) is Some;
        assert(eval(t.node, e, n2 + 1) is Some);
    }
}

/// Binding `c` after `t` ends exactly when `t` ends with some `v` and `c`
/// applied to `v` ends; then it ends with the value of the latter.
pub proof fn lemma_bind<V, K: Thunk<V, C>, C: Cont<V, K>>(t: Trampoline<V, K, C>, c: C)
    ensures
        t.spec_bind(c).terminates() <==> (t.terminates() && c.spec_apply(
            t.value(),
        ).terminates()),
        t.spec_bind(c).terminates() ==> t.spec_bind(c).value() == c.spec_apply(t.value()).value(),
{
    let e = Seq::<C>::empty();
    let b = t.spec_bind(c);
    let base = seq![c];
    assert(base + e =~= base);
    if b.terminates() {
        let n = choose|n: nat| #[trigger] eval(b.node, e, n) is Some;
        assert(eval(b.node, e, n) == eval(t.node, base, (n - 1) as nat));
        let w = lemma_over(t.node, e, base, (n - 1) as nat);
        let v = eval(t.node, e, w.0)->Some_0;
        let nt = choose|n: nat| #[trigger] eval(t.node, e, n) is Some;
        lemma_eval_unique(t.node, e, w.0, nt);
        let a = c.spec_apply(v);
        assert(base.last() == c);
        assert(base.drop_last() =~= e);
        assert(eval(Free::<V, K, C>::Pure(v), base, w.1) == eval(a.node, e, (w.1 - 1) as nat));
        let na = choose|n: nat| #[trigger] eval(a.node, e, n) is Some;
        lemma_eval_unique(a.node, e, (w.1 - 1) as nat, na);
        let nb = choose|n: nat| #[trigger] eval(b.node, e, n) is Some;
        lemma_eval_unique(b.node, e, n, nb);
    }
    if t.terminates() && c.spec_apply(t.value()).terminates() {
        let nt = choose|n: nat| #[trigger] eval(t.node, e, n) is Some;
        let v = t.value();
        let a = c.spec_apply(v);
        let na = choose|n: nat| #[trigger] eval(a.node, e, n) is Some;
        assert(base.last() == c);
        assert(base.drop_last() =~= e);
        assert(eval(Free::<V, K, C>::Pure(v), base, na + 1) == eval(a.node, e, na));
        lemma_under(t.node, e, base, nt, na + 1);
        assert(eval(b.node, e, nt + na + 2) == eval(t.node, base, nt + na + 1));
    }
}

/// Left identity: binding `c` after the finished computation of `v` runs
/// as `c` applied to `v` does.
pub proof fn lemma_bind_done<V, K: Thunk<V, C>, C: Cont<V, K>>(v: V, c: C)
    ensures
        Trampoline::<V, K, C>::spec_done(v).spec_bind(c).same_run(c.spec_apply(v)),
{
    lemma_done::<V, K, C>(v);
    lemma_bind(Trampoline::<V, K, C>::spec_done(v), c);
}

/// Right identity: binding a continuation that finishes with the value it
/// gets changes nothing in how a computation runs.
pub proof fn lemma_bind_finish<V, K: Thunk<V, C>, C: Cont<V, K>>(t: Trampoline<V, K, C>, c: C)
    requires
        forall|v: V| #[trigger] c.spec_apply(v) == Trampoline::<V, K, C>::spec_done(v),
    ensures
        t.spec_bind(c).same_run(t),
{
    lemma_bind(t, c);
    if t.terminates() {
        lemma_done::<V, K, C>(t.value());
    }
}

/// Associativity: binding `c1` and then `c2` runs as binding the single
/// continuation `c3` that applies `c1` and binds `c2` after it.
pub proof fn lemma_bind_assoc<V, K: Thunk<V, C>, C: Cont<V, K>>(
    t: Trampoline<V, K, C>,
    c1: C,
    c2: C,
    c3: C,
)
    requires
        forall|v: V| #[trigger] c3.spec_apply(v) == c1.spec_apply(v).spec_bind(c2),
    ensures
        t.spec_bind(c1).spec_bind(c2).same_run(t.spec_bind(c3)),
{
    lemma_bind(t.spec_bind(c1), c2);
    lemma_bind(t, c1);
    lemma_bind(t, c3);
    if t.terminates() {
        lemma_bind(c1.spec_apply(t.value()), c2);
    }
}

/// Resuming `t` bound to `c`: when `t` stops at a suspended step, so does
/// the bind, at the same step with `c` kept under the continuations left;
/// when `t` comes to rest at `v`, the bind comes to rest exactly where
/// `c` applied to `v` does.
pub proof fn lemma_bind_outcome<V, K, C: Cont<V, K>>(t: Trampoline<V, K, C>, c: C)
    requires
        t.settles(),
    ensures
        match t.outcome() {
            Ok(v) => {
                &&& t.spec_bind(c).settles() <==> c.spec_apply(v).settles()
                &&& c.spec_apply(v).settles() ==> t.spec_bind(c).outcome() == c.spec_apply(
                    v,
                ).outcome()
            },
            Err(p) => {
                &&& t.spec_bind(c).settles()
                &&& t.spec_bind(c).outcome() == Err::<V, (K, Seq<C>)>((p.0, seq![c] + p.1))
            },
        },
{
    let e = Seq::<C>::empty();
    let base = seq![c];
    assert(base + e =~= base);
    let b = t.spec_bind(c);
    let m = choose|n: nat| #[trigger] settle(t.node, Seq::<C>::empty(), n) is Some;
    lemma_outcome_at(t, m);
    match t.outcome() {
        Ok(v) => {
            let a = c.spec_apply(v);
            assert(base.last() == c);
            assert(base.drop_last() =~= e);
            if b.settles() {
                let n = choose|n: nat| #[trigger] settle(b.node, Seq::<C>::empty(), n) is Some;
                assert(settle(b.node, e, n) == settle(t.node, base, (n - 1) as nat));
                let n2 = lemma_settle_over_ok(t.node, e, base, v, m, (n - 1) as nat);
                assert(settle(Free::<V, K, C>::Pure(v), base, n2) == settle(a.node, e, (n2 - 1) as nat));
                lemma_outcome_at(a, (n2 - 1) as nat);
                lemma_outcome_at(b, n);
            }
            if a.settles() {
                let na = choose|n: nat| #[trigger] settle(a.node, Seq::<C>::empty(), n) is Some;
                assert(settle(Free::<V, K, C>::Pure(v), base, na + 1) == settle(a.node, e, na));
                lemma_settle_under_ok(t.node, e, base, v, m, na + 1);
                assert(settle(b.node, e, m + na + 2) == settle(t.node, base, m + na + 1));
                lemma_outcome_at(a, na);
                lemma_outcome_at(b, m + na + 2);
            }
        },
        Err(p) => {
            lemma_settle_under_err(t.node, e, base, m);
            assert(settle(b.node, e, m + 1) == settle(t.node, base, m));
            lemma_outcome_at(b, m + 1);
        },
    }
}

/// Re-association under resuming: binding `c1` and then `c2` comes to rest
/// exactly when binding the single continuation `c3` that applies `c1` and
/// binds `c2` after it does; both reach the same value, or both stop at the
/// same step, with suspensions that run alike once forced.
pub proof fn lemma_bind_assoc_outcome<V, K: Thunk<V, C>, C: Cont<V, K>>(
    t: Trampoline<V, K, C>,
    c1: C,
    c2: C,
    c3: C,
)
    requires
        t.settles(),
        forall|v: V| #[trigger] c3.spec_apply(v) == c1.spec_apply(v).spec_bind(c2),
    ensures
        t.spec_bind(c1).spec_bind(c2).settles() <==> t.spec_bind(c3).settles(),
        t.spec_bind(c3).settles() ==> match (
            t.spec_bind(c1).spec_bind(c2).outcome(),
            t.spec_bind(c3).outcome(),
        ) {
            (Ok(a), Ok(b)) => a == b,
            (Err(p), Err(q)) => p.0 == q.0 && Trampoline::<V, K, C>::spec_resumed(
                p.0,
                p.1,
            ).same_run(Trampoline::<V, K, C>::spec_resumed(q.0, q.1)),
            _ => false,
        },
{
    lemma_bind_outcome(t, c1);
    lemma_bind_outcome(t, c3);
    match t.outcome() {
        Ok(v) => {
            let a = c1.spec_apply(v);
            if a.settles() {
                lemma_bind_outcome(t.spec_bind(c1), c2);
                lemma_bind_outcome(a, c2);
            } else {
                assert(!t.spec_bind(c1).settles());
                assert(!a.spec_bind(c2).settles()) by {
                    if a.spec_bind(c2).settles() {
                        lemma_bind_settles_inner(a, c2);
                    }
                }
                if t.spec_bind(c1).spec_bind(c2).settles() {
                    lemma_bind_settles_inner(t.spec_bind(c1), c2);
                }
            }
        },
        Err(p) => {
            lemma_bind_outcome(t.spec_bind(c1), c2);
            let r = Trampoline::<V, K, C>::spec_resumed(p.0, p.1);
            lemma_resumed_bind(p.0, c1, p.1);
            lemma_resumed_bind(p.0, c2, seq![c1] + p.1);
            lemma_resumed_bind(p.0, c3, p.1);
            lemma_bind_assoc(r, c1, c2, c3);
        },
    }
}

/// A bind that comes to rest has a computation before it that comes to rest.
proof fn lemma_bind_settles_inner<V, K, C: Cont<V, K>>(t: Trampoline<V, K, C>, c: C)
    requires
        t.spec_bind(c).settles(),
    ensures
        t.settles(),
{
    let n = choose|n: nat| #[trigger] settle(t.spec_bind(c).node, Seq::<C>::empty(), n) is Some;
    assert(seq![c] + Seq::<C>::empty() =~= seq![c]);
    lemma_settle_drop_base(t.node, Seq::<C>::empty(), seq![c], (n - 1) as nat);
}

/// What comes to rest with a stack under it comes to rest without it.
proof fn lemma_settle_drop_base<V, K, C: Cont<V, K>>(
    f: Free<V, K, C>,
    ks: Seq<C>,
    base: Seq<C>,
    n: nat,
)
    requires
        settle(f, base + ks, n) is Some,
    ensures
        settle(f, ks, n) is Some,
    decreases n,
{
    if !is_final(f, ks) && !(f is Roll) {
        lemma_step_under(f, ks, base);
        lemma_settle_drop_base(step(f, ks).0, step(f, ks).1, base, (n - 1) as nat);
    }
}

/// Suspending `t` under no continuation leaves it as it is.
pub proof fn lemma_rebuilt_empty<V, K, C>(t: Trampoline<V, K, C>)
    ensures
        t.spec_rebuilt(Seq::<C>::empty()) == t,
{
}

/// Putting `c` under the continuations waiting for `t` is binding `c` after
/// `t` with those continuations.
pub proof fn lemma_rebuilt_bind<V, K, C>(t: Trampoline<V, K, C>, c: C, ks: Seq<C>)
    ensures
        t.spec_rebuilt(seq![c] + ks) == t.spec_rebuilt(ks).spec_bind(c),
{
    lemma_rebuild_under(t.node, c, ks);
}

/// Forcing a suspension with no waiting continuation gives what forcing its
/// step gives.
pub proof fn lemma_resumed_empty<V, K: Thunk<V, C>, C: Cont<V, K>>(k: K)
    ensures
        Trampoline::<V, K, C>::spec_resumed(k, Seq::<C>::empty()) == k.spec_force(),
{
}

/// Forcing a suspension with `c` under its waiting continuations gives the
/// forced suspension without `c`, bound to `c`.
pub proof fn lemma_resumed_bind<V, K: Thunk<V, C>, C: Cont<V, K>>(k: K, c: C, ks: Seq<C>)
    ensures
        Trampoline::<V, K, C>::spec_resumed(k, seq![c] + ks)
            == Trampoline::<V, K, C>::spec_resumed(k, ks).spec_bind(c),
{
    lemma_rebuild_under(k.spec_force().node, c, ks);
}

/// A suspended computation resumes to its step with no continuation.
pub proof fn lemma_more_outcome<V, K, C: Cont<V, K>>(k: K)
    ensures
        Trampoline::<V, K, C>::spec_more(k).settles(),
        Trampoline::<V, K, C>::spec_more(k).outcome() == Err::<V, (K, Seq<C>)>(
            (k, Seq::<C>::empty()),
        ),
{
    let t = Trampoline::<V, K, C>::spec_more(k);
    assert(settle(t.node, Seq::<C>::empty(), 1) is Some);
    lemma_outcome_at(t, 1);
}

/// A computation that ends always comes to rest when resumed.
pub proof fn lemma_terminates_settles<V, K: Thunk<V, C>, C: Cont<V, K>>(t: Trampoline<V, K, C>)
    requires
        t.terminates(),
    ensures
        t.settles(),
{
    let n = choose|n: nat| #[trigger] eval(t.node, Seq::<C>::empty(), n) is Some;
    lemma_eval_settles(t.node, Seq::<C>::empty(), n);
}

/// Resuming keeps what running gives: a value that resuming reaches is the
/// value of the run, and a suspension that resuming stops at, once forced,
/// ends exactly when the run does, with the same value.
pub proof fn lemma_resume<V, K: Thunk<V, C>, C: Cont<V, K>>(t: Trampoline<V, K, C>)
    requires
        t.settles(),
    ensures
        match t.outcome() {
            Ok(v) => t.terminates() && t.value() == v,
            Err(p) => {
                let r = Trampoline::<V, K, C>::spec_resumed(p.0, p.1);
                &&& t.terminates() <==> r.terminates()
                &&& t.terminates() ==> t.value() == r.value()
            },
        },
{
    let e = Seq::<C>::empty();
    let m = choose|n: nat| #[trigger] settle(t.node, e, n) is Some;
    let j = lemma_settle_path(t.node, e, m);
    match t.outcome() {
        Ok(v) => {
            assert(eval(t.node, e, 1 + j) == eval(Free::<V, K, C>::Pure(v), e, 1));
            let n = choose|n: nat| #[trigger] eval(t.node, e, n) is Some;
            lemma_eval_unique(t.node, e, n, 1 + j);
        },
        Err(p) => {
            let k = p.0;
            let ks = p.1;
            let r = Trampoline::<V, K, C>::spec_resumed(k, ks);
            let g = k.spec_force().node;
            assert(e + ks =~= ks);
            if t.terminates() {
                let n = choose|n: nat| #[trigger] eval(t.node, e, n) is Some;
                assert(n > j);
                let n1 = (n - j - 1) as nat;
                assert(eval(t.node, e, (n - j) as nat + j) == eval(Free::<V, K, C>::Roll(k), ks, (n - j) as nat));
                assert(eval(Free::<V, K, C>::Roll(k), ks, (n - j) as nat) == eval(g, ks, n1));
                lemma_unwind(g, e, ks, n1);
                let nr = choose|n: nat| #[trigger] eval(r.node, e, n) is Some;
                lemma_eval_unique(r.node, e, n1 + ks.len(), nr);
            }
            if r.terminates() {
                let nr = choose|n: nat| #[trigger] eval(r.node, e, n) is Some;
                if nr < ks.len() {
                    lemma_unwind_short(g, e, ks, nr);
                }
                let n1 = (nr - ks.len()) as nat;
                lemma_unwind(g, e, ks, n1);
                assert(eval(Free::<V, K, C>::Roll(k), ks, n1 + 1) == eval(g, ks, n1));
                assert(eval(t.node, e, n1 + 1 + j) is Some);
            }
        },
    }
}

// ---------------------------------------------------------------------------
// Executable interface.

/// The map of the signature of trampolines, `X |-> (() -> X)`: composes
/// `f` after the deferred computation `m`, so that forcing the result forces
/// `m` and hands what it gives to `f`.
pub fn map<X, Y, M: FnOnce() -> X, F: FnOnce(X) -> Y>(m: M, f: F) -> (r: impl FnOnce() -> Y)
    ensures
        (m.requires(()) && forall|x: X| m.ensures((), x) ==> f.requires((x,))) ==> r.requires(()),
        forall|y: Y| #[trigger] r.ensures((), y) ==> exists|x: X| m.ensures((), x) && f.ensures((x,), y),
{
    move || -> (y: Y)
        requires
            m.requires(()),
            forall|x: X| m.ensures((), x) ==> f.requires((x,)),
        ensures
            exists|x: X| m.ensures((), x) && f.ensures((x,), y),
        {
            let x = m();
            f(x)
        }
}

/// The finished computation of `v`.
pub fn done<V, K, C>(v: V) -> (t: Trampoline<V, K, C>)
    ensures
        t == Trampoline::<V, K, C>::spec_done(v),
{
    Trampoline { node: Free::Pure(v) }
}

/// The computation suspended behind the step `k`.
pub fn more<V, K, C>(k: K) -> (t: Trampoline<V, K, C>)
    ensures
        t == Trampoline::<V, K, C>::spec_more(k),
{
    Trampoline { node: Free::Roll(k) }
}

/// Forces the deferred value `k`: calls it once and gives what it returns.
pub fn force<A, F: FnOnce() -> A>(k: F) -> (a: A)
    requires
        k.requires(()),
    ensures
        k.ensures((), a),
{
    k()
}

/// Forces the suspended step `k` of a trampoline.
fn force_step<V, K: Thunk<V, C>, C>(k: K) -> (t: Trampoline<V, K, C>)
    ensures
        t == k.spec_force(),
{
    k.force()
}

/// Steps the machine from `(f, ks)` until it comes to rest, without forcing
/// a step.
fn settle_exec<V, K, C: Cont<V, K>>(node: Free<V, K, C>, stack: Vec<C>, Ghost(n0): Ghost<nat>) -> (r: Result<V, (K, Vec<C>)>)
    requires
        settle(node, stack@, n0) is Some,
    ensures
        match r {
            Ok(v) => settle(node, stack@, n0) == Some(Ok::<V, (K, Seq<C>)>(v)),
            Err(p) => settle(node, stack@, n0) == Some(Err::<V, (K, Seq<C>)>((p.0, p.1@))),
        },
{
    let ghost start = settle(node, stack@, n0);
    let mut f = node;
    let mut ks = stack;
    let ghost mut m: nat = n0;
    loop
        invariant
            settle(f, ks@, m) == start,
            start == settle(node, stack@, n0),
            start is Some,
        decreases m,
    {
        let ghost f0 = f;
        let ghost ks0 = ks@;
        match f {
            Free::Pure(v) => {
                if ks.len() == 0 {
                    assert(is_final(f0, ks0));
                    return Ok(v);
                }
                let c = ks.pop().unwrap();
                f = c.apply(v).node;
            },
            Free::Roll(k) => {
                return Err((k, ks));
            },
            Free::Bind(b, c) => {
                ks.push(c);
                f = *b;
            },
        }
        proof {
            assert(f == step(f0, ks0).0);
            assert(ks@ == step(f0, ks0).1);
            m = (m - 1) as nat;
        }
    }
}

/// Puts the continuations `ks` back around `t`, the last innermost.
pub(crate) fn rewrap<V, K, C>(t: Trampoline<V, K, C>, ks: Vec<C>) -> (r: Trampoline<V, K, C>)
    ensures
        r == t.spec_rebuilt(ks@),
{
    let mut g = t.node;
    let mut ks = ks;
    let ghost whole = ks@;
    while ks.len() > 0
        invariant
            rebuild(g, ks@) == rebuild(t.node, whole),
        decreases ks.len(),
    {
        let c = ks.pop().unwrap();
        g = Free::Bind(Box::new(g), c);
    }
    Trampoline { node: g }
}

impl<K, C> Suspension<K, C> {
    /// Forces the suspended step and puts the waiting continuations back
    /// around what it yields.
    pub fn force<V>(self) -> (t: Trampoline<V, K, C>) where K: Thunk<V, C>, C: Cont<V, K>
        ensures
            t == Trampoline::<V, K, C>::spec_resumed(self.thunk, self.conts@),
            self.conts@.len() == 0 ==> t == self.thunk.spec_force(),
    {
        let Suspension { thunk, conts } = self;
        rewrap(thunk.force(), conts)
    }
}

impl<V, K, C: Cont<V, K>> Trampoline<V, K, C> {
    /// `self` followed by the continuation `c`.
    pub fn bind(self, c: C) -> (t: Self)
        ensures
            t == self.spec_bind(c),
    {
        Trampoline { node: Free::Bind(Box::new(self.node), c) }
    }

    /// Runs `self` until it finishes or reaches a suspended step, without
    /// forcing any step.
    pub fn resume(self) -> (r: Result<V, Suspension<K, C>>)
        requires
            self.settles(),
        ensures
            match r {
                Ok(v) => self.outcome() == Ok::<V, (K, Seq<C>)>(v),
                Err(s) => self.outcome() == Err::<V, (K, Seq<C>)>((s.thunk, s.conts@)),
            },
    {
        let ghost n0 = choose|n: nat| #[trigger] settle(self.node, Seq::<C>::empty(), n) is Some;
        let ks: Vec<C> = Vec::new();
        assert(ks@ =~= Seq::<C>::empty());
        proof {
            lemma_outcome_at(self, n0);
        }
        match settle_exec(self.node, ks, Ghost(n0)) {
            Ok(v) => Ok(v),
            Err((k, ks)) => Err(Suspension { thunk: k, conts: ks }),
        }
    }

    /// Resumes `self`: a value it comes to rest at stays finished, and a
    /// suspension it stops at is handed to `f`.
    pub fn bounce<F: FnOnce(Suspension<K, C>) -> Trampoline<V, K, C>>(self, f: F) -> (t: Self)
        requires
            self.settles(),
            forall|s: Suspension<K, C>|
                self.outcome() == Err::<V, (K, Seq<C>)>((s.thunk, s.conts@)) ==> #[trigger] f.requires(
                    (s,),
                ),
        ensures
            match self.outcome() {
                Ok(v) => t == Self::spec_done(v),
                Err(q) => exists|s: Suspension<K, C>|
                    s.thunk == q.0 && s.conts@ == q.1 && #[trigger] f.ensures((s,), t),
            },
    {
        match self.resume() {
            Ok(v) => done(v),
            Err(s) => f(s),
        }
    }

    /// Resumes `self` and hands a value it comes to rest at to `p`, or a
    /// suspension it stops at to `r`.
    pub fn fold<Y, P: FnOnce(V) -> Y, R: FnOnce(Suspension<K, C>) -> Y>(self, p: P, r: R) -> (y: Y)
        requires
            self.settles(),
            forall|v: V| self.outcome() == Ok::<V, (K, Seq<C>)>(v) ==> #[trigger] p.requires((v,)),
            forall|s: Suspension<K, C>|
                self.outcome() == Err::<V, (K, Seq<C>)>((s.thunk, s.conts@)) ==> #[trigger] r.requires(
                    (s,),
                ),
        ensures
            match self.outcome() {
                Ok(v) => p.ensures((v,), y),
                Err(q) => exists|s: Suspension<K, C>|
                    s.thunk == q.0 && s.conts@ == q.1 && #[trigger] r.ensures((s,), y),
            },
    {
        match self.resume() {
            Ok(v) => p(v),
            Err(s) => r(s),
        }
    }

    /// Runs `self` to its end, handing each suspended step to `f` and going
    /// on with the trampoline that `f` gives for it.
    fn go<F: Fn(K) -> Trampoline<V, K, C>>(self, f: F) -> (v: V)
        requires
            forall|k: K| f.requires((k,)),
            exists|n: nat| #[trigger] must_end(f, self.node, Seq::<C>::empty(), n),
        ensures
            exists|n: nat| #[trigger] may_end(f, self.node, Seq::<C>::empty(), n, v),
            self.settles() && self.outcome() is Ok ==> self.outcome() == Ok::<V, (K, Seq<C>)>(v),
    {
        let ghost mut n: nat = choose|n: nat| #[trigger] must_end(f, self.node, Seq::<C>::empty(), n);
        let ghost mut d: nat = 0;
        let mut node = self.node;
        let mut ks: Vec<C> = Vec::new();
        assert(ks@ =~= Seq::<C>::empty());
        loop
            invariant
                forall|k: K| f.requires((k,)),
                must_end(f, node, ks@, n),
                forall|m: nat, w: V| #[trigger] may_end(f, node, ks@, m, w)
                    ==> may_end(f, self.node, Seq::<C>::empty(), m + d, w),
                self.settles() && self.outcome() is Ok ==> d == 0 && node == self.node && ks@
                    == Seq::<C>::empty(),
            decreases n,
        {
            let ghost node0 = node;
            let ghost ks0 = ks@;
            proof {
                lemma_must_settles(f, node, ks@, n);
            }
            let ghost j = lemma_handled_path(f, node0, ks0, n);
            match settle_exec(node, ks, Ghost(n)) {
                Ok(v) => {
                    proof {
                        assert(may_end(f, Free::<V, K, C>::Pure(v), Seq::<C>::empty(), 1, v));
                        assert(may_end(f, node0, ks0, 1 + j, v));
                        assert(may_end(f, self.node, Seq::<C>::empty(), 1 + j + d, v));
                        if self.settles() && self.outcome() is Ok {
                            lemma_outcome_at(self, n);
                        }
                    }
                    return v;
                },
                Err((k, rest)) => {
                    let ghost kg = k;
                    proof {
                        if self.settles() && self.outcome() is Ok {
                            lemma_outcome_at(self, n);
                        }
                        assert(must_end(f, Free::<V, K, C>::Roll(kg), rest@, (n - j) as nat));
                    }
                    let t = f(k);
                    proof {
                        assert(f.ensures((kg,), t));
                        assert forall|m: nat, w: V| #[trigger] may_end(f, t.node, rest@, m, w)
                            implies may_end(f, self.node, Seq::<C>::empty(), m + (d + j + 1), w) by {
                            lemma_may_roll(f, kg, rest@, t, m, w);
                            assert(may_end(f, node0, ks0, m + 1 + j, w));
                            assert(m + 1 + j + d == m + (d + j + 1));
                        }
                        lemma_must_roll(f, kg, rest@, t, (n - j) as nat);
                        assert((n - j - 1) as nat == ((n - j) as nat - 1) as nat);
                        n = (n - j - 1) as nat;
                        d = d + j + 1;
                    }
                    node = t.node;
                    ks = rest;
                },
            }
        }
    }

}

impl<V, K: Thunk<V, C>, C: Cont<V, K>> Trampoline<V, K, C> {
    /// Runs `self` to its end, forcing each suspended step in turn, in a
    /// loop whose stack use does not grow with the number of steps.
    pub fn run(self) -> (v: V)
        requires
            self.terminates(),
        ensures
            v == self.value(),
    {
        proof {
            let n = choose|n: nat| #[trigger] eval(self.node, Seq::<C>::empty(), n) is Some;
            lemma_forcing_must(force_step::<V, K, C>, self.node, Seq::<C>::empty(), n);
        }
        let v = self.go(force_step::<V, K, C>);
        proof {
            let m = choose|m: nat| #[trigger] may_end(force_step::<V, K, C>, self.node, Seq::<C>::empty(), m, v);
            lemma_forcing_may(force_step::<V, K, C>, self.node, Seq::<C>::empty(), m, v);
            lemma_value_at(self, m);
        }
        v
    }
}

} // verus!
