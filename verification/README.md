# free

Free monads over signature layers, run by trampolining, verified with Verus.

- `src/trampoline.rs`: `Trampoline<V, K, C>`, the free monad over layers `K`
  (`done`, `more`, `bind`, `resume`, `bounce`, `fold`), `run` for layers
  that are suspended steps (`Thunk`), `force` for deferred values, the
  `Cont` trait for continuations, the meaning of a run (`terminates`,
  `value`, `settles`, `outcome`) and the laws relating them; also the map of
  the deferred-value signature `X |-> (() -> X)`.
- `src/source.rs`: the pair signature `X |-> (A, X)`, its map and laws, and
  sources: layers that split into an item and the rest (`Emit`, `next`).
- `src/sink.rs`: the consumer signature `X |-> (A -> X)`, its map and laws,
  and sinks: layers fed one item at a time (`Await`, `feed`).
- `tests/`: runs on concrete programs (factorial with big integers, long
  chains of steps, deeply nested binds, sources and sinks).
