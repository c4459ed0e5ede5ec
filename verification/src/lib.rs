//! Free monads over signature layers, run by trampolining: deferred steps
//! (`trampoline`), sources that yield items (`source`) and sinks that take
//! them (`sink`), with the maps of those signatures.
pub mod sink;
pub mod source;
pub mod trampoline;
