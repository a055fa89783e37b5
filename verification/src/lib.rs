//! Request coalescing ("single flight"): when several callers concurrently ask
//! for the result of the same expensive computation, identified by a key,
//! exactly one execution of the work runs and every waiter registered before
//! its completion receives that single result.
//!
//! The crate holds the coordinator's verified core: the keyed registry of
//! broadcast groups, the one-execution-per-key rule, and the delivery pass
//! that fans one produced outcome out to every live waiter. The surrounding
//! runtime (threads that run the work, a lock around the registry, the
//! blocking wait) drives this core from outside; the core itself is a state
//! machine stepped by four operations: subscribe, deliver, collect, abandon.
pub mod bus;
pub mod coordinator;
pub mod laws;
pub mod queue;
