//! A verified model of the boundary between a language runtime and a
//! conservative garbage collector engine.
//!
//! The library models the four protocol layers that sit between a host
//! runtime and a collector engine:
//!
//! - an *allocation adapter* handing out scanned-but-uncollected blocks
//!   whose contents root any collected pointers stored inside them;
//! - a *collected heap* offering reachability-driven allocation, a forced
//!   collection pass, enable/disable gating and heap statistics;
//! - a *finalization subsystem* with three cycle-handling policies; and
//! - a process-wide *out-of-memory hook*.
//!
//! The raw foreign calls into a real collector engine are unverifiable
//! (they live behind `unsafe` C bindings); the companion application crate
//! holds them. Here the engine's bookkeeping is modelled explicitly — which
//! blocks exist, which objects are reachable from which roots, which
//! finalizer records are registered — so that the adapter contract, the
//! counter discipline and the finalizer-ordering policies are proved rather
//! than assumed.

pub mod state;
pub mod reach;
pub mod adapter;
pub mod heap;
pub mod collect;
pub mod finalize;

pub use state::{
    BlockRec, Collector, FinalizerMode, FinalizerRecord, FiredEvent, ObjRec, OomEvent, RefEdge,
    RootEntry,
};
