//! Core of a software-isolation kernel: a per-CPU cooperative priority
//! scheduler with two-generation anti-starvation queues, interrupt wait
//! queues, a shared-heap attribution table keyed by owning domain, move-only
//! ownership handles over shared-heap allocations, and a bounded ring buffer
//! for batching ownership transfers across domain boundaries.

pub mod heap;
pub mod nullnet;
pub mod rref;
pub mod sched;
pub mod thread;
pub mod waitqueue;
