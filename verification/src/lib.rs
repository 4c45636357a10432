//! Lazy per-object thread-local storage.
//!
//! The `ThreadLocal` container in [`tls`] holds one logically independent
//! value per calling thread, created lazily on first access. Per-thread
//! values are not destroyed when their thread exits: they live until the
//! container itself is torn down. The container addresses its per-thread
//! slots through a key backend; [`keys`] holds the emulated backend, an
//! ordered in-process table for hosts without a native thread-specific
//! storage facility. [`allocator`] holds the minimal raw-memory capability
//! the storage protocol is written against.

pub mod allocator;
pub mod keys;
pub mod tls;
