//! A dictionary-attack engine for cryptographic digests.
//!
//! The engine tests candidate byte strings drawn from a wordlist against a
//! working set of target digests.  Targets are loaded from hexadecimal text
//! and deduplicated; candidates are hashed with a selectable algorithm and
//! probed against the set with an atomic check-and-remove, so that each
//! target is claimed exactly once.  A wordlist can be split into per-worker
//! partitions by byte offset; partitioning, the worker state machine, the
//! target set and the sequential search itself are all verified.  File and
//! terminal I/O, clocks and task scheduling stay with the caller, which
//! hands the library plain byte strings.

pub mod bytes;
pub mod engine;
pub mod hashing;
pub mod hexcode;
pub mod targets;
pub mod wordlist;
