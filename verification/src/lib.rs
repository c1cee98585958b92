//! A thread CPU-affinity library built on a kernel-compatible fixed-size
//! bitset.
//!
//! The heart of the library is [`cpuset::CpuSet`], a word-packed bitset whose
//! layout matches the kernel's own affinity-mask ABI, together with the
//! word/bit addressing arithmetic (`CPU_SET`, `CPU_ISSET`, `CPU_ZERO` and the
//! size-generic `BIT_SET` / `BIT_ISSET`). On top of it, [`affinity`] marshals
//! between sequences of core indices and the bitset, and translates native
//! return codes into [`affinity::AffinityError`] values. The native calls
//! themselves (thread identity, the affinity system calls) cannot be made
//! from verified code; the caller performs them and hands their raw results
//! to the functions here.

#![allow(nonstandard_style)]

pub mod affinity;
pub mod cpuset;
