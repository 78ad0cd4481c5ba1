//! A verified early-boot memory allocator in the manner of the Linux kernel's
//! [memblock].
//!
//! Memblock tracks physical memory as an ordered list of
//! [`MemblockRegion`](crate::region::MemblockRegion)s split into two types:
//! `memory` (memory available to the kernel) and `reserved` (memory set
//! aside for allocations). It provides primitives to add and remove ranges,
//! query the current layout, allocate aligned blocks of free memory
//! (top-down or bottom-up), and set per-region attributes such as `NOMAP` or
//! `MIRROR`. The [`PhysAddr`](addr::PhysAddr) address type and the
//! standalone address and page frame number (PFN) arithmetic helpers live
//! in [`addr`].
//!
//! The contracts are stated over two models: a list of regions as a map from
//! addresses to flags in [`layout`], and the free ranges in [`free`]. What
//! follows from them for the library as a whole is stated in [`laws`].
//!
//! [memblock]: https://www.kernel.org/doc/html/latest/core-api/boot-time-mm.html
pub mod addr;
pub mod error;
pub mod flags;
pub mod free;
pub mod iter;
pub mod laws;
pub mod layout;
pub mod memblock;
pub mod region;
