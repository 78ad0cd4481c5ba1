# the-memblock

A verified early-boot memory allocator in the manner of the Linux kernel's
[memblock].

Memblock tracks physical memory as an ordered list of regions split into two
types: `memory` (memory available to the kernel) and `reserved` (memory set
aside for allocations). It provides primitives to add and remove ranges,
query the current layout, allocate aligned blocks of free memory (top-down or
bottom-up), and set per-region attributes such as `NOMAP` or `MIRROR`.

[memblock]: https://www.kernel.org/doc/html/latest/core-api/boot-time-mm.html

## Features

- Fixed capacity, no allocation: region storage is a const-generic array.
- Generic over the address width via the `PhysAddr` trait, with
  implementations for all unsigned primitives (`u8`..`u128`, `usize`).
- Overflow-safe range arithmetic: sizes are clamped against the top of the
  address space.
- Allocation with `phys_alloc`, `phys_alloc_range`, `phys_free` and
  `find_in_range`, under a `bottom_up` and a `current_limit` policy.
- Double-ended iterators for memory, free and page frame ranges
  (`mem_ranges`, `free_mem_ranges`, `mem_pfn_ranges`).
- Region flag management: `HOTPLUG`, `MIRROR`, `NOMAP`, `DRIVER_MANAGED`,
  `RSRV_NOINIT`, `RSRV_KERN`, `KHO_SCRATCH`.

## Usage

```rust
use the_memblock::flags::MemblockFlags;
use the_memblock::memblock::Memblock;

let mut mb = Memblock::<u64, 16>::new();

// Register physical memory and reserve the kernel image.
mb.add(0x8000_0000, 0x4000_0000, MemblockFlags::NONE()).unwrap();
mb.reserve_kern(0x8000_0000, 0x20_0000).unwrap();

// Top-down allocation of a 4 KiB aligned block.
let base = mb.phys_alloc(0x1000, 0x1000, MemblockFlags::NONE()).unwrap();
assert_eq!(base, 0xBFFF_F000);
```

Named flags are functions, so they are written with parentheses.

## What is proved

A list of regions stands for a map from addresses to flags. Every operation
says in its contract what it does to that map, and exactly when it fails.
What it means to write text to a formatter is the one thing that is taken from
the standard library without proof.

| Module     | Contents                                                    |
|------------|-------------------------------------------------------------|
| `addr`     | the address trait and its contract, address arithmetic      |
| `flags`    | region attributes                                           |
| `region`   | a single region                                             |
| `error`    | the error type                                              |
| `layout`   | the model of a list of regions                              |
| `free`     | the model of free ranges and of the search for a block      |
| `memblock` | the region list and the allocator                           |
| `iter`     | the iterators                                               |
| `laws`     | what holds of the library as a whole                        |

`app/` wraps the library for callers that are not verified: it checks
arguments before it passes them on, and offers the flags as a `bitflags` type
and the error as a standard error.
