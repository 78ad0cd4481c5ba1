//! Random operations on a small address space, checked against a table with
//! one entry for each address.

use the_memblock::error::Error;
use the_memblock::flags::MemblockFlags;
use the_memblock::memblock::Memblock;
use the_memblock::memblock::MemblockType;

const SLOTS: usize = 6;

type Table = [Option<u8>; 255];

struct Random(u64);

impl Random {
    fn next(&mut self) -> u8 {
        self.0 = self.0.wrapping_mul(6364136223846793005).wrapping_add(1442695040888963407);
        (self.0 >> 56) as u8
    }

    fn size(&mut self) -> u8 {
        let x = self.next();
        if x & 7 == 0 {
            self.next()
        } else {
            x & 0x1f
        }
    }
}

fn table_of(t: &MemblockType<u8, SLOTS>) -> Table {
    let mut out = [None; 255];
    for r in t.regions() {
        for a in r.base()..r.end() {
            assert_eq!(out[a as usize], None);
            out[a as usize] = Some(r.flags().bits());
        }
    }
    out
}

fn check(t: &MemblockType<u8, SLOTS>, want: &Table) {
    assert_eq!(&table_of(t), want);
    for pair in t.regions().windows(2) {
        assert!(pair[0].end() <= pair[1].base());
        assert!(pair[0].end() < pair[1].base() || pair[0].flags() != pair[1].flags());
    }
    let total = want.iter().filter(|x| x.is_some()).count();
    assert_eq!(t.total_size() as usize, total);
    for a in 0..255u8 {
        assert_eq!(t.search(a).is_some(), want[a as usize].is_some());
    }
}

/// How many regions have to be split for `base..end` to lie between regions.
fn splits(t: &MemblockType<u8, SLOTS>, base: u8, end: u8) -> usize {
    let across = |x: u8| t.regions().iter().any(|r| r.base() < x && x < r.end());
    across(base) as usize + across(end) as usize
}

fn considered(f: u8, wanted: u8) -> bool {
    (f & 4 == 0 || wanted & 4 != 0)
        && (f & 8 == 0 || wanted & 8 != 0)
        && (f & 2 == wanted & 2)
        && (f & 0x40 == wanted & 0x40)
}

/// The free blocks of `size` bytes that an allocation may take.
fn blocks(mem: &Table, res: &Table, wanted: u8, size: u8, align: u8, lo: u8, hi: u8) -> Vec<u8> {
    let mut out = Vec::new();
    for b in lo..hi {
        if b % align != 0 || (b as u16 + size as u16) > hi as u16 {
            continue;
        }
        let f = mem[b as usize];
        let fits = (b..b + size).all(|a| {
            mem[a as usize] == f
                && res[a as usize].is_none()
                && mem[a as usize].map_or(false, |f| considered(f, wanted))
        });
        if fits {
            out.push(b);
        }
    }
    out
}

#[test]
fn random_operations_agree_with_a_table() {
    for seed in 0..40u64 {
        let mut random = Random(seed.wrapping_mul(0x9E37_79B9_7F4A_7C15) + 1);
        let mut mb = Memblock::<u8, SLOTS>::new();
        let mut mem: Table = [None; 255];
        let mut res: Table = [None; 255];
        for _ in 0..200 {
            let base = random.next();
            let size = random.size();
            let end = base.saturating_add(size);
            let bits = [0u8, 0, 1, 2, 4, 8, 0x40][(random.next() % 7) as usize];
            let flags = MemblockFlags::from_bits_retain(bits);
            let crowded = mb.memory().count() + splits(mb.memory(), base, end) > SLOTS;
            let crowded_res = mb.reserved().count() + splits(mb.reserved(), base, end) > SLOTS;
            let before = mb.clone();
            match random.next() % 8 {
                0 | 1 => match mb.add(base, size, flags) {
                    Ok(()) => {
                        for a in base..end {
                            mem[a as usize] = mem[a as usize].or(Some(bits));
                        }
                    }
                    Err(e) => {
                        assert_eq!(e, Error::OverCapacity);
                        assert!((base..end).any(|a| mem[a as usize].is_none()));
                        assert_eq!(mb, before);
                    }
                },
                2 => match mb.reserve(base, size) {
                    Ok(()) => {
                        for a in base..end {
                            res[a as usize] = res[a as usize].or(Some(0));
                        }
                    }
                    Err(e) => {
                        assert_eq!(e, Error::OverCapacity);
                        assert_eq!(mb, before);
                    }
                },
                3 => {
                    let r = mb.remove(base, size);
                    assert_eq!(r.is_err(), base < end && crowded);
                    if r.is_ok() {
                        for a in base..end {
                            mem[a as usize] = None;
                        }
                    }
                }
                4 => {
                    let r = mb.phys_free(base, size);
                    assert_eq!(r.is_err(), base < end && crowded_res);
                    if r.is_ok() {
                        for a in base..end {
                            res[a as usize] = None;
                        }
                    }
                }
                5 => {
                    let set = random.next() & 1 == 0;
                    let r = if set {
                        mb.mark_nomap(base, size)
                    } else {
                        mb.clear_nomap(base, size)
                    };
                    assert_eq!(r.is_err(), base < end && before.memory().count() + 2 > SLOTS);
                    if r.is_ok() {
                        for a in base..end {
                            if let Some(f) = mem[a as usize] {
                                mem[a as usize] = Some(if set { f | 4 } else { f & !4 });
                            }
                        }
                    }
                }
                6 => {
                    mb.set_bottom_up(random.next() & 1 == 0);
                    mb.set_current_limit(random.next() | 0x80);
                }
                _ => {
                    let align = 1u8 << (random.next() % 5);
                    let limit = mb.current_limit().min(end);
                    let wanted = if random.next() & 1 == 0 { bits } else { 0 };
                    let flags = MemblockFlags::from_bits_retain(wanted);
                    let len = random.next() % 9;
                    let options = if len == 0 {
                        Vec::new()
                    } else {
                        blocks(&mem, &res, wanted, len, align, base, limit)
                    };
                    let best = if mb.bottom_up() {
                        options.first()
                    } else {
                        options.last()
                    };
                    let full = mb.reserved().count() == SLOTS;
                    match mb.phys_alloc_range(len, align, base, end, flags) {
                        Ok(p) => {
                            assert_eq!(best, Some(&p));
                            assert!(!full);
                            for a in p..p + len {
                                res[a as usize] = Some(0x20);
                            }
                        }
                        Err(Error::OutOfMemory) => assert_eq!(best, None),
                        Err(e) => {
                            assert_eq!(e, Error::OverCapacity);
                            assert!(best.is_some() && full);
                            assert_eq!(mb, before);
                        }
                    }
                }
            }
            check(mb.memory(), &mem);
            check(mb.reserved(), &res);
            let mut free = [false; 255];
            let mut last = 0;
            for (lo, hi) in mb.free_mem_ranges(flags) {
                assert!(last <= lo && lo < hi);
                last = hi;
                for a in lo..hi {
                    free[a as usize] = true;
                }
            }
            for a in 0..255 {
                let want = res[a].is_none() && mem[a].map_or(false, |f| considered(f, bits));
                assert_eq!(free[a], want);
            }
        }
    }
}
