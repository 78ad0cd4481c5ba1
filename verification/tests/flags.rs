use the_memblock::error::Error;
use the_memblock::flags::MemblockFlags;
use the_memblock::region::MemblockRegion;

/// The same attributes as a flags type of the `bitflags` crate.
#[derive(Debug, Clone, Copy, PartialEq, Eq)]
struct Attributes(u8);

impl bitflags::Flags for Attributes {
    const FLAGS: &'static [bitflags::Flag<Self>] = &[
        bitflags::Flag::new("NONE", Attributes(0x0)),
        bitflags::Flag::new("HOTPLUG", Attributes(0x1)),
        bitflags::Flag::new("MIRROR", Attributes(0x2)),
        bitflags::Flag::new("NOMAP", Attributes(0x4)),
        bitflags::Flag::new("DRIVER_MANAGED", Attributes(0x8)),
        bitflags::Flag::new("RSRV_NOINIT", Attributes(0x10)),
        bitflags::Flag::new("RSRV_KERN", Attributes(0x20)),
        bitflags::Flag::new("KHO_SCRATCH", Attributes(0x40)),
    ];
    type Bits = u8;

    fn bits(&self) -> u8 {
        self.0
    }

    fn from_bits_retain(bits: u8) -> Self {
        Attributes(bits)
    }
}

#[test]
fn named_flags_have_their_bits() {
    assert_eq!(MemblockFlags::NONE().bits(), 0x0);
    assert_eq!(MemblockFlags::HOTPLUG().bits(), 0x1);
    assert_eq!(MemblockFlags::MIRROR().bits(), 0x2);
    assert_eq!(MemblockFlags::NOMAP().bits(), 0x4);
    assert_eq!(MemblockFlags::DRIVER_MANAGED().bits(), 0x8);
    assert_eq!(MemblockFlags::RSRV_NOINIT().bits(), 0x10);
    assert_eq!(MemblockFlags::RSRV_KERN().bits(), 0x20);
    assert_eq!(MemblockFlags::KHO_SCRATCH().bits(), 0x40);
    assert_eq!(MemblockFlags::all().bits(), 0x7f);
}

#[test]
fn flags_from_bits_agree_with_bitflags() {
    for bits in 0..=u8::MAX {
        assert_eq!(
            MemblockFlags::from_bits(bits).map(|f| f.bits()),
            <Attributes as bitflags::Flags>::from_bits(bits).map(|f| f.0)
        );
        assert_eq!(
            MemblockFlags::from_bits_truncate(bits).bits(),
            <Attributes as bitflags::Flags>::from_bits_truncate(bits).0
        );
        assert_eq!(MemblockFlags::from_bits_retain(bits).bits(), bits);
        assert_eq!(
            (!MemblockFlags::from_bits_retain(bits)).bits(),
            <Attributes as bitflags::Flags>::complement(Attributes(bits)).0
        );
        assert_eq!(
            MemblockFlags::from_bits_retain(bits).complement(),
            !MemblockFlags::from_bits_retain(bits)
        );
    }
    assert_eq!(
        MemblockFlags::all().bits(),
        <Attributes as bitflags::Flags>::all().0
    );
}

#[test]
fn combined_flags_agree_with_bitflags() {
    for a in 0..=u8::MAX {
        for b in 0..=u8::MAX {
            let f = MemblockFlags::from_bits_retain(a);
            let g = MemblockFlags::from_bits_retain(b);
            let ra = Attributes(a);
            let rb = Attributes(b);
            assert_eq!((f | g).bits(), <Attributes as bitflags::Flags>::union(ra, rb).0);
            assert_eq!(
                (f & g).bits(),
                <Attributes as bitflags::Flags>::intersection(ra, rb).0
            );
            assert_eq!(f.union(g), f | g);
            assert_eq!(f.intersection(g), f & g);
            assert_eq!(
                f.contains(g),
                <Attributes as bitflags::Flags>::contains(&ra, rb)
            );
            assert_eq!(f == g, a == b);
            assert_eq!(
                f.intersects(g),
                <Attributes as bitflags::Flags>::intersects(&ra, rb)
            );
            let minus = <Attributes as bitflags::Flags>::difference(ra, rb).0;
            assert_eq!(f.difference(g).bits(), minus);
            assert_eq!((f - g).bits(), minus);
            let xor = <Attributes as bitflags::Flags>::symmetric_difference(ra, rb).0;
            assert_eq!(f.symmetric_difference(g).bits(), xor);
            assert_eq!((f ^ g).bits(), xor);
        }
    }
}

#[test]
fn changed_flags_agree_with_bitflags() {
    for a in 0..=u8::MAX {
        for b in 0..=u8::MAX {
            let g = MemblockFlags::from_bits_retain(b);
            let mut f = MemblockFlags::from_bits_retain(a);
            f.insert(g);
            assert_eq!(f.bits(), a | b);
            let mut f = MemblockFlags::from_bits_retain(a);
            f.remove(g);
            let mut r = Attributes(a);
            <Attributes as bitflags::Flags>::remove(&mut r, Attributes(b));
            assert_eq!(f.bits(), r.0);
            let mut f = MemblockFlags::from_bits_retain(a);
            f.toggle(g);
            let mut r = Attributes(a);
            <Attributes as bitflags::Flags>::toggle(&mut r, Attributes(b));
            assert_eq!(f.bits(), r.0);
            for value in [false, true] {
                let mut f = MemblockFlags::from_bits_retain(a);
                f.set(g, value);
                let mut r = Attributes(a);
                <Attributes as bitflags::Flags>::set(&mut r, Attributes(b), value);
                assert_eq!(f.bits(), r.0);
            }
            let mut f = MemblockFlags::from_bits_retain(a);
            f |= g;
            assert_eq!(f.bits(), a | b);
            let mut f = MemblockFlags::from_bits_retain(a);
            f &= g;
            assert_eq!(f.bits(), a & b);
            let mut f = MemblockFlags::from_bits_retain(a);
            f ^= g;
            assert_eq!(f.bits(), a ^ b);
            let mut f = MemblockFlags::from_bits_retain(a);
            f -= g;
            assert_eq!(f.bits(), a & !b);
        }
    }
}

#[test]
fn empty_and_full_flags_agree_with_bitflags() {
    for bits in 0..=u8::MAX {
        let f = MemblockFlags::from_bits_retain(bits);
        let r = Attributes(bits);
        assert_eq!(f.is_empty(), <Attributes as bitflags::Flags>::is_empty(&r));
        assert_eq!(f.is_all(), <Attributes as bitflags::Flags>::is_all(&r));
    }
    assert_eq!(MemblockFlags::empty(), MemblockFlags::NONE());
}

#[test]
fn flags_are_written_as_names() {
    for bits in 0..=u8::MAX {
        let mut names = String::new();
        bitflags::parser::to_writer(&Attributes(bits), &mut names).unwrap();
        if names.is_empty() {
            names.push_str("0x0");
        }
        let f = MemblockFlags::from_bits_retain(bits);
        assert_eq!(format!("{f:?}"), format!("MemblockFlags({names})"));
        assert_eq!(format!("{f:#?}"), format!("MemblockFlags(\n    {names},\n)"));
    }
    assert_eq!(format!("{:?}", MemblockFlags::NONE()), "MemblockFlags(0x0)");
    assert_eq!(format!("{:?}", MemblockFlags::NOMAP()), "MemblockFlags(NOMAP)");
    assert_eq!(
        format!("{:?}", MemblockFlags::from_bits_retain(0x86)),
        "MemblockFlags(MIRROR | NOMAP | 0x80)"
    );
    assert_eq!(
        format!("{:?}", MemblockFlags::all()),
        "MemblockFlags(HOTPLUG | MIRROR | NOMAP | DRIVER_MANAGED | RSRV_NOINIT | RSRV_KERN | KHO_SCRATCH)"
    );
}

#[test]
fn regions_are_written_with_their_flags() {
    let r = MemblockRegion::with_flags(0x10u64, 0x20, MemblockFlags::NOMAP());
    assert_eq!(
        format!("{r:?}"),
        "MemblockRegion { base: 16, size: 32, flags: MemblockFlags(NOMAP) }"
    );
}

#[test]
fn error_messages() {
    assert_eq!(Error::OverCapacity.message(), "Over capacity");
    assert_eq!(Error::InternalError.message(), "Internal error");
    assert_eq!(Error::OutOfMemory.message(), "Out of memory");
}
