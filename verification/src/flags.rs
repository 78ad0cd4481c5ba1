//! Per-region attribute flags.
use vstd::prelude::*;
use vstd::std_specs::ops::*;

verus! {

/// A formatter of the standard library, that text is written to.
#[verifier::external_type_specification]
#[verifier::external_body]
pub struct ExFormatter<'a>(core::fmt::Formatter<'a>);

/// The error of a formatter that takes no more text.
#[verifier::external_type_specification]
#[verifier::external_body]
pub struct ExFormatError(core::fmt::Error);

/// The text that has been written to a formatter.
pub uninterp spec fn written(f: core::fmt::Formatter<'_>) -> Seq<char>;

/// `Formatter::write_str` writes `data` to the buffer behind the formatter,
/// after what was written before. Whether it succeeds is up to that buffer;
/// what has been written where it fails is left open.
pub assume_specification<'a>[ core::fmt::Formatter::<'a>::write_str ](
    f: &mut core::fmt::Formatter<'a>,
    data: &str,
) -> (r: core::fmt::Result)
    ensures
        r is Ok ==> written(*final(f)) == written(*old(f)) + data@,
;

/// The name of the attribute that the bit `i` stands for. The last bit names
/// no attribute and is written as a number.
pub open spec fn name_of_bit(i: int) -> Seq<char> {
    if i == 0 {
        "HOTPLUG"@
    } else if i == 1 {
        "MIRROR"@
    } else if i == 2 {
        "NOMAP"@
    } else if i == 3 {
        "DRIVER_MANAGED"@
    } else if i == 4 {
        "RSRV_NOINIT"@
    } else if i == 5 {
        "RSRV_KERN"@
    } else if i == 6 {
        "KHO_SCRATCH"@
    } else {
        "0x80"@
    }
}

/// The names of those of the first `n` bits that are set, with bars between
/// them.
pub open spec fn names_of_bits(bits: u8, n: nat) -> Seq<char>
    decreases n,
{
    if n == 0 {
        seq![]
    } else {
        let i = (n - 1) as nat;
        let before = names_of_bits(bits, i);
        if bits & (1u8 << i) == 0 {
            before
        } else if before.len() == 0 {
            name_of_bit(i as int)
        } else {
            before + " | "@ + name_of_bit(i as int)
        }
    }
}

/// How flags are written: as the names of the set bits with bars between
/// them, or as a zero if there are none.
pub open spec fn text_of_bits(bits: u8) -> Seq<char> {
    if bits == 0 {
        "0x0"@
    } else {
        names_of_bits(bits, 8)
    }
}

/// The bits of flags, which are written as names.
#[derive(Clone, Copy, PartialEq, Eq, Structural)]
pub struct Bits(u8);

impl View for Bits {
    type V = u8;

    closed spec fn view(&self) -> u8 {
        self.0
    }
}

impl Bits {
    /// Returns the name of the attribute that the bit `i` stands for.
    fn name(i: u8) -> (r: &'static str)
        ensures
            r@ == name_of_bit(i as int),
            r@.len() > 0,
    {
        proof {
            reveal_strlit("HOTPLUG");
            reveal_strlit("MIRROR");
            reveal_strlit("NOMAP");
            reveal_strlit("DRIVER_MANAGED");
            reveal_strlit("RSRV_NOINIT");
            reveal_strlit("RSRV_KERN");
            reveal_strlit("KHO_SCRATCH");
            reveal_strlit("0x80");
        }
        match i {
            0 => "HOTPLUG",
            1 => "MIRROR",
            2 => "NOMAP",
            3 => "DRIVER_MANAGED",
            4 => "RSRV_NOINIT",
            5 => "RSRV_KERN",
            6 => "KHO_SCRATCH",
            _ => "0x80",
        }
    }
}

impl core::fmt::Debug for Bits {
    /// Writes the names of the set bits with bars between them, or a zero if
    /// there are none.
    fn fmt(&self, f: &mut core::fmt::Formatter<'_>) -> (r: core::fmt::Result)
        ensures
            r is Ok ==> written(*final(f)) == written(*old(f)) + text_of_bits(self@),
    {
        let bits = self.0;
        if bits == 0 {
            return f.write_str("0x0");
        }
        let mut first = true;
        let mut i: u8 = 0;
        assert(written(*f) =~= written(*old(f)) + names_of_bits(bits, 0));
        while i < 8
            invariant
                i <= 8,
                first == (names_of_bits(bits, i as nat).len() == 0),
                written(*f) == written(*old(f)) + names_of_bits(bits, i as nat),
            decreases 8 - i,
        {
            if bits & (1u8 << i) != 0 {
                if !first {
                    match f.write_str(" | ") {
                        Ok(()) => {},
                        Err(e) => {
                            return Err(e);
                        },
                    }
                }
                match f.write_str(Bits::name(i)) {
                    Ok(()) => {},
                    Err(e) => {
                        return Err(e);
                    },
                }
                first = false;
            }
            i += 1;
            assert(written(*f) =~= written(*old(f)) + names_of_bits(bits, i as nat));
        }
        Ok(())
    }
}

/// Memory region flags, a set of attributes that is kept as one bit each.
///
/// Each named attribute is an associated function of that name. Bits that no
/// attribute names can be held too ([`from_bits_retain`]); they are compared
/// and combined like the others, but never survive a negation.
///
/// [`from_bits_retain`]: MemblockFlags::from_bits_retain
#[derive(Debug, Clone, Copy, PartialEq, Eq, Structural)]
pub struct MemblockFlags(Bits);

impl View for MemblockFlags {
    type V = u8;

    closed spec fn view(&self) -> u8 {
        self.0.0
    }
}

#[allow(non_snake_case)]
impl MemblockFlags {
    /// The flags whose bits are `bits`.
    pub closed spec fn of_bits(bits: u8) -> Self {
        MemblockFlags(Bits(bits))
    }

    /// Flags are determined by their bits.
    pub broadcast proof fn lemma_of_bits(bits: u8)
        ensures
            (#[trigger] Self::of_bits(bits))@ == bits,
    {
    }

    /// Flags are determined by their bits.
    pub broadcast proof fn lemma_view(self)
        ensures
            Self::of_bits(#[trigger] self@) == self,
    {
    }

    /// No special request.
    #[verifier::allow_in_spec]
    pub fn NONE() -> Self
        returns
            Self::of_bits(0x0),
    {
        MemblockFlags(Bits(0x0))
    }

    /// Hotpluggable region.
    #[verifier::allow_in_spec]
    pub fn HOTPLUG() -> Self
        returns
            Self::of_bits(0x1),
    {
        MemblockFlags(Bits(0x1))
    }

    /// Mirrored region.
    #[verifier::allow_in_spec]
    pub fn MIRROR() -> Self
        returns
            Self::of_bits(0x2),
    {
        MemblockFlags(Bits(0x2))
    }

    /// Don't add to kernel direct mapping.
    #[verifier::allow_in_spec]
    pub fn NOMAP() -> Self
        returns
            Self::of_bits(0x4),
    {
        MemblockFlags(Bits(0x4))
    }

    /// Always detected via a driver.
    #[verifier::allow_in_spec]
    pub fn DRIVER_MANAGED() -> Self
        returns
            Self::of_bits(0x8),
    {
        MemblockFlags(Bits(0x8))
    }

    /// Don't initialize struct pages.
    #[verifier::allow_in_spec]
    pub fn RSRV_NOINIT() -> Self
        returns
            Self::of_bits(0x10),
    {
        MemblockFlags(Bits(0x10))
    }

    /// Memory reserved for kernel use.
    #[verifier::allow_in_spec]
    pub fn RSRV_KERN() -> Self
        returns
            Self::of_bits(0x20),
    {
        MemblockFlags(Bits(0x20))
    }

    /// Scratch memory for kexec handover.
    #[verifier::allow_in_spec]
    pub fn KHO_SCRATCH() -> Self
        returns
            Self::of_bits(0x40),
    {
        MemblockFlags(Bits(0x40))
    }

    /// No bits at all.
    #[verifier::allow_in_spec]
    pub fn empty() -> Self
        returns
            Self::of_bits(0x0),
    {
        MemblockFlags(Bits(0x0))
    }

    /// Every named attribute together.
    #[verifier::allow_in_spec]
    pub fn all() -> Self
        returns
            Self::of_bits(0x7f),
    {
        MemblockFlags(Bits(0x7f))
    }

    /// Returns the bits of the flags.
    #[verifier::allow_in_spec]
    pub fn bits(self) -> u8
        returns
            self@,
    {
        self.0.0
    }

    /// Returns the flags with exactly the given bits, or `None` if one of
    /// the bits names no attribute.
    pub fn from_bits(bits: u8) -> (r: Option<Self>)
        ensures
            r == (if bits & 0x7f == bits {
                Some(Self::of_bits(bits))
            } else {
                None
            }),
    {
        if bits & 0x7f == bits {
            Some(MemblockFlags(Bits(bits)))
        } else {
            None
        }
    }

    /// Returns the flags with the given bits, less those that name no
    /// attribute.
    #[verifier::allow_in_spec]
    pub fn from_bits_truncate(bits: u8) -> Self
        returns
            Self::of_bits(bits & 0x7f),
    {
        MemblockFlags(Bits(bits & 0x7f))
    }

    /// Returns the flags with exactly the given bits.
    #[verifier::allow_in_spec]
    pub fn from_bits_retain(bits: u8) -> Self
        returns
            Self::of_bits(bits),
    {
        MemblockFlags(Bits(bits))
    }

    /// Returns `true` if no bit is set.
    #[verifier::allow_in_spec]
    pub fn is_empty(self) -> bool
        returns
            self@ == 0x0,
    {
        self.0.0 == 0x0
    }

    /// Returns `true` if every named attribute is set.
    #[verifier::allow_in_spec]
    pub fn is_all(self) -> bool
        returns
            self@ & 0x7f == 0x7f,
    {
        self.0.0 & 0x7f == 0x7f
    }

    /// Returns `true` if some bit of `other` is set in `self`.
    #[verifier::allow_in_spec]
    pub fn intersects(self, other: Self) -> bool
        returns
            self@ & other@ != 0x0,
    {
        self.0.0 & other.0.0 != 0x0
    }

    /// Returns `true` if every bit of `other` is set in `self`.
    #[verifier::allow_in_spec]
    pub fn contains(self, other: Self) -> bool
        returns
            self@ & other@ == other@,
    {
        self.0.0 & other.0.0 == other.0.0
    }

    /// Returns the flags with the bits of both operands.
    #[verifier::allow_in_spec]
    pub fn union(self, other: Self) -> Self
        returns
            Self::of_bits(self@ | other@),
    {
        MemblockFlags(Bits(self.0.0 | other.0.0))
    }

    /// Returns the flags with the bits that both operands have.
    #[verifier::allow_in_spec]
    pub fn intersection(self, other: Self) -> Self
        returns
            Self::of_bits(self@ & other@),
    {
        MemblockFlags(Bits(self.0.0 & other.0.0))
    }

    /// Returns the flags with the bits of `self` that `other` does not have.
    #[verifier::allow_in_spec]
    pub fn difference(self, other: Self) -> Self
        returns
            Self::of_bits(self@ & !other@),
    {
        MemblockFlags(Bits(self.0.0 & !other.0.0))
    }

    /// Returns the flags with the bits that one operand has and the other
    /// does not.
    #[verifier::allow_in_spec]
    pub fn symmetric_difference(self, other: Self) -> Self
        returns
            Self::of_bits(self@ ^ other@),
    {
        MemblockFlags(Bits(self.0.0 ^ other.0.0))
    }

    /// Sets every bit of `other`.
    pub fn insert(&mut self, other: Self)
        ensures
            *final(self) == old(self).union(other),
    {
        *self = self.union(other);
    }

    /// Clears every bit of `other`.
    pub fn remove(&mut self, other: Self)
        ensures
            *final(self) == old(self).difference(other),
    {
        *self = self.difference(other);
    }

    /// Flips every bit of `other`.
    pub fn toggle(&mut self, other: Self)
        ensures
            *final(self) == old(self).symmetric_difference(other),
    {
        *self = self.symmetric_difference(other);
    }

    /// Sets every bit of `other` if `value` is `true`, and clears it if not.
    pub fn set(&mut self, other: Self, value: bool)
        ensures
            *final(self) == (if value {
                old(self).union(other)
            } else {
                old(self).difference(other)
            }),
    {
        if value {
            self.insert(other);
        } else {
            self.remove(other);
        }
    }

    /// Returns the named attributes that these flags do not have.
    #[verifier::allow_in_spec]
    pub fn complement(self) -> Self
        returns
            Self::of_bits(!self@ & 0x7f),
    {
        MemblockFlags(Bits(!self.0.0 & 0x7f))
    }

    /// These flags with every bit of `flag` set.
    pub open spec fn with(self, flag: Self) -> Self {
        self.union(flag)
    }

    /// These flags with every bit of `flag`, and every bit that names no
    /// attribute, cleared.
    pub open spec fn without(self, flag: Self) -> Self {
        self.intersection(flag.complement())
    }
}

impl core::ops::BitOr for MemblockFlags {
    type Output = Self;

    /// The flags with the bits of both operands.
    fn bitor(self, other: Self) -> (r: Self) {
        self.union(other)
    }
}

impl BitOrSpecImpl for MemblockFlags {
    open spec fn obeys_bitor_spec() -> bool {
        true
    }

    open spec fn bitor_req(self, rhs: Self) -> bool {
        true
    }

    open spec fn bitor_spec(self, rhs: Self) -> Self {
        self.union(rhs)
    }
}

impl core::ops::BitAnd for MemblockFlags {
    type Output = Self;

    /// The flags with the bits that both operands have.
    fn bitand(self, other: Self) -> (r: Self) {
        self.intersection(other)
    }
}

impl BitAndSpecImpl for MemblockFlags {
    open spec fn obeys_bitand_spec() -> bool {
        true
    }

    open spec fn bitand_req(self, rhs: Self) -> bool {
        true
    }

    open spec fn bitand_spec(self, rhs: Self) -> Self {
        self.intersection(rhs)
    }
}

impl core::ops::BitXor for MemblockFlags {
    type Output = Self;

    /// The flags with the bits that one operand has and the other does not.
    fn bitxor(self, other: Self) -> (r: Self) {
        self.symmetric_difference(other)
    }
}

impl BitXorSpecImpl for MemblockFlags {
    open spec fn obeys_bitxor_spec() -> bool {
        true
    }

    open spec fn bitxor_req(self, rhs: Self) -> bool {
        true
    }

    open spec fn bitxor_spec(self, rhs: Self) -> Self {
        self.symmetric_difference(rhs)
    }
}

impl core::ops::Sub for MemblockFlags {
    type Output = Self;

    /// The flags with the bits of the first operand that the second does not
    /// have.
    fn sub(self, other: Self) -> (r: Self) {
        self.difference(other)
    }
}

impl SubSpecImpl for MemblockFlags {
    open spec fn obeys_sub_spec() -> bool {
        true
    }

    open spec fn sub_req(self, rhs: Self) -> bool {
        true
    }

    open spec fn sub_spec(self, rhs: Self) -> Self {
        self.difference(rhs)
    }
}

impl core::ops::BitOrAssign for MemblockFlags {
    /// Sets every bit of `other`.
    fn bitor_assign(&mut self, other: Self)
        ensures
            *final(self) == old(self).union(other),
    {
        self.insert(other);
    }
}

impl core::ops::BitAndAssign for MemblockFlags {
    /// Clears every bit that `other` does not have.
    fn bitand_assign(&mut self, other: Self)
        ensures
            *final(self) == old(self).intersection(other),
    {
        *self = self.intersection(other);
    }
}

impl core::ops::BitXorAssign for MemblockFlags {
    /// Flips every bit of `other`.
    fn bitxor_assign(&mut self, other: Self)
        ensures
            *final(self) == old(self).symmetric_difference(other),
    {
        self.toggle(other);
    }
}

impl core::ops::SubAssign for MemblockFlags {
    /// Clears every bit of `other`.
    fn sub_assign(&mut self, other: Self)
        ensures
            *final(self) == old(self).difference(other),
    {
        self.remove(other);
    }
}

impl core::ops::Not for MemblockFlags {
    type Output = Self;

    /// The named attributes that the operand does not have.
    fn not(self) -> (r: Self) {
        self.complement()
    }
}

impl NotSpecImpl for MemblockFlags {
    open spec fn obeys_not_spec() -> bool {
        true
    }

    open spec fn not_req(self) -> bool {
        true
    }

    open spec fn not_spec(self) -> Self {
        self.complement()
    }
}

} // verus!
