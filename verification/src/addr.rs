//! The physical address type and address arithmetic helpers.
//!
//! Defines [`PhysAddr`], the generic physical address type used throughout
//! memblock, plus free-standing helpers for physical address and page frame
//! number (PFN) arithmetic.
//!
//! Every helper is generic over [`PhysAddr`] and overflow-safe: results that
//! would exceed [`PhysAddr::MAX`] saturate instead of wrapping around. The
//! contracts are stated over the natural number [`PhysAddr::addr`] that an
//! address stands for.
use core::ops::Add;
use core::ops::BitAnd;
use core::ops::Div;
use core::ops::Mul;
use core::ops::Not;
use core::ops::Rem;
use core::ops::Sub;
use vstd::arithmetic::power2::*;
use vstd::prelude::*;
use vstd::std_specs::cmp::*;
use vstd::std_specs::ops::*;

verus! {

/// The bitwise AND of two natural numbers.
pub open spec fn bitand_nat(a: nat, b: nat) -> nat
    decreases a,
{
    if a == 0 {
        0
    } else {
        2 * bitand_nat(a / 2, b / 2) + (if a % 2 == 1 && b % 2 == 1 { 1nat } else { 0nat })
    }
}

/// Physical address type used throughout memblock.
///
/// An implementor is a plain copyable unsigned integer type. [`addr`] is the
/// number that a value stands for and [`at`] the value that stands for a
/// number; the proof functions are the contract that the arithmetic of the
/// type has to meet, stated over these two.
///
/// [`addr`]: PhysAddr::addr
/// [`at`]: PhysAddr::at
pub trait PhysAddr:
    Copy
    + Ord
    + Add<Output = Self>
    + Sub<Output = Self>
    + Div<Output = Self>
    + Mul<Output = Self>
    + Rem<Output = Self>
    + BitAnd<Output = Self>
    + Not<Output = Self>
{
    /// The maximum address representable by `Self`.
    const MAX: Self;
    /// The zero address.
    const ZERO: Self;
    /// The address value one.
    const ONE: Self;

    /// The number that this address stands for.
    spec fn addr(self) -> nat;

    /// The address that stands for the number `n`, which is at most
    /// `MAX.addr()`.
    spec fn at(n: nat) -> Self;

    /// `ZERO`, `ONE` and `MAX` are what they are called, and `MAX` is a
    /// number whose binary digits are all ones.
    proof fn lemma_constants()
        ensures
            Self::ZERO.addr() == 0,
            Self::ONE.addr() == 1,
            1 <= Self::MAX.addr(),
            is_pow2(Self::MAX.addr() as int + 1),
    ;

    /// The operators have a meaning that depends on their operands alone.
    proof fn lemma_operators()
        ensures
            Self::obeys_eq_spec(),
            Self::obeys_partial_cmp_spec(),
            Self::obeys_add_spec(),
            Self::obeys_sub_spec(),
            Self::obeys_mul_spec(),
            Self::obeys_div_spec(),
            Self::obeys_rem_spec(),
            Self::obeys_not_spec(),
            Self::obeys_bitand_spec(),
    ;

    /// Every value stands for a number from zero to `MAX`, and is determined
    /// by it.
    proof fn lemma_value(self)
        ensures
            0 <= self.addr() <= Self::MAX.addr(),
            Self::at(self.addr()) == self,
    ;

    /// Every number up to `MAX` has an address.
    proof fn lemma_at(n: nat)
        requires
            n <= Self::MAX.addr(),
        ensures
            Self::at(n).addr() == n,
    ;

    /// Comparison is that of the numbers.
    proof fn lemma_order(self, rhs: Self)
        ensures
            self.is_eq(&rhs) <==> (self.addr() == rhs.addr()),
            self.is_lt(&rhs) <==> (self.addr() < rhs.addr()),
            self.is_le(&rhs) <==> (self.addr() <= rhs.addr()),
            self.is_gt(&rhs) <==> (self.addr() > rhs.addr()),
            self.is_ge(&rhs) <==> (self.addr() >= rhs.addr()),
    ;

    /// `+` is addition where the sum is representable.
    proof fn lemma_add(self, rhs: Self)
        requires
            self.addr() + rhs.addr() <= Self::MAX.addr(),
        ensures
            self.add_req(rhs),
            self.add_spec(rhs).addr() == self.addr() + rhs.addr(),
    ;

    /// `-` is subtraction where the difference is not negative.
    proof fn lemma_sub(self, rhs: Self)
        requires
            rhs.addr() <= self.addr(),
        ensures
            self.sub_req(rhs),
            self.sub_spec(rhs).addr() == self.addr() - rhs.addr(),
    ;

    /// `*` is multiplication where the product is representable.
    proof fn lemma_mul(self, rhs: Self)
        requires
            self.addr() * rhs.addr() <= Self::MAX.addr(),
        ensures
            self.mul_req(rhs),
            self.mul_spec(rhs).addr() == self.addr() * rhs.addr(),
    ;

    /// `/` and `%` are truncating division and remainder.
    proof fn lemma_div_rem(self, rhs: Self)
        requires
            rhs.addr() != 0,
        ensures
            self.div_req(rhs),
            self.rem_req(rhs),
            self.div_spec(rhs).addr() == self.addr() / rhs.addr(),
            self.rem_spec(rhs).addr() == self.addr() % rhs.addr(),
    ;

    /// `!` flips every binary digit.
    proof fn lemma_not(self)
        ensures
            self.not_req(),
            self.not_spec().addr() == Self::MAX.addr() - self.addr(),
    ;

    /// `&` is the bitwise AND.
    proof fn lemma_bitand(self, rhs: Self)
        ensures
            self.bitand_req(rhs),
            self.bitand_spec(rhs).addr() == bitand_nat(self.addr(), rhs.addr()),
    ;
}

/// `&` on `u128` is the bitwise AND of the numbers. Narrower types have the
/// same digits.
proof fn lemma_bitand_u128(a: u128, b: u128)
    ensures
        (a & b) as nat == bitand_nat(a as nat, b as nat),
    decreases a,
{
    if a == 0 {
        assert(0u128 & b == 0u128) by (bit_vector);
    } else {
        lemma_bitand_u128(a / 2, b / 2);
        assert(a & b == 2 * ((a / 2) & (b / 2)) + (if a % 2 == 1 && b % 2 == 1 {
            1int
        } else {
            0int
        })) by (bit_vector);
    }
}

/// One more than the greatest value of each primitive type is a power of two.
proof fn lemma_widths()
    ensures
        is_pow2(0x100),
        is_pow2(0x1_0000),
        is_pow2(0x1_0000_0000),
        is_pow2(0x1_0000_0000_0000_0000),
        is_pow2(0x1_0000_0000_0000_0000_0000_0000_0000_0000int),
{
    reveal_with_fuel(is_pow2, 66);
    lemma2_to64_rest();
    lemma_pow2_adds(64, 64);
    lemma_pow2(128);
    is_pow2_equiv(0x1_0000_0000_0000_0000_0000_0000_0000_0000int);
}

impl PhysAddr for u8 {
    const MAX: Self = u8::MAX;
    const ZERO: Self = 0;
    const ONE: Self = 1;

    open spec fn addr(self) -> nat {
        self as nat
    }

    open spec fn at(n: nat) -> Self {
        n as u8
    }

    proof fn lemma_constants()
        ensures
            Self::ZERO == 0,
            Self::ONE == 1,
            <Self as PhysAddr>::MAX == u8::MAX,
    {
        lemma_widths();
    }

    proof fn lemma_operators() {
    }

    proof fn lemma_value(self) {
    }

    proof fn lemma_at(n: nat) {
    }

    proof fn lemma_order(self, rhs: Self) {
    }

    proof fn lemma_add(self, rhs: Self) {
    }

    proof fn lemma_sub(self, rhs: Self) {
    }

    proof fn lemma_mul(self, rhs: Self) {
    }

    proof fn lemma_div_rem(self, rhs: Self) {
    }

    proof fn lemma_not(self) {
        let v = self;
        assert(!v == u8::MAX - v) by (bit_vector);
    }

    proof fn lemma_bitand(self, rhs: Self) {
        lemma_bitand_u128(self as u128, rhs as u128);
    }
}

impl PhysAddr for u16 {
    const MAX: Self = u16::MAX;
    const ZERO: Self = 0;
    const ONE: Self = 1;

    open spec fn addr(self) -> nat {
        self as nat
    }

    open spec fn at(n: nat) -> Self {
        n as u16
    }

    proof fn lemma_constants()
        ensures
            Self::ZERO == 0,
            Self::ONE == 1,
            <Self as PhysAddr>::MAX == u16::MAX,
    {
        lemma_widths();
    }

    proof fn lemma_operators() {
    }

    proof fn lemma_value(self) {
    }

    proof fn lemma_at(n: nat) {
    }

    proof fn lemma_order(self, rhs: Self) {
    }

    proof fn lemma_add(self, rhs: Self) {
    }

    proof fn lemma_sub(self, rhs: Self) {
    }

    proof fn lemma_mul(self, rhs: Self) {
    }

    proof fn lemma_div_rem(self, rhs: Self) {
    }

    proof fn lemma_not(self) {
        let v = self;
        assert(!v == u16::MAX - v) by (bit_vector);
    }

    proof fn lemma_bitand(self, rhs: Self) {
        lemma_bitand_u128(self as u128, rhs as u128);
    }
}

impl PhysAddr for u32 {
    const MAX: Self = u32::MAX;
    const ZERO: Self = 0;
    const ONE: Self = 1;

    open spec fn addr(self) -> nat {
        self as nat
    }

    open spec fn at(n: nat) -> Self {
        n as u32
    }

    proof fn lemma_constants()
        ensures
            Self::ZERO == 0,
            Self::ONE == 1,
            <Self as PhysAddr>::MAX == u32::MAX,
    {
        lemma_widths();
    }

    proof fn lemma_operators() {
    }

    proof fn lemma_value(self) {
    }

    proof fn lemma_at(n: nat) {
    }

    proof fn lemma_order(self, rhs: Self) {
    }

    proof fn lemma_add(self, rhs: Self) {
    }

    proof fn lemma_sub(self, rhs: Self) {
    }

    proof fn lemma_mul(self, rhs: Self) {
    }

    proof fn lemma_div_rem(self, rhs: Self) {
    }

    proof fn lemma_not(self) {
        let v = self;
        assert(!v == u32::MAX - v) by (bit_vector);
    }

    proof fn lemma_bitand(self, rhs: Self) {
        lemma_bitand_u128(self as u128, rhs as u128);
    }
}

impl PhysAddr for u64 {
    const MAX: Self = u64::MAX;
    const ZERO: Self = 0;
    const ONE: Self = 1;

    open spec fn addr(self) -> nat {
        self as nat
    }

    open spec fn at(n: nat) -> Self {
        n as u64
    }

    proof fn lemma_constants()
        ensures
            Self::ZERO == 0,
            Self::ONE == 1,
            <Self as PhysAddr>::MAX == u64::MAX,
    {
        lemma_widths();
    }

    proof fn lemma_operators() {
    }

    proof fn lemma_value(self) {
    }

    proof fn lemma_at(n: nat) {
    }

    proof fn lemma_order(self, rhs: Self) {
    }

    proof fn lemma_add(self, rhs: Self) {
    }

    proof fn lemma_sub(self, rhs: Self) {
    }

    proof fn lemma_mul(self, rhs: Self) {
    }

    proof fn lemma_div_rem(self, rhs: Self) {
    }

    proof fn lemma_not(self) {
        let v = self;
        assert(!v == u64::MAX - v) by (bit_vector);
    }

    proof fn lemma_bitand(self, rhs: Self) {
        lemma_bitand_u128(self as u128, rhs as u128);
    }
}

impl PhysAddr for u128 {
    const MAX: Self = u128::MAX;
    const ZERO: Self = 0;
    const ONE: Self = 1;

    open spec fn addr(self) -> nat {
        self as nat
    }

    open spec fn at(n: nat) -> Self {
        n as u128
    }

    proof fn lemma_constants()
        ensures
            Self::ZERO == 0,
            Self::ONE == 1,
            <Self as PhysAddr>::MAX == u128::MAX,
    {
        lemma_widths();
    }

    proof fn lemma_operators() {
    }

    proof fn lemma_value(self) {
    }

    proof fn lemma_at(n: nat) {
    }

    proof fn lemma_order(self, rhs: Self) {
    }

    proof fn lemma_add(self, rhs: Self) {
    }

    proof fn lemma_sub(self, rhs: Self) {
    }

    proof fn lemma_mul(self, rhs: Self) {
    }

    proof fn lemma_div_rem(self, rhs: Self) {
    }

    proof fn lemma_not(self) {
        let v = self;
        assert(!v == u128::MAX - v) by (bit_vector);
    }

    proof fn lemma_bitand(self, rhs: Self) {
        lemma_bitand_u128(self, rhs);
    }
}

impl PhysAddr for usize {
    const MAX: Self = usize::MAX;
    const ZERO: Self = 0;
    const ONE: Self = 1;

    open spec fn addr(self) -> nat {
        self as nat
    }

    open spec fn at(n: nat) -> Self {
        n as usize
    }

    proof fn lemma_constants()
        ensures
            Self::ZERO == 0,
            Self::ONE == 1,
            <Self as PhysAddr>::MAX == usize::MAX,
    {
        lemma_widths();
    }

    proof fn lemma_operators() {
    }

    proof fn lemma_value(self) {
    }

    proof fn lemma_at(n: nat) {
    }

    proof fn lemma_order(self, rhs: Self) {
    }

    proof fn lemma_add(self, rhs: Self) {
    }

    proof fn lemma_sub(self, rhs: Self) {
    }

    proof fn lemma_mul(self, rhs: Self) {
    }

    proof fn lemma_div_rem(self, rhs: Self) {
    }

    proof fn lemma_not(self) {
        let v = self;
        assert(!v == !0usize - v) by (bit_vector);
        assert(usize::BITS == 32 ==> !0usize == 0xffff_ffff) by (bit_vector);
        assert(usize::BITS == 64 ==> !0usize == 0xffff_ffff_ffff_ffff) by (bit_vector);
    }

    proof fn lemma_bitand(self, rhs: Self) {
        lemma_bitand_u128(self as u128, rhs as u128);
    }
}

/// What the comparison of two addresses says of their numbers.
pub broadcast proof fn order_of_addresses<T: PhysAddr>(a: T, b: T)
    ensures
        #![trigger a.partial_cmp_spec(&b)]
        a.is_lt(&b) <==> (a.addr() < b.addr()),
        a.is_le(&b) <==> (a.addr() <= b.addr()),
        a.is_gt(&b) <==> (a.addr() > b.addr()),
        a.is_ge(&b) <==> (a.addr() >= b.addr()),
{
    a.lemma_order(b);
}

/// Two addresses are equal where their numbers are.
pub broadcast proof fn equality_of_addresses<T: PhysAddr>(a: T, b: T)
    ensures
        #![trigger a.eq_spec(&b)]
        a.eq_spec(&b) <==> a == b,
        (a.addr() == b.addr()) <==> a == b,
{
    a.lemma_order(b);
    a.lemma_value();
    b.lemma_value();
}

/// The sum of two addresses, where it is representable.
pub broadcast proof fn sum_of_addresses<T: PhysAddr>(a: T, b: T)
    requires
        a.addr() + b.addr() <= T::MAX.addr(),
    ensures
        #![trigger a.add_req(b)]
        #![trigger a.add_spec(b)]
        a.add_req(b),
        a.add_spec(b).addr() == a.addr() + b.addr(),
{
    a.lemma_add(b);
}

/// The difference of two addresses, where it is not negative.
pub broadcast proof fn difference_of_addresses<T: PhysAddr>(a: T, b: T)
    requires
        b.addr() <= a.addr(),
    ensures
        #![trigger a.sub_req(b)]
        #![trigger a.sub_spec(b)]
        a.sub_req(b),
        a.sub_spec(b).addr() == a.addr() - b.addr(),
{
    a.lemma_sub(b);
}

/// Every address is a number up to `MAX`, and its operators have a meaning
/// that depends on their operands alone.
pub broadcast proof fn bound_of_addresses<T: PhysAddr>(a: T)
    ensures
        0 <= #[trigger] a.addr() <= T::MAX.addr(),
        T::ZERO.addr() == 0,
        T::ONE.addr() == 1,
        T::obeys_eq_spec(),
        T::obeys_partial_cmp_spec(),
        T::obeys_add_spec(),
        T::obeys_sub_spec(),
        T::obeys_mul_spec(),
        T::obeys_div_spec(),
        T::obeys_rem_spec(),
        T::obeys_not_spec(),
        T::obeys_bitand_spec(),
{
    a.lemma_value();
    T::lemma_constants();
    T::lemma_operators();
}

pub broadcast group group_addresses {
    order_of_addresses,
    equality_of_addresses,
    sum_of_addresses,
    difference_of_addresses,
    bound_of_addresses,
}

/// The exclusive end of the range of `size` bytes at `base`, clamped to the
/// top of the address space.
pub open spec fn range_end<T: PhysAddr>(base: T, size: T) -> nat {
    if base.addr() + size.addr() <= T::MAX.addr() {
        base.addr() + size.addr()
    } else {
        T::MAX.addr()
    }
}

/// The range of `size` bytes at `base`, clamped to the top of the address
/// space, holds the address `a`.
pub open spec fn in_range<T: PhysAddr>(base: T, size: T, a: int) -> bool {
    base.addr() <= a < range_end(base, size)
}

/// The ranges of `size1` bytes at `base1` and of `size2` bytes at `base2`,
/// clamped to the top of the address space, have an address in common.
pub open spec fn overlap<T: PhysAddr>(base1: T, size1: T, base2: T, size2: T) -> bool {
    exists|a: int| #[trigger] in_range(base1, size1, a) && in_range(base2, size2, a)
}

/// Returns `true` if the ranges `[base1, base1 + size1)` and
/// `[base2, base2 + size2)` overlap.
///
/// Ranges are clamped to [`PhysAddr::MAX`] before comparison, so ranges
/// touching the top of the address space never wrap around. A range of no
/// bytes never overlaps.
pub fn addrs_overlap<T: PhysAddr>(base1: T, size1: T, base2: T, size2: T) -> (r: bool)
    ensures
        r == overlap(base1, size1, base2, size2),
{
    broadcast use group_addresses;

    let end1 = saturating_add(base1, size1);
    let end2 = saturating_add(base2, size2);
    proof {
        assert(in_range(base1, size1, base1.addr() as int) <==> base1.addr() < end1.addr());
        assert(in_range(base1, size1, base2.addr() as int) <==> base1.addr() <= base2.addr()
            < end1.addr());
    }
    base1 < end1 && base2 < end2 && base1 < end2 && base2 < end1
}

/// Returns `lhs + rhs`, saturating to [`PhysAddr::MAX`] instead of
/// overflowing.
pub fn saturating_add<T: PhysAddr>(lhs: T, rhs: T) -> (r: T)
    ensures
        r.addr() == range_end(lhs, rhs),
{
    broadcast use group_addresses;

    if lhs > T::MAX - rhs {
        T::MAX
    } else {
        lhs + rhs
    }
}

/// Clamps `size` so that `base + size <= PhysAddr::MAX`.
///
/// Ranges extending past the top of the address space are truncated instead
/// of wrapping around.
pub fn cap_size<T: PhysAddr>(base: T, size: T) -> (r: T)
    ensures
        r.addr() == range_end(base, size) - base.addr(),
{
    broadcast use group_addresses;

    if size > T::MAX - base {
        T::MAX - base
    } else {
        size
    }
}

/// Returns the smaller of two addresses.
pub fn lesser<T: PhysAddr>(a: T, b: T) -> (r: T)
    ensures
        r == (if b.addr() < a.addr() { b } else { a }),
{
    broadcast use group_addresses;

    if b < a {
        b
    } else {
        a
    }
}

/// Returns the greater of two addresses.
pub fn greater<T: PhysAddr>(a: T, b: T) -> (r: T)
    ensures
        r == (if a.addr() < b.addr() { b } else { a }),
{
    broadcast use group_addresses;

    if a < b {
        b
    } else {
        a
    }
}

proof fn lemma_bitand_same(a: nat)
    ensures
        bitand_nat(a, a) == a,
    decreases a,
{
    if a != 0 {
        lemma_bitand_same(a / 2);
    }
}

/// `v` and `v - 1` have no binary digit in common exactly where `v` is a
/// power of two.
proof fn lemma_power_of_two_test(v: nat)
    requires
        v > 0,
    ensures
        bitand_nat(v, (v - 1) as nat) == 0 <==> is_pow2(v as int),
    decreases v,
{
    reveal(is_pow2);
    if v == 1 {
        assert(bitand_nat(0, 0) == 0);
    } else if v % 2 == 0 {
        lemma_power_of_two_test(v / 2);
        assert((v - 1) / 2 == v / 2 - 1);
    } else {
        lemma_bitand_same(v / 2);
        assert((v - 1) / 2 == v / 2);
    }
}

/// Below the power of two `w`, the AND with `w - p` clears the digits below
/// the power of two `p`.
proof fn lemma_bitand_mask(a: nat, p: nat, w: nat)
    requires
        is_pow2(p as int),
        is_pow2(w as int),
        p <= w,
        a < w,
    ensures
        bitand_nat(a, (w - p) as nat) == a - a % p,
    decreases a,
{
    reveal(is_pow2);
    if a != 0 {
        if p == 1 {
            lemma_bitand_mask(a / 2, 1, w / 2);
            assert((w - 1) / 2 == w / 2 - 1);
        } else {
            lemma_bitand_mask(a / 2, p / 2, w / 2);
            assert((w - p) / 2 == w / 2 - p / 2);
            let q = p / 2;
            let u = a / 2;
            assert(p == 2 * q);
            vstd::arithmetic::div_mod::lemma_fundamental_div_mod(u as int, q as int);
            assert(a == (2 * q) * (u / q) + (2 * (u % q) + a % 2)) by {
                assert((2 * q) * (u / q) == 2 * (q * (u / q))) by (nonlinear_arith);
            }
            vstd::arithmetic::div_mod::lemma_fundamental_div_mod_converse(
                a as int,
                p as int,
                (u / q) as int,
                (2 * (u % q) + a % 2) as int,
            );
        }
    } else {
        vstd::arithmetic::div_mod::lemma_small_mod(0, p);
    }
}

/// Returns `true` if `v` is a non-zero power of two.
pub fn is_power_of_two<T: PhysAddr>(v: T) -> (r: bool)
    ensures
        r == is_pow2(v.addr() as int),
{
    broadcast use group_addresses;

    proof {
        T::lemma_constants();
        reveal(is_pow2);
        if v.addr() != 0 {
            v.lemma_sub(T::ONE);
            v.lemma_bitand(v.sub_spec(T::ONE));
            lemma_power_of_two_test(v.addr());
        }
    }
    v != T::ZERO && (v & (v - T::ONE)) == T::ZERO
}

/// The least multiple of `alignment` that is at least `addr`.
pub open spec fn round_up(addr: nat, alignment: nat) -> nat {
    ((addr + alignment - 1) / alignment as int * alignment) as nat
}

/// The greatest multiple of `alignment` that is at most `addr`.
pub open spec fn round_down(addr: nat, alignment: nat) -> nat {
    addr / alignment * alignment
}

proof fn lemma_rounding(addr: nat, alignment: nat)
    requires
        alignment > 0,
    ensures
        round_down(addr, alignment) == addr - addr % alignment,
        round_up(addr, alignment) == addr + alignment - 1 - (addr + alignment - 1) % (
        alignment as int),
        round_up(addr, alignment) >= addr,
{
    vstd::arithmetic::div_mod::lemma_fundamental_div_mod(addr as int, alignment as int);
    vstd::arithmetic::div_mod::lemma_fundamental_div_mod(
        addr + alignment - 1,
        alignment as int,
    );
    vstd::arithmetic::mul::lemma_mul_is_commutative(
        (addr / alignment) as int,
        alignment as int,
    );
    vstd::arithmetic::mul::lemma_mul_is_commutative(
        (addr + alignment - 1) / alignment as int,
        alignment as int,
    );
}

/// Rounding gives the nearest multiple on either side.
pub proof fn lemma_nearest_multiple(addr: nat, alignment: nat, b: nat)
    requires
        alignment > 0,
        b % alignment == 0,
    ensures
        round_up(addr, alignment) % alignment == 0,
        round_down(addr, alignment) % alignment == 0,
        round_down(addr, alignment) <= addr <= round_up(addr, alignment),
        addr <= b ==> round_up(addr, alignment) <= b,
        b <= addr ==> b <= round_down(addr, alignment),
{
    let a = alignment as int;
    lemma_rounding(addr, alignment);
    vstd::arithmetic::div_mod::lemma_mod_multiples_basic((addr + alignment - 1) / a, a);
    vstd::arithmetic::div_mod::lemma_mod_multiples_basic(addr as int / a, a);
    vstd::arithmetic::div_mod::lemma_fundamental_div_mod(b as int, a);
    vstd::arithmetic::mul::lemma_mul_is_commutative(b as int / a, a);
    if addr <= b {
        vstd::arithmetic::div_mod::lemma_fundamental_div_mod_converse(
            b + a - 1,
            a,
            b as int / a,
            a - 1,
        );
        vstd::arithmetic::div_mod::lemma_div_is_ordered(addr + a - 1, b + a - 1, a);
        vstd::arithmetic::mul::lemma_mul_inequality((addr + a - 1) / a, b as int / a, a);
    }
    if b <= addr {
        vstd::arithmetic::div_mod::lemma_div_is_ordered(b as int, addr as int, a);
        vstd::arithmetic::mul::lemma_mul_inequality(b as int / a, addr as int / a, a);
    }
}

/// Rounding up to a power of two that divides `w` crosses `w` as soon as
/// `addr + alignment - 1` does.
proof fn lemma_round_up_overflow(addr: nat, alignment: nat, w: nat)
    requires
        is_pow2(alignment as int),
        is_pow2(w as int),
        alignment <= w,
        addr + alignment - 1 >= w,
    ensures
        round_up(addr, alignment) >= w,
{
    lemma_power_of_two_divides(alignment, w);
    let q = w / alignment;
    vstd::arithmetic::div_mod::lemma_div_is_ordered(
        w as int,
        addr + alignment - 1,
        alignment as int,
    );
    vstd::arithmetic::div_mod::lemma_fundamental_div_mod(w as int, alignment as int);
    vstd::arithmetic::mul::lemma_mul_is_commutative(q as int, alignment as int);
    vstd::arithmetic::mul::lemma_mul_inequality(
        q as int,
        (addr + alignment - 1) / alignment as int,
        alignment as int,
    );
}

proof fn lemma_power_of_two_divides(p: nat, w: nat)
    requires
        is_pow2(p as int),
        is_pow2(w as int),
        p <= w,
    ensures
        p > 0,
        w % p == 0,
    decreases p,
{
    reveal(is_pow2);
    if p != 1 {
        lemma_power_of_two_divides(p / 2, w / 2);
        let q = (p / 2) as int;
        let v = (w / 2) as int;
        vstd::arithmetic::div_mod::lemma_fundamental_div_mod(v, q);
        assert(w == p * (v / q) + 0) by {
            assert((2 * q) * (v / q) == 2 * (q * (v / q))) by (nonlinear_arith);
        }
        vstd::arithmetic::div_mod::lemma_fundamental_div_mod_converse(
            w as int,
            p as int,
            v / q,
            0,
        );
    }
}

/// Rounds `addr` up to the next multiple of `alignment`, a power of two.
///
/// The result saturates to [`PhysAddr::MAX`] if it would overflow.
pub fn align_up<T: PhysAddr>(addr: T, alignment: T) -> (r: T)
    requires
        is_pow2(alignment.addr() as int),
    ensures
        r.addr() == (if round_up(addr.addr(), alignment.addr()) <= T::MAX.addr() {
            round_up(addr.addr(), alignment.addr())
        } else {
            T::MAX.addr()
        }),
{
    broadcast use group_addresses;

    proof {
        reveal(is_pow2);
        T::lemma_constants();
        lemma_rounding(addr.addr(), alignment.addr());
    }
    let mask = alignment - T::ONE;
    if addr > T::MAX - mask {
        proof {
            lemma_round_up_overflow(addr.addr(), alignment.addr(), T::MAX.addr() + 1);
        }
        T::MAX
    } else {
        let sum = addr + mask;
        proof {
            mask.lemma_not();
            sum.lemma_bitand(mask.not_spec());
            lemma_bitand_mask(sum.addr(), alignment.addr(), T::MAX.addr() + 1);
        }
        sum & !mask
    }
}

/// Rounds `addr` down to the previous multiple of `alignment`, a power of
/// two.
pub fn align_down<T: PhysAddr>(addr: T, alignment: T) -> (r: T)
    requires
        is_pow2(alignment.addr() as int),
    ensures
        r.addr() == round_down(addr.addr(), alignment.addr()),
{
    broadcast use group_addresses;

    proof {
        reveal(is_pow2);
        T::lemma_constants();
        lemma_rounding(addr.addr(), alignment.addr());
    }
    let mask = alignment - T::ONE;
    proof {
        mask.lemma_not();
        addr.lemma_bitand(mask.not_spec());
        lemma_bitand_mask(addr.addr(), alignment.addr(), T::MAX.addr() + 1);
    }
    addr & !mask
}

/// The number of the first page that starts at or after `addr`.
pub open spec fn page_up(addr: nat, page_size: nat) -> nat {
    ((addr + page_size - 1) / page_size as int) as nat
}

/// Returns the smallest page frame number containing `addr`, i.e.
/// `ceil(addr / page_size)`.
///
/// The computation cannot overflow, so addresses near [`PhysAddr::MAX`] are
/// handled correctly.
pub fn pfn_up<T: PhysAddr>(addr: T, page_size: T) -> (r: T)
    requires
        page_size.addr() != 0,
    ensures
        r.addr() == page_up(addr.addr(), page_size.addr()),
{
    broadcast use group_addresses;

    proof {
        addr.lemma_div_rem(page_size);
        let a = addr.addr() as int;
        let p = page_size.addr() as int;
        let q = a / p;
        vstd::arithmetic::div_mod::lemma_fundamental_div_mod(a, p);
        if a % p == 0 {
            vstd::arithmetic::div_mod::lemma_fundamental_div_mod_converse(a + p - 1, p, q, p - 1);
        } else {
            assert(a + p - 1 == p * (q + 1) + (a % p - 1)) by {
                vstd::arithmetic::mul::lemma_mul_is_distributive_add(p, q, 1);
            }
            vstd::arithmetic::div_mod::lemma_fundamental_div_mod_converse(
                a + p - 1,
                p,
                q + 1,
                a % p - 1,
            );
            vstd::arithmetic::div_mod::lemma_div_pos_is_pos(a, p);
            assert(p >= 2 ==> q < a || a == 0) by {
                if p >= 2 && a > 0 {
                    vstd::arithmetic::div_mod::lemma_div_decreases(a, p);
                }
            }
        }
    }
    let q = addr / page_size;
    if addr % page_size != T::ZERO {
        q + T::ONE
    } else {
        q
    }
}

/// Returns the largest page frame number fully below `addr`, i.e.
/// `floor(addr / page_size)`.
pub fn pfn_down<T: PhysAddr>(addr: T, page_size: T) -> (r: T)
    requires
        page_size.addr() != 0,
    ensures
        r.addr() == addr.addr() / page_size.addr(),
{
    broadcast use group_addresses;

    proof {
        addr.lemma_div_rem(page_size);
    }
    addr / page_size
}

/// Returns the start address of the page numbered `pfn`.
///
/// The result saturates to [`PhysAddr::MAX`] if `pfn * page_size` would
/// overflow.
pub fn pfn_to_phys<T: PhysAddr>(pfn: T, page_size: T) -> (r: T)
    requires
        page_size.addr() != 0,
    ensures
        r.addr() == (if pfn.addr() * page_size.addr() <= T::MAX.addr() {
            pfn.addr() * page_size.addr()
        } else {
            T::MAX.addr()
        }),
{
    broadcast use group_addresses;

    proof {
        T::MAX.lemma_div_rem(page_size);
        let m = T::MAX.addr() as int;
        let p = page_size.addr() as int;
        let n = pfn.addr() as int;
        vstd::arithmetic::div_mod::lemma_fundamental_div_mod(m, p);
        vstd::arithmetic::div_mod::lemma_mod_bound(m, p);
        if n > m / p {
            vstd::arithmetic::mul::lemma_mul_inequality(m / p + 1, n, p);
            vstd::arithmetic::mul::lemma_mul_is_distributive_add_other_way(p, m / p, 1);
            vstd::arithmetic::mul::lemma_mul_is_commutative(m / p, p);
        } else {
            vstd::arithmetic::mul::lemma_mul_inequality(n, m / p, p);
            vstd::arithmetic::mul::lemma_mul_is_commutative(m / p, p);
            pfn.lemma_mul(page_size);
        }
    }
    if pfn > T::MAX / page_size {
        T::MAX
    } else {
        pfn * page_size
    }
}

} // verus!
