//! Virtual and physical address types.
//!
//! A physical address is 56 bits and a page number 44 in every RV64 translation
//! scheme. A virtual address decomposes into one 9-bit VPN field per level above
//! a 12-bit page offset.

use vstd::prelude::*;

use crate::geometry::{MAX_LEVELS, PAGE_OFFSET_BITS, PPN_BITS, VPN_BITS};
use crate::utils::{
    lemma_mask_values, align_down, align_offset, align_up, field, is_pow2, spec_field, spec_with_field, with_field,
};

verus! {

/// Common arithmetic over machine-word-sized address types.
///
/// Implemented by both [`VirtualAddr`] and [`PhysicalAddr`] so range and alignment
/// logic is written once and reused for either.
pub trait MemoryAddr: Sized + Copy {
    /// The address as a number.
    spec fn addr(self) -> u64;

    fn from_usize(addr: u64) -> (r: Self)
        ensures
            r.addr() == addr,
    ;

    fn as_usize(self) -> (r: u64)
        ensures
            r == self.addr(),
    ;

    /// Round down to a multiple of the power of two `align`.
    fn align_down(self, align: u64) -> (r: Self)
        requires
            is_pow2(align),
        ensures
            r.addr() == self.addr() & !((align - 1) as u64),
    {
        Self::from_usize(align_down(self.as_usize(), align))
    }

    /// Round up to a multiple of the power of two `align`.
    fn align_up(self, align: u64) -> (r: Self)
        requires
            is_pow2(align),
            self.addr() + align - 1 <= u64::MAX,
        ensures
            r.addr() == ((self.addr() + align - 1) as u64) & !((align - 1) as u64),
    {
        Self::from_usize(align_up(self.as_usize(), align))
    }

    /// Offset past the preceding multiple of the power of two `align`.
    fn align_offset(self, align: u64) -> (r: u64)
        requires
            is_pow2(align),
        ensures
            r == self.addr() & ((align - 1) as u64),
    {
        align_offset(self.as_usize(), align)
    }

    /// Whether the address is a multiple of the power of two `align`.
    fn is_aligned(self, align: u64) -> (r: bool)
        requires
            is_pow2(align),
        ensures
            r == (self.addr() & ((align - 1) as u64) == 0),
    {
        self.as_usize() & (align - 1) == 0
    }

    /// The address `off` bytes away.
    fn offset(self, off: i64) -> (r: Self)
        requires
            0 <= self.addr() + off <= u64::MAX,
        ensures
            r.addr() == self.addr() + off,
    {
        let a = self.as_usize();
        if off >= 0 {
            Self::from_usize(a + (off as u64))
        } else {
            let back = (0i128 - (off as i128)) as u64;
            Self::from_usize(a - back)
        }
    }

    /// The address `off` bytes away, wrapping around the address space.
    fn wrapping_offset(self, off: i64) -> (r: Self)
        ensures
            r.addr() as int == (self.addr() + off) % 0x1_0000_0000_0000_0000int,
    {
        let a = self.as_usize();
        if off >= 0 {
            Self::from_usize(a.wrapping_add(off as u64))
        } else {
            let back = (0i128 - (off as i128)) as u64;
            Self::from_usize(a.wrapping_sub(back))
        }
    }

    /// Signed distance from `base` to this address, both read as signed words.
    fn offset_from(self, base: Self) -> (r: i64)
        requires
            i64::MIN <= (self.addr() as i64) - (base.addr() as i64) <= i64::MAX,
        ensures
            r == (self.addr() as i64) - (base.addr() as i64),
    {
        (self.as_usize() as i64) - (base.as_usize() as i64)
    }

    /// The address `rhs` bytes above.
    fn add(self, rhs: u64) -> (r: Self)
        requires
            self.addr() + rhs <= u64::MAX,
        ensures
            r.addr() == self.addr() + rhs,
    {
        Self::from_usize(self.as_usize() + rhs)
    }

    /// The address `rhs` bytes above, wrapping around the address space.
    fn wrapping_add(self, rhs: u64) -> (r: Self)
        ensures
            r.addr() as int == (self.addr() + rhs) % 0x1_0000_0000_0000_0000int,
    {
        Self::from_usize(self.as_usize().wrapping_add(rhs))
    }

    /// The address `rhs` bytes above, or `None` past the end of the address space.
    fn checked_add(self, rhs: u64) -> (r: Option<Self>)
        ensures
            match r {
                Some(a) => self.addr() + rhs <= u64::MAX && a.addr() == self.addr() + rhs,
                None => self.addr() + rhs > u64::MAX,
            },
    {
        match self.as_usize().checked_add(rhs) {
            Some(a) => Some(Self::from_usize(a)),
            None => None,
        }
    }

    /// The address `rhs` bytes below.
    fn sub(self, rhs: u64) -> (r: Self)
        requires
            rhs <= self.addr(),
        ensures
            r.addr() == self.addr() - rhs,
    {
        Self::from_usize(self.as_usize() - rhs)
    }

    /// The address `rhs` bytes below, wrapping around the address space.
    fn wrapping_sub(self, rhs: u64) -> (r: Self)
        ensures
            r.addr() as int == (self.addr() - rhs) % 0x1_0000_0000_0000_0000int,
    {
        Self::from_usize(self.as_usize().wrapping_sub(rhs))
    }

    /// The address `rhs` bytes below, or `None` below zero.
    fn checked_sub(self, rhs: u64) -> (r: Option<Self>)
        ensures
            match r {
                Some(a) => rhs <= self.addr() && a.addr() == self.addr() - rhs,
                None => rhs > self.addr(),
            },
    {
        match self.as_usize().checked_sub(rhs) {
            Some(a) => Some(Self::from_usize(a)),
            None => None,
        }
    }

    /// Bytes from `rhs` up to this address.
    fn sub_addr(self, rhs: Self) -> (r: u64)
        requires
            rhs.addr() <= self.addr(),
        ensures
            r == self.addr() - rhs.addr(),
    {
        self.as_usize() - rhs.as_usize()
    }

    /// Bytes from `rhs` up to this address, or `None` if `rhs` is above it.
    fn checked_sub_addr(self, rhs: Self) -> (r: Option<u64>)
        ensures
            match r {
                Some(d) => rhs.addr() <= self.addr() && d == self.addr() - rhs.addr(),
                None => rhs.addr() > self.addr(),
            },
    {
        self.as_usize().checked_sub(rhs.as_usize())
    }
}

/// The VPN index a virtual address selects at `level` (9 bits above bit `12 + 9 * level`).
pub open spec fn spec_vpn(va: u64, level: nat) -> u64 {
    spec_field(va, (12 + 9 * level) as u64, 9)
}

/// A VPN index is below 512.
pub proof fn lemma_vpn_bound(va: u64, level: nat)
    ensures
        spec_vpn(va, level) < 512,
{
    lemma_mask_values();
    let s = (12 + 9 * level) as u64;
    assert((va >> s) & 0x1ffu64 < 512) by (bit_vector);
}

/// Two addresses that agree on their low `bits` bits select the same page-table index
/// at every level those bits hold.
pub proof fn lemma_low_bits_keep_vpn(a: u64, b: u64, bits: u64, level: nat)
    requires
        12 + 9 * (level + 1) <= bits <= 64,
        a & (u64::MAX >> ((64 - bits) as u64)) == b & (u64::MAX >> ((64 - bits) as u64)),
    ensures
        spec_vpn(a, level) == spec_vpn(b, level),
{
    lemma_mask_values();
    let s = (12 + 9 * level) as u64;
    let k = (64 - bits) as u64;
    assert((a >> s) & 0x1ffu64 == (b >> s) & 0x1ffu64) by (bit_vector)
        requires
            s + 9 + k <= 64,
            a & (u64::MAX >> k) == b & (u64::MAX >> k),
    ;
}

/// The in-page byte offset of an address.
pub open spec fn spec_offset(a: u64) -> u64 {
    spec_field(a, 0, 12)
}

/// The 44-bit physical page number of an address.
pub open spec fn spec_ppn(a: u64) -> u64 {
    spec_field(a, 12, 44)
}

/// A physical page number fits its 44-bit field.
pub proof fn lemma_ppn_fits(a: u64)
    ensures
        spec_ppn(a) <= 0xfff_ffff_ffff,
{
    lemma_mask_values();
    assert((a >> 12u64) & 0xfff_ffff_ffffu64 <= 0xfff_ffff_ffff) by (bit_vector);
}

/// A virtual address.
#[derive(PartialEq, Eq, Clone, Copy, Debug, Structural)]
pub struct VirtualAddr(pub u64);

impl MemoryAddr for VirtualAddr {
    open spec fn addr(self) -> u64 {
        self.0
    }

    fn from_usize(addr: u64) -> (r: Self) {
        VirtualAddr(addr)
    }

    fn as_usize(self) -> (r: u64) {
        self.0
    }
}

impl VirtualAddr {
    pub fn new(vaddr: u64) -> (r: Self)
        ensures
            r.0 == vaddr,
    {
        VirtualAddr(vaddr)
    }

    pub fn bits(self) -> (r: u64)
        ensures
            r == self.0,
    {
        self.0
    }

    /// The byte offset within the base page.
    pub fn offset(self) -> (r: u64)
        ensures
            r == spec_offset(self.0),
            r < 4096,
    {
        proof {
            lemma_mask_values();
            let a = self.0;
            assert((a >> 0u64) & 0xfffu64 < 4096) by (bit_vector);
        }
        field(self.0, 0, PAGE_OFFSET_BITS)
    }

    /// The 9-bit page-table index for `level` (0 = leaf level).
    pub fn vpn(self, level: usize) -> (r: usize)
        requires
            level < MAX_LEVELS,
        ensures
            r == spec_vpn(self.0, level as nat),
            r < 512,
    {
        let shift = PAGE_OFFSET_BITS + VPN_BITS * (level as u64);
        let v = field(self.0, shift, VPN_BITS);
        proof {
            lemma_mask_values();
            let a = self.0;
            assert((a >> shift) & 0x1ffu64 < 512) by (bit_vector);
        }
        v as usize
    }

    /// Build an Sv39 address from a combined 27-bit virtual page number and a byte offset.
    pub fn from_parts(vpn: u64, offset: u64) -> (r: Self)
        ensures
            r.0 == spec_with_field(spec_with_field(0, 12, 27, vpn), 0, 12, offset),
    {
        let bits = with_field(0, PAGE_OFFSET_BITS, VPN_BITS * 3, vpn);
        VirtualAddr(with_field(bits, 0, PAGE_OFFSET_BITS, offset))
    }

    /// True if bits 63..38 are a correct sign extension of bit 38 (the Sv39 form the
    /// hardware accepts).
    pub fn is_canonical(self) -> (r: bool)
        ensures
            r == spec_is_canonical(self.0, 39),
    {
        is_canonical_at(self.0, 39)
    }

    /// Sign-extend bit 38 across bits 63..39 (the Sv39 canonical form).
    pub fn canonicalize(self) -> (r: Self)
        ensures
            r.0 == spec_canonicalize(self.0, 39),
            spec_is_canonical(r.0, 39),
            r.0 & (u64::MAX >> 25u64) == self.0 & (u64::MAX >> 25u64),
            spec_is_canonical(self.0, 39) ==> r == self,
            forall|l: nat| l < 3 ==> #[trigger] spec_vpn(r.0, l) == spec_vpn(self.0, l),
    {
        let r = VirtualAddr(canonicalize_at(self.0, 39));
        proof {
            assert forall|l: nat| l < 3 implies #[trigger] spec_vpn(r.0, l) == spec_vpn(self.0, l) by {
                lemma_low_bits_keep_vpn(r.0, self.0, 39, l);
            }
        }
        r
    }
}

/// Whether the bits of `va` from `va_bits - 1` up are all equal.
pub open spec fn spec_is_canonical(va: u64, va_bits: u64) -> bool {
    let top = va >> ((va_bits - 1) as u64);
    top == 0 || top == u64::MAX >> ((va_bits - 1) as u64)
}

/// `va` with bit `va_bits - 1` copied into every bit above it.
pub open spec fn spec_canonicalize(va: u64, va_bits: u64) -> u64 {
    let low = (u64::MAX >> ((64 - va_bits) as u64));
    if (va >> ((va_bits - 1) as u64)) & 1 == 1 {
        va | !low
    } else {
        va & low
    }
}

/// Whether `va` is canonical for a `va_bits`-bit address space.
pub fn is_canonical_at(va: u64, va_bits: u64) -> (r: bool)
    requires
        1 <= va_bits <= 64,
    ensures
        r == spec_is_canonical(va, va_bits),
{
    let top = va >> (va_bits - 1);
    top == 0 || top == u64::MAX >> (va_bits - 1)
}

/// The canonical form of `va` for a `va_bits`-bit address space.
pub fn canonicalize_at(va: u64, va_bits: u64) -> (r: u64)
    requires
        1 <= va_bits <= 64,
    ensures
        r == spec_canonicalize(va, va_bits),
        spec_is_canonical(r, va_bits),
        r & (u64::MAX >> ((64 - va_bits) as u64)) == va & (u64::MAX >> ((64 - va_bits) as u64)),
        spec_is_canonical(va, va_bits) ==> r == va,
{
    let low = u64::MAX >> (64 - va_bits);
    let r = if (va >> (va_bits - 1)) & 1 == 1 {
        va | !low
    } else {
        va & low
    };
    proof {
        let s = (va_bits - 1) as u64;
        assert(low == u64::MAX >> ((64 - va_bits) as u64));
        assert((va >> s) & 1 == 1 ==> (va | !(u64::MAX >> (63 - s) as u64)) >> s == u64::MAX
            >> s) by (bit_vector)
            requires
                s < 64,
        ;
        assert((va >> s) & 1 != 1 ==> (va & (u64::MAX >> (63 - s) as u64)) >> s == 0)
            by (bit_vector)
            requires
                s < 64,
        ;
        assert((va | !(u64::MAX >> (63 - s) as u64)) & (u64::MAX >> (63 - s) as u64) == va & (
        u64::MAX >> (63 - s) as u64) && (va & (u64::MAX >> (63 - s) as u64)) & (u64::MAX >> (63 - s) as u64)
            == va & (u64::MAX >> (63 - s) as u64)) by (bit_vector);
        assert((64 - va_bits) as u64 == (63 - s) as u64);
        assert(((va >> s) == 0 || (va >> s) == u64::MAX >> s) ==> (if (va >> s) & 1 == 1 {
            va | !(u64::MAX >> (63 - s) as u64)
        } else {
            va & (u64::MAX >> (63 - s) as u64)
        }) == va) by (bit_vector)
            requires
                s < 64,
        ;
    }
    r
}

/// A 56-bit physical address.
#[derive(PartialEq, Eq, Clone, Copy, Debug, Structural)]
pub struct PhysicalAddr(pub u64);

impl MemoryAddr for PhysicalAddr {
    open spec fn addr(self) -> u64 {
        self.0
    }

    fn from_usize(addr: u64) -> (r: Self) {
        PhysicalAddr(addr)
    }

    fn as_usize(self) -> (r: u64) {
        self.0
    }
}

impl PhysicalAddr {
    pub fn new(paddr: u64) -> (r: Self)
        ensures
            r.0 == paddr,
    {
        PhysicalAddr(paddr)
    }

    /// Build an address from a 44-bit physical page number and a 12-bit byte offset;
    /// bits of either beyond its field are ignored.
    pub fn from_parts(ppn: u64, offset: u64) -> (r: Self)
        ensures
            r.0 == spec_with_field(spec_with_field(0, 12, 44, ppn), 0, 12, offset),
            spec_ppn(r.0) == spec_field(ppn, 0, 44),
            spec_offset(r.0) == spec_field(offset, 0, 12),
            r.0 == (spec_field(ppn, 0, 44) << 12u64) | spec_field(offset, 0, 12),
    {
        let bits = with_field(0, PAGE_OFFSET_BITS, PPN_BITS, ppn);
        let r = with_field(bits, 0, PAGE_OFFSET_BITS, offset);
        proof {
            lemma_mask_values();
            assert(((((0u64 & !(0xfff_ffff_ffffu64 << 12u64)) | ((ppn << 12u64) & (
            0xfff_ffff_ffffu64 << 12u64))) & !(0xfffu64 << 0u64)) | ((offset << 0u64) & (0xfffu64
                << 0u64))) == (((ppn >> 0u64) & 0xfff_ffff_ffffu64) << 12u64) | ((offset >> 0u64)
                & 0xfffu64)) by (bit_vector);
            let w = r;
            let p = (ppn >> 0u64) & 0xfff_ffff_ffffu64;
            let o = (offset >> 0u64) & 0xfffu64;
            assert(((p << 12u64) | o) >> 12u64 & 0xfff_ffff_ffffu64 == p) by (bit_vector)
                requires
                    p == (ppn >> 0u64) & 0xfff_ffff_ffffu64,
                    o == (offset >> 0u64) & 0xfffu64,
            ;
            assert(((p << 12u64) | o) >> 0u64 & 0xfffu64 == o) by (bit_vector)
                requires
                    p == (ppn >> 0u64) & 0xfff_ffff_ffffu64,
                    o == (offset >> 0u64) & 0xfffu64,
            ;
        }
        PhysicalAddr(r)
    }

    /// The page-aligned physical address of the frame numbered `ppn`
    /// (bits shifted past the top of the word are lost).
    pub fn from_ppn(ppn: u64) -> (r: Self)
        ensures
            r.0 == ppn << 12u64,
    {
        PhysicalAddr(ppn << PAGE_OFFSET_BITS)
    }

    pub fn bits(self) -> (r: u64)
        ensures
            r == self.0,
    {
        self.0
    }

    /// The full 44-bit physical page number (`addr >> 12`, limited to 44 bits).
    pub fn ppn(self) -> (r: u64)
        ensures
            r == spec_ppn(self.0),
    {
        field(self.0, PAGE_OFFSET_BITS, PPN_BITS)
    }

    /// One Sv39 `PPN[level]` sub-field: 9 bits wide at levels 0 and 1, 26 at level 2.
    pub fn ppn_field(self, level: usize) -> (r: u64)
        requires
            level < 3,
        ensures
            r == spec_field(self.0, (12 + 9 * level) as u64, if level == 2 { 26 } else { 9 }),
    {
        let width = if level == 2 { 26 } else { 9 };
        field(self.0, PAGE_OFFSET_BITS + VPN_BITS * (level as u64), width)
    }

    /// The byte offset within the base page.
    pub fn offset(self) -> (r: u64)
        ensures
            r == spec_offset(self.0),
    {
        field(self.0, 0, PAGE_OFFSET_BITS)
    }
}

} // verus!
