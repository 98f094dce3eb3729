//! Bit-field and alignment primitives shared across the paging structures.
//!
//! Every paging structure is a packed bit-field over a `u64`. These helpers are
//! the single place that knows how to read and write such fields.

use vstd::prelude::*;

verus! {

/// Width of a machine word in bits.
pub const USIZE_BITS: u64 = 64;

pub const KILOBYTE: u64 = 1024;
pub const MEGABYTE: u64 = 0x10_0000;
pub const GIGABYTE: u64 = 0x4000_0000;
pub const TERABYTE: u64 = 0x100_0000_0000;

/// The low `width` bits set.
pub open spec fn spec_mask(width: u64) -> u64 {
    if width >= 64 {
        u64::MAX
    } else {
        ((1u64 << width) - 1) as u64
    }
}

/// The `width`-bit field of `word` that begins at bit `shift`.
pub open spec fn spec_field(word: u64, shift: u64, width: u64) -> u64 {
    (word >> shift) & spec_mask(width)
}

/// `word` with the bits of its `width`-bit field at `shift` replaced by the low
/// `width` bits of `value`.
pub open spec fn spec_with_field(word: u64, shift: u64, width: u64, value: u64) -> u64 {
    (word & !(spec_mask(width) << shift)) | ((value << shift) & (spec_mask(width) << shift))
}

/// Whether `align` is a power of two.
pub open spec fn is_pow2(align: u64) -> bool {
    align != 0 && align & ((align - 1) as u64) == 0
}

/// The masks of the field widths the paging structures use.
pub proof fn lemma_mask_values()
    ensures
        spec_mask(4) == 0xf,
        spec_mask(8) == 0xff,
        spec_mask(9) == 0x1ff,
        spec_mask(12) == 0xfff,
        spec_mask(16) == 0xffff,
        spec_mask(26) == 0x3ff_ffff,
        spec_mask(27) == 0x7ff_ffff,
        spec_mask(44) == 0xfff_ffff_ffff,
        spec_mask(64) == u64::MAX,
{
    assert((((1u64 << 4u64) - 1) as u64 == 0xf) && (((1u64 << 8u64) - 1) as u64 == 0xff) && (((1u64 << 9u64) - 1) as u64 == 0x1ff) && (((1u64 << 12u64) - 1) as u64 == 0xfff) && (((1u64 << 16u64) - 1) as u64 == 0xffff) && (((1u64 << 26u64) - 1) as u64 == 0x3ff_ffff) && (((1u64 << 27u64) - 1) as u64 == 0x7ff_ffff) && (((1u64 << 44u64) - 1) as u64 == 0xfff_ffff_ffff)) by (bit_vector);
}

/// A bitmask with the low `width` bits set; `width == 64` yields all ones.
pub fn mask(width: u64) -> (r: u64)
    requires
        width <= USIZE_BITS,
    ensures
        r == spec_mask(width),
{
    if width == USIZE_BITS {
        u64::MAX
    } else {
        assert(1u64 << width >= 1) by (bit_vector)
            requires
                width < 64,
        ;
        (1u64 << width) - 1
    }
}

/// Extract the `width`-bit field of `word` that begins at bit `shift`.
pub fn field(word: u64, shift: u64, width: u64) -> (r: u64)
    requires
        width > 0,
        shift + width <= USIZE_BITS,
    ensures
        r == spec_field(word, shift, width),
{
    (word >> shift) & mask(width)
}

/// Return `word` with its `width`-bit field at `shift` replaced by the low `width`
/// bits of `value`. Bits of `value` outside the field are ignored.
pub fn with_field(word: u64, shift: u64, width: u64, value: u64) -> (r: u64)
    requires
        width > 0,
        shift + width <= USIZE_BITS,
    ensures
        r == spec_with_field(word, shift, width, value),
{
    let m = mask(width) << shift;
    (word & !m) | ((value << shift) & m)
}

/// Reading back a field that was just written gives the low `width` bits of the
/// value written.
pub proof fn lemma_field_of_with_field(word: u64, shift: u64, width: u64, value: u64)
    requires
        width > 0,
        shift + width <= 64,
    ensures
        spec_field(spec_with_field(word, shift, width, value), shift, width) == spec_field(
            value,
            0,
            width,
        ),
{
    let m = spec_mask(width);
    assert(m == spec_mask(width));
    if width >= 64 {
        assert(shift == 0);
        assert(((word & !(u64::MAX << 0u64)) | ((value << 0u64) & (u64::MAX << 0u64)))
            >> 0u64 & u64::MAX == (value >> 0u64) & u64::MAX) by (bit_vector);
    } else {
        assert((((word & !((((1u64 << width) - 1) as u64) << shift)) | ((value << shift) & ((
        ((1u64 << width) - 1) as u64) << shift))) >> shift) & (((1u64 << width) - 1) as u64)
            == (value >> 0u64) & (((1u64 << width) - 1) as u64)) by (bit_vector)
            requires
                width < 64,
                shift + width <= 64,
        ;
    }
}

/// Writing a field leaves every bit outside it as it was.
pub proof fn lemma_with_field_keeps_other_bits(
    word: u64,
    shift: u64,
    width: u64,
    value: u64,
    bit: u64,
)
    requires
        width > 0,
        shift + width <= 64,
        bit < 64,
        bit < shift || bit >= shift + width,
    ensures
        (spec_with_field(word, shift, width, value) >> bit) & 1 == (word >> bit) & 1,
{
    if width >= 64 {
        assert(false);
    } else {
        assert((((word & !((((1u64 << width) - 1) as u64) << shift)) | ((value << shift) & ((
        ((1u64 << width) - 1) as u64) << shift))) >> bit) & 1 == (word >> bit) & 1)
            by (bit_vector)
            requires
                width < 64,
                shift + width <= 64,
                bit < 64,
                bit < shift || bit >= shift + width,
        ;
    }
}

/// Round `addr` down to a multiple of the power of two `align`.
pub fn align_down(addr: u64, align: u64) -> (r: u64)
    requires
        is_pow2(align),
    ensures
        r == addr & !((align - 1) as u64),
        r <= addr,
        r & ((align - 1) as u64) == 0,
        r % align == 0,
        addr - r == addr & ((align - 1) as u64),
        addr - r < align,
{
    proof {
        lemma_align_facts(addr, align);
        lemma_mask_is_mod(addr & !((align - 1) as u64), align);
    }
    addr & !(align - 1)
}

/// Round `addr` up to a multiple of the power of two `align`.
pub fn align_up(addr: u64, align: u64) -> (r: u64)
    requires
        is_pow2(align),
        addr + align - 1 <= u64::MAX,
    ensures
        r == ((addr + align - 1) as u64) & !((align - 1) as u64),
        addr <= r,
        r & ((align - 1) as u64) == 0,
        r - addr < align,
{
    let up = addr + (align - 1);
    proof {
        lemma_align_facts(up, align);
    }
    up & !(align - 1)
}

/// Offset of `addr` past the preceding multiple of the power of two `align`.
pub fn align_offset(addr: u64, align: u64) -> (r: u64)
    requires
        is_pow2(align),
    ensures
        r == addr & ((align - 1) as u64),
        r < align,
        addr - r == addr & !((align - 1) as u64),
{
    proof {
        lemma_align_facts(addr, align);
    }
    addr & (align - 1)
}

/// A multiple of a power of two in bits is one in arithmetic: no bit below the power
/// set means no remainder.
pub proof fn lemma_mask_is_mod(x: u64, a: u64)
    requires
        is_pow2(a),
        x & ((a - 1) as u64) == 0,
    ensures
        x % a == 0,
    decreases a,
{
    if a > 1 {
        let h = a / 2;
        let y = x / 2;
        assert(h & ((h - 1) as u64) == 0 && h != 0 && y & ((h - 1) as u64) == 0 && x % 2 == 0 && a % 2 == 0)
            by (bit_vector)
            requires
                a & ((a - 1) as u64) == 0,
                a > 1,
                x & ((a - 1) as u64) == 0,
                h == a / 2,
                y == x / 2,
        ;
        lemma_mask_is_mod(y, h);
        vstd::arithmetic::div_mod::lemma_mod_breakdown(x as int, 2, h as int);
        assert(a as int == 2 * h);
    }
}

/// What masking with a power of two means arithmetically.
pub proof fn lemma_align_facts(addr: u64, align: u64)
    requires
        is_pow2(align),
    ensures
        addr & !((align - 1) as u64) <= addr,
        (addr & !((align - 1) as u64)) & ((align - 1) as u64) == 0,
        addr - (addr & !((align - 1) as u64)) == addr & ((align - 1) as u64),
        addr & ((align - 1) as u64) < align,
{
    let m = (align - 1) as u64;
    assert(addr & !m <= addr && (addr & !m) & m == 0 && addr - (addr & !m) == addr & m && addr & m <= m)
        by (bit_vector);
}

} // verus!
