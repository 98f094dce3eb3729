//! Small pieces of the kernel proper: the physical frame pool, size formatting,
//! alignment helpers, and the saved register file of a trap.

use vstd::prelude::*;

use crate::utils::is_pow2;

verus! {

/// Bytes in a kibibyte.
pub const KILOBYTE: u64 = 1024;

/// Bytes in a mebibyte.
pub const MEGABYTE: u64 = 1048576;

/// Bytes in a gibibyte.
pub const GIGABYTE: u64 = 1073741824;

/// Bytes in a tebibyte.
pub const TERABYTE: u64 = 1099511627776;

/// The character of decimal digit `d`.
pub open spec fn digit_char(d: nat) -> char {
    (48 + d) as char
}

/// The decimal digits of `n`, without leading zeros.
pub open spec fn decimal(n: nat) -> Seq<char>
    decreases n,
{
    if n < 10 {
        seq![digit_char(n)]
    } else {
        decimal(n / 10).push(digit_char(n % 10))
    }
}

/// How `format_size` writes `size` bytes: in the largest unit of which there are
/// at least two, rounded down.
pub open spec fn size_text(size: nat) -> Seq<char> {
    if size >= 2 * TERABYTE {
        decimal(size / TERABYTE as nat) + seq![' ', 'T', 'B']
    } else if size >= 2 * GIGABYTE {
        decimal(size / GIGABYTE as nat) + seq![' ', 'G', 'B']
    } else if size >= 2 * MEGABYTE {
        decimal(size / MEGABYTE as nat) + seq![' ', 'M', 'B']
    } else if size >= 2 * KILOBYTE {
        decimal(size / KILOBYTE as nat) + seq![' ', 'K', 'B']
    } else {
        decimal(size) + seq![' ', 'B']
    }
}

/// `String::push`: appends `c` to `s`.
///
/// The contract claims that the string afterwards holds what it held, then `c`.
#[verifier::external_body]
fn push_char(s: &mut String, c: char)
    ensures
        final(s)@ == old(s)@.push(c),
{
    s.push(c);
}

/// Appends the decimal digits of `n` to `s`.
fn push_decimal(s: &mut String, n: u64)
    ensures
        final(s)@ == old(s)@ + decimal(n as nat),
    decreases n,
{
    let ghost s0 = s@;
    if n >= 10 {
        push_decimal(s, n / 10);
    }
    let d = (n % 10) as u8;
    let c = (48u8 + d) as char;
    push_char(s, c);
    proof {
        assert(c == digit_char((n % 10) as nat));
        assert(s@ =~= s0 + decimal(n as nat));
    }
}

/// `n` in decimal, a space, then the unit of `unit_chars`.
fn format_count(n: u64, unit_chars: &[char]) -> (r: String)
    ensures
        r@ == decimal(n as nat) + seq![' '] + unit_chars@,
{
    let mut r = String::new();
    push_decimal(&mut r, n);
    push_char(&mut r, ' ');
    let ghost head = r@;
    let mut i: usize = 0;
    while i < unit_chars.len()
        invariant
            i <= unit_chars@.len(),
            head == decimal(n as nat) + seq![' '],
            r@ == head + unit_chars@.take(i as int),
        decreases unit_chars@.len() - i,
    {
        push_char(&mut r, unit_chars[i]);
        i = i + 1;
        assert(r@ =~= head + unit_chars@.take(i as int));
    }
    assert(unit_chars@.take(unit_chars@.len() as int) =~= unit_chars@);
    r
}

/// A byte count is shown in the largest unit of which there are at least two, the
/// count of whole units in decimal, then a space and the unit: terabytes from two
/// of them up, then gigabytes, megabytes, kilobytes, and bytes below two kilobytes.
pub proof fn lemma_size_text_units(size: nat)
    ensures
        size >= 2 * TERABYTE ==> size_text(size) == decimal(size / TERABYTE as nat) + seq![' ', 'T', 'B'],
        2 * GIGABYTE <= size < 2 * TERABYTE ==> size_text(size) == decimal(size / GIGABYTE as nat) + seq![' ', 'G', 'B'],
        2 * MEGABYTE <= size < 2 * GIGABYTE ==> size_text(size) == decimal(size / MEGABYTE as nat) + seq![' ', 'M', 'B'],
        2 * KILOBYTE <= size < 2 * MEGABYTE ==> size_text(size) == decimal(size / KILOBYTE as nat) + seq![' ', 'K', 'B'],
        size < 2 * KILOBYTE ==> size_text(size) == decimal(size) + seq![' ', 'B'],
{
}

/// Renders a byte count for people: `"3 GB"`, `"512 B"`.
pub fn format_size(size: usize) -> (r: String)
    ensures
        r@ == size_text(size as nat),
        size >= 2 * TERABYTE ==> r@ == decimal(size as nat / TERABYTE as nat) + seq![' ', 'T', 'B'],
        2 * GIGABYTE <= size < 2 * TERABYTE ==> r@ == decimal(size as nat / GIGABYTE as nat) + seq![' ', 'G', 'B'],
        2 * MEGABYTE <= size < 2 * GIGABYTE ==> r@ == decimal(size as nat / MEGABYTE as nat) + seq![' ', 'M', 'B'],
        2 * KILOBYTE <= size < 2 * MEGABYTE ==> r@ == decimal(size as nat / KILOBYTE as nat) + seq![' ', 'K', 'B'],
        size < 2 * KILOBYTE ==> r@ == decimal(size as nat) + seq![' ', 'B'],
{
    let s = size as u64;
    if s >= 2 * TERABYTE {
        format_count(s / TERABYTE, &['T', 'B'])
    } else if s >= 2 * GIGABYTE {
        format_count(s / GIGABYTE, &['G', 'B'])
    } else if s >= 2 * MEGABYTE {
        format_count(s / MEGABYTE, &['M', 'B'])
    } else if s >= 2 * KILOBYTE {
        format_count(s / KILOBYTE, &['K', 'B'])
    } else {
        format_count(s, &['B'])
    }
}

/// Aligns `addr` down to `align`, a power of two: the greatest multiple of `align`
/// at most `addr`. An `align` of zero leaves `addr` as it is.
pub fn align_down(addr: usize, align: usize) -> (r: usize)
    requires
        align == 0 || is_pow2(align as u64),
    ensures
        align == 0 ==> r == addr,
        align != 0 ==> r as u64 == (addr as u64) & !((align - 1) as u64),
        r <= addr,
        align != 0 ==> addr - r < align,
        align != 0 ==> (r as u64) & ((align - 1) as u64) == 0,
{
    if align != 0 && align & (align - 1) == 0 {
        let r = crate::utils::align_down(addr as u64, align as u64);
        r as usize
    } else {
        addr
    }
}

/// Aligns `addr` up to `align`, a power of two: the least multiple of `align` at
/// least `addr`. This is `align_down(addr + align - 1, align)`.
pub fn align_up(addr: usize, align: usize) -> (r: usize)
    requires
        align == 0 || is_pow2(align as u64),
        1 <= addr + align <= usize::MAX,
    ensures
        align == 0 ==> r == addr - 1,
        align != 0 ==> r as u64 == ((addr + align - 1) as u64) & !((align - 1) as u64),
        align != 0 ==> addr <= r,
        align != 0 ==> r - addr < align,
        align != 0 ==> (r as u64) & ((align - 1) as u64) == 0,
{
    align_down(addr + align - 1, align)
}

/// The pool of free physical frames, by frame number. Frames go out in the reverse
/// of the order they came in.
pub struct FrameAllocator {
    frames: Vec<u64>,
}

impl View for FrameAllocator {
    type V = Seq<u64>;

    /// The free frames, the next to go out last.
    closed spec fn view(&self) -> Seq<u64> {
        self.frames@
    }
}

impl FrameAllocator {
    /// An empty pool.
    pub fn new() -> (r: FrameAllocator)
        ensures
            r@ == Seq::<u64>::empty(),
    {
        FrameAllocator { frames: Vec::new() }
    }

    /// Takes the frame most recently given back, if any.
    pub fn allocate(&mut self) -> (r: Option<u64>)
        ensures
            old(self)@.len() == 0 ==> r is None && final(self)@ == old(self)@,
            old(self)@.len() > 0 ==> r == Some(old(self)@.last()) && final(self)@ == old(self)@.drop_last(),
    {
        self.frames.pop()
    }

    /// Gives frame `ppn` back to the pool.
    pub fn dealloc(&mut self, ppn: u64)
        ensures
            final(self)@ == old(self)@.push(ppn),
    {
        self.frames.push(ppn)
    }
}

/// A frame given back is the next to go out, and taking it leaves the pool as it
/// was before.
pub proof fn lemma_dealloc_then_allocate(pool: Seq<u64>, ppn: u64)
    ensures
        pool.push(ppn).len() > 0,
        pool.push(ppn).last() == ppn,
        pool.push(ppn).drop_last() == pool,
{
    assert(pool.push(ppn).drop_last() =~= pool);
}

/// The integer registers saved across a trap, in `x0`..`x31` order.
#[derive(Debug, Default, Clone, Copy)]
pub struct GeneralRegs {
    pub zero: usize,
    pub ra: usize,
    pub sp: usize,
    pub gp: usize,
    pub tp: usize,
    pub t0: usize,
    pub t1: usize,
    pub t2: usize,
    pub s0: usize,
    pub s1: usize,
    pub a0: usize,
    pub a1: usize,
    pub a2: usize,
    pub a3: usize,
    pub a4: usize,
    pub a5: usize,
    pub a6: usize,
    pub a7: usize,
    pub s2: usize,
    pub s3: usize,
    pub s4: usize,
    pub s5: usize,
    pub s6: usize,
    pub s7: usize,
    pub s8: usize,
    pub s9: usize,
    pub s10: usize,
    pub s11: usize,
    pub t3: usize,
    pub t4: usize,
    pub t5: usize,
    pub t6: usize,
}

} // verus!
