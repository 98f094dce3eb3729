//! The kernel heap: a buddy-style allocator over free lists of power-of-two blocks.
//!
//! Each order `o` keeps the start addresses of its free blocks of `2^o` bytes, the
//! most recently inserted last. A freed block merges with a free neighbour of its
//! size into a block of the next order, as far as neighbours allow.

use vstd::prelude::*;
use vstd::arithmetic::power2::{lemma2_to64, lemma_pow2_strictly_increases, lemma_pow2_unfold, pow2};

use crate::kernel::{align_down, align_up};
use crate::utils::is_pow2;

verus! {

/// Order of the smallest block handed to the heap: a block must hold a list node.
pub const MIN_ALLOCATION_SIZE_ORDER: usize = 5;

/// Order of the largest block.
pub const MAX_ALLOCATION_SIZE_ORDER: usize = 31;

/// Number of free lists, one per order up to the largest.
pub const BUCKET_COUNT: usize = 32;

/// Bytes of a free-list head; the heap's bounds are rounded inward to it, and no
/// request is served with less.
pub const LIST_HEAD_SIZE: usize = 16;

/// Bytes the free blocks of the first `n` orders of `lists` hold.
pub open spec fn free_bytes_upto(lists: Seq<Seq<usize>>, n: int) -> int
    decreases n,
{
    if n <= 0 {
        0
    } else {
        free_bytes_upto(lists, n - 1) + lists[n - 1].len() * pow2((n - 1) as nat)
    }
}

/// Bytes the free blocks of `lists` hold.
pub open spec fn free_bytes(lists: Seq<Seq<usize>>) -> int {
    free_bytes_upto(lists, lists.len() as int)
}

/// Every free block ends within the address space.
pub open spec fn blocks_fit(lists: Seq<Seq<usize>>) -> bool {
    forall|o: int, i: int|
        0 <= o < lists.len() && 0 <= i < lists[o].len() ==> #[trigger] lists[o][i] + pow2(o as nat) <= usize::MAX
}

/// The order a request of `size` bytes aligned to `align` is served at: the least
/// from `t` on whose blocks are large enough for both.
pub open spec fn order_from(t: nat, size: usize, align: usize) -> nat
    decreases 64 - t,
{
    if t >= 64 || (pow2(t) >= size && pow2(t) >= align) {
        t
    } else {
        order_from(t + 1, size, align)
    }
}

/// The order a request of `size` bytes aligned to `align` is served at: the least
/// order of at least [`LIST_HEAD_SIZE`] bytes large enough for both.
pub open spec fn target_order(size: usize, align: usize) -> nat {
    order_from(4, size, align)
}

/// The least order from `t` up to the largest whose list is not empty.
pub open spec fn first_free(lists: Seq<Seq<usize>>, t: nat) -> Option<nat>
    decreases 32 - t,
{
    if t >= 32 {
        None
    } else if lists[t as int].len() > 0 {
        Some(t)
    } else {
        first_free(lists, t + 1)
    }
}

/// The free lists after a block of order `t` was cut from the last block of order
/// `f`: that block leaves its list, and its lower part goes back as one block of
/// each order from `t` up to `f`, each at the offset its size less `2^t`.
pub open spec fn after_split(lists: Seq<Seq<usize>>, t: nat, f: nat) -> Seq<Seq<usize>> {
    let block = lists[f as int].last();
    Seq::new(
        lists.len(),
        |o: int|
            if o == f {
                lists[o].drop_last()
            } else if t <= o < f {
                lists[o].push((block + pow2(o as nat) - pow2(t)) as usize)
            } else {
                lists[o]
            },
    )
}

/// The first address of the heap an area from `start` gives: `start` rounded up to
/// a list head.
pub open spec fn heap_start(start: usize) -> int {
    (((start + 15) as u64) & !15u64) as int
}

/// The end of the heap an area up to `end` gives: `end` rounded down to a list head.
pub open spec fn heap_end(end: usize) -> int {
    ((end as u64) & !15u64) as int
}

/// Address `a` lies in the block of order `o` that starts at `start`.
pub open spec fn in_block(start: usize, o: int, a: int) -> bool {
    start <= a < start + pow2(o as nat)
}

/// Address `a` lies in one of the free blocks of `lists`.
pub open spec fn is_free(lists: Seq<Seq<usize>>, a: int) -> bool {
    exists|o: int, i: int| 0 <= o < lists.len() && 0 <= i < lists[o].len() && #[trigger] in_block(lists[o][i], o, a)
}

/// Some address of the `2^32` from `a` on is neither free in `lists` nor in `[lo, hi)`.
pub open spec fn gap_at(lists: Seq<Seq<usize>>, lo: int, hi: int, a: int) -> bool {
    exists|x: int| a <= x < a + pow2(32) && !#[trigger] is_free(lists, x) && !(lo <= x < hi)
}

/// No `2^32` consecutive addresses are all free in `lists` or in `[lo, hi)`: the
/// free blocks, together with those addresses, can never merge past the largest order.
pub open spec fn no_long_run(lists: Seq<Seq<usize>>, lo: int, hi: int) -> bool {
    forall|a: int| #[trigger] gap_at(lists, lo, hi, a)
}

/// With no free block, only an area of `2^32` bytes or more holds a long run.
proof fn lemma_no_long_run_empty(lists: Seq<Seq<usize>>, lo: int, hi: int)
    requires
        forall|x: int| !#[trigger] is_free(lists, x),
        hi - lo < pow2(32),
    ensures
        no_long_run(lists, lo, hi),
{
    assert forall|a: int| #[trigger] gap_at(lists, lo, hi, a) by {
        let x = if a < lo || a >= hi { a } else { hi };
        assert(!is_free(lists, x));
        vstd::arithmetic::power2::lemma_pow2_pos(32);
    }
}

/// Blocks at `a` and `b` of order `o` sit side by side.
pub open spec fn side_by_side(a: usize, b: usize, o: int) -> bool {
    a + pow2(o as nat) == b || b + pow2(o as nat) == a
}

/// Every two free blocks of one order that sit side by side in `after` were both on
/// that order's list in `before` already: a block put back is merged with every free
/// neighbour of its size, as far as merging goes, and never left beside one.
pub open spec fn no_new_neighbours(before: Seq<Seq<usize>>, after: Seq<Seq<usize>>) -> bool {
    forall|o: int, i: int, j: int|
        0 <= o < after.len() && 0 <= i < after[o].len() && 0 <= j < after[o].len() && side_by_side(
            #[trigger] after[o][i],
            #[trigger] after[o][j],
            o,
        ) ==> before[o].contains(after[o][i]) && before[o].contains(after[o][j])
}

/// Putting a block on a list frees its addresses and no others.
proof fn lemma_free_push(lists: Seq<Seq<usize>>, o: int, p: usize, a: int)
    requires
        0 <= o < lists.len(),
    ensures
        is_free(lists.update(o, lists[o].push(p)), a) == (is_free(lists, a) || in_block(p, o, a)),
{
    let l2 = lists.update(o, lists[o].push(p));
    if is_free(lists, a) {
        let (o1, i1) = choose|o1: int, i1: int|
            0 <= o1 < lists.len() && 0 <= i1 < lists[o1].len() && #[trigger] in_block(lists[o1][i1], o1, a);
        assert(l2[o1][i1] == lists[o1][i1]);
        assert(in_block(l2[o1][i1], o1, a));
    }
    if in_block(p, o, a) {
        assert(l2[o][lists[o].len() as int] == p);
        assert(in_block(l2[o][lists[o].len() as int], o, a));
    }
    if is_free(l2, a) {
        let (o1, i1) = choose|o1: int, i1: int|
            0 <= o1 < l2.len() && 0 <= i1 < l2[o1].len() && #[trigger] in_block(l2[o1][i1], o1, a);
        if !(o1 == o && i1 == lists[o].len()) {
            assert(l2[o1][i1] == lists[o1][i1]);
            assert(in_block(lists[o1][i1], o1, a));
        }
    }
}

/// Taking block `i` of order `o` off its list leaves free what other blocks cover.
proof fn lemma_free_remove(lists: Seq<Seq<usize>>, o: int, i: int, a: int)
    requires
        0 <= o < lists.len(),
        0 <= i < lists[o].len(),
    ensures
        is_free(lists, a) == (is_free(lists.update(o, lists[o].remove(i)), a) || in_block(lists[o][i], o, a)),
{
    let l2 = lists.update(o, lists[o].remove(i));
    if is_free(lists, a) && !in_block(lists[o][i], o, a) {
        let (o1, i1) = choose|o1: int, i1: int|
            0 <= o1 < lists.len() && 0 <= i1 < lists[o1].len() && #[trigger] in_block(lists[o1][i1], o1, a);
        if o1 != o || i1 < i {
            assert(l2[o1][i1] == lists[o1][i1]);
            assert(in_block(l2[o1][i1], o1, a));
        } else {
            assert(i1 > i);
            assert(l2[o1][i1 - 1] == lists[o1][i1]);
            assert(in_block(l2[o1][i1 - 1], o1, a));
        }
    }
    if in_block(lists[o][i], o, a) {
        assert(in_block(lists[o][i], o, a));
    }
    if is_free(l2, a) {
        let (o1, i1) = choose|o1: int, i1: int|
            0 <= o1 < l2.len() && 0 <= i1 < l2[o1].len() && #[trigger] in_block(l2[o1][i1], o1, a);
        if o1 != o || i1 < i {
            assert(l2[o1][i1] == lists[o1][i1]);
            assert(in_block(lists[o1][i1], o1, a));
        } else {
            assert(l2[o1][i1] == lists[o1][i1 + 1]);
            assert(in_block(lists[o1][i1 + 1], o1, a));
        }
    }
}

/// The blocks at `a` of order `oa` and at `b` of order `ob` share an address.
pub open spec fn overlaps(a: usize, oa: int, b: usize, ob: int) -> bool {
    a < b + pow2(ob as nat) && b < a + pow2(oa as nat)
}

/// No two free blocks share an address.
pub open spec fn disjoint_blocks(lists: Seq<Seq<usize>>) -> bool {
    forall|o1: int, i1: int, o2: int, i2: int|
        #![trigger lists[o1][i1], lists[o2][i2]]
        0 <= o1 < lists.len() && 0 <= i1 < lists[o1].len() && 0 <= o2 < lists.len() && 0 <= i2 < lists[o2].len()
            && !(o1 == o2 && i1 == i2) ==> !overlaps(lists[o1][i1], o1, lists[o2][i2], o2)
}

/// Two overlapping blocks share their higher start.
proof fn lemma_overlap_witness(a: usize, oa: int, b: usize, ob: int)
    requires
        overlaps(a, oa, b, ob),
    ensures
        in_block(a, oa, if a < b { b as int } else { a as int }),
        in_block(b, ob, if a < b { b as int } else { a as int }),
{
    vstd::arithmetic::power2::lemma_pow2_pos(oa as nat);
    vstd::arithmetic::power2::lemma_pow2_pos(ob as nat);
}

/// Putting on a list a block none of whose addresses is free keeps the free blocks
/// apart.
proof fn lemma_disjoint_push(lists: Seq<Seq<usize>>, o: int, p: usize)
    requires
        0 <= o < lists.len(),
        disjoint_blocks(lists),
        forall|x: int| in_block(p, o, x) ==> !#[trigger] is_free(lists, x),
    ensures
        disjoint_blocks(lists.update(o, lists[o].push(p))),
{
    let l2 = lists.update(o, lists[o].push(p));
    let n = lists[o].len() as int;
    assert forall|o1: int, i1: int, o2: int, i2: int|
        0 <= o1 < l2.len() && 0 <= i1 < l2[o1].len() && 0 <= o2 < l2.len() && 0 <= i2 < l2[o2].len() && !(o1
            == o2 && i1 == i2) implies !overlaps(#[trigger] l2[o1][i1], o1, #[trigger] l2[o2][i2], o2) by {
        let new1 = o1 == o && i1 == n;
        let new2 = o2 == o && i2 == n;
        if !new1 && !new2 {
            assert(l2[o1][i1] == lists[o1][i1] && l2[o2][i2] == lists[o2][i2]);
            assert(!overlaps(lists[o1][i1], o1, lists[o2][i2], o2));
        } else if new1 {
            assert(l2[o2][i2] == lists[o2][i2]);
            if overlaps(p, o, lists[o2][i2], o2) {
                lemma_overlap_witness(p, o, lists[o2][i2], o2);
                let x = if p < lists[o2][i2] { lists[o2][i2] as int } else { p as int };
                assert(in_block(lists[o2][i2], o2, x));
                assert(is_free(lists, x));
            }
        } else {
            assert(l2[o1][i1] == lists[o1][i1]);
            if overlaps(lists[o1][i1], o1, p, o) {
                lemma_overlap_witness(lists[o1][i1], o1, p, o);
                let x = if lists[o1][i1] < p { p as int } else { lists[o1][i1] as int };
                assert(in_block(lists[o1][i1], o1, x));
                assert(is_free(lists, x));
            }
        }
    }
}

/// Taking a block off its list keeps the free blocks apart, and none of its
/// addresses stays free.
proof fn lemma_disjoint_remove(lists: Seq<Seq<usize>>, o: int, i: int)
    requires
        0 <= o < lists.len(),
        0 <= i < lists[o].len(),
        disjoint_blocks(lists),
    ensures
        disjoint_blocks(lists.update(o, lists[o].remove(i))),
        forall|x: int|
            in_block(lists[o][i], o, x) ==> !#[trigger] is_free(lists.update(o, lists[o].remove(i)), x),
{
    let l2 = lists.update(o, lists[o].remove(i));
    assert forall|o1: int, i1: int, o2: int, i2: int|
        0 <= o1 < l2.len() && 0 <= i1 < l2[o1].len() && 0 <= o2 < l2.len() && 0 <= i2 < l2[o2].len() && !(o1
            == o2 && i1 == i2) implies !overlaps(#[trigger] l2[o1][i1], o1, #[trigger] l2[o2][i2], o2) by {
        let j1 = if o1 == o && i1 >= i { i1 + 1 } else { i1 };
        let j2 = if o2 == o && i2 >= i { i2 + 1 } else { i2 };
        assert(l2[o1][i1] == lists[o1][j1]);
        assert(l2[o2][i2] == lists[o2][j2]);
        assert(!overlaps(lists[o1][j1], o1, lists[o2][j2], o2));
    }
    assert forall|x: int| in_block(lists[o][i], o, x) implies !#[trigger] is_free(l2, x) by {
        if is_free(l2, x) {
            let (o1, i1) = choose|o1: int, i1: int|
                0 <= o1 < l2.len() && 0 <= i1 < l2[o1].len() && #[trigger] in_block(l2[o1][i1], o1, x);
            let j1 = if o1 == o && i1 >= i { i1 + 1 } else { i1 };
            assert(l2[o1][i1] == lists[o1][j1]);
            assert(!overlaps(lists[o1][j1], o1, lists[o][i], o));
        }
    }
}

/// Changing one list by `delta` blocks changes the free bytes by `delta` blocks of
/// its order.
proof fn lemma_free_bytes_update(lists: Seq<Seq<usize>>, o: int, l: Seq<usize>, delta: int, n: int)
    requires
        0 <= o < lists.len(),
        0 <= n <= lists.len(),
        l.len() == lists[o].len() + delta,
    ensures
        free_bytes_upto(lists.update(o, l), n) == free_bytes_upto(lists, n) + if o < n {
            delta * pow2(o as nat)
        } else {
            0
        },
    decreases n,
{
    if n > 0 {
        lemma_free_bytes_update(lists, o, l, delta, n - 1);
        if o == n - 1 {
            let p = pow2(o as nat) as int;
            let a = lists[o].len() as int;
            let b = l.len() as int;
            assert(b * p == a * p + delta * p) by (nonlinear_arith)
                requires
                    b == a + delta,
            ;
        }
    }
}

/// The free bytes are at least those of any one list.
proof fn lemma_free_bytes_ge(lists: Seq<Seq<usize>>, o: int, n: int)
    requires
        0 <= o < n <= lists.len(),
    ensures
        free_bytes_upto(lists, n) >= lists[o].len() * pow2(o as nat),
    decreases n,
{
    lemma_free_bytes_nonneg(lists, n - 1);
    if o < n - 1 {
        lemma_free_bytes_ge(lists, o, n - 1);
        assert(lists[n - 1].len() * pow2((n - 1) as nat) >= 0) by (nonlinear_arith);
    }
}

/// Free bytes are never negative.
proof fn lemma_free_bytes_nonneg(lists: Seq<Seq<usize>>, n: int)
    ensures
        free_bytes_upto(lists, n) >= 0,
    decreases n,
{
    if n > 0 {
        lemma_free_bytes_nonneg(lists, n - 1);
        assert(lists[n - 1].len() * pow2((n - 1) as nat) >= 0) by (nonlinear_arith);
    }
}

/// A list head's size is a power of two, as alignment asks.
proof fn lemma_list_head_is_pow2()
    ensures
        is_pow2(LIST_HEAD_SIZE as u64),
{
    assert(16u64 & ((16u64 - 1) as u64) == 0) by (bit_vector);
}

/// `2^o` for the orders the heap uses.
fn block_size(order: usize) -> (r: usize)
    requires
        order < 32,
    ensures
        r == pow2(order as nat),
        r <= 0x8000_0000,
{
    proof {
        lemma2_to64();
    }
    let mut r: usize = 1;
    let mut i: usize = 0;
    while i < order
        invariant
            i <= order < 32,
            r == pow2(i as nat),
            r <= 0x8000_0000,
            pow2(31) == 0x8000_0000,
        decreases order - i,
    {
        proof {
            lemma_pow2_unfold((i + 1) as nat);
            if i + 1 < 31 {
                lemma_pow2_strictly_increases((i + 1) as nat, 31);
            }
        }
        r = r * 2;
        i = i + 1;
    }
    r
}

/// The heap: how many bytes it was given, how many are handed out, and the free
/// blocks of each order.
pub struct Allocator {
    total: usize,
    allocated: usize,
    free: Vec<Vec<usize>>,
}

impl Allocator {
    /// The free lists, order by order, the most recently inserted block last.
    pub closed spec fn lists(&self) -> Seq<Seq<usize>> {
        Seq::new(self.free@.len(), |o: int| self.free@[o]@)
    }

    /// Bytes the heap was given.
    pub closed spec fn spec_total(&self) -> int {
        self.total as int
    }

    /// Bytes handed out and not given back.
    pub closed spec fn spec_allocated(&self) -> int {
        self.allocated as int
    }

    /// The heap is consistent: one list per order, every byte it was given either
    /// free or handed out, no `2^32` consecutive addresses all free, every free block
    /// inside the address space, and no two free blocks sharing an address.
    pub open spec fn wf(&self) -> bool {
        &&& self.lists().len() == BUCKET_COUNT
        &&& free_bytes(self.lists()) + self.spec_allocated() == self.spec_total()
        &&& no_long_run(self.lists(), 0, 0)
        &&& blocks_fit(self.lists())
        &&& disjoint_blocks(self.lists())
    }

    /// An empty heap, then given the area from `start` to `end`.
    pub fn new(start: usize, end: usize) -> (r: Self)
        requires
            start + 16 <= usize::MAX,
            heap_start(start) <= heap_end(end),
            heap_end(end) - heap_start(start) < pow2(32),
        ensures
            r.wf(),
            r.spec_allocated() == 0,
            r.spec_total() == (heap_end(end) - heap_start(start)) - (heap_end(end) - heap_start(start)) % 32,
    {
        let mut free: Vec<Vec<usize>> = Vec::new();
        let mut k: usize = 0;
        while k < BUCKET_COUNT
            invariant
                k <= BUCKET_COUNT,
                free@.len() == k,
                forall|o: int| 0 <= o < k ==> (#[trigger] free@[o])@.len() == 0,
            decreases BUCKET_COUNT - k,
        {
            free.push(Vec::new());
            k = k + 1;
        }
        let mut heap = Allocator { total: 0, allocated: 0, free };
        proof {
            lemma2_to64();
            let ls = heap.lists();
            assert forall|n: int| 0 <= n <= 32 implies free_bytes_upto(ls, n) == 0 by {
                lemma_free_bytes_zero(ls, n);
            }
            assert forall|x: int| !#[trigger] is_free(ls, x) by {}
            lemma_no_long_run_empty(ls, 0, 0);
            lemma_no_long_run_empty(ls, heap_start(start), heap_end(end));
        }
        heap.add_to_heap(start, end);
        heap
    }

    /// Bytes the heap was given.
    pub fn total(&self) -> (r: usize)
        ensures
            r == self.spec_total(),
    {
        self.total
    }

    /// Bytes handed out and not given back.
    pub fn allocated(&self) -> (r: usize)
        ensures
            r == self.spec_allocated(),
    {
        self.allocated
    }

    /// The start addresses of the free blocks of `order`, the most recently inserted
    /// last.
    pub fn free_blocks(&self, order: usize) -> (r: Vec<usize>)
        requires
            self.wf(),
            order < BUCKET_COUNT,
        ensures
            r@ == self.lists()[order as int],
    {
        let list = &self.free[order];
        let mut out: Vec<usize> = Vec::new();
        let mut i: usize = 0;
        while i < list.len()
            invariant
                i <= list@.len(),
                list@ == self.lists()[order as int],
                out@ == list@.take(i as int),
            decreases list@.len() - i,
        {
            out.push(list[i]);
            i = i + 1;
            assert(out@ =~= list@.take(i as int));
        }
        assert(list@.take(list@.len() as int) =~= list@);
        out
    }
}

/// The index of the block in `list`, searched from the most recent, that lies right
/// before or right after the block of `size` bytes at `ptr`.
fn find_neighbor(list: &Vec<usize>, ptr: usize, size: usize) -> (r: Option<usize>)
    requires
        ptr + size <= usize::MAX,
        forall|i: int| 0 <= i < list@.len() ==> #[trigger] list@[i] + size <= usize::MAX,
    ensures
        match r {
            Some(i) => {
                &&& i < list@.len()
                &&& (list@[i as int] == ptr + size || ptr == list@[i as int] + size)
                &&& forall|j: int| i < j < list@.len() ==> !(#[trigger] list@[j] == ptr + size || ptr == list@[j] + size)
            },
            None => forall|j: int| 0 <= j < list@.len() ==> !(#[trigger] list@[j] == ptr + size || ptr == list@[j] + size),
        },
{
    let mut i = list.len();
    while i > 0
        invariant
            i <= list@.len(),
            ptr + size <= usize::MAX,
            forall|j: int| 0 <= j < list@.len() ==> #[trigger] list@[j] + size <= usize::MAX,
            forall|j: int| i <= j < list@.len() ==> !(#[trigger] list@[j] == ptr + size || ptr == list@[j] + size),
        decreases i,
    {
        i = i - 1;
        let node = list[i];
        if node == ptr + size || ptr == node + size {
            return Some(i);
        }
    }
    None
}

impl Allocator {
    /// Put the block of order `order` at `ptr` on the free lists, merging it with a
    /// free neighbour of its size, and the result with its own, as far as they go.
    fn insert_block(&mut self, ptr: usize, order: usize)
        requires
            old(self).lists().len() == BUCKET_COUNT,
            order < BUCKET_COUNT,
            ptr + pow2(order as nat) <= usize::MAX,
            no_long_run(old(self).lists(), ptr as int, ptr + pow2(order as nat)),
            blocks_fit(old(self).lists()),
            disjoint_blocks(old(self).lists()),
            forall|x: int| in_block(ptr, order as int, x) ==> !#[trigger] is_free(old(self).lists(), x),
        ensures
            final(self).lists().len() == BUCKET_COUNT,
            free_bytes(final(self).lists()) == free_bytes(old(self).lists()) + pow2(order as nat),
            blocks_fit(final(self).lists()),
            disjoint_blocks(final(self).lists()),
            no_long_run(final(self).lists(), 0, 0),
            no_new_neighbours(old(self).lists(), final(self).lists()),
            final(self).total == old(self).total,
            final(self).allocated == old(self).allocated,
            forall|a: int| #[trigger]
                is_free(final(self).lists(), a) == (is_free(old(self).lists(), a) || in_block(ptr, order as int, a)),
        decreases BUCKET_COUNT - order,
    {
        let ghost ls = self.lists();
        let size = block_size(order);
        proof {
            assert forall|i: int| 0 <= i < ls[order as int].len() implies #[trigger] ls[order as int][i] + size <= usize::MAX by {
                assert(ls[order as int][i] + pow2(order as nat) <= usize::MAX);
            }
            assert(self.free@[order as int]@ == ls[order as int]);
        }
        match find_neighbor(&self.free[order], ptr, size) {
            None => {
                let mut l = self.free.remove(order);
                l.push(ptr);
                self.free.insert(order, l);
                proof {
                    assert(self.lists() =~= ls.update(order as int, ls[order as int].push(ptr)));
                    lemma_free_bytes_update(ls, order as int, ls[order as int].push(ptr), 1, BUCKET_COUNT as int);
                    let ls2 = self.lists();
                    assert forall|o: int, i: int| 0 <= o < ls2.len() && 0 <= i < ls2[o].len() implies #[trigger] ls2[o][i]
                        + pow2(o as nat) <= usize::MAX by {
                        if o != order || i < ls[order as int].len() {
                            assert(ls2[o][i] == ls[o][i]);
                        }
                    }
                    assert forall|a: int| #[trigger] is_free(ls2, a) == (is_free(ls, a) || in_block(ptr, order as int, a)) by {
                        lemma_free_push(ls, order as int, ptr, a);
                    }
                    lemma_disjoint_push(ls, order as int, ptr);
                    vstd::arithmetic::power2::lemma_pow2_pos(order as nat);
                    assert forall|o: int, i: int, j: int|
                        0 <= o < ls2.len() && 0 <= i < ls2[o].len() && 0 <= j < ls2[o].len() && side_by_side(
                            #[trigger] ls2[o][i],
                            #[trigger] ls2[o][j],
                            o,
                        ) implies ls[o].contains(ls2[o][i]) && ls[o].contains(ls2[o][j]) by {
                        let n = ls[order as int].len() as int;
                        if o != order {
                            assert(ls2[o] == ls[o]);
                            assert(ls[o][i] == ls2[o][i] && ls[o][j] == ls2[o][j]);
                        } else {
                            if i < n {
                                assert(ls[o][i] == ls2[o][i]);
                            }
                            if j < n {
                                assert(ls[o][j] == ls2[o][j]);
                            }
                            if i == n && j < n {
                                assert(ls2[o][j] == self.free@[order as int]@[j]);
                                assert(!(ls[o][j] == ptr + size || ptr == ls[o][j] + size));
                            }
                            if j == n && i < n {
                                assert(!(ls[o][i] == ptr + size || ptr == ls[o][i] + size));
                            }
                        }
                    }
                    assert forall|a: int| #[trigger] gap_at(ls2, 0, 0, a) by {
                        assert(gap_at(ls, ptr as int, ptr + pow2(order as nat), a));
                        let x = choose|x: int| a <= x < a + pow2(32) && !#[trigger] is_free(ls, x)
                            && !(ptr <= x < ptr + pow2(order as nat));
                        assert(!is_free(ls2, x));
                    }
                }
            },
            Some(i) => {
                let mut l = self.free.remove(order);
                let node = l.remove(i);
                self.free.insert(order, l);
                let ghost ls1 = self.lists();
                proof {
                    assert(node == ls[order as int][i as int]);
                    assert(ls1 =~= ls.update(order as int, ls[order as int].remove(i as int)));
                    lemma_free_bytes_update(ls, order as int, ls[order as int].remove(i as int), -1, BUCKET_COUNT as int);
                    lemma_free_bytes_ge(ls, order as int, BUCKET_COUNT as int);
                    lemma2_to64();
                    if order == 31 {
                        let m: int = if ptr < node { ptr as int } else { node as int };
                        lemma_pow2_unfold(32);
                        assert(gap_at(ls, ptr as int, ptr + pow2(31), m));
                        let x = choose|x: int| m <= x < m + pow2(32) && !#[trigger] is_free(ls, x)
                            && !(ptr <= x < ptr + pow2(31));
                        assert(in_block(ls[31][i as int], 31, x));
                        assert(false);
                    }
                    lemma_pow2_unfold((order + 1) as nat);
                    lemma_disjoint_remove(ls, order as int, i as int);
                    assert forall|x: int| in_block(ptr, order as int, x) implies !#[trigger] is_free(ls1, x) by {
                        lemma_free_remove(ls, order as int, i as int, x);
                    }
                    let mg: int = if ptr < node { ptr as int } else { node as int };
                    assert forall|a: int| #[trigger] gap_at(ls1, mg, mg + pow2((order + 1) as nat), a) by {
                        assert(gap_at(ls, ptr as int, ptr + pow2(order as nat), a));
                        let x = choose|x: int| a <= x < a + pow2(32) && !#[trigger] is_free(ls, x)
                            && !(ptr <= x < ptr + pow2(order as nat));
                        lemma_free_remove(ls, order as int, i as int, x);
                        assert(!is_free(ls1, x));
                        if mg <= x < mg + pow2((order + 1) as nat) {
                            assert(in_block(node, order as int, x));
                            assert(in_block(ls[order as int][i as int], order as int, x));
                        }
                    }
                    assert forall|o: int, j: int| 0 <= o < ls1.len() && 0 <= j < ls1[o].len() implies #[trigger] ls1[o][j]
                        + pow2(o as nat) <= usize::MAX by {
                        if o != order {
                            assert(ls1[o][j] == ls[o][j]);
                        } else if j < i {
                            assert(ls1[o][j] == ls[o][j]);
                        } else {
                            assert(ls1[o][j] == ls[o][j + 1]);
                        }
                    }
                }
                let merged = if ptr < node {
                    ptr
                } else {
                    node
                };
                self.insert_block(merged, order + 1);
                proof {
                    let fin = self.lists();
                    assert forall|o: int, i2: int, j: int|
                        0 <= o < fin.len() && 0 <= i2 < fin[o].len() && 0 <= j < fin[o].len() && side_by_side(
                            #[trigger] fin[o][i2],
                            #[trigger] fin[o][j],
                            o,
                        ) implies ls[o].contains(fin[o][i2]) && ls[o].contains(fin[o][j]) by {
                        assert(ls1[o].contains(fin[o][i2]) && ls1[o].contains(fin[o][j]));
                        let x = fin[o][i2];
                        let y = fin[o][j];
                        let kx = choose|k: int| 0 <= k < ls1[o].len() && ls1[o][k] == x;
                        let ky = choose|k: int| 0 <= k < ls1[o].len() && ls1[o][k] == y;
                        if o != order {
                            assert(ls[o][kx] == x && ls[o][ky] == y);
                        } else {
                            if kx < i {
                                assert(ls[o][kx] == x);
                            } else {
                                assert(ls[o][kx + 1] == x);
                            }
                            if ky < i {
                                assert(ls[o][ky] == y);
                            } else {
                                assert(ls[o][ky + 1] == y);
                            }
                        }
                    }
                    assert forall|a: int| #[trigger]
                        is_free(self.lists(), a) == (is_free(ls, a) || in_block(ptr, order as int, a)) by {
                        lemma_free_remove(ls, order as int, i as int, a);
                        assert(is_free(self.lists(), a) == (is_free(ls1, a) || in_block(merged, order + 1, a)));
                        assert(in_block(merged, order + 1, a) == (in_block(ptr, order as int, a) || in_block(node, order as int, a)));
                    }
                }
            },
        }
    }

    /// Give the area from `start` to `end` to the heap: its bounds are rounded inward
    /// to list heads, and it is cut into the largest blocks that fit, from the start.
    /// A tail of less than the smallest block stays out.
    pub fn add_to_heap(&mut self, start: usize, end: usize)
        requires
            old(self).wf(),
            start + 16 <= usize::MAX,
            heap_start(start) <= heap_end(end),
            old(self).spec_total() + (heap_end(end) - heap_start(start)) <= usize::MAX,
            no_long_run(old(self).lists(), heap_start(start), heap_end(end)),
            forall|x: int| heap_start(start) <= x < heap_end(end) ==> !#[trigger] is_free(old(self).lists(), x),
        ensures
            final(self).wf(),
            final(self).spec_allocated() == old(self).spec_allocated(),
            final(self).spec_total() == old(self).spec_total() + (heap_end(end) - heap_start(start)) - (
            heap_end(end) - heap_start(start)) % 32,
            forall|a: int| #[trigger]
                is_free(final(self).lists(), a) == (is_free(old(self).lists(), a) || heap_start(start) <= a
                    < heap_end(end) - (heap_end(end) - heap_start(start)) % 32),
    {
        let ghost lists0 = self.lists();
        proof {
            lemma_list_head_is_pow2();
        }
        let start = align_up(start, LIST_HEAD_SIZE);
        let end = align_down(end, LIST_HEAD_SIZE);
        let ghost span = end - start;
        let ghost total0 = self.total;
        let ghost allocated0 = self.allocated;
        let mut remaining: usize = end - start;
        let mut curr_start = start;
        let mut order: usize = MAX_ALLOCATION_SIZE_ORDER + 1;
        proof {
            lemma2_to64();
        }
        while order > MIN_ALLOCATION_SIZE_ORDER
            invariant
                MIN_ALLOCATION_SIZE_ORDER <= order <= 32,
                self.wf(),
                start <= curr_start,
                curr_start + remaining == end,
                self.total == total0 + (curr_start - start),
                self.allocated == allocated0,
                total0 + span <= usize::MAX,
                span == end - start,
                no_long_run(lists0, start as int, end as int),
                (curr_start - start) % 32 == 0,
                order < 32 ==> remaining < pow2(order as nat),
                forall|a: int| #[trigger] is_free(self.lists(), a) == (is_free(lists0, a) || start <= a < curr_start),
                forall|x: int| start <= x < end ==> !#[trigger] is_free(lists0, x),
                pow2(5) == 32,
                pow2(32) == 0x1_0000_0000,
            decreases order,
        {
            order = order - 1;
            let size = block_size(order);
            proof {
                vstd::arithmetic::power2::lemma_pow2_adds(5, (order - 5) as nat);
                assert(size == 32 * pow2((order - 5) as nat));
                vstd::arithmetic::div_mod::lemma_mod_multiples_basic(pow2((order - 5) as nat) as int, 32);
                vstd::arithmetic::power2::lemma_pow2_pos(order as nat);
            }
            while remaining >= size
                invariant
                    order < 32,
                    size == pow2(order as nat),
                    size > 0,
                    size % 32 == 0,
                    self.wf(),
                    start <= curr_start,
                    curr_start + remaining == end,
                    self.total == total0 + (curr_start - start),
                    self.allocated == allocated0,
                    total0 + span <= usize::MAX,
                    span == end - start,
                    no_long_run(lists0, start as int, end as int),
                    (curr_start - start) % 32 == 0,
                    forall|a: int| #[trigger] is_free(self.lists(), a) == (is_free(lists0, a) || start <= a < curr_start),
                    forall|x: int| start <= x < end ==> !#[trigger] is_free(lists0, x),
                    pow2(5) == 32,
                    pow2(32) == 0x1_0000_0000,
                decreases remaining,
            {
                proof {
                    lemma_free_bytes_nonneg(self.lists(), BUCKET_COUNT as int);
                    assert forall|x: int| in_block(curr_start, order as int, x) implies !#[trigger] is_free(self.lists(), x) by {
                        assert(!is_free(lists0, x));
                    }
                    let cur = self.lists();
                    assert forall|a: int| #[trigger] gap_at(cur, curr_start as int, curr_start + pow2(order as nat), a) by {
                        assert(gap_at(lists0, start as int, end as int, a));
                        let x = choose|x: int| a <= x < a + pow2(32) && !#[trigger] is_free(lists0, x)
                            && !(start <= x < end);
                        assert(!is_free(cur, x));
                    }
                }
                self.insert_block(curr_start, order);
                self.total = self.total + size;
                curr_start = curr_start + size;
                remaining = remaining - size;
            }
        }
        proof {
            assert(remaining < 32);
            assert(span == (curr_start - start) + remaining);
            assert(span % 32 == remaining) by (nonlinear_arith)
                requires
                    span == (curr_start - start) + remaining,
                    (curr_start - start) % 32 == 0,
                    0 <= remaining < 32,
                    curr_start >= start,
            ;
        }
    }
}

/// The lists part way through a split: the last block of order `f` taken off, and
/// the pieces of orders `t` up to `o` put back.
spec fn split_upto(lists: Seq<Seq<usize>>, t: nat, f: nat, o: nat) -> Seq<Seq<usize>> {
    let block = lists[f as int].last();
    Seq::new(
        lists.len(),
        |k: int|
            if k == f {
                lists[k].drop_last()
            } else if t <= k < o {
                lists[k].push((block + pow2(k as nat) - pow2(t)) as usize)
            } else {
                lists[k]
            },
    )
}

/// The search for an order never goes below where it starts.
proof fn lemma_order_from_ge(t: nat, size: usize, align: usize)
    ensures
        order_from(t, size, align) >= t,
    decreases 64 - t,
{
    if !(t >= 64 || (pow2(t) >= size && pow2(t) >= align)) {
        lemma_order_from_ge(t + 1, size, align);
    }
}

/// The order a request is served at, or `None` if no block is that large.
fn request_order(size: usize, align: usize) -> (r: Option<usize>)
    ensures
        r == if target_order(size, align) < BUCKET_COUNT {
            Some(target_order(size, align) as usize)
        } else {
            None::<usize>
        },
{
    proof {
        lemma2_to64();
    }
    let mut t: usize = 4;
    let mut p: usize = LIST_HEAD_SIZE;
    while p < size || p < align
        invariant
            4 <= t < 32,
            p == pow2(t as nat),
            order_from(t as nat, size, align) == target_order(size, align),
            pow2(31) == 0x8000_0000,
        decreases 32 - t,
    {
        if t == 31 {
            proof {
                lemma_order_from_ge(32, size, align);
            }
            return None;
        }
        proof {
            lemma_pow2_unfold((t + 1) as nat);
            if t + 1 < 31 {
                lemma_pow2_strictly_increases((t + 1) as nat, 31);
            }
        }
        t = t + 1;
        p = p * 2;
    }
    Some(t)
}

impl Allocator {
    /// Hand out a block for `size` bytes aligned to `align` (a power of two): the
    /// block of the smallest order that serves the request, cut from the end of the
    /// most recent free block of the least order that has one; the rest of that block
    /// goes back as one free block of each order in between. `None` if the request
    /// is larger than the largest block, or no block is free that could serve it.
    pub fn allocate(&mut self, size: usize, align: usize) -> (r: Option<usize>)
        requires
            old(self).wf(),
            size <= usize::MAX / 2 + 1,
        ensures
            final(self).wf(),
            final(self).spec_total() == old(self).spec_total(),
            match r {
                None => {
                    &&& final(self).lists() == old(self).lists()
                    &&& final(self).spec_allocated() == old(self).spec_allocated()
                    &&& (target_order(size, align) >= BUCKET_COUNT || first_free(
                        old(self).lists(),
                        target_order(size, align),
                    ) is None)
                },
                Some(a) => {
                    let t = target_order(size, align);
                    &&& t < BUCKET_COUNT
                    &&& first_free(old(self).lists(), t) is Some
                    &&& a == old(self).lists()[first_free(old(self).lists(), t)->0 as int].last() + pow2(
                        first_free(old(self).lists(), t)->0,
                    ) - pow2(t)
                    &&& final(self).lists() == after_split(old(self).lists(), t, first_free(old(self).lists(), t)->0)
                    &&& final(self).spec_allocated() == old(self).spec_allocated() + pow2(t)
                    &&& forall|x: int| #[trigger]
                        is_free(old(self).lists(), x) == (is_free(final(self).lists(), x) || in_block(a, t as int, x))
                    &&& forall|x: int| in_block(a, t as int, x) ==> !#[trigger] is_free(final(self).lists(), x)
                },
            },
    {
        let ghost ls = self.lists();
        let t = match request_order(size, align) {
            None => return None,
            Some(t) => t,
        };
        let mut f = t;
        while f < BUCKET_COUNT && self.free[f].len() == 0
            invariant
                t <= f <= BUCKET_COUNT,
                self.lists() == ls,
                ls.len() == BUCKET_COUNT,
                first_free(ls, t as nat) == first_free(ls, f as nat),
            decreases BUCKET_COUNT - f,
        {
            assert(self.free@[f as int]@ == ls[f as int]);
            f = f + 1;
        }
        if f == BUCKET_COUNT {
            return None;
        }
        assert(self.free@[f as int]@ == ls[f as int]);
        assert(first_free(ls, t as nat) == Some(f as nat));
        let mut l = self.free.remove(f);
        let block = match l.pop() {
            Some(b) => b,
            None => return None,
        };
        self.free.insert(f, l);
        let ghost fb0 = free_bytes(ls);
        proof {
            assert(self.lists() =~= split_upto(ls, t as nat, f as nat, t as nat));
            assert(block == ls[f as int].last());
            lemma_free_bytes_update(ls, f as int, ls[f as int].drop_last(), -1, BUCKET_COUNT as int);
            assert(ls.update(f as int, ls[f as int].drop_last()) =~= split_upto(ls, t as nat, f as nat, t as nat));
            assert(block + pow2(f as nat) <= usize::MAX) by {
                assert(ls[f as int][ls[f as int].len() - 1] + pow2(f as nat) <= usize::MAX);
            }
            lemma_free_bytes_nonneg(ls, BUCKET_COUNT as int);
            let last = ls[f as int].len() - 1;
            assert(ls[f as int].remove(last) =~= ls[f as int].drop_last());
            assert forall|x: int| #[trigger] is_free(ls, x) == (is_free(self.lists(), x) || (block <= x < block + pow2(f as nat))) by {
                lemma_free_remove(ls, f as int, last, x);
            }
            lemma_disjoint_remove(ls, f as int, last);
        }
        let mut curr = block;
        let mut o = t;
        while o < f
            invariant
                t <= o <= f < BUCKET_COUNT,
                ls.len() == BUCKET_COUNT,
                blocks_fit(ls),
                ls[f as int].len() > 0,
                block == ls[f as int].last(),
                block + pow2(f as nat) <= usize::MAX,
                self.lists() == split_upto(ls, t as nat, f as nat, o as nat),
                curr == block + pow2(o as nat) - pow2(t as nat),
                free_bytes(self.lists()) == fb0 - pow2(f as nat) + pow2(o as nat) - pow2(t as nat),
                fb0 == free_bytes(ls),
                self.total == old(self).total,
                self.allocated == old(self).allocated,
                forall|x: int| #[trigger] is_free(ls, x) == (is_free(self.lists(), x) || (curr <= x < block + pow2(f as nat))),
                disjoint_blocks(self.lists()),
                forall|x: int| curr <= x < block + pow2(f as nat) ==> !#[trigger] is_free(self.lists(), x),
            decreases f - o,
        {
            let size_o = block_size(o);
            let ghost before = self.lists();
            proof {
                lemma_pow2_unfold((o + 1) as nat);
                if o + 1 < f {
                    lemma_pow2_strictly_increases((o + 1) as nat, f as nat);
                }
                vstd::arithmetic::power2::lemma_pow2_pos(t as nat);
                if t < o {
                    lemma_pow2_strictly_increases(t as nat, o as nat);
                }
            }
            let mut l = self.free.remove(o);
            l.push(curr);
            self.free.insert(o, l);
            proof {
                assert(self.lists() =~= before.update(o as int, before[o as int].push(curr)));
                lemma_free_bytes_update(before, o as int, before[o as int].push(curr), 1, BUCKET_COUNT as int);
                assert(self.lists() =~= split_upto(ls, t as nat, f as nat, (o + 1) as nat));
                assert forall|x: int| #[trigger] is_free(ls, x) == (is_free(self.lists(), x) || (curr + size_o <= x < block
                    + pow2(f as nat))) by {
                    lemma_free_push(before, o as int, curr, x);
                }
                lemma_disjoint_push(before, o as int, curr);
                assert forall|x: int| curr + size_o <= x < block + pow2(f as nat) implies !#[trigger] is_free(self.lists(), x) by {
                    lemma_free_push(before, o as int, curr, x);
                }
            }
            curr = curr + size_o;
            o = o + 1;
        }
        let size_t = block_size(t);
        proof {
            let now = self.lists();
            assert(now =~= after_split(ls, t as nat, f as nat));
            lemma_free_bytes_nonneg(now, BUCKET_COUNT as int);
            assert forall|k: int, j: int| 0 <= k < now.len() && 0 <= j < now[k].len() implies #[trigger] now[k][j]
                + pow2(k as nat) <= usize::MAX by {
                if k == f {
                    assert(now[k][j] == ls[k][j]);
                } else if t <= k < f && j == ls[k].len() {
                    lemma_pow2_unfold((k + 1) as nat);
                    if k + 1 < f {
                        lemma_pow2_strictly_increases((k + 1) as nat, f as nat);
                    }
                    if t < k {
                        lemma_pow2_strictly_increases(t as nat, k as nat);
                    }
                    vstd::arithmetic::power2::lemma_pow2_pos(t as nat);
                    assert(now[k][j] == block + pow2(k as nat) - pow2(t as nat));
                } else {
                    assert(now[k][j] == ls[k][j]);
                }
            }
        }
        self.allocated = self.allocated + size_t;
        proof {
            let now = self.lists();
            assert forall|a: int| #[trigger] gap_at(now, 0, 0, a) by {
                assert(gap_at(ls, 0, 0, a));
                let x = choose|x: int| a <= x < a + pow2(32) && !#[trigger] is_free(ls, x) && !(0 <= x < 0);
                assert(!is_free(now, x));
            }
        }
        Some(curr)
    }

    /// Give back the block at `ptr` handed out for `size` bytes aligned to `align`:
    /// it goes on the free lists, merging with free neighbours of its size.
    pub fn dealloc(&mut self, ptr: usize, size: usize, align: usize)
        requires
            old(self).wf(),
            size <= usize::MAX / 2 + 1,
            target_order(size, align) < BUCKET_COUNT,
            pow2(target_order(size, align)) <= old(self).spec_allocated(),
            ptr + pow2(target_order(size, align)) <= usize::MAX,
            forall|x: int| in_block(ptr, target_order(size, align) as int, x) ==> !#[trigger] is_free(old(self).lists(), x),
            no_long_run(old(self).lists(), ptr as int, ptr + pow2(target_order(size, align))),
        ensures
            final(self).wf(),
            final(self).spec_total() == old(self).spec_total(),
            final(self).spec_allocated() == old(self).spec_allocated() - pow2(target_order(size, align)),
            free_bytes(final(self).lists()) == free_bytes(old(self).lists()) + pow2(target_order(size, align)),
            no_new_neighbours(old(self).lists(), final(self).lists()),
            forall|a: int| #[trigger]
                is_free(final(self).lists(), a) == (is_free(old(self).lists(), a) || in_block(
                    ptr,
                    target_order(size, align) as int,
                    a,
                )),
    {
        let t = match request_order(size, align) {
            Some(t) => t,
            None => return,
        };
        let size_t = block_size(t);
        self.insert_block(ptr, t);
        self.allocated = self.allocated - size_t;
    }
}

impl Allocator {
    /// Giving back the block `allocate` just handed out frees again exactly the
    /// addresses that were free before, and the heap counts the bytes as before: `mid`
    /// is what `allocate` left, `self` what `dealloc` of the same request then left.
    pub proof fn lemma_dealloc_undoes_allocate(&self, mid: &Self, before: &Self, a: usize, t: nat)
        requires
            forall|x: int| #[trigger] is_free(before.lists(), x) == (is_free(mid.lists(), x) || in_block(a, t as int, x)),
            mid.spec_allocated() == before.spec_allocated() + pow2(t),
            mid.spec_total() == before.spec_total(),
            forall|x: int| #[trigger] is_free(self.lists(), x) == (is_free(mid.lists(), x) || in_block(a, t as int, x)),
            self.spec_allocated() == mid.spec_allocated() - pow2(t),
            self.spec_total() == mid.spec_total(),
        ensures
            forall|x: int| #[trigger] is_free(self.lists(), x) == is_free(before.lists(), x),
            self.spec_allocated() == before.spec_allocated(),
            self.spec_total() == before.spec_total(),
    {
        assert forall|x: int| #[trigger] is_free(self.lists(), x) == is_free(before.lists(), x) by {
            assert(is_free(mid.lists(), x) == is_free(mid.lists(), x));
        }
    }
}

/// A heap of empty lists holds no free bytes.
proof fn lemma_free_bytes_zero(lists: Seq<Seq<usize>>, n: int)
    requires
        n <= lists.len(),
        forall|o: int| 0 <= o < lists.len() ==> #[trigger] lists[o].len() == 0,
    ensures
        free_bytes_upto(lists, n) == 0,
    decreases n,
{
    if n > 0 {
        lemma_free_bytes_zero(lists, n - 1);
    }
}

} // verus!
