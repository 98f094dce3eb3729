//! Page-table walks: mapping, translation and teardown.
//!
//! A [`Mapper`] binds a root table to a scheme ([`Scheme`]: how deep the tree is)
//! and a frame source ([`FrameSource`]: where new intermediate tables come from),
//! and owns the intermediate tables it builds, keyed by the physical address of the
//! frame each one lives in. The walk is written once for every scheme; Sv39, Sv48 and
//! Sv57 differ only in where it starts.

use vstd::prelude::*;
use vstd::hash_map::HashMapWithView;

use core::marker::PhantomData;

use crate::addr::{lemma_ppn_fits, spec_ppn, spec_vpn, MemoryAddr, PhysicalAddr, VirtualAddr};
use crate::frames::FrameSource;
use crate::geometry::{lemma_page_size_is_shift, page_size_at, spec_page_size, ENTRIES_PER_PAGE, MAX_LEVELS};
use crate::pte::{
    lemma_compose_bits, spec_entry_valid, spec_flags_leaf, spec_flags_legal, spec_leaf_entry, Entry, PteFlags,
};
use crate::scheme::{vpn, Scheme};
use crate::table::Table;
use crate::utils::{is_pow2, lemma_mask_values, mask, spec_mask};

verus! {

/// An empty entry has neither its valid bit nor any permission bit set.
proof fn lemma_empty_entry_bits()
    by (bit_vector)
    ensures
        0u64 & 1u64 == 0u64,
        0u64 & 0x0eu64 == 0u64,
{
}

broadcast use vstd::std_specs::hash::group_hash_axioms;

/// Why a mapping could not be installed.
#[derive(Clone, Copy, Debug, PartialEq, Eq, Structural)]
pub enum MapError {
    /// `level` is not one of the scheme's page-table levels.
    InvalidLevel {
        /// The rejected level.
        level: usize,
        /// Levels the scheme in use actually walks.
        levels: usize,
    },
    /// The virtual address is not aligned to the page size it would map.
    UnalignedVirtual {
        /// The rejected virtual address.
        vaddr: VirtualAddr,
        /// Page size implied by the requested level.
        page_size: u64,
    },
    /// The physical address is not aligned to the page size it would map.
    UnalignedPhysical {
        /// The rejected physical address.
        paddr: PhysicalAddr,
        /// Page size implied by the requested level.
        page_size: u64,
    },
    /// The flags name none of R/W/X, which encodes a branch rather than a page.
    NotALeaf,
    /// Write-without-read is architecturally reserved.
    WriteWithoutRead,
    /// The frame source is exhausted, so no intermediate table could be made.
    OutOfFrames,
    /// A superpage already covers this address, so the walk cannot descend.
    SuperpageInPath {
        /// Level at which the blocking leaf was found.
        level: usize,
    },
}

/// A leaf that [`Mapper::unmap`] removed.
#[derive(Clone, Copy, Debug, PartialEq, Eq, Structural)]
pub struct Unmapped {
    /// Base of the frame the leaf pointed at.
    pub frame: PhysicalAddr,
    /// Level the leaf was installed at: 0 = 4 KiB, 1 = 2 MiB, 2 = 1 GiB.
    pub level: usize,
}

impl Unmapped {
    /// Bytes the leaf covered.
    pub fn len(&self) -> (r: u64)
        requires
            self.level < MAX_LEVELS,
        ensures
            r == spec_page_size(self.level as nat),
    {
        page_size_at(self.level)
    }
}

/// The table a walk reads: the root for `None`, the table in frame `k` for `Some(k)`.
pub open spec fn table_of(
    root: Seq<Entry>,
    mem: Map<u64, Seq<Entry>>,
    id: Option<u64>,
) -> Seq<Entry> {
    match id {
        None => root,
        Some(k) => mem[k],
    }
}

/// Whether `id` names a table: the root, or a frame holding one.
pub open spec fn id_valid(mem: Map<u64, Seq<Entry>>, id: Option<u64>) -> bool {
    match id {
        None => true,
        Some(k) => mem.contains_key(k),
    }
}

/// The walk for `va` starting in table `id` at `level`: the leaf entry it ends on and
/// that entry's level, or `None` if it meets an invalid entry, or a branch at level 0.
pub open spec fn spec_walk(
    root: Seq<Entry>,
    mem: Map<u64, Seq<Entry>>,
    id: Option<u64>,
    va: u64,
    level: nat,
) -> Option<(Entry, nat)>
    decreases level,
{
    let e = table_of(root, mem, id)[spec_vpn(va, level) as int];
    if !spec_entry_valid(e.0) {
        None
    } else if spec_flags_leaf(e.0) {
        Some((e, level))
    } else if level == 0 || !mem.contains_key(e.spec_target()) {
        None
    } else {
        spec_walk(root, mem, Some(e.spec_target()), va, (level - 1) as nat)
    }
}

/// A walk ends at or below the level it starts at.
pub proof fn lemma_walk_level(
    root: Seq<Entry>,
    mem: Map<u64, Seq<Entry>>,
    id: Option<u64>,
    va: u64,
    level: nat,
)
    ensures
        spec_walk(root, mem, id, va, level) matches Some((_e, l)) ==> l <= level,
    decreases level,
{
    let e = table_of(root, mem, id)[spec_vpn(va, level) as int];
    if spec_entry_valid(e.0) && !spec_flags_leaf(e.0) && level > 0 && mem.contains_key(
        e.spec_target(),
    ) {
        lemma_walk_level(root, mem, Some(e.spec_target()), va, (level - 1) as nat);
    }
}

/// Whether the walk for `va` from table `id` at `level` arrives at table `to` at level
/// `to_level` (where it would read entry `spec_vpn(va, to_level)`).
pub open spec fn spec_walk_reaches(
    root: Seq<Entry>,
    mem: Map<u64, Seq<Entry>>,
    id: Option<u64>,
    va: u64,
    level: nat,
    to: Option<u64>,
    to_level: nat,
) -> bool
    decreases level,
{
    if id == to && level == to_level {
        true
    } else {
        let e = table_of(root, mem, id)[spec_vpn(va, level) as int];
        if !spec_entry_valid(e.0) || spec_flags_leaf(e.0) || level == 0 || !mem.contains_key(
            e.spec_target(),
        ) {
            false
        } else {
            spec_walk_reaches(root, mem, Some(e.spec_target()), va, (level - 1) as nat, to, to_level)
        }
    }
}

/// The VPN indices `va` selects above `level`, from the root (`top`) down.
pub open spec fn va_path(va: u64, top: nat, level: nat) -> Seq<u64>
    decreases top - level,
{
    if level >= top {
        seq![]
    } else {
        va_path(va, top, level + 1).push(spec_vpn(va, level + 1))
    }
}

/// Two addresses select the same entries at every level from `level` to `top`.
pub open spec fn same_page(va1: u64, va2: u64, level: nat, top: nat) -> bool {
    forall|l: nat| level <= l <= top ==> #[trigger] spec_vpn(va1, l) == spec_vpn(va2, l)
}

/// The physical address a leaf `entry` at `level` maps `va` to: the frame's bits above
/// the page offset, `va`'s bits within it.
pub open spec fn spec_leaf_to_phys(entry: Entry, va: u64, level: nat) -> u64 {
    let in_page = spec_mask((12 + 9 * level) as u64);
    (entry.spec_target() & !in_page) | (va & in_page)
}

/// A leaf for the frame of `pa` installed at `level` maps an address to `pa` plus the
/// address's offset within the page, when `pa` is aligned to that page size and lies
/// within the 56-bit physical address space.
pub proof fn lemma_leaf_translation(pa: u64, flags: u64, va: u64, level: nat)
    requires
        level < MAX_LEVELS,
        pa & ((spec_page_size(level) - 1) as u64) == 0,
        pa <= 0xff_ffff_ffff_ffff,
    ensures
        spec_leaf_to_phys(spec_leaf_entry(pa, flags), va, level) == pa + (va & ((spec_page_size(level) - 1) as u64)),
{
    lemma_page_size_is_shift(level);
    lemma_mask_values();
    lemma_ppn_fits(pa);
    lemma_compose_bits(spec_ppn(pa), flags | 1);
    let m = (spec_page_size(level) - 1) as u64;
    assert(spec_mask((12 + 9 * level) as u64) == m);
    assert(spec_leaf_entry(pa, flags).spec_target() == spec_ppn(pa) << 12u64);
    assert(spec_ppn(pa) == (pa >> 12u64) & 0xfff_ffff_ffffu64);
    assert((((((pa >> 12u64) & 0xfff_ffff_ffffu64) << 12u64) & !m) | (va & m)) == pa + (va & m)) by (bit_vector)
        requires
            pa <= 0xff_ffff_ffff_ffff,
            pa & m == 0,
            m == 0xfff || m == 0x1f_ffff || m == 0x3fff_ffff || m == 0x7f_ffff_ffff || m == 0xffff_ffff_ffff,
    ;
}

/// Level and path of a table: the root is at `top` with an empty path.
pub open spec fn id_level(info: Map<u64, (nat, Seq<u64>)>, top: nat, id: Option<u64>) -> nat {
    match id {
        None => top,
        Some(k) => info[k].0,
    }
}

pub open spec fn id_path(info: Map<u64, (nat, Seq<u64>)>, id: Option<u64>) -> Seq<u64> {
    match id {
        None => seq![],
        Some(k) => info[k].1,
    }
}

/// The shape every table tree keeps: each table is one page in an aligned frame, and
/// every branch points at a table one level down whose path extends its parent's by
/// the branch's index. Level-0 tables hold no branches.
pub open spec fn tree_closed(
    root: Seq<Entry>,
    mem: Map<u64, Seq<Entry>>,
    info: Map<u64, (nat, Seq<u64>)>,
    top: nat,
) -> bool {
    &&& root.len() == 512
    &&& forall|k: u64|
        #![trigger mem.contains_key(k)]
        mem.contains_key(k) ==> {
            &&& info.contains_key(k)
            &&& mem[k].len() == 512
            &&& info[k].0 < top
            &&& k & 0xfff == 0
            &&& k <= 0xff_ffff_ffff_ffff
        }
    &&& forall|id: Option<u64>, i: int|
        #![trigger table_of(root, mem, id)[i]]
        id_valid(mem, id) && 0 <= i < 512 && table_of(root, mem, id)[i].spec_is_branch() ==> {
            let t = table_of(root, mem, id)[i].spec_target();
            &&& mem.contains_key(t)
            &&& id_level(info, top, id) > 0
            &&& info[t].0 == id_level(info, top, id) - 1
            &&& info[t].1 == id_path(info, id).push(i as u64)
        }
}

/// No two branch entries point at the same table.
pub open spec fn branches_unique(root: Seq<Entry>, mem: Map<u64, Seq<Entry>>) -> bool {
    forall|id1: Option<u64>, i1: int, id2: Option<u64>, i2: int|
        #![trigger table_of(root, mem, id1)[i1], table_of(root, mem, id2)[i2]]
        id_valid(mem, id1) && id_valid(mem, id2) && 0 <= i1 < 512 && 0 <= i2 < 512 && table_of(
            root,
            mem,
            id1,
        )[i1].spec_is_branch() && table_of(root, mem, id2)[i2].spec_is_branch() && table_of(
            root,
            mem,
            id1,
        )[i1].spec_target() == table_of(root, mem, id2)[i2].spec_target() ==> id1 == id2 && i1
            == i2
}


/// The VPN indices above `level` are the path above `level + 1` and one more index.
pub proof fn lemma_va_path_step(va: u64, top: nat, level: nat)
    requires
        level < top,
    ensures
        va_path(va, top, level) == va_path(va, top, level + 1).push(spec_vpn(va, level + 1)),
        va_path(va, top, level).len() == top - level,
    decreases top - level,
{
    reveal_with_fuel(va_path, 2);
    if level + 1 < top {
        lemma_va_path_step(va, top, level + 1);
    }
}

/// Two addresses share the path above `level` exactly when they select the same
/// entries at every level above it.
pub proof fn lemma_va_path_eq(va1: u64, va2: u64, top: nat, level: nat)
    requires
        level <= top,
    ensures
        (va_path(va1, top, level) == va_path(va2, top, level)) <==> (forall|l: nat|
            level < l <= top ==> #[trigger] spec_vpn(va1, l) == spec_vpn(va2, l)),
    decreases top - level,
{
    if level < top {
        lemma_va_path_eq(va1, va2, top, level + 1);
        lemma_va_path_step(va1, top, level);
        lemma_va_path_step(va2, top, level);
        let p1 = va_path(va1, top, level + 1);
        let p2 = va_path(va2, top, level + 1);
        if va_path(va1, top, level) == va_path(va2, top, level) {
            assert(p1.push(spec_vpn(va1, level + 1)).drop_last() == p1);
            assert(p2.push(spec_vpn(va2, level + 1)).drop_last() == p2);
            assert(p1 == p2);
            let n = p1.len();
            assert(va_path(va1, top, level)[n as int] == spec_vpn(va1, level + 1));
            assert(va_path(va2, top, level)[n as int] == spec_vpn(va2, level + 1));
        }
        if forall|l: nat| level < l <= top ==> #[trigger] spec_vpn(va1, l) == spec_vpn(va2, l) {
            assert forall|l: nat| level + 1 < l <= top implies #[trigger] spec_vpn(va1, l)
                == spec_vpn(va2, l) by {}
            assert(spec_vpn(va1, level + 1) == spec_vpn(va2, level + 1));
        }
    } else {
        reveal_with_fuel(va_path, 1);
    }
}

/// A table a walk arrives at sits at the level it is reached at, on the walked
/// address's path.
pub proof fn lemma_reach_info(
    root: Seq<Entry>,
    mem: Map<u64, Seq<Entry>>,
    info: Map<u64, (nat, Seq<u64>)>,
    top: nat,
    id: Option<u64>,
    va: u64,
    level: nat,
    to: Option<u64>,
    to_level: nat,
)
    requires
        tree_closed(root, mem, info, top),
        id_valid(mem, id),
        level <= top,
        id_level(info, top, id) == level,
        id_path(info, id) == va_path(va, top, level),
        spec_walk_reaches(root, mem, id, va, level, to, to_level),
    ensures
        id_valid(mem, to),
        to_level <= level,
        id_level(info, top, to) == to_level,
        id_path(info, to) == va_path(va, top, to_level),
    decreases level,
{
    if id == to && level == to_level {
    } else {
        let i = spec_vpn(va, level) as int;
        crate::addr::lemma_vpn_bound(va, level);
        let e = table_of(root, mem, id)[i];
        let t = e.spec_target();
        assert(table_of(root, mem, id)[i].spec_is_branch());
        lemma_va_path_step(va, top, (level - 1) as nat);
        lemma_reach_info(root, mem, info, top, Some(t), va, (level - 1) as nat, to, to_level);
    }
}

/// A walk that arrives at a table continues from it.
pub proof fn lemma_reach_walk(
    root: Seq<Entry>,
    mem: Map<u64, Seq<Entry>>,
    id: Option<u64>,
    va: u64,
    level: nat,
    to: Option<u64>,
    to_level: nat,
)
    requires
        spec_walk_reaches(root, mem, id, va, level, to, to_level),
    ensures
        spec_walk(root, mem, id, va, level) == spec_walk(root, mem, to, va, to_level),
    decreases level,
{
    if id == to && level == to_level {
    } else {
        let e = table_of(root, mem, id)[spec_vpn(va, level) as int];
        lemma_reach_walk(root, mem, Some(e.spec_target()), va, (level - 1) as nat, to, to_level);
    }
}

/// Whether a walk arrives at a table depends only on the entries it selects above it.
pub proof fn lemma_reach_same_prefix(
    root: Seq<Entry>,
    mem: Map<u64, Seq<Entry>>,
    id: Option<u64>,
    va1: u64,
    va2: u64,
    level: nat,
    to: Option<u64>,
    to_level: nat,
)
    requires
        forall|l: nat| to_level < l <= level ==> #[trigger] spec_vpn(va1, l) == spec_vpn(va2, l),
    ensures
        spec_walk_reaches(root, mem, id, va1, level, to, to_level) == spec_walk_reaches(
            root,
            mem,
            id,
            va2,
            level,
            to,
            to_level,
        ),
    decreases level,
{
    if id == to && level == to_level {
    } else if level <= to_level {
        if level > 0 {
            lemma_reach_never_below(root, mem, id, va1, level, to, to_level);
            lemma_reach_never_below(root, mem, id, va2, level, to, to_level);
        } else {
        }
    } else {
        assert(spec_vpn(va1, level) == spec_vpn(va2, level));
        let e = table_of(root, mem, id)[spec_vpn(va1, level) as int];
        lemma_reach_same_prefix(
            root,
            mem,
            Some(e.spec_target()),
            va1,
            va2,
            (level - 1) as nat,
            to,
            to_level,
        );
    }
}

/// A walk never arrives at a level above the one it starts at, nor anywhere but the
/// start at that level.
pub proof fn lemma_reach_never_below(
    root: Seq<Entry>,
    mem: Map<u64, Seq<Entry>>,
    id: Option<u64>,
    va: u64,
    level: nat,
    to: Option<u64>,
    to_level: nat,
)
    requires
        level <= to_level,
        !(id == to && level == to_level),
    ensures
        !spec_walk_reaches(root, mem, id, va, level, to, to_level),
    decreases level,
{
    if level > 0 {
        let e = table_of(root, mem, id)[spec_vpn(va, level) as int];
        lemma_reach_never_below(root, mem, Some(e.spec_target()), va, (level - 1) as nat, to, to_level);
    }
}


/// `(root2, mem2)` is `(root, mem)` with entry `j` of table `idk` replaced by `e`.
pub open spec fn is_entry_update(
    root: Seq<Entry>,
    mem: Map<u64, Seq<Entry>>,
    root2: Seq<Entry>,
    mem2: Map<u64, Seq<Entry>>,
    idk: Option<u64>,
    j: int,
    e: Entry,
) -> bool {
    &&& id_valid(mem, idk)
    &&& 0 <= j < 512
    &&& mem2.dom() == mem.dom()
    &&& table_of(root2, mem2, idk) == table_of(root, mem, idk).update(j, e)
    &&& forall|id: Option<u64>|
        #![trigger table_of(root2, mem2, id)]
        id_valid(mem, id) && id != idk ==> table_of(root2, mem2, id) == table_of(root, mem, id)
}

/// Replacing an entry a walk does not select leaves the walk, and every table it
/// arrives at, as they were.
pub proof fn lemma_update_unseen(
    root: Seq<Entry>,
    mem: Map<u64, Seq<Entry>>,
    info: Map<u64, (nat, Seq<u64>)>,
    top: nat,
    root2: Seq<Entry>,
    mem2: Map<u64, Seq<Entry>>,
    idk: Option<u64>,
    j: int,
    e: Entry,
    id: Option<u64>,
    va: u64,
    level: nat,
)
    requires
        tree_closed(root, mem, info, top),
        is_entry_update(root, mem, root2, mem2, idk, j, e),
        id_valid(mem, id),
        level <= top,
        id_level(info, top, id) == level,
        id_path(info, id) == va_path(va, top, level),
        !(id_path(info, idk) == va_path(va, top, id_level(info, top, idk)) && spec_vpn(
            va,
            id_level(info, top, idk),
        ) == j),
    ensures
        spec_walk(root2, mem2, id, va, level) == spec_walk(root, mem, id, va, level),
        forall|to: Option<u64>, to_level: nat|
            #[trigger] spec_walk_reaches(root2, mem2, id, va, level, to, to_level)
                == spec_walk_reaches(root, mem, id, va, level, to, to_level),
    decreases level,
{
    let i = spec_vpn(va, level) as int;
    crate::addr::lemma_vpn_bound(va, level);
    assert(table_of(root2, mem2, id)[i] == table_of(root, mem, id)[i]);
    let ent = table_of(root, mem, id)[i];
    let t = ent.spec_target();
    if spec_entry_valid(ent.0) && !spec_flags_leaf(ent.0) && level > 0 && mem.contains_key(t) {
        assert(table_of(root, mem, id)[i].spec_is_branch());
        assert(mem2.contains_key(t));
        lemma_va_path_step(va, top, (level - 1) as nat);
        lemma_update_unseen(
            root,
            mem,
            info,
            top,
            root2,
            mem2,
            idk,
            j,
            e,
            Some(t),
            va,
            (level - 1) as nat,
        );
        assert forall|to: Option<u64>, to_level: nat|
            #[trigger] spec_walk_reaches(root2, mem2, id, va, level, to, to_level)
                == spec_walk_reaches(root, mem, id, va, level, to, to_level) by {
            assert(spec_walk_reaches(root2, mem2, Some(t), va, (level - 1) as nat, to, to_level)
                == spec_walk_reaches(root, mem, Some(t), va, (level - 1) as nat, to, to_level));
        }
    } else {
        if !spec_entry_valid(ent.0) || spec_flags_leaf(ent.0) || level == 0 {
        } else {
            assert(!mem2.contains_key(t));
        }
    }
}

/// Replacing an entry of a table a walk arrives at does not stop the walk arriving.
pub proof fn lemma_update_keeps_reach(
    root: Seq<Entry>,
    mem: Map<u64, Seq<Entry>>,
    info: Map<u64, (nat, Seq<u64>)>,
    top: nat,
    root2: Seq<Entry>,
    mem2: Map<u64, Seq<Entry>>,
    idk: Option<u64>,
    j: int,
    e: Entry,
    id: Option<u64>,
    va: u64,
    level: nat,
    to_level: nat,
)
    requires
        tree_closed(root, mem, info, top),
        is_entry_update(root, mem, root2, mem2, idk, j, e),
        id_valid(mem, id),
        level <= top,
        id_level(info, top, id) == level,
        id_path(info, id) == va_path(va, top, level),
        id_level(info, top, idk) == to_level,
        spec_walk_reaches(root, mem, id, va, level, idk, to_level),
    ensures
        spec_walk_reaches(root2, mem2, id, va, level, idk, to_level),
    decreases level,
{
    if id == idk && level == to_level {
    } else {
        let i = spec_vpn(va, level) as int;
        crate::addr::lemma_vpn_bound(va, level);
        assert(id != idk);
        assert(table_of(root2, mem2, id) == table_of(root, mem, id));
        let ent = table_of(root, mem, id)[i];
        let t = ent.spec_target();
        assert(table_of(root, mem, id)[i].spec_is_branch());
        assert(mem2.contains_key(t));
        lemma_va_path_step(va, top, (level - 1) as nat);
        lemma_update_keeps_reach(
            root,
            mem,
            info,
            top,
            root2,
            mem2,
            idk,
            j,
            e,
            Some(t),
            va,
            (level - 1) as nat,
            to_level,
        );
    }
}

/// Adding a table in a frame nothing points at changes no walk.
pub proof fn lemma_insert_unseen(
    root: Seq<Entry>,
    mem: Map<u64, Seq<Entry>>,
    info: Map<u64, (nat, Seq<u64>)>,
    top: nat,
    k: u64,
    z: Seq<Entry>,
    id: Option<u64>,
    va: u64,
    level: nat,
)
    requires
        tree_closed(root, mem, info, top),
        !mem.contains_key(k),
        id_valid(mem, id),
    ensures
        spec_walk(root, mem.insert(k, z), id, va, level) == spec_walk(root, mem, id, va, level),
        forall|to: Option<u64>, to_level: nat|
            #[trigger] spec_walk_reaches(root, mem.insert(k, z), id, va, level, to, to_level)
                == spec_walk_reaches(root, mem, id, va, level, to, to_level),
    decreases level,
{
    let mem2 = mem.insert(k, z);
    let i = spec_vpn(va, level) as int;
    crate::addr::lemma_vpn_bound(va, level);
    assert(table_of(root, mem2, id) == table_of(root, mem, id));
    let ent = table_of(root, mem, id)[i];
    let t = ent.spec_target();
    if spec_entry_valid(ent.0) && !spec_flags_leaf(ent.0) && level > 0 {
        assert(table_of(root, mem, id)[i].spec_is_branch());
        assert(mem.contains_key(t));
        lemma_insert_unseen(root, mem, info, top, k, z, Some(t), va, (level - 1) as nat);
        assert forall|to: Option<u64>, to_level: nat|
            #[trigger] spec_walk_reaches(root, mem2, id, va, level, to, to_level)
                == spec_walk_reaches(root, mem, id, va, level, to, to_level) by {
            assert(spec_walk_reaches(root, mem2, Some(t), va, (level - 1) as nat, to, to_level)
                == spec_walk_reaches(root, mem, Some(t), va, (level - 1) as nat, to, to_level));
        }
    }
}


/// A walk that arrives at a table holding a branch at the selected entry arrives at
/// the table the branch points to, one level down.
pub proof fn lemma_reach_extend(
    root: Seq<Entry>,
    mem: Map<u64, Seq<Entry>>,
    id: Option<u64>,
    va: u64,
    level: nat,
    to: Option<u64>,
    to_level: nat,
)
    requires
        spec_walk_reaches(root, mem, id, va, level, to, to_level),
        to_level > 0,
        table_of(root, mem, to)[spec_vpn(va, to_level) as int].spec_is_branch(),
        mem.contains_key(table_of(root, mem, to)[spec_vpn(va, to_level) as int].spec_target()),
    ensures
        spec_walk_reaches(
            root,
            mem,
            id,
            va,
            level,
            Some(table_of(root, mem, to)[spec_vpn(va, to_level) as int].spec_target()),
            (to_level - 1) as nat,
        ),
    decreases level,
{
    let t = table_of(root, mem, to)[spec_vpn(va, to_level) as int].spec_target();
    if id == to && level == to_level {
        assert(!(id == Some(t) && level == (to_level - 1) as nat));
        reveal_with_fuel(spec_walk_reaches, 2);
    } else {
        let e = table_of(root, mem, id)[spec_vpn(va, level) as int];
        lemma_reach_extend(root, mem, Some(e.spec_target()), va, (level - 1) as nat, to, to_level);
        if id == Some(t) && level == (to_level - 1) as nat {
            lemma_reach_never_below(root, mem, Some(e.spec_target()), va, (level - 1) as nat, to, to_level);
        }
    }
}

/// The first leaf a walk from `id` at `from` meets above level `to`, if it meets one
/// before an invalid entry.
pub open spec fn spec_blocking_leaf(
    root: Seq<Entry>,
    mem: Map<u64, Seq<Entry>>,
    id: Option<u64>,
    va: u64,
    from: nat,
    to: nat,
) -> Option<nat>
    decreases from,
{
    if from <= to {
        None
    } else {
        let e = table_of(root, mem, id)[spec_vpn(va, from) as int];
        if !spec_entry_valid(e.0) {
            None
        } else if spec_flags_leaf(e.0) {
            Some(from)
        } else if !mem.contains_key(e.spec_target()) {
            None
        } else {
            spec_blocking_leaf(root, mem, Some(e.spec_target()), va, (from - 1) as nat, to)
        }
    }
}

/// Whether every table a walk from `id` at `from` needs down to level `to` exists
/// already, so that mapping at `to` allocates nothing.
pub open spec fn spec_path_complete(
    root: Seq<Entry>,
    mem: Map<u64, Seq<Entry>>,
    id: Option<u64>,
    va: u64,
    from: nat,
    to: nat,
) -> bool
    decreases from,
{
    if from <= to {
        true
    } else {
        let e = table_of(root, mem, id)[spec_vpn(va, from) as int];
        &&& e.spec_is_branch()
        &&& mem.contains_key(e.spec_target())
        &&& spec_path_complete(root, mem, Some(e.spec_target()), va, (from - 1) as nat, to)
    }
}

/// The error a mapping request is refused with before any walk, if any.
pub open spec fn spec_validate(levels: nat, va: u64, pa: u64, level: usize, flags: u64) -> Option<
    MapError,
> {
    if level >= levels {
        Some(MapError::InvalidLevel { level, levels: levels as usize })
    } else if !spec_flags_leaf(flags) {
        Some(MapError::NotALeaf)
    } else if !spec_flags_legal(flags) {
        Some(MapError::WriteWithoutRead)
    } else if va & ((spec_page_size(level as nat) - 1) as u64) != 0 {
        Some(
            MapError::UnalignedVirtual {
                vaddr: VirtualAddr(va),
                page_size: spec_page_size(level as nat),
            },
        )
    } else if pa & ((spec_page_size(level as nat) - 1) as u64) != 0 {
        Some(
            MapError::UnalignedPhysical {
                paddr: PhysicalAddr(pa),
                page_size: spec_page_size(level as nat),
            },
        )
    } else {
        None
    }
}

/// Reject a mapping request that the hardware could not represent.
fn validate(levels: usize, vaddr: VirtualAddr, paddr: PhysicalAddr, level: usize, flags: PteFlags) -> (r:
    Result<(), MapError>)
    requires
        levels <= MAX_LEVELS,
    ensures
        match spec_validate(levels as nat, vaddr.0, paddr.0, level, flags.bits) {
            Some(e) => r == Err::<(), MapError>(e),
            None => r is Ok,
        },
{
    if level >= levels {
        return Err(MapError::InvalidLevel { level, levels });
    }
    if !flags.is_leaf() {
        return Err(MapError::NotALeaf);
    }
    if !flags.is_legal_leaf() {
        return Err(MapError::WriteWithoutRead);
    }
    let page_size = page_size_at(level);
    proof {
        crate::geometry::lemma_page_size_is_shift(level as nat);
    }
    if !vaddr.is_aligned(page_size) {
        return Err(MapError::UnalignedVirtual { vaddr, page_size });
    }
    if !paddr.is_aligned(page_size) {
        return Err(MapError::UnalignedPhysical { paddr, page_size });
    }
    Ok(())
}

/// Reconstruct the physical address a leaf at `level` maps `vaddr` to.
fn leaf_to_phys(entry: Entry, vaddr: VirtualAddr, level: usize) -> (r: PhysicalAddr)
    requires
        level < MAX_LEVELS,
    ensures
        r.0 == spec_leaf_to_phys(entry, vaddr.0, level as nat),
{
    let page_bits = 12 + 9 * (level as u64);
    let in_page = mask(page_bits);
    let base = entry.ppn() << 12;
    PhysicalAddr::new((base & !in_page) | (vaddr.bits() & in_page))
}

/// Adding an all-invalid table in a fresh aligned frame keeps the tree's shape, and
/// nothing points at the new frame.
pub proof fn lemma_insert_closed(
    root: Seq<Entry>,
    mem: Map<u64, Seq<Entry>>,
    info: Map<u64, (nat, Seq<u64>)>,
    top: nat,
    k: u64,
    z: Seq<Entry>,
    lvl: nat,
    path: Seq<u64>,
)
    requires
        tree_closed(root, mem, info, top),
        branches_unique(root, mem),
        !mem.contains_key(k),
        k & 0xfff == 0,
        k <= 0xff_ffff_ffff_ffff,
        lvl < top,
        z.len() == 512,
        forall|i: int| 0 <= i < 512 ==> #[trigger] z[i] == Entry(0),
    ensures
        tree_closed(root, mem.insert(k, z), info.insert(k, (lvl, path)), top),
        branches_unique(root, mem.insert(k, z)),
        forall|id: Option<u64>, i: int|
            #![trigger table_of(root, mem.insert(k, z), id)[i]]
            id_valid(mem.insert(k, z), id) && 0 <= i < 512 && table_of(
                root,
                mem.insert(k, z),
                id,
            )[i].spec_is_branch() ==> table_of(root, mem.insert(k, z), id)[i].spec_target() != k,
{
    let mem2 = mem.insert(k, z);
    let info2 = info.insert(k, (lvl, path));
    assert forall|id: Option<u64>, i: int|
        #![trigger table_of(root, mem2, id)[i]]
        id_valid(mem2, id) && 0 <= i < 512 && table_of(root, mem2, id)[i].spec_is_branch() implies {
        let t = table_of(root, mem2, id)[i].spec_target();
        &&& mem2.contains_key(t)
        &&& id_level(info2, top, id) > 0
        &&& info2[t].0 == id_level(info2, top, id) - 1
        &&& info2[t].1 == id_path(info2, id).push(i as u64)
        &&& t != k
    } by {
        if id == Some(k) {
            assert(table_of(root, mem2, id)[i] == Entry(0));
            lemma_empty_entry_bits();
        } else {
            assert(id_valid(mem, id));
            assert(table_of(root, mem2, id) == table_of(root, mem, id));
            assert(table_of(root, mem, id)[i].spec_is_branch());
        }
    }
    assert forall|id1: Option<u64>, i1: int, id2: Option<u64>, i2: int|
        #![trigger table_of(root, mem2, id1)[i1], table_of(root, mem2, id2)[i2]]
        id_valid(mem2, id1) && id_valid(mem2, id2) && 0 <= i1 < 512 && 0 <= i2 < 512 && table_of(
            root,
            mem2,
            id1,
        )[i1].spec_is_branch() && table_of(root, mem2, id2)[i2].spec_is_branch() && table_of(
            root,
            mem2,
            id1,
        )[i1].spec_target() == table_of(root, mem2, id2)[i2].spec_target() implies id1 == id2
        && i1 == i2 by {
        lemma_empty_entry_bits();
        if id1 == Some(k) {
            assert(table_of(root, mem2, id1)[i1] == Entry(0));
        }
        if id2 == Some(k) {
            assert(table_of(root, mem2, id2)[i2] == Entry(0));
        }
        assert(table_of(root, mem2, id1) == table_of(root, mem, id1));
        assert(table_of(root, mem2, id2) == table_of(root, mem, id2));
    }
}

/// Replacing one entry keeps the tree's shape, provided a new branch points at a
/// table one level down, on the path extended by its index, that nothing else
/// points at.
pub proof fn lemma_update_closed(
    root: Seq<Entry>,
    mem: Map<u64, Seq<Entry>>,
    info: Map<u64, (nat, Seq<u64>)>,
    top: nat,
    root2: Seq<Entry>,
    mem2: Map<u64, Seq<Entry>>,
    idk: Option<u64>,
    j: int,
    e: Entry,
)
    requires
        tree_closed(root, mem, info, top),
        branches_unique(root, mem),
        is_entry_update(root, mem, root2, mem2, idk, j, e),
        e.spec_is_branch() ==> {
            &&& mem.contains_key(e.spec_target())
            &&& id_level(info, top, idk) > 0
            &&& info[e.spec_target()].0 == id_level(info, top, idk) - 1
            &&& info[e.spec_target()].1 == id_path(info, idk).push(j as u64)
            &&& forall|id: Option<u64>, i: int|
                #![trigger table_of(root, mem, id)[i]]
                id_valid(mem, id) && 0 <= i < 512 && table_of(root, mem, id)[i].spec_is_branch()
                    ==> table_of(root, mem, id)[i].spec_target() != e.spec_target()
        },
    ensures
        tree_closed(root2, mem2, info, top),
        branches_unique(root2, mem2),
{
    assert(root2.len() == 512) by {
        if idk is None {
        } else {
            assert(table_of(root2, mem2, None) == table_of(root, mem, None));
        }
    }
    assert forall|k: u64| #![trigger mem2.contains_key(k)] mem2.contains_key(k) implies mem2[k].len()
        == 512 by {
        assert(mem.contains_key(k));
        if idk == Some(k) {
            assert(table_of(root2, mem2, idk) == table_of(root, mem, idk).update(j, e));
        } else {
            assert(table_of(root2, mem2, Some(k)) == table_of(root, mem, Some(k)));
        }
    }
    assert forall|id: Option<u64>, i: int|
        #![trigger table_of(root2, mem2, id)[i]]
        id_valid(mem2, id) && 0 <= i < 512 && table_of(root2, mem2, id)[i].spec_is_branch() implies {
        let t = table_of(root2, mem2, id)[i].spec_target();
        &&& mem2.contains_key(t)
        &&& id_level(info, top, id) > 0
        &&& info[t].0 == id_level(info, top, id) - 1
        &&& info[t].1 == id_path(info, id).push(i as u64)
    } by {
        assert(id_valid(mem, id));
        if id == idk && i == j {
        } else if id == idk {
            assert(table_of(root2, mem2, id)[i] == table_of(root, mem, id)[i]);
            assert(table_of(root, mem, id)[i].spec_is_branch());
        } else {
            assert(table_of(root2, mem2, id) == table_of(root, mem, id));
            assert(table_of(root, mem, id)[i].spec_is_branch());
        }
    }
    assert forall|id1: Option<u64>, i1: int, id2: Option<u64>, i2: int|
        #![trigger table_of(root2, mem2, id1)[i1], table_of(root2, mem2, id2)[i2]]
        id_valid(mem2, id1) && id_valid(mem2, id2) && 0 <= i1 < 512 && 0 <= i2 < 512 && table_of(
            root2,
            mem2,
            id1,
        )[i1].spec_is_branch() && table_of(root2, mem2, id2)[i2].spec_is_branch() && table_of(
            root2,
            mem2,
            id1,
        )[i1].spec_target() == table_of(root2, mem2, id2)[i2].spec_target() implies id1 == id2
        && i1 == i2 by {
        let a = (id1 == idk && i1 == j);
        let b = (id2 == idk && i2 == j);
        if !a {
            if id1 == idk {
                assert(table_of(root2, mem2, id1)[i1] == table_of(root, mem, id1)[i1]);
            } else {
                assert(table_of(root2, mem2, id1) == table_of(root, mem, id1));
            }
        }
        if !b {
            if id2 == idk {
                assert(table_of(root2, mem2, id2)[i2] == table_of(root, mem, id2)[i2]);
            } else {
                assert(table_of(root2, mem2, id2) == table_of(root, mem, id2));
            }
        }
        if a && !b {
            assert(table_of(root, mem, id2)[i2].spec_is_branch());
        }
        if !a && b {
            assert(table_of(root, mem, id1)[i1].spec_is_branch());
        }
    }
}

/// Dropping a table that holds no branches and that nothing points at keeps the
/// tree's shape.
pub proof fn lemma_remove_closed(
    root: Seq<Entry>,
    mem: Map<u64, Seq<Entry>>,
    info: Map<u64, (nat, Seq<u64>)>,
    top: nat,
    k: u64,
)
    requires
        tree_closed(root, mem, info, top),
        branches_unique(root, mem),
        mem.contains_key(k),
        forall|id: Option<u64>, i: int|
            #![trigger table_of(root, mem, id)[i]]
            id_valid(mem, id) && 0 <= i < 512 && table_of(root, mem, id)[i].spec_is_branch()
                ==> table_of(root, mem, id)[i].spec_target() != k,
    ensures
        tree_closed(root, mem.remove(k), info, top),
        branches_unique(root, mem.remove(k)),
{
    let mem2 = mem.remove(k);
    assert forall|id: Option<u64>, i: int|
        #![trigger table_of(root, mem2, id)[i]]
        id_valid(mem2, id) && 0 <= i < 512 && table_of(root, mem2, id)[i].spec_is_branch() implies {
        let t = table_of(root, mem2, id)[i].spec_target();
        &&& mem2.contains_key(t)
        &&& id_level(info, top, id) > 0
        &&& info[t].0 == id_level(info, top, id) - 1
        &&& info[t].1 == id_path(info, id).push(i as u64)
    } by {
        assert(table_of(root, mem2, id) == table_of(root, mem, id));
        assert(table_of(root, mem, id)[i].spec_is_branch());
    }
    assert forall|id1: Option<u64>, i1: int, id2: Option<u64>, i2: int|
        #![trigger table_of(root, mem2, id1)[i1], table_of(root, mem2, id2)[i2]]
        id_valid(mem2, id1) && id_valid(mem2, id2) && 0 <= i1 < 512 && 0 <= i2 < 512 && table_of(
            root,
            mem2,
            id1,
        )[i1].spec_is_branch() && table_of(root, mem2, id2)[i2].spec_is_branch() && table_of(
            root,
            mem2,
            id1,
        )[i1].spec_target() == table_of(root, mem2, id2)[i2].spec_target() implies id1 == id2
        && i1 == i2 by {
        assert(table_of(root, mem2, id1) == table_of(root, mem, id1));
        assert(table_of(root, mem2, id2) == table_of(root, mem, id2));
    }
}

/// `q` is one of the level-`level` pages that the range from `lo` up to `hi` covers.
pub open spec fn in_page_range(q: u64, lo: u64, hi: u64, level: nat) -> bool {
    &&& lo <= q < hi
    &&& q & ((spec_page_size(level) - 1) as u64) == 0
}

/// Some level-`level` page of the range from `lo` up to `hi` holds `va`: one that
/// selects the same entries from `level` up to the root level `top`.
pub open spec fn page_covered(va: u64, lo: u64, hi: u64, level: nat, top: nat) -> bool {
    exists|q: u64| in_page_range(q, lo, hi, level) && same_page(q, va, level, top)
}

/// `start` rounded down to a level-`level` page boundary.
pub open spec fn range_lo(start: u64, level: nat) -> u64 {
    start & !((spec_page_size(level) - 1) as u64)
}

/// The frames among `s[lo..hi]`.
pub open spec fn frames_in(s: Seq<u64>, lo: int, hi: int) -> Set<u64> {
    Set::new(|k: u64| exists|i: int| lo <= i < hi && #[trigger] s[i] == k)
}

/// No frame appears twice among `s[lo..hi]`.
pub open spec fn once_each(s: Seq<u64>, lo: int, hi: int) -> bool {
    forall|i: int, j: int| lo <= i < hi && lo <= j < hi && i != j ==> #[trigger] s[i] != #[trigger] s[j]
}

/// Giving back the tables below one branch, then the branch's own table, gives back
/// each table that left the tree once.
proof fn lemma_return_step(
    p: Seq<u64>,
    q: Seq<u64>,
    c: u64,
    lo: int,
    old_dom: Set<u64>,
    pre_dom: Set<u64>,
    post_dom: Set<u64>,
)
    requires
        0 <= lo <= p.len() <= q.len(),
        q.subrange(0, p.len() as int) == p,
        frames_in(p, lo, p.len() as int) == old_dom.difference(pre_dom),
        once_each(p, lo, p.len() as int),
        frames_in(q, p.len() as int, q.len() as int) == pre_dom.difference(post_dom),
        once_each(q, p.len() as int, q.len() as int),
        post_dom.subset_of(pre_dom),
        pre_dom.subset_of(old_dom),
        post_dom.contains(c),
    ensures
        frames_in(q.push(c), lo, q.len() + 1 as int) == old_dom.difference(post_dom.remove(c)),
        once_each(q.push(c), lo, q.len() + 1 as int),
        q.push(c).subrange(0, lo) == p.subrange(0, lo),
{
    let t = q.push(c);
    let n = p.len() as int;
    assert forall|i: int| 0 <= i < n implies #[trigger] t[i] == p[i] by {
        assert(q.subrange(0, n)[i] == q[i]);
    }
    assert forall|k: u64| #[trigger] frames_in(t, lo, q.len() + 1 as int).contains(k)
        == old_dom.difference(post_dom.remove(c)).contains(k) by {
        if frames_in(t, lo, q.len() + 1 as int).contains(k) {
            let i = choose|i: int| lo <= i < q.len() + 1 && #[trigger] t[i] == k;
            if i < n {
                assert(p[i] == k);
                assert(frames_in(p, lo, n).contains(k));
            } else if i < q.len() {
                assert(q[i] == k);
                assert(frames_in(q, n, q.len() as int).contains(k));
            }
        }
        if old_dom.difference(post_dom.remove(c)).contains(k) {
            if k == c {
                assert(t[q.len() as int] == k);
            } else if !pre_dom.contains(k) {
                assert(frames_in(p, lo, n).contains(k));
                let i = choose|i: int| lo <= i < n && #[trigger] p[i] == k;
                assert(t[i] == k);
            } else {
                assert(frames_in(q, n, q.len() as int).contains(k));
                let i = choose|i: int| n <= i < q.len() && #[trigger] q[i] == k;
                assert(t[i] == k);
            }
        }
    }
    assert(frames_in(t, lo, q.len() + 1 as int) =~= old_dom.difference(post_dom.remove(c)));
    assert forall|i: int, j: int| lo <= i < q.len() + 1 && lo <= j < q.len() + 1 && i != j implies #[trigger] t[i]
        != #[trigger] t[j] by {
        if i < n {
            assert(t[i] == p[i]);
            assert(frames_in(p, lo, n).contains(p[i]));
        }
        if j < n {
            assert(t[j] == p[j]);
            assert(frames_in(p, lo, n).contains(p[j]));
        }
        if n <= i < q.len() {
            assert(t[i] == q[i]);
            assert(frames_in(q, n, q.len() as int).contains(q[i]));
        }
        if n <= j < q.len() {
            assert(t[j] == q[j]);
            assert(frames_in(q, n, q.len() as int).contains(q[j]));
        }
    }
    assert(t.subrange(0, lo) =~= p.subrange(0, lo));
}

/// How many tables the walk for `va` from table `id` at level `from` down to level
/// `to` lacks: none while it follows branches to tables, and one for each level from
/// the first invalid entry on; none past a leaf.
pub open spec fn missing_tables(
    root: Seq<Entry>,
    mem: Map<u64, Seq<Entry>>,
    id: Option<u64>,
    va: u64,
    from: nat,
    to: nat,
) -> nat
    decreases from,
{
    if from <= to {
        0
    } else {
        let e = table_of(root, mem, id)[spec_vpn(va, from) as int];
        if !spec_entry_valid(e.0) {
            (from - to) as nat
        } else if spec_flags_leaf(e.0) || !mem.contains_key(e.spec_target()) {
            0
        } else {
            missing_tables(root, mem, Some(e.spec_target()), va, (from - 1) as nat, to)
        }
    }
}

/// `a`, an answer of the frame source, is a frame a tree with tables `mem` can build a
/// new table in: page-aligned, addressable by an entry, and not a table already.
pub open spec fn usable_frame(a: Option<u64>, mem: Map<u64, Seq<Entry>>) -> bool {
    a matches Some(f) && f & 0xfff == 0 && f <= 0xff_ffff_ffff_ffff && !mem.contains_key(f)
}

/// The frames named among the answers `s[lo..hi]`.
pub open spec fn answered_frames(s: Seq<Option<u64>>, lo: int, hi: int) -> Set<u64> {
    Set::new(|k: u64| exists|i: int| lo <= i < hi && #[trigger] s[i] == Some(k))
}

/// Appending an answer leaves the frames named before it as they were, and adds its
/// own.
pub proof fn lemma_answered_push(s: Seq<Option<u64>>, a: Option<u64>, lo: int)
    requires
        0 <= lo <= s.len(),
    ensures
        answered_frames(s.push(a), lo, s.len() as int) == answered_frames(s, lo, s.len() as int),
        a matches Some(k) ==> answered_frames(s.push(a), lo, s.len() + 1 as int) == answered_frames(
            s,
            lo,
            s.len() as int,
        ).insert(k),
{
    let t = s.push(a);
    assert forall|k: u64| #[trigger] answered_frames(t, lo, s.len() as int).contains(k)
        == answered_frames(s, lo, s.len() as int).contains(k) by {
        if answered_frames(t, lo, s.len() as int).contains(k) {
            let i = choose|i: int| lo <= i < s.len() && #[trigger] t[i] == Some(k);
            assert(s[i] == Some(k));
        }
        if answered_frames(s, lo, s.len() as int).contains(k) {
            let i = choose|i: int| lo <= i < s.len() && #[trigger] s[i] == Some(k);
            assert(t[i] == Some(k));
        }
    }
    assert(answered_frames(t, lo, s.len() as int) =~= answered_frames(s, lo, s.len() as int));
    if let Some(k0) = a {
        assert forall|k: u64| #[trigger] answered_frames(t, lo, (s.len() + 1) as int).contains(k)
            == answered_frames(s, lo, s.len() as int).insert(k0).contains(k) by {
            if answered_frames(t, lo, (s.len() + 1) as int).contains(k) {
                let i = choose|i: int| lo <= i < s.len() + 1 && #[trigger] t[i] == Some(k);
                if i < s.len() {
                    assert(s[i] == Some(k));
                }
            }
            if answered_frames(s, lo, s.len() as int).contains(k) {
                let i = choose|i: int| lo <= i < s.len() && #[trigger] s[i] == Some(k);
                assert(t[i] == Some(k));
            }
            if k == k0 {
                assert(t[s.len() as int] == Some(k));
            }
        }
        assert(answered_frames(t, lo, (s.len() + 1) as int) =~= answered_frames(s, lo, s.len() as int).insert(k0));
    }
}

/// A mapping request passes its checks only with a real level, flags naming a leaf
/// whose write comes with read, and both addresses aligned to the level's page; a
/// request that is right in all but its physical address is refused for that
/// address, at every level, 4 KiB pages included.
pub proof fn lemma_validate_alignment(levels: nat, va: u64, pa: u64, level: usize, flags: u64)
    ensures
        spec_validate(levels, va, pa, level, flags) is None ==> {
            &&& level < levels
            &&& flags & 0x0e != 0
            &&& !(flags & 0x04 != 0 && flags & 0x02 == 0)
            &&& va & ((spec_page_size(level as nat) - 1) as u64) == 0
            &&& pa & ((spec_page_size(level as nat) - 1) as u64) == 0
        },
        level < levels && flags & 0x0e != 0 && !(flags & 0x04 != 0 && flags & 0x02 == 0) && va & ((
        spec_page_size(level as nat) - 1) as u64) == 0 && pa & ((spec_page_size(level as nat) - 1) as u64)
            != 0 ==> spec_validate(levels, va, pa, level, flags) == Some(
            MapError::UnalignedPhysical { paddr: PhysicalAddr(pa), page_size: spec_page_size(level as nat) },
        ),
{
}

/// `e` is an error that mapping a nonempty range of level-`level` pages with `flags`
/// can end in: the level check first, then the flag checks, and past those only what
/// the physical addresses handed out, the frame source or the tree can cause.
pub open spec fn range_refusal(levels: nat, level: usize, flags: u64, e: MapError) -> bool {
    match e {
        MapError::InvalidLevel { level: l, levels: n } => level >= levels && l == level && n == levels,
        MapError::NotALeaf => level < levels && !spec_flags_leaf(flags),
        MapError::WriteWithoutRead => level < levels && spec_flags_leaf(flags) && !spec_flags_legal(flags),
        MapError::UnalignedVirtual { .. } => false,
        _ => level < levels && spec_flags_leaf(flags) && spec_flags_legal(flags),
    }
}

/// Every physical address `translate` can give is aligned to a level-`level` page.
pub open spec fn gives_aligned<T: Fn(VirtualAddr) -> PhysicalAddr>(translate: T, level: nat) -> bool {
    forall|v: VirtualAddr, p: PhysicalAddr| #[trigger] translate.ensures((v,), p)
        ==> p.0 & ((spec_page_size(level) - 1) as u64) == 0
}

/// `end` rounded up to a level-`level` page boundary.
pub open spec fn range_hi(end: u64, level: nat) -> u64 {
    ((end + spec_page_size(level) - 1) as u64) & !((spec_page_size(level) - 1) as u64)
}

/// Stepping from one aligned address to the next stays aligned, and below an aligned
/// bound, and skips no aligned address.
pub proof fn lemma_page_step(va: u64, hi: u64, q: u64, level: nat)
    requires
        level < MAX_LEVELS,
        va & ((spec_page_size(level) - 1) as u64) == 0,
        hi & ((spec_page_size(level) - 1) as u64) == 0,
        va < hi,
    ensures
        va + spec_page_size(level) <= hi,
        ((va + spec_page_size(level)) as u64) & ((spec_page_size(level) - 1) as u64) == 0,
        q & ((spec_page_size(level) - 1) as u64) == 0 && va <= q < va + spec_page_size(level)
            ==> q == va,
{
    assert((va & 0xfff == 0 && hi & 0xfff == 0 && va < hi ==> va + 0x1000 <= hi && ((va
            + 0x1000) as u64) & 0xfff == 0 && (q & 0xfff == 0 && va <= q < va + 0x1000 ==> q
            == va)) && (va & 0x1f_ffff == 0 && hi & 0x1f_ffff == 0 && va < hi ==> va + 0x20_0000 <= hi
            && ((va + 0x20_0000) as u64) & 0x1f_ffff == 0 && (q & 0x1f_ffff == 0 && va <= q < va
            + 0x20_0000 ==> q == va)) && (va & 0x3fff_ffff == 0 && hi & 0x3fff_ffff == 0 && va < hi ==> va + 0x4000_0000
            <= hi && ((va + 0x4000_0000) as u64) & 0x3fff_ffff == 0 && (q & 0x3fff_ffff == 0 && va
            <= q < va + 0x4000_0000 ==> q == va)) && (va & 0x7f_ffff_ffff == 0 && hi & 0x7f_ffff_ffff == 0 && va < hi ==> va
            + 0x80_0000_0000 <= hi && ((va + 0x80_0000_0000) as u64) & 0x7f_ffff_ffff == 0 && (q
            & 0x7f_ffff_ffff == 0 && va <= q < va + 0x80_0000_0000 ==> q == va)) && (va & 0xffff_ffff_ffff == 0 && hi & 0xffff_ffff_ffff == 0 && va < hi ==> va
            + 0x1_0000_0000_0000 <= hi && ((va + 0x1_0000_0000_0000) as u64) & 0xffff_ffff_ffff
            == 0 && (q & 0xffff_ffff_ffff == 0 && va <= q < va + 0x1_0000_0000_0000 ==> q == va))) by (bit_vector);
}

/// A page-table tree plus the policy needed to grow and shrink it.
///
/// `S` is a compile-time marker: which scheme a tree is built for is fixed when it is
/// created. The intermediate tables live in frames the [`FrameSource`] hands out, and
/// the mapper holds them, keyed by those frames' physical addresses.
pub struct Mapper<S, F> {
    root: Table,
    frames: F,
    tables: HashMapWithView<u64, Table>,
    info: Ghost<Map<u64, (nat, Seq<u64>)>>,
    asked: Ghost<Seq<Option<u64>>>,
    returned: Ghost<Seq<u64>>,
    scheme: PhantomData<S>,
}

impl<S: Scheme, F: FrameSource> Mapper<S, F> {
    /// The root level of the scheme.
    pub open spec fn top() -> nat {
        (S::spec_levels() - 1) as nat
    }

    /// The root table's entries.
    pub closed spec fn root_entries(&self) -> Seq<Entry> {
        self.root.entries@
    }

    /// The intermediate tables, by the physical address of their frame.
    pub closed spec fn mem(&self) -> Map<u64, Seq<Entry>> {
        Map::new(|k: u64| self.tables@.contains_key(k), |k: u64| self.tables@[k].entries@)
    }

    /// The frame source.
    pub closed spec fn source(&self) -> F {
        self.frames
    }

    /// Every answer the frame source gave this mapper's requests for a frame, in
    /// order, each as the frame's address.
    pub closed spec fn answers(&self) -> Seq<Option<u64>> {
        self.asked@
    }

    /// Every frame this mapper gave back to the frame source, in order.
    pub closed spec fn returned(&self) -> Seq<u64> {
        self.returned@
    }

    /// What became of the frames asked for since `before`: none was given back; each
    /// answer but, when the mapping ran out of frames (`oof`), the last, was a frame
    /// that held no table and now holds one; that last answer was no frame a table
    /// could be built in; and the tables are those of `before` and those frames.
    pub open spec fn took_frames(&self, before: Self, oof: bool) -> bool {
        let n0 = before.answers().len() as int;
        let n = self.answers().len() as int;
        let end = if oof { n - 1 } else { n };
        &&& self.returned() == before.returned()
        &&& n0 <= n
        &&& self.answers().subrange(0, n0) == before.answers()
        &&& oof ==> n > n0 && !usable_frame(self.answers().last(), self.mem())
        &&& forall|i: int|
            n0 <= i < end ==> {
                &&& #[trigger] self.answers()[i] is Some
                &&& !before.mem().contains_key(self.answers()[i]->0)
            }
        &&& self.mem().dom() == before.mem().dom().union(answered_frames(self.answers(), n0, end))
    }

    /// Asking for no frame takes none.
    pub proof fn lemma_took_none(&self)
        ensures
            self.took_frames(*self, false),
    {
        let n = self.answers().len() as int;
        assert(self.answers().subrange(0, n) =~= self.answers());
        assert(answered_frames(self.answers(), n, n) =~= Set::<u64>::empty());
        assert(self.mem().dom().union(answered_frames(self.answers(), n, n)) =~= self.mem().dom());
    }

    /// Frames taken in two steps, the first of which did not run out, are taken in one.
    pub proof fn lemma_took_trans(&self, mid: Self, before: Self, oof: bool)
        requires
            mid.took_frames(before, false),
            self.took_frames(mid, oof),
        ensures
            self.took_frames(before, oof),
    {
        let s = self.answers();
        let na = before.answers().len() as int;
        let nb = mid.answers().len() as int;
        let n = s.len() as int;
        let end = if oof { n - 1 } else { n };
        assert forall|i: int| 0 <= i < nb implies #[trigger] s[i] == mid.answers()[i] by {
            assert(s.subrange(0, nb)[i] == s[i]);
        }
        assert(s.subrange(0, na) =~= before.answers()) by {
            assert forall|i: int| 0 <= i < na implies s.subrange(0, na)[i] == before.answers()[i] by {
                assert(mid.answers().subrange(0, na)[i] == mid.answers()[i]);
            }
        }
        assert forall|i: int| na <= i < end implies {
            &&& #[trigger] s[i] is Some
            &&& !before.mem().contains_key(s[i]->0)
        } by {
            if i < nb {
                assert(mid.answers()[i] is Some);
            } else {
                assert(!mid.mem().contains_key(s[i]->0));
                if before.mem().contains_key(s[i]->0) {
                    assert(mid.mem().dom().contains(s[i]->0));
                }
            }
        }
        assert forall|k: u64| #[trigger] answered_frames(s, na, end).contains(k) == (answered_frames(
            mid.answers(),
            na,
            nb,
        ).contains(k) || answered_frames(s, nb, end).contains(k)) by {
            if answered_frames(s, na, end).contains(k) {
                let i = choose|i: int| na <= i < end && #[trigger] s[i] == Some(k);
                if i < nb {
                    assert(mid.answers()[i] == Some(k));
                } else {
                    assert(s[i] == Some(k));
                }
            }
            if answered_frames(mid.answers(), na, nb).contains(k) {
                let i = choose|i: int| na <= i < nb && #[trigger] mid.answers()[i] == Some(k);
                assert(s[i] == Some(k));
            }
            if answered_frames(s, nb, end).contains(k) {
                let i = choose|i: int| nb <= i < end && #[trigger] s[i] == Some(k);
                assert(s[i] == Some(k));
            }
        }
        assert(self.mem().dom() =~= before.mem().dom().union(answered_frames(s, na, end)));
    }

    /// The tree is well formed.
    pub closed spec fn inv(&self) -> bool {
        &&& 3 <= S::spec_levels() <= 5
        &&& self.root.wf()
        &&& tree_closed(self.root_entries(), self.mem(), self.info@, Self::top())
        &&& branches_unique(self.root_entries(), self.mem())
    }

    /// The leaf the hardware walk for `va` ends on, with its level.
    pub open spec fn lookup(&self, va: u64) -> Option<(Entry, nat)> {
        spec_walk(self.root_entries(), self.mem(), None, va, Self::top())
    }

    /// The physical address the tree translates `va` to.
    pub open spec fn spec_translate(&self, va: u64) -> Option<u64> {
        match self.lookup(va) {
            Some((e, l)) => Some(spec_leaf_to_phys(e, va, l)),
            None => None,
        }
    }

    /// Once a leaf for the frame of `pa` covers `va` at `level`, as `map` and
    /// `map_at_level` install one, `va` translates to `pa` plus its offset in the page.
    pub proof fn lemma_translate_mapped(&self, va: u64, pa: u64, flags: u64, level: nat)
        requires
            self.lookup(va) == Some((spec_leaf_entry(pa, flags), level)),
            level < MAX_LEVELS,
            pa & ((spec_page_size(level) - 1) as u64) == 0,
            pa <= 0xff_ffff_ffff_ffff,
        ensures
            self.spec_translate(va) == Some((pa + (va & ((spec_page_size(level) - 1) as u64))) as u64),
    {
        lemma_leaf_translation(pa, flags, va, level);
    }

    /// Mapping a 4 KiB page where nothing was mapped and unmapping it again leaves every
    /// address looking up as it did before: `mid` is what `map` left, `self` what
    /// `unmap` of the same address then left.
    pub proof fn lemma_unmap_undoes_map(&self, mid: &Self, before: &Self, va: u64, pa: u64, flags: u64)
        requires
            forall|va2: u64| same_page(va, va2, 0, Self::top()) ==> #[trigger] before.lookup(va2) is None,
            forall|va2: u64| #[trigger]
                mid.lookup(va2) == if same_page(va, va2, 0, Self::top()) {
                    Some((spec_leaf_entry(pa, flags), 0nat))
                } else {
                    before.lookup(va2)
                },
            match mid.lookup(va) {
                Some((_e, l)) => forall|va2: u64| #[trigger]
                    self.lookup(va2) == if same_page(va, va2, l, Self::top()) {
                        None
                    } else {
                        mid.lookup(va2)
                    },
                None => forall|va2: u64| #[trigger] self.lookup(va2) == mid.lookup(va2),
            },
        ensures
            forall|va2: u64| #[trigger] self.lookup(va2) == before.lookup(va2),
    {
        assert(same_page(va, va, 0, Self::top()));
        assert(mid.lookup(va) == Some((spec_leaf_entry(pa, flags), 0nat)));
        assert forall|va2: u64| #[trigger] self.lookup(va2) == before.lookup(va2) by {
            assert(mid.lookup(va2) == if same_page(va, va2, 0, Self::top()) {
                Some((spec_leaf_entry(pa, flags), 0nat))
            } else {
                before.lookup(va2)
            });
            if same_page(va, va2, 0, Self::top()) {
                assert(before.lookup(va2) is None);
            }
        }
    }

    /// An address whose page is not mapped, as after `unmap`, translates to nothing.
    pub proof fn lemma_translate_unmapped(&self, va: u64)
        requires
            self.lookup(va) is None,
        ensures
            self.spec_translate(va) is None,
    {
    }

    /// Bind `root` to a scheme and a frame source.
    ///
    /// The root may already hold leaves (a boot table built from gigapages), but no
    /// branches: the tables below a root are the mapper's to build.
    pub fn new(root: Table, frames: F) -> (r: Self)
        requires
            root.wf(),
            forall|i: int| 0 <= i < 512 ==> !(#[trigger] root.entries@[i]).spec_is_branch(),
        ensures
            r.inv(),
            r.root_entries() == root.entries@,
            r.mem() == Map::<u64, Seq<Entry>>::empty(),
            r.source() == frames,
            r.answers() == Seq::<Option<u64>>::empty(),
            r.returned() == Seq::<u64>::empty(),
    {
        let _levels = S::levels();
        let tables = HashMapWithView::<u64, Table>::new();
        let r = Mapper {
            root,
            frames,
            tables,
            info: Ghost(Map::empty()),
            asked: Ghost(Seq::empty()),
            returned: Ghost(Seq::empty()),
            scheme: PhantomData,
        };
        assert(r.mem() =~= Map::<u64, Seq<Entry>>::empty());
        r
    }

    /// Borrow the frame source.
    pub fn frames(&self) -> (r: &F)
        ensures
            *r == self.source(),
    {
        &self.frames
    }

    /// Borrow the frame source mutably, for callers that share one allocator.
    pub fn frames_mut(&mut self) -> (r: &mut F)
        ensures
            *r == old(self).source(),
            final(self).root_entries() == old(self).root_entries(),
            final(self).mem() == old(self).mem(),
            final(self).inv() == old(self).inv(),
            final(self).source() == *final(r),
            final(self).answers() == old(self).answers(),
            final(self).returned() == old(self).returned(),
    {
        &mut self.frames
    }

    /// The root table.
    pub fn root(&self) -> (r: &Table)
        ensures
            r.entries@ == self.root_entries(),
    {
        &self.root
    }

    /// Number of intermediate tables the tree holds.
    pub fn table_count(&self) -> (r: usize)
        ensures
            r == self.mem().dom().len(),
    {
        assert(self.mem().dom() =~= self.tables@.dom());
        self.tables.len()
    }

    /// Entry `index` of table `id`.
    fn entry_at(&self, id: Option<u64>, index: usize) -> (e: Entry)
        requires
            self.inv(),
            id_valid(self.mem(), id),
            index < 512,
        ensures
            e == table_of(self.root_entries(), self.mem(), id)[index as int],
    {
        match id {
            None => self.root.entries[index],
            Some(k) => {
                assert(self.mem().contains_key(k));
                match self.tables.get(&k) {
                    Some(t) => t.entries[index],
                    None => Entry::empty(),
                }
            },
        }
    }

    /// Replace entry `index` of table `id` with `e`.
    fn set_entry(&mut self, id: Option<u64>, index: usize, e: Entry)
        requires
            old(self).root.wf(),
            tree_closed(old(self).root_entries(), old(self).mem(), old(self).info@, Self::top()),
            id_valid(old(self).mem(), id),
            index < 512,
        ensures
            is_entry_update(
                old(self).root_entries(),
                old(self).mem(),
                final(self).root_entries(),
                final(self).mem(),
                id,
                index as int,
                e,
            ),
            final(self).root.wf(),
            final(self).info == old(self).info,
            final(self).source() == old(self).source(),
            final(self).answers() == old(self).answers(),
            final(self).returned() == old(self).returned(),
            forall|k: u64| #[trigger]
                final(self).mem().contains_key(k) ==> final(self).mem()[k].len() == 512,
    {
        let ghost old_mem = self.mem();
        let ghost old_root = self.root_entries();
        match id {
            None => {
                self.root.entries.set(index, e);
                assert(self.mem() =~= old_mem);
            },
            Some(k) => {
                let removed = self.tables.remove(&k);
                match removed {
                    Some(t) => {
                        let mut t = t;
                        t.entries.set(index, e);
                        self.tables.insert(k, t);
                    },
                    None => {},
                }
                assert(self.mem() =~= old_mem.insert(k, old_mem[k].update(index as int, e)));
            },
        }
        assert(self.mem().dom() =~= old_mem.dom());
    }

    /// Find the leaf entry that maps `vaddr`, with the level it was found at.
    ///
    /// Returns `None` if the walk hits an invalid entry, or a branch where a leaf must be.
    pub fn entry_of(&self, vaddr: VirtualAddr) -> (r: Option<(Entry, usize)>)
        requires
            self.inv(),
        ensures
            match self.lookup(vaddr.0) {
                Some((e, l)) => r == Some((e, l as usize)),
                None => r is None,
            },
            r matches Some((_e, l)) ==> l <= Self::top() && l < MAX_LEVELS,
            r matches Some((e, l)) ==> self.lookup(vaddr.0) == Some((e, l as nat)),
    {
        let mut id: Option<u64> = None;
        let mut level: usize = S::levels() - 1;
        loop
            invariant
                self.inv(),
                id_valid(self.mem(), id),
                level <= Self::top(),
                self.lookup(vaddr.0) == spec_walk(
                    self.root_entries(),
                    self.mem(),
                    id,
                    vaddr.0,
                    level as nat,
                ),
            decreases level,
        {
            let index = vpn::<S>(vaddr, level);
            let entry = self.entry_at(id, index);
            if !entry.is_valid() {
                return None;
            }
            if entry.is_leaf() {
                return Some((entry, level));
            }
            if level == 0 {
                return None;
            }
            let target = entry.target();
            if !self.tables.contains_key(&target.0) {
                return None;
            }
            id = Some(target.0);
            level = level - 1;
        }
    }

    /// Translate a virtual address, honouring leaf mappings at any level.
    pub fn translate(&self, vaddr: VirtualAddr) -> (r: Option<PhysicalAddr>)
        requires
            self.inv(),
        ensures
            match self.spec_translate(vaddr.0) {
                Some(p) => r == Some(PhysicalAddr(p)),
                None => r is None,
            },
    {
        proof {
            lemma_walk_level(self.root_entries(), self.mem(), None, vaddr.0, Self::top());
        }
        match self.entry_of(vaddr) {
            Some((entry, level)) => Some(leaf_to_phys(entry, vaddr, level)),
            None => None,
        }
    }

    /// Add an all-invalid table in frame `k`, recording it at `lvl` on `path`.
    fn insert_table(&mut self, k: u64, Ghost(lvl): Ghost<nat>, Ghost(path): Ghost<Seq<u64>>)
        requires
            old(self).inv(),
            !old(self).mem().contains_key(k),
            k & 0xfff == 0,
            k <= 0xff_ffff_ffff_ffff,
            lvl < Self::top(),
        ensures
            final(self).inv(),
            final(self).root_entries() == old(self).root_entries(),
            final(self).mem() == old(self).mem().insert(k, Seq::new(512, |i: int| Entry(0))),
            final(self).info@ == old(self).info@.insert(k, (lvl, path)),
            final(self).source() == old(self).source(),
            final(self).answers() == old(self).answers(),
            final(self).returned() == old(self).returned(),
            forall|id: Option<u64>, i: int|
                #![trigger table_of(final(self).root_entries(), final(self).mem(), id)[i]]
                id_valid(final(self).mem(), id) && 0 <= i < 512 && table_of(
                    final(self).root_entries(),
                    final(self).mem(),
                    id,
                )[i].spec_is_branch() ==> table_of(final(self).root_entries(), final(self).mem(), id)[i].spec_target()
                    != k,
    {
        let ghost z = Seq::new(512, |i: int| Entry(0));
        proof {
            lemma_insert_closed(
                self.root_entries(),
                self.mem(),
                self.info@,
                Self::top(),
                k,
                z,
                lvl,
                path,
            );
        }
        let ghost old_mem = self.mem();
        let t = Table::new();
        assert(t.entries@ =~= z);
        self.tables.insert(k, t);
        self.info = Ghost(self.info@.insert(k, (lvl, path)));
        assert(self.mem() =~= old_mem.insert(k, z));
    }

    /// Map one page of the size `level` selects: 4 KiB (0), 2 MiB (1), 1 GiB (2), and
    /// so on up to the root.
    ///
    /// Intermediate tables are created for every level above `level`, so a root-level
    /// mapping never touches the frame source. `VALID` is applied automatically;
    /// `flags` must name at least one of R/W/X.
    ///
    /// On [`MapError::OutOfFrames`] the intermediate tables already created are left in
    /// place; they are empty, so no translation changes.
    pub fn map_at_level(
        &mut self,
        vaddr: VirtualAddr,
        paddr: PhysicalAddr,
        level: usize,
        flags: PteFlags,
    ) -> (r: Result<(), MapError>)
        requires
            old(self).inv(),
        ensures
            final(self).inv(),
            spec_validate(S::spec_levels(), vaddr.0, paddr.0, level, flags.bits) matches Some(err)
                ==> r == Err::<(), MapError>(err) && final(self).root_entries()
                == old(self).root_entries() && final(self).mem() == old(self).mem()
                && final(self).source() == old(self).source(),
            spec_validate(S::spec_levels(), vaddr.0, paddr.0, level, flags.bits) is None ==> {
                &&& (spec_blocking_leaf(
                    old(self).root_entries(),
                    old(self).mem(),
                    None,
                    vaddr.0,
                    Self::top(),
                    level as nat,
                ) matches Some(l) ==> r == Err::<(), MapError>(
                    MapError::SuperpageInPath { level: l as usize },
                ))
                &&& (spec_blocking_leaf(
                    old(self).root_entries(),
                    old(self).mem(),
                    None,
                    vaddr.0,
                    Self::top(),
                    level as nat,
                ) is None && spec_path_complete(
                    old(self).root_entries(),
                    old(self).mem(),
                    None,
                    vaddr.0,
                    Self::top(),
                    level as nat,
                ) ==> r is Ok)
                &&& (r is Err ==> r == Err::<(), MapError>(MapError::OutOfFrames) || r matches Err(
                    MapError::SuperpageInPath { .. },
                ))
            },
            r is Ok ==> forall|va2: u64| #[trigger]
                final(self).lookup(va2) == if same_page(vaddr.0, va2, level as nat, Self::top()) {
                    Some((spec_leaf_entry(paddr.0, flags.bits), level as nat))
                } else {
                    old(self).lookup(va2)
                },
            r is Err ==> forall|va2: u64| #[trigger] final(self).lookup(va2) == old(self).lookup(va2),
            old(self).mem().dom().subset_of(final(self).mem().dom()),
            final(self).took_frames(*old(self), r == Err::<(), MapError>(MapError::OutOfFrames)),
            r is Ok ==> {
                &&& level < S::spec_levels()
                &&& flags.bits & 0x0e != 0
                &&& !(flags.bits & 0x04 != 0 && flags.bits & 0x02 == 0)
                &&& vaddr.0 & ((spec_page_size(level as nat) - 1) as u64) == 0
                &&& paddr.0 & ((spec_page_size(level as nat) - 1) as u64) == 0
            },
            level < S::spec_levels() && flags.bits & 0x0e != 0 && !(flags.bits & 0x04 != 0 && flags.bits & 0x02 == 0)
                && vaddr.0 & ((spec_page_size(level as nat) - 1) as u64) == 0 && paddr.0 & ((spec_page_size(
                level as nat,
            ) - 1) as u64) != 0 ==> r == Err::<(), MapError>(
                MapError::UnalignedPhysical { paddr, page_size: spec_page_size(level as nat) },
            ) && forall|va2: u64| #[trigger] final(self).lookup(va2) == old(self).lookup(va2),
            final(self).returned() == old(self).returned(),
            old(self).answers().len() <= final(self).answers().len(),
            r is Ok ==> final(self).answers().len() == old(self).answers().len() + missing_tables(
                old(self).root_entries(),
                old(self).mem(),
                None,
                vaddr.0,
                Self::top(),
                level as nat,
            ),
            final(self).answers().subrange(0, old(self).answers().len() as int) == old(self).answers(),
            spec_validate(S::spec_levels(), vaddr.0, paddr.0, level, flags.bits) is Some
                ==> final(self).answers() == old(self).answers(),
            r == Err::<(), MapError>(MapError::OutOfFrames) ==> {
                &&& final(self).answers().len() > old(self).answers().len()
                &&& !usable_frame(final(self).answers().last(), final(self).mem())
            },
            forall|i: int|
                old(self).answers().len() <= i < final(self).answers().len() && !(r == Err::<
                    (),
                    MapError,
                >(MapError::OutOfFrames) && i == final(self).answers().len() - 1) ==> {
                    &&& #[trigger] final(self).answers()[i] is Some
                    &&& !old(self).mem().contains_key(final(self).answers()[i]->0)
                },
            final(self).mem().dom() == old(self).mem().dom().union(
                answered_frames(
                    final(self).answers(),
                    old(self).answers().len() as int,
                    if r == Err::<(), MapError>(MapError::OutOfFrames) {
                        final(self).answers().len() - 1
                    } else {
                        final(self).answers().len() as int
                    },
                ),
            ),
    {
        let levels = S::levels();
        match validate(levels, vaddr, paddr, level, flags) {
            Err(e) => {
                proof {
                    self.lemma_took_none();
                }
                return Err(e);
            },
            Ok(()) => {},
        }
        let ghost old_root = self.root_entries();
        let ghost old_mem = self.mem();
        let ghost top = Self::top();
        let ghost va = vaddr.0;
        let mut cur: Option<u64> = None;
        let mut current: usize = levels - 1;
        let ghost mut allocated = false;
        let ghost a0 = self.answers();
        assert(va_path(va, top, top) == Seq::<u64>::empty());
        assert(answered_frames(a0, a0.len() as int, a0.len() as int) =~= Set::<u64>::empty());
        assert(old_mem.dom().union(answered_frames(a0, a0.len() as int, a0.len() as int)) =~= old_mem.dom());
        assert(a0.subrange(0, a0.len() as int) =~= a0);
        while current > level
            invariant
                self.inv(),
                a0 == old(self).answers(),
                self.returned() == old(self).returned(),
                a0.len() <= self.answers().len(),
                self.answers().subrange(0, a0.len() as int) == a0,
                forall|i: int|
                    a0.len() <= i < self.answers().len() ==> {
                        &&& #[trigger] self.answers()[i] is Some
                        &&& !old_mem.contains_key(self.answers()[i]->0)
                    },
                self.mem().dom() == old_mem.dom().union(
                    answered_frames(self.answers(), a0.len() as int, self.answers().len() as int),
                ),
                !allocated ==> self.answers() == a0 && missing_tables(old_root, old_mem, None, va, top, level as nat)
                    == missing_tables(old_root, old_mem, cur, va, current as nat, level as nat),
                allocated ==> self.answers().len() - a0.len() + (current - level) == missing_tables(
                    old_root,
                    old_mem,
                    None,
                    va,
                    top,
                    level as nat,
                ),
                level < levels,
                levels == S::spec_levels(),
                top == Self::top(),
                level <= current <= top,
                old_root == old(self).root_entries(),
                old_mem == old(self).mem(),
                va == vaddr.0,
                spec_validate(S::spec_levels(), vaddr.0, paddr.0, level, flags.bits) is None,
                id_valid(self.mem(), cur),
                id_level(self.info@, top, cur) == current,
                id_path(self.info@, cur) == va_path(va, top, current as nat),
                spec_walk_reaches(
                    self.root_entries(),
                    self.mem(),
                    None,
                    va,
                    top,
                    cur,
                    current as nat,
                ),
                forall|va2: u64|
                    #[trigger] spec_walk(self.root_entries(), self.mem(), None, va2, top)
                        == spec_walk(old_root, old_mem, None, va2, top),
                old_mem.dom().subset_of(self.mem().dom()),
                !allocated ==> {
                    &&& self.root_entries() == old_root
                    &&& self.mem() == old_mem
                    &&& spec_blocking_leaf(old_root, old_mem, None, va, top, level as nat)
                        == spec_blocking_leaf(old_root, old_mem, cur, va, current as nat, level as nat)
                    &&& spec_path_complete(old_root, old_mem, None, va, top, level as nat)
                        == spec_path_complete(old_root, old_mem, cur, va, current as nat, level as nat)
                },
                allocated ==> {
                    &&& spec_blocking_leaf(old_root, old_mem, None, va, top, level as nat) is None
                    &&& !spec_path_complete(old_root, old_mem, None, va, top, level as nat)
                    &&& forall|i: int|
                        0 <= i < 512 ==> #[trigger] table_of(self.root_entries(), self.mem(), cur)[i]
                            == Entry(0)
                },
            decreases current,
        {
            let index = vpn::<S>(vaddr, current);
            let existing = self.entry_at(cur, index);
            let ghost pre_root = self.root_entries();
            let ghost pre_mem = self.mem();
            let ghost pre_info = self.info@;
            let child: u64;
            if !existing.is_valid() {
                proof {
                    if !allocated {
                        assert(missing_tables(old_root, old_mem, cur, va, current as nat, level as nat)
                            == current - level);
                    }
                }
                let answer = self.frames.alloc_zeroed();
                let ghost s0 = self.asked@;
                self.asked = Ghost(
                    self.asked@.push(
                        match answer {
                            Some(f) => Some(f.0),
                            None => None,
                        },
                    ),
                );
                proof {
                    lemma_answered_push(s0, self.asked@.last(), a0.len() as int);
                    assert(self.asked@.subrange(0, a0.len() as int) =~= s0.subrange(0, a0.len() as int));
                }
                let frame = match answer {
                    Some(f) => f,
                    None => return Err(MapError::OutOfFrames),
                };
                if frame.0 & 0xfff != 0 || frame.0 > 0xff_ffff_ffff_ffff || self.tables.contains_key(
                    &frame.0,
                ) {
                    return Err(MapError::OutOfFrames);
                }
                assert(!self.mem().contains_key(frame.0));
                let ghost child_path = va_path(va, top, (current - 1) as nat);
                proof {
                    lemma_va_path_step(va, top, (current - 1) as nat);
                }
                self.insert_table(frame.0, Ghost((current - 1) as nat), Ghost(child_path));
                let ghost mid_root = self.root_entries();
                let ghost mid_mem = self.mem();
                proof {
                    assert forall|va2: u64|
                        #[trigger] spec_walk(mid_root, mid_mem, None, va2, top) == spec_walk(
                            pre_root,
                            pre_mem,
                            None,
                            va2,
                            top,
                        ) by {
                        lemma_insert_unseen(
                            pre_root,
                            pre_mem,
                            pre_info,
                            top,
                            frame.0,
                            Seq::new(512, |i: int| Entry(0)),
                            None,
                            va2,
                            top,
                        );
                    }
                    lemma_insert_unseen(
                        pre_root,
                        pre_mem,
                        pre_info,
                        top,
                        frame.0,
                        Seq::new(512, |i: int| Entry(0)),
                        None,
                        va,
                        top,
                    );
                    assert(spec_walk_reaches(mid_root, mid_mem, None, va, top, cur, current as nat));
                    assert(table_of(mid_root, mid_mem, cur) == table_of(pre_root, pre_mem, cur));
                }
                let branch = Entry::branch(frame);
                proof {
                    crate::pte::lemma_target_of_aligned(frame.0);
                    assert(branch.spec_target() == frame.0);
                    assert(!table_of(mid_root, mid_mem, cur)[index as int].spec_is_branch());
                }
                self.set_entry(cur, index, branch);
                proof {
                    let new_root = self.root_entries();
                    let new_mem = self.mem();
                    let info = self.info@;
                    lemma_update_closed(
                        mid_root,
                        mid_mem,
                        info,
                        top,
                        new_root,
                        new_mem,
                        cur,
                        index as int,
                        branch,
                    );
                    assert forall|va2: u64|
                        #[trigger] spec_walk(new_root, new_mem, None, va2, top) == spec_walk(
                            mid_root,
                            mid_mem,
                            None,
                            va2,
                            top,
                        ) by {
                        if id_path(info, cur) == va_path(va2, top, current as nat) && spec_vpn(
                            va2,
                            current as nat,
                        ) == index {
                            lemma_va_path_eq(va, va2, top, current as nat);
                            lemma_reach_same_prefix(
                                mid_root,
                                mid_mem,
                                None,
                                va,
                                va2,
                                top,
                                cur,
                                current as nat,
                            );
                            lemma_reach_walk(mid_root, mid_mem, None, va2, top, cur, current as nat);
                            lemma_update_keeps_reach(
                                mid_root,
                                mid_mem,
                                info,
                                top,
                                new_root,
                                new_mem,
                                cur,
                                index as int,
                                branch,
                                None,
                                va2,
                                top,
                                current as nat,
                            );
                            lemma_reach_walk(new_root, new_mem, None, va2, top, cur, current as nat);
                            assert(table_of(new_root, new_mem, Some(frame.0))[spec_vpn(
                                va2,
                                (current - 1) as nat,
                            ) as int] == Entry(0)) by {
                                crate::addr::lemma_vpn_bound(va2, (current - 1) as nat);
                                assert(table_of(new_root, new_mem, Some(frame.0)) == table_of(
                                    mid_root,
                                    mid_mem,
                                    Some(frame.0),
                                ));
                            }
                            lemma_empty_entry_bits();
                            reveal_with_fuel(spec_walk, 2);
                        } else {
                            lemma_update_unseen(
                                mid_root,
                                mid_mem,
                                info,
                                top,
                                new_root,
                                new_mem,
                                cur,
                                index as int,
                                branch,
                                None,
                                va2,
                                top,
                            );
                        }
                    }
                    lemma_update_keeps_reach(
                        mid_root,
                        mid_mem,
                        info,
                        top,
                        new_root,
                        new_mem,
                        cur,
                        index as int,
                        branch,
                        None,
                        va,
                        top,
                        current as nat,
                    );
                    assert(table_of(new_root, new_mem, cur)[index as int] == branch);
                    lemma_reach_extend(new_root, new_mem, None, va, top, cur, current as nat);
                    assert forall|i: int| 0 <= i < 512 implies #[trigger] table_of(
                        new_root,
                        new_mem,
                        Some(frame.0),
                    )[i] == Entry(0) by {
                        assert(table_of(new_root, new_mem, Some(frame.0)) == table_of(
                            mid_root,
                            mid_mem,
                            Some(frame.0),
                        ));
                    }
                    if !allocated {
                        assert(spec_blocking_leaf(pre_root, pre_mem, cur, va, current as nat, level as nat) is None);
                        assert(!spec_path_complete(pre_root, pre_mem, cur, va, current as nat, level as nat));
                    }
                    allocated = true;
                }
                child = frame.0;
            } else if existing.is_leaf() {
                proof {
                    if allocated {
                        lemma_empty_entry_bits();
                    }
                }
                return Err(MapError::SuperpageInPath { level: current });
            } else {
                proof {
                    if allocated {
                        lemma_empty_entry_bits();
                    }
                    assert(table_of(pre_root, pre_mem, cur)[index as int].spec_is_branch());
                    lemma_reach_extend(pre_root, pre_mem, None, va, top, cur, current as nat);
                    lemma_va_path_step(va, top, (current - 1) as nat);
                }
                child = existing.target().0;
            }
            cur = Some(child);
            current = current - 1;
        }
        let index = vpn::<S>(vaddr, level);
        let leaf = Entry::leaf(paddr, flags);
        let ghost pre_root = self.root_entries();
        let ghost pre_mem = self.mem();
        let ghost info = self.info@;
        self.set_entry(cur, index, leaf);
        proof {
            let new_root = self.root_entries();
            let new_mem = self.mem();
            lemma_update_closed(pre_root, pre_mem, info, top, new_root, new_mem, cur, index as int, leaf);
            assert forall|va2: u64| #[trigger]
                spec_walk(new_root, new_mem, None, va2, top) == if same_page(va, va2, level as nat, top) {
                    Some((spec_leaf_entry(paddr.0, flags.bits), level as nat))
                } else {
                    spec_walk(old_root, old_mem, None, va2, top)
                } by {
                lemma_va_path_eq(va, va2, top, level as nat);
                if same_page(va, va2, level as nat, top) {
                    assert(spec_vpn(va, level as nat) == spec_vpn(va2, level as nat));
                    lemma_reach_same_prefix(pre_root, pre_mem, None, va, va2, top, cur, level as nat);
                    lemma_update_keeps_reach(
                        pre_root,
                        pre_mem,
                        info,
                        top,
                        new_root,
                        new_mem,
                        cur,
                        index as int,
                        leaf,
                        None,
                        va2,
                        top,
                        level as nat,
                    );
                    lemma_reach_walk(new_root, new_mem, None, va2, top, cur, level as nat);
                    assert(table_of(new_root, new_mem, cur)[index as int] == leaf);
                } else {
                    if id_path(info, cur) == va_path(va2, top, level as nat) && spec_vpn(
                        va2,
                        level as nat,
                    ) == index {
                        assert forall|l: nat| level <= l <= top implies #[trigger] spec_vpn(va, l)
                            == spec_vpn(va2, l) by {
                            if l > level {
                            }
                        }
                        assert(false);
                    }
                    lemma_update_unseen(
                        pre_root,
                        pre_mem,
                        info,
                        top,
                        new_root,
                        new_mem,
                        cur,
                        index as int,
                        leaf,
                        None,
                        va2,
                        top,
                    );
                }
            }
        }
        Ok(())
    }

    /// Map a single 4 KiB page `vaddr -> paddr`.
    pub fn map(&mut self, vaddr: VirtualAddr, paddr: PhysicalAddr, flags: PteFlags) -> (r: Result<
        (),
        MapError,
    >)
        requires
            old(self).inv(),
        ensures
            final(self).inv(),
            spec_validate(S::spec_levels(), vaddr.0, paddr.0, 0, flags.bits) matches Some(err) ==> r
                == Err::<(), MapError>(err),
            r is Ok ==> forall|va2: u64| #[trigger]
                final(self).lookup(va2) == if same_page(vaddr.0, va2, 0, Self::top()) {
                    Some((spec_leaf_entry(paddr.0, flags.bits), 0nat))
                } else {
                    old(self).lookup(va2)
                },
            r is Err ==> forall|va2: u64| #[trigger] final(self).lookup(va2) == old(self).lookup(va2),
            spec_validate(S::spec_levels(), vaddr.0, paddr.0, 0, flags.bits) is None ==> {
                &&& (spec_blocking_leaf(
                    old(self).root_entries(),
                    old(self).mem(),
                    None,
                    vaddr.0,
                    Self::top(),
                    0,
                ) matches Some(l) ==> r == Err::<(), MapError>(
                    MapError::SuperpageInPath { level: l as usize },
                ))
                &&& (spec_blocking_leaf(
                    old(self).root_entries(),
                    old(self).mem(),
                    None,
                    vaddr.0,
                    Self::top(),
                    0,
                ) is None && spec_path_complete(
                    old(self).root_entries(),
                    old(self).mem(),
                    None,
                    vaddr.0,
                    Self::top(),
                    0,
                ) ==> r is Ok)
                &&& (r is Err ==> r == Err::<(), MapError>(MapError::OutOfFrames) || r matches Err(
                    MapError::SuperpageInPath { .. },
                ))
            },
            final(self).took_frames(*old(self), r == Err::<(), MapError>(MapError::OutOfFrames)),
            r is Ok ==> {
                &&& flags.bits & 0x0e != 0
                &&& !(flags.bits & 0x04 != 0 && flags.bits & 0x02 == 0)
                &&& vaddr.0 & ((spec_page_size(0) - 1) as u64) == 0
                &&& paddr.0 & ((spec_page_size(0) - 1) as u64) == 0
            },
            flags.bits & 0x0e != 0 && !(flags.bits & 0x04 != 0 && flags.bits & 0x02 == 0) && vaddr.0 & ((
            spec_page_size(0) - 1) as u64) == 0 && paddr.0 & ((spec_page_size(0) - 1) as u64) != 0 ==> r
                == Err::<(), MapError>(MapError::UnalignedPhysical { paddr, page_size: spec_page_size(0) }) && forall|
                va2: u64,
            | #[trigger] final(self).lookup(va2) == old(self).lookup(va2),
            r is Ok ==> final(self).answers().len() == old(self).answers().len() + missing_tables(
                old(self).root_entries(),
                old(self).mem(),
                None,
                vaddr.0,
                Self::top(),
                0,
            ),
    {
        self.map_at_level(vaddr, paddr, 0, flags)
    }

    /// Remove the leaf that maps `vaddr`, whatever page size it was installed at, and
    /// report what was there.
    ///
    /// The frame is not released, and intermediate tables are left in place for the
    /// neighbouring mappings. The TLB is not flushed: that is an instruction, and the
    /// caller's to execute.
    pub fn unmap(&mut self, vaddr: VirtualAddr) -> (r: Option<Unmapped>)
        requires
            old(self).inv(),
        ensures
            final(self).inv(),
            final(self).source() == old(self).source(),
            final(self).answers() == old(self).answers(),
            final(self).returned() == old(self).returned(),
            final(self).mem().dom() == old(self).mem().dom(),
            match old(self).lookup(vaddr.0) {
                Some((e, l)) => {
                    &&& r == Some(
                        Unmapped { frame: PhysicalAddr(e.spec_target()), level: l as usize },
                    )
                    &&& exists|t: Option<u64>, j: int|
                        #[trigger] is_entry_update(
                            old(self).root_entries(),
                            old(self).mem(),
                            final(self).root_entries(),
                            final(self).mem(),
                            t,
                            j,
                            Entry(0),
                        ) && table_of(old(self).root_entries(), old(self).mem(), t)[j] == e
                    &&& forall|va2: u64| #[trigger]
                        final(self).lookup(va2) == if same_page(vaddr.0, va2, l, Self::top()) {
                            None
                        } else {
                            old(self).lookup(va2)
                        }
                },
                None => {
                    &&& r is None
                    &&& final(self).root_entries() == old(self).root_entries()
                    &&& final(self).mem() == old(self).mem()
                    &&& forall|va2: u64| #[trigger] final(self).lookup(va2) == old(self).lookup(va2)
                },
            },
    {
        let ghost top = Self::top();
        let ghost va = vaddr.0;
        let mut id: Option<u64> = None;
        let mut level: usize = S::levels() - 1;
        proof {
            lemma_walk_level(self.root_entries(), self.mem(), None, va, top);
        }
        assert(va_path(va, top, top) == Seq::<u64>::empty());
        loop
            invariant
                self.inv(),
                self == old(self),
                top == Self::top(),
                va == vaddr.0,
                level <= top,
                id_valid(self.mem(), id),
                id_level(self.info@, top, id) == level,
                id_path(self.info@, id) == va_path(va, top, level as nat),
                spec_walk_reaches(self.root_entries(), self.mem(), None, va, top, id, level as nat),
                self.lookup(va) == spec_walk(self.root_entries(), self.mem(), id, va, level as nat),
            decreases level,
        {
            let index = vpn::<S>(vaddr, level);
            let entry = self.entry_at(id, index);
            if !entry.is_valid() {
                return None;
            }
            if entry.is_leaf() {
                let ghost pre_root = self.root_entries();
                let ghost pre_mem = self.mem();
                let ghost info = self.info@;
                self.set_entry(id, index, Entry::empty());
                proof {
                    let new_root = self.root_entries();
                    let new_mem = self.mem();
                    lemma_empty_entry_bits();
                    assert(is_entry_update(pre_root, pre_mem, new_root, new_mem, id, index as int, Entry(0)));
                    lemma_update_closed(
                        pre_root,
                        pre_mem,
                        info,
                        top,
                        new_root,
                        new_mem,
                        id,
                        index as int,
                        Entry(0),
                    );
                    assert forall|va2: u64| #[trigger]
                        spec_walk(new_root, new_mem, None, va2, top) == if same_page(
                            va,
                            va2,
                            level as nat,
                            top,
                        ) {
                            None
                        } else {
                            spec_walk(pre_root, pre_mem, None, va2, top)
                        } by {
                        lemma_va_path_eq(va, va2, top, level as nat);
                        if same_page(va, va2, level as nat, top) {
                            assert(spec_vpn(va, level as nat) == spec_vpn(va2, level as nat));
                            lemma_reach_same_prefix(
                                pre_root,
                                pre_mem,
                                None,
                                va,
                                va2,
                                top,
                                id,
                                level as nat,
                            );
                            lemma_update_keeps_reach(
                                pre_root,
                                pre_mem,
                                info,
                                top,
                                new_root,
                                new_mem,
                                id,
                                index as int,
                                Entry(0),
                                None,
                                va2,
                                top,
                                level as nat,
                            );
                            lemma_reach_walk(new_root, new_mem, None, va2, top, id, level as nat);
                            assert(table_of(new_root, new_mem, id)[index as int] == Entry(0));
                            lemma_empty_entry_bits();
                        } else {
                            if id_path(info, id) == va_path(va2, top, level as nat) && spec_vpn(
                                va2,
                                level as nat,
                            ) == index {
                                assert forall|l: nat| level <= l <= top implies #[trigger] spec_vpn(
                                    va,
                                    l,
                                ) == spec_vpn(va2, l) by {
                                    if l > level {
                                    }
                                }
                                assert(false);
                            }
                            lemma_update_unseen(
                                pre_root,
                                pre_mem,
                                info,
                                top,
                                new_root,
                                new_mem,
                                id,
                                index as int,
                                Entry(0),
                                None,
                                va2,
                                top,
                            );
                        }
                    }
                }
                return Some(Unmapped { frame: entry.target(), level });
            }
            if level == 0 {
                return None;
            }
            let target = entry.target();
            if !self.tables.contains_key(&target.0) {
                return None;
            }
            proof {
                assert(table_of(self.root_entries(), self.mem(), id)[index as int].spec_is_branch());
                lemma_reach_extend(self.root_entries(), self.mem(), None, va, top, id, level as nat);
                lemma_va_path_step(va, top, (level - 1) as nat);
            }
            id = Some(target.0);
            level = level - 1;
        }
    }

    /// Drop the table in frame `k`, which holds no branches and which nothing points at.
    fn remove_table(&mut self, k: u64)
        requires
            old(self).inv(),
            old(self).mem().contains_key(k),
            forall|id: Option<u64>, i: int|
                #![trigger table_of(old(self).root_entries(), old(self).mem(), id)[i]]
                id_valid(old(self).mem(), id) && 0 <= i < 512 && table_of(
                    old(self).root_entries(),
                    old(self).mem(),
                    id,
                )[i].spec_is_branch() ==> table_of(old(self).root_entries(), old(self).mem(), id)[i].spec_target()
                    != k,
        ensures
            final(self).inv(),
            final(self).root_entries() == old(self).root_entries(),
            final(self).mem() == old(self).mem().remove(k),
            final(self).info == old(self).info,
            final(self).source() == old(self).source(),
            final(self).answers() == old(self).answers(),
            final(self).returned() == old(self).returned(),
    {
        proof {
            lemma_remove_closed(self.root_entries(), self.mem(), self.info@, Self::top(), k);
        }
        let ghost old_mem = self.mem();
        let _ = self.tables.remove(&k);
        assert(self.mem() =~= old_mem.remove(k));
    }

    /// Return every table beneath table `id`, which sits at `level`, to the frame
    /// source, clearing the branches that pointed at them.
    fn free_below(&mut self, id: Option<u64>, level: usize)
        requires
            old(self).inv(),
            id_valid(old(self).mem(), id),
            id_level(old(self).info@, Self::top(), id) == level,
            level <= Self::top(),
        ensures
            final(self).inv(),
            final(self).info == old(self).info,
            final(self).mem().dom().subset_of(old(self).mem().dom()),
            id_valid(final(self).mem(), id),
            final(self).answers() == old(self).answers(),
            old(self).returned().len() <= final(self).returned().len(),
            final(self).returned().subrange(0, old(self).returned().len() as int) == old(self).returned(),
            frames_in(final(self).returned(), old(self).returned().len() as int, final(self).returned().len() as int)
                == old(self).mem().dom().difference(final(self).mem().dom()),
            once_each(final(self).returned(), old(self).returned().len() as int, final(self).returned().len() as int),
            forall|id2: Option<u64>, i: int|
                #![trigger table_of(old(self).root_entries(), old(self).mem(), id2)[i]]
                (id2 == id || (id2 matches Some(k) && old(self).mem().contains_key(k) && !final(self).mem().contains_key(k)))
                    && 0 <= i < 512 && table_of(old(self).root_entries(), old(self).mem(), id2)[i].spec_is_branch()
                    ==> !final(self).mem().contains_key(table_of(old(self).root_entries(), old(self).mem(), id2)[i].spec_target()),
            forall|k: u64|
                #![trigger final(self).mem().contains_key(k)]
                old(self).mem().contains_key(k) && !final(self).mem().contains_key(k) ==> exists|id2: Option<u64>, i: int|
                    (id2 == id || (id2 matches Some(k2) && old(self).mem().contains_key(k2) && !final(self).mem().contains_key(k2)))
                        && 0 <= i < 512 && #[trigger] table_of(old(self).root_entries(), old(self).mem(), id2)[i].spec_is_branch()
                        && table_of(old(self).root_entries(), old(self).mem(), id2)[i].spec_target() == k,
            forall|k: u64|
                #![trigger final(self).mem()[k]]
                final(self).mem().contains_key(k) && Some(k) != id ==> final(self).mem()[k]
                    == old(self).mem()[k],
            id != None::<u64> ==> final(self).root_entries() == old(self).root_entries(),
            forall|k: u64|
                #![trigger old(self).mem().contains_key(k)]
                old(self).mem().contains_key(k) && !final(self).mem().contains_key(k)
                    ==> old(self).info@[k].0 < level,
            forall|i: int|
                #![trigger table_of(final(self).root_entries(), final(self).mem(), id)[i]]
                0 <= i < 512 ==> table_of(final(self).root_entries(), final(self).mem(), id)[i] == if table_of(
                    old(self).root_entries(),
                    old(self).mem(),
                    id,
                )[i].spec_is_branch() {
                    Entry(0)
                } else {
                    table_of(old(self).root_entries(), old(self).mem(), id)[i]
                },
        decreases level,
    {
        let ghost top = Self::top();
        let ghost old_root = self.root_entries();
        let ghost old_mem = self.mem();
        let ghost info = self.info@;
        let ghost r0 = self.returned();
        proof {
            assert(frames_in(r0, r0.len() as int, r0.len() as int) =~= old_mem.dom().difference(old_mem.dom()));
            assert(r0.subrange(0, r0.len() as int) =~= r0);
        }
        if level == 0 {
            assert forall|i: int| 0 <= i < 512 implies !(#[trigger] table_of(
                old_root,
                old_mem,
                id,
            )[i]).spec_is_branch() by {}
            return;
        }
        let mut index: usize = 0;
        while index < ENTRIES_PER_PAGE
            invariant
                self.inv(),
                1 <= level <= top,
                top == Self::top(),
                index <= 512,
                info == old(self).info@,
                old_root == old(self).root_entries(),
                old_mem == old(self).mem(),
                self.info@ == info,
                id_valid(old_mem, id),
                id_level(info, top, id) == level,
                self.mem().dom().subset_of(old_mem.dom()),
                id_valid(self.mem(), id),
                r0 == old(self).returned(),
                self.answers() == old(self).answers(),
                r0.len() <= self.returned().len(),
                self.returned().subrange(0, r0.len() as int) == r0,
                frames_in(self.returned(), r0.len() as int, self.returned().len() as int)
                    == old_mem.dom().difference(self.mem().dom()),
                once_each(self.returned(), r0.len() as int, self.returned().len() as int),
                forall|id2: Option<u64>, i: int|
                    #![trigger table_of(old_root, old_mem, id2)[i]]
                    ((id2 == id && i < index) || (id2 matches Some(k) && old_mem.contains_key(k) && !self.mem().contains_key(k)))
                        && 0 <= i < 512 && table_of(old_root, old_mem, id2)[i].spec_is_branch()
                        ==> !self.mem().contains_key(table_of(old_root, old_mem, id2)[i].spec_target()),
                forall|k: u64|
                    #![trigger self.mem().contains_key(k)]
                    old_mem.contains_key(k) && !self.mem().contains_key(k) ==> exists|id2: Option<u64>, i: int|
                        (id2 == id || (id2 matches Some(k2) && old_mem.contains_key(k2) && !self.mem().contains_key(k2)))
                            && 0 <= i < 512 && #[trigger] table_of(old_root, old_mem, id2)[i].spec_is_branch()
                            && table_of(old_root, old_mem, id2)[i].spec_target() == k,
                forall|k: u64|
                    #![trigger self.mem()[k]]
                    self.mem().contains_key(k) && Some(k) != id ==> self.mem()[k] == old_mem[k],
                id != None::<u64> ==> self.root_entries() == old_root,
                forall|k: u64|
                    #![trigger old_mem.contains_key(k)]
                    old_mem.contains_key(k) && !self.mem().contains_key(k) ==> info[k].0 < level,
                forall|i: int|
                    #![trigger table_of(self.root_entries(), self.mem(), id)[i]]
                    0 <= i < 512 ==> table_of(self.root_entries(), self.mem(), id)[i] == if i < index
                        && table_of(old_root, old_mem, id)[i].spec_is_branch() {
                        Entry(0)
                    } else {
                        table_of(old_root, old_mem, id)[i]
                    },
            decreases 512 - index,
        {
            let entry = self.entry_at(id, index);
            if entry.is_branch() {
                let child = entry.target();
                let ghost c = child.0;
                proof {
                    assert(table_of(self.root_entries(), self.mem(), id)[index as int].spec_is_branch());
                }
                let ghost pre_root = self.root_entries();
                let ghost pre_mem = self.mem();
                let ghost pre_ret = self.returned();
                self.free_below(Some(child.0), level - 1);
                let ghost post_ret = self.returned();
                let ghost post_root = self.root_entries();
                let ghost post_mem = self.mem();
                proof {
                    lemma_empty_entry_bits();
                    if let Some(kid) = id {
                        assert(post_mem.contains_key(kid)) by {
                            if !post_mem.contains_key(kid) {
                                assert(pre_mem.contains_key(kid));
                            }
                        }
                        assert(post_mem[kid] == pre_mem[kid]);
                    }
                    assert(table_of(post_root, post_mem, id) == table_of(pre_root, pre_mem, id));
                    assert forall|i: int|
                        #![trigger table_of(post_root, post_mem, Some(c))[i]]
                        0 <= i < 512 implies !table_of(post_root, post_mem, Some(c))[i].spec_is_branch() by {
                        if table_of(pre_root, pre_mem, Some(c))[i].spec_is_branch() {
                        } else {
                        }
                    }
                }
                self.frames.free(child);
                self.returned = Ghost(self.returned@.push(child.0));
                proof {
                    lemma_return_step(
                        pre_ret,
                        post_ret,
                        c,
                        r0.len() as int,
                        old_mem.dom(),
                        pre_mem.dom(),
                        post_mem.dom(),
                    );
                    assert(pre_ret.subrange(0, r0.len() as int) =~= r0);
                }
                self.set_entry(id, index, Entry::empty());
                let ghost r2 = self.root_entries();
                let ghost m2 = self.mem();
                proof {
                    if id is Some {
                        assert(table_of(r2, m2, None) == table_of(post_root, post_mem, None));
                    }
                    lemma_empty_entry_bits();
                    lemma_update_closed(post_root, post_mem, info, top, r2, m2, id, index as int, Entry(0));
                    assert forall|id2: Option<u64>, i: int|
                        #![trigger table_of(r2, m2, id2)[i]]
                        id_valid(m2, id2) && 0 <= i < 512 && table_of(r2, m2, id2)[i].spec_is_branch()
                            implies table_of(r2, m2, id2)[i].spec_target() != c by {
                        if id2 == id && i == index {
                            lemma_empty_entry_bits();
                        } else {
                            if id2 == id {
                                assert(table_of(r2, m2, id2)[i] == table_of(post_root, post_mem, id2)[i]);
                            } else {
                                assert(table_of(r2, m2, id2) == table_of(post_root, post_mem, id2));
                            }
                            assert(table_of(post_root, post_mem, id)[index as int].spec_is_branch());
                        }
                    }
                }
                self.remove_table(child.0);
                proof {
                    assert forall|k: u64|
                        #![trigger old_mem.contains_key(k)]
                        old_mem.contains_key(k) && !self.mem().contains_key(k) implies info[k].0 < level by {
                        if k == c {
                        } else if pre_mem.contains_key(k) {
                        }
                    }
                    assert forall|k: u64|
                        #![trigger self.mem()[k]]
                        self.mem().contains_key(k) && Some(k) != id implies self.mem()[k] == old_mem[k] by {
                        assert(post_mem.contains_key(k));
                        assert(table_of(r2, m2, Some(k)) == table_of(post_root, post_mem, Some(k)));
                        assert(post_mem[k] == pre_mem[k]);
                    }
                    assert(id != Some(c)) by {
                        if id == Some(c) {
                            assert(info[c].0 == id_level(info, top, id) - 1);
                        }
                    }
                    assert(pre_mem[c] == old_mem[c]);
                    let cur_mem = self.mem();
                    assert forall|k: u64|
                        #![trigger cur_mem.contains_key(k)]
                        old_mem.contains_key(k) && !cur_mem.contains_key(k) implies exists|id2: Option<u64>, i: int|
                            (id2 == id || (id2 matches Some(k2) && old_mem.contains_key(k2) && !cur_mem.contains_key(k2)))
                                && 0 <= i < 512 && #[trigger] table_of(old_root, old_mem, id2)[i].spec_is_branch()
                                && table_of(old_root, old_mem, id2)[i].spec_target() == k by {
                        if k == c {
                            assert(table_of(pre_root, pre_mem, id)[index as int] == table_of(old_root, old_mem, id)[index as int]);
                            assert(table_of(old_root, old_mem, id)[index as int].spec_is_branch());
                        } else if !pre_mem.contains_key(k) {
                            assert(!pre_mem.contains_key(k) ==> exists|id2: Option<u64>, i: int|
                                (id2 == id || (id2 matches Some(k2) && old_mem.contains_key(k2) && !pre_mem.contains_key(k2)))
                                    && 0 <= i < 512 && #[trigger] table_of(old_root, old_mem, id2)[i].spec_is_branch()
                                    && table_of(old_root, old_mem, id2)[i].spec_target() == k);
                            let (id2, i) = choose|id2: Option<u64>, i: int|
                                (id2 == id || (id2 matches Some(k2) && old_mem.contains_key(k2) && !pre_mem.contains_key(k2)))
                                    && 0 <= i < 512 && #[trigger] table_of(old_root, old_mem, id2)[i].spec_is_branch()
                                    && table_of(old_root, old_mem, id2)[i].spec_target() == k;
                            assert(table_of(old_root, old_mem, id2)[i].spec_is_branch());
                        } else {
                            assert(!post_mem.contains_key(k));
                            let (id2, i) = choose|id2: Option<u64>, i: int|
                                (id2 == Some(c) || (id2 matches Some(k2) && pre_mem.contains_key(k2) && !post_mem.contains_key(k2)))
                                    && 0 <= i < 512 && #[trigger] table_of(pre_root, pre_mem, id2)[i].spec_is_branch()
                                    && table_of(pre_root, pre_mem, id2)[i].spec_target() == k;
                            let k2 = id2->0;
                            assert(pre_mem.contains_key(k2));
                            assert(Some(k2) != id);
                            assert(pre_mem[k2] == old_mem[k2]);
                            assert(table_of(pre_root, pre_mem, id2)[i] == table_of(old_root, old_mem, id2)[i]);
                            assert(table_of(old_root, old_mem, id2)[i].spec_is_branch());
                        }
                    }
                    assert forall|id2: Option<u64>, i: int|
                        #![trigger table_of(old_root, old_mem, id2)[i]]
                        ((id2 == id && i < index + 1) || (id2 matches Some(k) && old_mem.contains_key(k)
                            && !cur_mem.contains_key(k))) && 0 <= i < 512 && table_of(old_root, old_mem, id2)[i].spec_is_branch()
                            implies !cur_mem.contains_key(table_of(old_root, old_mem, id2)[i].spec_target()) by {
                        let t = table_of(old_root, old_mem, id2)[i].spec_target();
                        if id2 == id && i == index {
                            assert(table_of(pre_root, pre_mem, id)[i] == table_of(old_root, old_mem, id)[i]);
                        } else if id2 == id {
                        } else if let Some(k) = id2 {
                            if !pre_mem.contains_key(k) {
                            } else if k == c {
                                assert(table_of(pre_root, pre_mem, Some(c))[i] == table_of(old_root, old_mem, Some(c))[i]);
                            } else {
                                assert(!post_mem.contains_key(k));
                                assert(pre_mem[k] == old_mem[k]);
                                assert(table_of(pre_root, pre_mem, Some(k))[i] == table_of(old_root, old_mem, Some(k))[i]);
                            }
                        }
                    }
                }
            }
            index += 1;
        }
    }

    /// Return every intermediate table beneath the root to the frame source.
    ///
    /// Leaf-mapped frames are left untouched and the root itself is not freed. Freed
    /// branch entries are cleared, so the tree is left consistent; only root-level
    /// leaves still translate. The frames given back are exactly the tables the tree
    /// reached, each once: every table a branch of the root or of a freed table
    /// pointed at, and only those. A table a superpage mapping cut off from the tree
    /// earlier is reached by nothing, and is not given back.
    pub fn free_subtables(&mut self)
        requires
            old(self).inv(),
        ensures
            final(self).inv(),
            forall|i: int|
                #![trigger final(self).root_entries()[i]]
                0 <= i < 512 ==> final(self).root_entries()[i] == if old(self).root_entries()[i].spec_is_branch() {
                    Entry(0)
                } else {
                    old(self).root_entries()[i]
                },
            final(self).mem().dom().subset_of(old(self).mem().dom()),
            final(self).answers() == old(self).answers(),
            old(self).returned().len() <= final(self).returned().len(),
            final(self).returned().subrange(0, old(self).returned().len() as int) == old(self).returned(),
            frames_in(final(self).returned(), old(self).returned().len() as int, final(self).returned().len() as int)
                == old(self).mem().dom().difference(final(self).mem().dom()),
            once_each(final(self).returned(), old(self).returned().len() as int, final(self).returned().len() as int),
            forall|id2: Option<u64>, i: int|
                #![trigger table_of(old(self).root_entries(), old(self).mem(), id2)[i]]
                (id2 is None || (id2 matches Some(k) && old(self).mem().contains_key(k) && !final(self).mem().contains_key(k)))
                    && 0 <= i < 512 && table_of(old(self).root_entries(), old(self).mem(), id2)[i].spec_is_branch()
                    ==> !final(self).mem().contains_key(table_of(old(self).root_entries(), old(self).mem(), id2)[i].spec_target()),
            forall|k: u64|
                #![trigger final(self).mem().contains_key(k)]
                old(self).mem().contains_key(k) && !final(self).mem().contains_key(k) ==> exists|id2: Option<u64>, i: int|
                    (id2 is None || (id2 matches Some(k2) && old(self).mem().contains_key(k2) && !final(self).mem().contains_key(k2)))
                        && 0 <= i < 512 && #[trigger] table_of(old(self).root_entries(), old(self).mem(), id2)[i].spec_is_branch()
                        && table_of(old(self).root_entries(), old(self).mem(), id2)[i].spec_target() == k,
            forall|va: u64| #[trigger]
                final(self).lookup(va) == if old(self).lookup(va) matches Some((_e, l)) && l
                    == Self::top() {
                    old(self).lookup(va)
                } else {
                    None
                },
    {
        let top = S::levels() - 1;
        self.free_below(None, top);
        proof {
            assert forall|va: u64| #[trigger]
                self.lookup(va) == if old(self).lookup(va) matches Some((_e, l)) && l == Self::top() {
                    old(self).lookup(va)
                } else {
                    None
                } by {
                let i = spec_vpn(va, Self::top()) as int;
                crate::addr::lemma_vpn_bound(va, Self::top());
                let e = old(self).root_entries()[i];
                assert(table_of(self.root_entries(), self.mem(), None)[i] == self.root_entries()[i]);
                if e.spec_is_branch() {
                    lemma_empty_entry_bits();
                    if old(self).mem().contains_key(e.spec_target()) {
                        lemma_walk_level(
                            old(self).root_entries(),
                            old(self).mem(),
                            Some(e.spec_target()),
                            va,
                            (Self::top() - 1) as nat,
                        );
                    }
                }
            }
        }
    }

    /// Every address that a page of the range from `lo` up to `hi` covers maps through
    /// the leaf made for that page: flags `flags`, frame what `translate` gave for it.
    pub open spec fn range_mapped<T: Fn(VirtualAddr) -> PhysicalAddr>(
        &self,
        translate: T,
        lo: u64,
        hi: u64,
        level: nat,
        flags: u64,
    ) -> bool {
        forall|va: u64|
            page_covered(va, lo, hi, level, Self::top()) ==> exists|q: u64, pa: PhysicalAddr|
                in_page_range(q, lo, hi, level) && same_page(q, va, level, Self::top())
                    && translate.ensures((VirtualAddr(q),), pa) && #[trigger] self.lookup(va)
                    == Some((spec_leaf_entry(pa.0, flags), level))
    }

    /// Every address outside the pages of the range from `lo` up to `hi` looks up as it
    /// did in `before`.
    pub open spec fn range_untouched(&self, before: Self, lo: u64, hi: u64, level: nat) -> bool {
        forall|va: u64|
            !page_covered(va, lo, hi, level, Self::top()) ==> #[trigger] self.lookup(va)
                == before.lookup(va)
    }

    /// Map every page of the size `level` selects that overlaps `[start, end)`, taking
    /// each physical address from `translate`.
    ///
    /// The range is rounded outward to whole pages, so a partial page at either end is
    /// still fully mapped. On success each address those pages hold translates through
    /// the page mapped for it; every other address keeps its translation, whatever the
    /// outcome.
    pub fn map_range_at_level<T>(
        &mut self,
        start: VirtualAddr,
        end: VirtualAddr,
        level: usize,
        translate: T,
        flags: PteFlags,
    ) -> (r: Result<(), MapError>) where T: Fn(VirtualAddr) -> PhysicalAddr
        requires
            old(self).inv(),
            forall|v: VirtualAddr| #[trigger] translate.requires((v,)),
            level < S::spec_levels() ==> end.0 + spec_page_size(level as nat) - 1 <= u64::MAX,
        ensures
            final(self).inv(),
            level >= S::spec_levels() ==> r == Err::<(), MapError>(
                MapError::InvalidLevel { level, levels: S::spec_levels() as usize },
            ),
            level < S::spec_levels() && range_lo(start.0, level as nat) < range_hi(
                end.0,
                level as nat,
            ) ==> {
                &&& !spec_flags_leaf(flags.bits) ==> r == Err::<(), MapError>(MapError::NotALeaf)
                &&& spec_flags_leaf(flags.bits) && !spec_flags_legal(flags.bits) ==> r == Err::<
                    (),
                    MapError,
                >(MapError::WriteWithoutRead)
            },
            r is Ok ==> final(self).range_mapped(
                translate,
                range_lo(start.0, level as nat),
                range_hi(end.0, level as nat),
                level as nat,
                flags.bits,
            ),
            final(self).range_untouched(
                *old(self),
                range_lo(start.0, level as nat),
                range_hi(end.0, level as nat),
                level as nat,
            ),
            level >= S::spec_levels() ==> *final(self) == *old(self),
            level < S::spec_levels() && range_lo(start.0, level as nat) >= range_hi(end.0, level as nat)
                ==> r is Ok,
            level as nat == Self::top() && spec_flags_leaf(flags.bits) && spec_flags_legal(flags.bits)
                && gives_aligned(translate, level as nat) ==> r is Ok,
            r matches Err(e) ==> range_refusal(S::spec_levels(), level, flags.bits, e),
            final(self).took_frames(*old(self), r == Err::<(), MapError>(MapError::OutOfFrames)),
    {
        let levels = S::levels();
        proof {
            self.lemma_took_none();
        }
        if level >= levels {
            return Err(MapError::InvalidLevel { level, levels });
        }
        let page = page_size_at(level);
        proof {
            crate::geometry::lemma_page_size_is_shift(level as nat);
        }
        let lo = start.align_down(page);
        let hi = end.align_up(page);
        let ghost top = Self::top();
        let ghost lv = level as nat;
        let ghost m = (page - 1) as u64;
        proof {
            crate::utils::lemma_align_facts(start.0, page);
            crate::utils::lemma_align_facts((end.0 + page - 1) as u64, page);
            assert(lo.0 == range_lo(start.0, lv));
            assert(hi.0 == range_hi(end.0, lv));
            if lo.0 >= hi.0 {
                assert forall|va2: u64| !#[trigger] page_covered(va2, lo.0, hi.0, lv, top) by {}
            }
        }
        let mut va = lo;
        let ghost old_self = *old(self);
        while va.0 < hi.0
            invariant
                self.inv(),
                level < levels,
                levels == S::spec_levels(),
                top == Self::top(),
                lv == level as nat,
                page == spec_page_size(lv),
                m == (page - 1) as u64,
                lo.0 == range_lo(start.0, lv),
                hi.0 == range_hi(end.0, lv),
                lo.0 & m == 0,
                hi.0 & m == 0,
                va.0 & m == 0,
                lo.0 <= va.0,
                lo.0 < hi.0 ==> va.0 <= hi.0,
                lo.0 >= hi.0 ==> va.0 == lo.0,
                old_self == *old(self),
                lo.0 >= hi.0 ==> forall|va2: u64| !#[trigger] page_covered(va2, lo.0, hi.0, lv, top),
                forall|v: VirtualAddr| #[trigger] translate.requires((v,)),
                va.0 > lo.0 ==> spec_flags_leaf(flags.bits) && spec_flags_legal(flags.bits),
                self.range_mapped(translate, lo.0, va.0, lv, flags.bits),
                self.range_untouched(old_self, lo.0, va.0, lv),
                self.took_frames(old_self, false),
            decreases hi.0 - va.0,
        {
            let pa = translate(va);
            proof {
                assert(va.0 & m == 0);
                assert(spec_blocking_leaf(self.root_entries(), self.mem(), None, va.0, top, top) is None);
                assert(spec_path_complete(self.root_entries(), self.mem(), None, va.0, top, top));
            }
            let ghost pre = *self;
            let res = self.map_at_level(va, pa, level, flags);
            proof {
                lemma_page_step(va.0, hi.0, 0, lv);
                self.lemma_took_trans(pre, old_self, res == Err::<(), MapError>(MapError::OutOfFrames));
            }
            match res {
                Err(e) => {
                    proof {
                        assert forall|va2: u64|
                            !page_covered(va2, lo.0, hi.0, lv, top) implies #[trigger] self.lookup(
                            va2,
                        ) == old_self.lookup(va2) by {
                            if page_covered(va2, lo.0, va.0, lv, top) {
                                let q = choose|q: u64|
                                    in_page_range(q, lo.0, va.0, lv) && same_page(q, va2, lv, top);
                                assert(in_page_range(q, lo.0, hi.0, lv));
                            }
                        }
                    }
                    return Err(e);
                },
                Ok(()) => {},
            }
            let next = va.add(page);
            proof {
                let nv = next.0;
                assert forall|va2: u64| page_covered(va2, lo.0, nv, lv, top) implies exists|
                    q: u64,
                    pa2: PhysicalAddr,
                |
                    in_page_range(q, lo.0, nv, lv) && same_page(q, va2, lv, top)
                        && translate.ensures((VirtualAddr(q),), pa2) && #[trigger] self.lookup(va2)
                        == Some((spec_leaf_entry(pa2.0, flags.bits), lv)) by {
                    if same_page(va.0, va2, lv, top) {
                        assert(in_page_range(va.0, lo.0, nv, lv));
                    } else {
                        let q0 = choose|q: u64|
                            in_page_range(q, lo.0, nv, lv) && same_page(q, va2, lv, top);
                        lemma_page_step(va.0, hi.0, q0, lv);
                        assert(q0 != va.0);
                        assert(in_page_range(q0, lo.0, va.0, lv));
                        assert(page_covered(va2, lo.0, va.0, lv, top));
                        let (q, pa2) = choose|q: u64, pa2: PhysicalAddr|
                            in_page_range(q, lo.0, va.0, lv) && same_page(q, va2, lv, top)
                                && translate.ensures((VirtualAddr(q),), pa2) && #[trigger] pre.lookup(
                                va2,
                            ) == Some((spec_leaf_entry(pa2.0, flags.bits), lv));
                        assert(in_page_range(q, lo.0, nv, lv));
                    }
                }
                assert forall|va2: u64| !page_covered(va2, lo.0, nv, lv, top) implies #[trigger] self.lookup(
                    va2,
                ) == old_self.lookup(va2) by {
                    assert(!(in_page_range(va.0, lo.0, nv, lv) && same_page(va.0, va2, lv, top)));
                    if page_covered(va2, lo.0, va.0, lv, top) {
                        let q = choose|q: u64|
                            in_page_range(q, lo.0, va.0, lv) && same_page(q, va2, lv, top);
                        assert(in_page_range(q, lo.0, nv, lv));
                    }
                }
            }
            va = next;
        }
        proof {
            if lo.0 >= hi.0 {
                assert forall|va2: u64| page_covered(va2, lo.0, hi.0, lv, top) implies exists|
                    q: u64,
                    pa2: PhysicalAddr,
                |
                    in_page_range(q, lo.0, hi.0, lv) && same_page(q, va2, lv, top)
                        && translate.ensures((VirtualAddr(q),), pa2) && #[trigger] self.lookup(va2)
                        == Some((spec_leaf_entry(pa2.0, flags.bits), lv)) by {}
                assert forall|va2: u64| !page_covered(va2, lo.0, hi.0, lv, top) implies #[trigger] self.lookup(
                    va2,
                ) == old_self.lookup(va2) by {
                    if page_covered(va2, lo.0, va.0, lv, top) {
                        let q = choose|q: u64|
                            in_page_range(q, lo.0, va.0, lv) && same_page(q, va2, lv, top);
                        assert(false);
                    }
                }
            }
        }
        Ok(())
    }

    /// Map every 4 KiB page overlapping `[start, end)`, taking each physical address
    /// from `translate`; `end` is rounded up, so a partial final page is still fully
    /// mapped.
    pub fn map_range<T>(
        &mut self,
        start: VirtualAddr,
        end: VirtualAddr,
        translate: T,
        flags: PteFlags,
    ) -> (r: Result<(), MapError>) where T: Fn(VirtualAddr) -> PhysicalAddr
        requires
            old(self).inv(),
            forall|v: VirtualAddr| #[trigger] translate.requires((v,)),
            end.0 + 0xfff <= u64::MAX,
        ensures
            final(self).inv(),
            range_lo(start.0, 0) < range_hi(end.0, 0) ==> {
                &&& !spec_flags_leaf(flags.bits) ==> r == Err::<(), MapError>(MapError::NotALeaf)
                &&& spec_flags_leaf(flags.bits) && !spec_flags_legal(flags.bits) ==> r == Err::<
                    (),
                    MapError,
                >(MapError::WriteWithoutRead)
            },
            r is Ok ==> final(self).range_mapped(
                translate,
                range_lo(start.0, 0),
                range_hi(end.0, 0),
                0,
                flags.bits,
            ),
            final(self).range_untouched(*old(self), range_lo(start.0, 0), range_hi(end.0, 0), 0),
            range_lo(start.0, 0) >= range_hi(end.0, 0) ==> r is Ok,
            r matches Err(e) ==> range_refusal(S::spec_levels(), 0, flags.bits, e),
            final(self).took_frames(*old(self), r == Err::<(), MapError>(MapError::OutOfFrames)),
    {
        proof {
            S::lemma_levels();
        }
        self.map_range_at_level(start, end, 0, translate, flags)
    }

    /// Identity-map `[start, end)`: each virtual 4 KiB page to the equal physical page.
    pub fn id_map_range(&mut self, start: VirtualAddr, end: VirtualAddr, flags: PteFlags) -> (r:
        Result<(), MapError>)
        requires
            old(self).inv(),
            end.0 + 0xfff <= u64::MAX,
        ensures
            final(self).inv(),
            range_lo(start.0, 0) < range_hi(end.0, 0) ==> {
                &&& !spec_flags_leaf(flags.bits) ==> r == Err::<(), MapError>(MapError::NotALeaf)
                &&& spec_flags_leaf(flags.bits) && !spec_flags_legal(flags.bits) ==> r == Err::<
                    (),
                    MapError,
                >(MapError::WriteWithoutRead)
            },
            r is Ok ==> forall|va: u64|
                page_covered(va, range_lo(start.0, 0), range_hi(end.0, 0), 0, Self::top())
                    ==> exists|q: u64|
                    in_page_range(q, range_lo(start.0, 0), range_hi(end.0, 0), 0) && same_page(
                        q,
                        va,
                        0,
                        Self::top(),
                    ) && #[trigger] final(self).lookup(va) == Some(
                        (spec_leaf_entry(q, flags.bits), 0nat),
                    ),
            final(self).range_untouched(*old(self), range_lo(start.0, 0), range_hi(end.0, 0), 0),
            range_lo(start.0, 0) >= range_hi(end.0, 0) ==> r is Ok,
            r matches Err(e) ==> range_refusal(S::spec_levels(), 0, flags.bits, e),
            final(self).took_frames(*old(self), r == Err::<(), MapError>(MapError::OutOfFrames)),
    {
        let identity = |v: VirtualAddr| -> (p: PhysicalAddr)
            ensures
                p.0 == v.0,
            { PhysicalAddr::new(v.bits()) };
        let r = self.map_range(start, end, identity, flags);
        proof {
            if r is Ok {
                assert forall|va: u64|
                    page_covered(va, range_lo(start.0, 0), range_hi(end.0, 0), 0, Self::top())
                        implies exists|q: u64|
                        in_page_range(q, range_lo(start.0, 0), range_hi(end.0, 0), 0) && same_page(
                            q,
                            va,
                            0,
                            Self::top(),
                        ) && #[trigger] self.lookup(va) == Some(
                            (spec_leaf_entry(q, flags.bits), 0nat),
                        ) by {
                    let (q, pa) = choose|q: u64, pa: PhysicalAddr|
                        in_page_range(q, range_lo(start.0, 0), range_hi(end.0, 0), 0) && same_page(
                            q,
                            va,
                            0,
                            Self::top(),
                        ) && identity.ensures((VirtualAddr(q),), pa) && #[trigger] self.lookup(va)
                            == Some((spec_leaf_entry(pa.0, flags.bits), 0nat));
                    assert(pa.0 == q);
                }
            }
        }
        r
    }
}

} // verus!
