use lib::addr::{MemoryAddr, PhysicalAddr, VirtualAddr};
use lib::frames::FrameSource;
use lib::geometry::{page_size_at, PAGE_SIZE};
use lib::mapper::{MapError, Mapper, Unmapped};
use lib::pte::PteFlags;
use lib::scheme::{Scheme, Sv39, Sv48};
use lib::table::Table;

type Sv39Mapper<F> = Mapper<Sv39, F>;

/// A frame source handing out fresh page-aligned frame addresses, recording what it
/// gave and what came back.
#[derive(Default)]
struct Arena {
    tables: Vec<u64>,
    freed: Vec<u64>,
}

impl FrameSource for Arena {
    fn alloc_zeroed(&mut self) -> Option<PhysicalAddr> {
        let pa = 0x10_0000_0000 + (self.tables.len() as u64) * PAGE_SIZE;
        self.tables.push(pa);
        Some(PhysicalAddr::new(pa))
    }

    fn free(&mut self, frame: PhysicalAddr) {
        self.freed.push(frame.bits());
    }
}

/// A frame source that never yields, for proving a path allocates nothing.
struct Barren;

impl FrameSource for Barren {
    fn alloc_zeroed(&mut self) -> Option<PhysicalAddr> {
        None
    }

    fn free(&mut self, _frame: PhysicalAddr) {}
}

fn rwx() -> PteFlags {
    PteFlags::read_write_execute()
}

#[test]
fn map_range_is_the_level_zero_case_of_map_range_at_level() {
    let base = VirtualAddr::new(7 << 21);
    let span = 3 * PAGE_SIZE + 0x40; // deliberately not a whole number of pages
    let phys = move |v: VirtualAddr| PhysicalAddr::new(v.bits() - base.bits() + 0x8000_0000);

    let mut generic = Sv39Mapper::new(Table::new(), Arena::default());
    generic
        .map_range_at_level(base, base.add(span), 0, phys, PteFlags::read_write())
        .expect("explicit level-0 range must map");

    let mut shorthand = Sv39Mapper::new(Table::new(), Arena::default());
    shorthand
        .map_range(base, base.add(span), phys, PteFlags::read_write())
        .expect("shorthand range must map");

    // Four pages: the partial tail is rounded outward and fully mapped.
    for index in 0..4 {
        let va = base.add(index * PAGE_SIZE);
        assert_eq!(
            generic.translate(va),
            Some(phys(va)),
            "page {index} missing from the explicit-level mapping"
        );
        assert_eq!(
            shorthand.translate(va),
            generic.translate(va),
            "page {index} differs between map_range and map_range_at_level"
        );
    }
    let past = base.add(4 * PAGE_SIZE);
    assert_eq!(generic.translate(past), None, "rounding must not overshoot a whole page");
    assert_eq!(shorthand.translate(past), None, "shorthand must not overshoot either");
}

#[test]
fn map_range_at_level_builds_superpages_and_rejects_a_bad_level() {
    let mut mapper = Sv39Mapper::new(Table::new(), Arena::default());
    let base = VirtualAddr::new(4 << 30);
    let superpage = page_size_at(1);

    mapper
        .map_range_at_level(
            base,
            base.add(2 * superpage),
            1,
            move |v: VirtualAddr| PhysicalAddr::new(v.bits() - base.bits()),
            PteFlags::read_write(),
        )
        .expect("2 MiB range must map");

    for index in 0..2 {
        let va = base.add(index * superpage);
        let (_, level) = mapper.entry_of(va).expect("superpage must be mapped");
        assert_eq!(level, 1, "range must be built from level-1 leaves, not 4 KiB ones");
    }

    assert_eq!(
        mapper.map_range_at_level(
            base,
            base.add(PAGE_SIZE),
            Sv39::levels(),
            |_v: VirtualAddr| PhysicalAddr::new(0),
            rwx()
        ),
        Err(MapError::InvalidLevel { level: Sv39::levels(), levels: Sv39::levels() }),
        "an out-of-range level must be rejected, not used to index a page size"
    );
}

#[test]
fn entry_of_reports_the_flags_and_level_a_mapping_landed_at() {
    let mut mapper = Sv39Mapper::new(Table::new(), Arena::default());

    let text = VirtualAddr::new(4 << 21);
    let data = VirtualAddr::new(5 << 21);
    let giga = VirtualAddr::new(3 << 30);
    mapper
        .map(text, PhysicalAddr::new(0x8000_0000), PteFlags::read_execute())
        .expect("R+X page must map");
    mapper
        .map_at_level(data, PhysicalAddr::new(0x8020_0000), 1, PteFlags::read_write())
        .expect("R+W superpage must map");
    mapper
        .map_at_level(giga, PhysicalAddr::new(0), Sv39::root_level(), PteFlags::read())
        .expect("R gigapage must map");

    let (entry, level) = mapper.entry_of(text).expect("mapped page must have an entry");
    assert_eq!(level, 0, "a 4 KiB mapping must be reported at level 0");
    assert_eq!(
        entry.flags(),
        PteFlags::read_execute().union(PteFlags::valid()),
        "R+X flags must survive the round trip"
    );
    assert!(!entry.flags().contains(PteFlags::write()), "executable page must not be writable");

    let (entry, level) = mapper.entry_of(data).expect("mapped superpage must have an entry");
    assert_eq!(level, 1, "a 2 MiB mapping must be reported at level 1");
    assert!(!entry.flags().contains(PteFlags::execute()), "writable page must not be executable");

    let (_, level) = mapper.entry_of(giga).expect("mapped gigapage must have an entry");
    assert_eq!(level, Sv39::root_level(), "a 1 GiB mapping must be reported at the root level");

    let hole = VirtualAddr::new(6 << 21);
    assert_eq!(mapper.entry_of(hole), None, "unmapped address must have no entry");
    assert_eq!(mapper.translate(hole), None, "translate must agree with entry_of");
}

#[test]
fn maps_and_translates_a_four_kib_page() {
    let mut mapper = Sv39Mapper::new(Table::new(), Arena::default());
    // A distinct index at every level: vpn2=1, vpn1=2, vpn0=3.
    let va = VirtualAddr::new((1 << 30) | (2 << 21) | (3 << 12));
    let pa = PhysicalAddr::new(0x8020_1000);

    mapper.map(va, pa, PteFlags::read_write()).expect("4 KiB mapping must succeed");
    assert_eq!(mapper.translate(va), Some(pa), "exact page translates back");

    let va_off = VirtualAddr::new(va.bits() + 0x123);
    let pa_off = PhysicalAddr::new(pa.bits() + 0x123);
    assert_eq!(mapper.translate(va_off), Some(pa_off), "in-page offset preserved");
}

#[test]
fn maps_and_translates_superpages() {
    for (level, size) in [(1usize, 2 * 1024 * 1024u64), (2, 1024 * 1024 * 1024)] {
        let mut mapper = Sv39Mapper::new(Table::new(), Arena::default());
        let va = VirtualAddr::new(4 * size);
        let pa = PhysicalAddr::new(6 * size);

        mapper
            .map_at_level(va, pa, level, rwx())
            .unwrap_or_else(|e| panic!("level-{level} mapping must succeed: {e:?}"));
        assert_eq!(mapper.translate(va), Some(pa), "level-{level} base translates");

        // An offset anywhere inside the superpage resolves through it.
        let inside = size - 1;
        assert_eq!(
            mapper.translate(VirtualAddr::new(va.bits() + inside)),
            Some(PhysicalAddr::new(pa.bits() + inside)),
            "offset inside a level-{level} superpage is preserved",
        );
    }
}

#[test]
fn a_gigapage_needs_no_frames() {
    let mut mapper = Sv39Mapper::new(Table::new(), Barren);
    let va = VirtualAddr::new(2 << 30);
    let pa = PhysicalAddr::new(2 << 30);

    mapper
        .map_at_level(va, pa, Sv39::root_level(), rwx())
        .expect("a root-level gigapage must not allocate");
    assert_eq!(mapper.translate(va), Some(pa), "gigapage translates");
}

#[test]
fn reports_out_of_frames_below_the_root() {
    let mut mapper = Sv39Mapper::new(Table::new(), Barren);
    let error = mapper
        .map(VirtualAddr::new(0x4000), PhysicalAddr::new(0x4000), rwx())
        .expect_err("a 4 KiB mapping needs intermediate tables");
    assert_eq!(error, MapError::OutOfFrames, "wrong exhaustion diagnostic");
}

#[test]
fn rejects_a_superpage_in_the_walk_path() {
    let mut mapper = Sv39Mapper::new(Table::new(), Arena::default());
    let giga = 1 << 30;
    mapper
        .map_at_level(VirtualAddr::new(giga), PhysicalAddr::new(giga), Sv39::root_level(), rwx())
        .expect("gigapage must map");

    // A 4 KiB mapping inside that gigapage would have to descend through it.
    let error = mapper
        .map(VirtualAddr::new(giga + 0x1000), PhysicalAddr::new(0x1000), rwx())
        .expect_err("cannot descend through a superpage");
    assert_eq!(
        error,
        MapError::SuperpageInPath { level: Sv39::root_level() },
        "wrong blocked-walk diagnostic",
    );
}

#[test]
fn rejects_misaligned_and_illegal_requests() {
    let mut mapper = Sv39Mapper::new(Table::new(), Arena::default());
    let two_mib = 2 * 1024 * 1024;

    assert_eq!(
        mapper.map_at_level(VirtualAddr::new(0x1000), PhysicalAddr::new(0), 1, rwx()),
        Err(MapError::UnalignedVirtual { vaddr: VirtualAddr::new(0x1000), page_size: two_mib }),
        "a 2 MiB mapping needs a 2 MiB-aligned VA",
    );
    assert_eq!(
        mapper.map_at_level(VirtualAddr::new(0), PhysicalAddr::new(0x1000), 1, rwx()),
        Err(MapError::UnalignedPhysical { paddr: PhysicalAddr::new(0x1000), page_size: two_mib }),
        "a 2 MiB mapping needs a 2 MiB-aligned PA",
    );
    assert_eq!(
        mapper.map(VirtualAddr::new(0), PhysicalAddr::new(0), PteFlags::valid()),
        Err(MapError::NotALeaf),
        "no R/W/X is a branch, not a page",
    );
    assert_eq!(
        mapper.map(VirtualAddr::new(0), PhysicalAddr::new(0), PteFlags::write()),
        Err(MapError::WriteWithoutRead),
        "write-only is reserved",
    );
    assert_eq!(
        mapper.map_at_level(VirtualAddr::new(0), PhysicalAddr::new(0), Sv39::levels(), rwx()),
        Err(MapError::InvalidLevel { level: Sv39::levels(), levels: Sv39::levels() }),
        "level must be a real Sv39 level",
    );
}

#[test]
fn unmapped_translates_to_none() {
    let mut mapper = Sv39Mapper::new(Table::new(), Arena::default());
    mapper
        .map(VirtualAddr::new(0x8000_0000), PhysicalAddr::new(0x8000_0000), PteFlags::read_write())
        .expect("mapping must succeed");

    assert_eq!(mapper.translate(VirtualAddr::new(0x9000_0000)), None, "unmapped VA is None");
}

#[test]
fn map_range_covers_a_partial_final_page() {
    let mut mapper = Sv39Mapper::new(Table::new(), Arena::default());
    // 0x3001 lands in the page based at 0x3000, so three pages must be mapped.
    mapper
        .id_map_range(VirtualAddr::new(0x1000), VirtualAddr::new(0x3001), PteFlags::read_write())
        .expect("range must map");

    for page in [0x1000u64, 0x2000, 0x3000] {
        assert_eq!(
            mapper.translate(VirtualAddr::new(page)),
            Some(PhysicalAddr::new(page)),
            "page {page:#x} in range must be mapped",
        );
    }
    assert_eq!(mapper.translate(VirtualAddr::new(0x4000)), None, "page past the range");
    assert_eq!(mapper.translate(VirtualAddr::new(0)), None, "page before the range");
}

#[test]
fn remapping_overwrites_the_leaf() {
    let mut mapper = Sv39Mapper::new(Table::new(), Arena::default());
    let va = VirtualAddr::new(0x4000_0000);
    mapper.map(va, PhysicalAddr::new(0x1000), PteFlags::read()).expect("first map");
    mapper.map(va, PhysicalAddr::new(0x2000), PteFlags::read_write()).expect("second map");

    assert_eq!(mapper.translate(va), Some(PhysicalAddr::new(0x2000)), "second map wins");
}

#[test]
fn free_subtables_returns_every_intermediate_frame() {
    let mut mapper = Sv39Mapper::new(Table::new(), Arena::default());
    // One 4 KiB mapping builds exactly two intermediate tables (levels 1, 0).
    mapper
        .map(VirtualAddr::new(0x4000_0000), PhysicalAddr::new(0x1000), PteFlags::read_write())
        .expect("mapping must succeed");
    let allocated = mapper.frames_mut().tables.len();
    assert_eq!(allocated, 2, "a 4 KiB mapping needs a level-1 and a level-0 table");
    assert_eq!(mapper.table_count(), 2);

    mapper.free_subtables();

    assert_eq!(mapper.frames_mut().freed.len(), allocated, "every intermediate must be freed");
    assert_eq!(mapper.table_count(), 0);
    assert_eq!(
        mapper.translate(VirtualAddr::new(0x4000_0000)),
        None,
        "freed branches must be cleared, not left dangling",
    );
}

#[test]
fn unmap_clears_one_leaf_and_leaves_its_neighbours() {
    let mut mapper = Sv39Mapper::new(Table::new(), Arena::default());
    let base = VirtualAddr::new(0x4000_0000);
    mapper.id_map_range(base, base.add(3 * PAGE_SIZE), PteFlags::read_write()).expect("range must map");

    let removed = mapper.unmap(base.add(PAGE_SIZE)).expect("the middle page was mapped");
    assert_eq!(
        removed,
        Unmapped { frame: PhysicalAddr::new(base.bits() + PAGE_SIZE), level: 0 },
        "unmap must report the frame and the size that were there",
    );
    assert_eq!(removed.len(), PAGE_SIZE, "a level-0 leaf covers one base page");
    assert_eq!(mapper.translate(base.add(PAGE_SIZE)), None, "the leaf must be gone");
    assert_eq!(
        mapper.translate(base),
        Some(PhysicalAddr::new(base.bits())),
        "the page below must survive",
    );
    assert_eq!(
        mapper.translate(base.add(2 * PAGE_SIZE)),
        Some(PhysicalAddr::new(base.bits() + 2 * PAGE_SIZE)),
        "the page above must survive",
    );
    assert!(
        mapper.frames_mut().freed.is_empty(),
        "unmap must not release anything: the intermediate tables are still in use",
    );
}

#[test]
fn unmap_reports_the_level_a_superpage_was_installed_at() {
    let two_mib = page_size_at(1);
    let mut mapper = Sv39Mapper::new(Table::new(), Arena::default());
    let va = VirtualAddr::new(0x4000_0000);
    mapper.map_at_level(va, PhysicalAddr::new(0), 1, PteFlags::read_write()).expect("superpage");

    let removed = mapper.unmap(va.add(PAGE_SIZE)).expect("the superpage covers this address");
    assert_eq!(
        removed,
        Unmapped { frame: PhysicalAddr::new(0), level: 1 },
        "a 2 MiB leaf must report its own base and level 1",
    );
    assert_eq!(removed.len(), two_mib, "a level-1 leaf covers 2 MiB");
    assert_eq!(mapper.translate(va), None, "the whole superpage must be gone");
}

#[test]
fn unmap_of_an_unmapped_address_reports_nothing() {
    let mut mapper = Sv39Mapper::new(Table::new(), Arena::default());
    let va = VirtualAddr::new(0x4000_0000);
    mapper.map(va, PhysicalAddr::new(0x1000), PteFlags::read_write()).expect("mapping");

    assert_eq!(mapper.unmap(va.add(PAGE_SIZE)), None, "never-mapped VA in a live table");
    assert_eq!(mapper.unmap(VirtualAddr::new(0x8000_0000)), None, "VA with no branch at all");
    assert_eq!(mapper.unmap(va), Some(Unmapped { frame: PhysicalAddr::new(0x1000), level: 0 }));
    assert_eq!(mapper.unmap(va), None, "a second unmap of the same page finds nothing");
}

#[test]
fn unmap_keeps_the_intermediate_tables_for_the_next_mapping() {
    let mut mapper = Sv39Mapper::new(Table::new(), Arena::default());
    let va = VirtualAddr::new(0x4000_0000);
    mapper.map(va, PhysicalAddr::new(0x1000), PteFlags::read_write()).expect("first mapping");
    let built = mapper.frames_mut().tables.len();
    assert_eq!(built, 2, "a 4 KiB mapping needs a level-1 and a level-0 table");

    mapper.unmap(va).expect("the leaf was there");
    mapper.map(va, PhysicalAddr::new(0x2000), PteFlags::read_write()).expect("second mapping");

    assert_eq!(
        mapper.frames_mut().tables.len(),
        built,
        "the mapping after an unmap must reuse the tables, not build new ones",
    );
    assert_eq!(mapper.translate(va), Some(PhysicalAddr::new(0x2000)));
}

#[test]
fn walks_the_scheme_it_is_given() {
    let va = VirtualAddr::new(0x4000_0000);
    let pa = PhysicalAddr::new(0x1000);

    let mut sv39 = Mapper::<Sv39, _>::new(Table::new(), Arena::default());
    sv39.map(va, pa, PteFlags::read_write()).expect("Sv39 mapping");

    let mut sv48 = Mapper::<Sv48, _>::new(Table::new(), Arena::default());
    sv48.map(va, pa, PteFlags::read_write()).expect("Sv48 mapping");

    assert_eq!(sv39.frames_mut().tables.len(), 2, "Sv39 descends from level 2");
    assert_eq!(sv48.frames_mut().tables.len(), 3, "Sv48 descends from level 3");
    assert_eq!(sv39.translate(va), Some(pa), "and both still translate");
    assert_eq!(sv48.translate(va), Some(pa));
}

#[test]
fn the_level_bound_is_the_schemes_own() {
    let va = VirtualAddr::new(0);
    let pa = PhysicalAddr::new(0);

    let mut sv39 = Mapper::<Sv39, _>::new(Table::new(), Arena::default());
    assert_eq!(
        sv39.map_at_level(va, pa, 3, rwx()),
        Err(MapError::InvalidLevel { level: 3, levels: 3 }),
        "Sv39 has no level 3"
    );

    let mut sv48 = Mapper::<Sv48, _>::new(Table::new(), Arena::default());
    assert_eq!(sv48.map_at_level(va, pa, 3, rwx()), Ok(()), "under Sv48 level 3 is the root");
}

#[test]
fn a_boot_table_of_gigapages_can_be_extended() {
    let mut root = Table::new();
    root.map_gigapage(VirtualAddr::new(0), PhysicalAddr::new(0), rwx());
    let mut mapper = Sv39Mapper::new(root, Arena::default());
    assert_eq!(mapper.translate(VirtualAddr::new(0x1234)), Some(PhysicalAddr::new(0x1234)));
    mapper.map(VirtualAddr::new(1 << 30), PhysicalAddr::new(0x5000), rwx()).expect("below the root");
    assert_eq!(mapper.root().entries[0].target(), PhysicalAddr::new(0), "the gigapage stays");
    assert_eq!(mapper.frames().tables.len(), 2);
}

#[test]
fn unmapping_a_fresh_mapping_restores_every_translation() {
    let mut mapper = Sv39Mapper::new(Table::new(), Arena::default());
    let keep = VirtualAddr::new(0x4000_0000);
    mapper.map(keep, PhysicalAddr::new(0x9000), PteFlags::read()).expect("neighbour");
    let va = VirtualAddr::new(0x4000_3000);
    assert_eq!(mapper.translate(va), None);
    mapper.map(va, PhysicalAddr::new(0x7000), PteFlags::read_write()).expect("map");
    assert_eq!(mapper.translate(VirtualAddr::new(0x4000_3123)), Some(PhysicalAddr::new(0x7123)));
    mapper.unmap(va).expect("unmap");
    assert_eq!(mapper.translate(va), None);
    assert_eq!(mapper.translate(VirtualAddr::new(0x4000_3123)), None);
    assert_eq!(mapper.translate(keep), Some(PhysicalAddr::new(0x9000)), "the neighbour is untouched");
}

#[test]
fn an_empty_range_maps_without_frames() {
    let mut mapper = Sv39Mapper::new(Table::new(), Barren);
    let at = VirtualAddr::new(0x4000);
    assert_eq!(mapper.map_range(at, at, |v| PhysicalAddr::new(v.bits()), rwx()), Ok(()));
    assert_eq!(mapper.id_map_range(at, at, PteFlags::read_write()), Ok(()));
    assert_eq!(mapper.translate(at), None, "an empty range maps nothing");
}

#[test]
fn a_root_level_range_needs_no_frames() {
    let mut mapper = Sv39Mapper::new(Table::new(), Barren);
    let base = VirtualAddr::new(4 << 30);
    let giga = page_size_at(Sv39::root_level());
    assert_eq!(
        mapper.map_range_at_level(base, base.add(2 * giga), Sv39::root_level(), |v| PhysicalAddr::new(v.bits()), rwx()),
        Ok(())
    );
    assert_eq!(mapper.translate(base.add(giga + 0x123)), Some(PhysicalAddr::new((4 << 30) + giga + 0x123)));
}

#[test]
fn a_range_fails_on_the_flags_only_when_it_is_not_empty() {
    let mut mapper = Sv39Mapper::new(Table::new(), Arena::default());
    let at = VirtualAddr::new(0x4000);
    let none = PteFlags::empty();
    assert_eq!(mapper.map_range(at, at, |v| PhysicalAddr::new(v.bits()), none), Ok(()));
    assert_eq!(
        mapper.map_range(at, at.add(PAGE_SIZE), |v| PhysicalAddr::new(v.bits()), none),
        Err(MapError::NotALeaf)
    );
}
