use lib::addr::{PhysicalAddr, VirtualAddr};
use lib::geometry::{ENTRIES_PER_PAGE, GIGAPAGE, ROOT_ENTRIES_PER_HALF};
use lib::pte::PteFlags;
use lib::sv39::ROOT_LEVEL;
use lib::table::Table;

/// Bottom of the Sv39 high half, where a higher-half kernel lives.
const HIGH_BASE: u64 = 0xffff_ffc0_0000_0000;
/// A direct-map window narrower than the half holding it: half of it.
const SPAN: u64 = (ROOT_ENTRIES_PER_HALF as u64 / 2) * GIGAPAGE;

/// All access, with A/D pre-set so the hardware walker never writes to the table.
fn boot() -> PteFlags {
    PteFlags::read_write_execute().union(PteFlags::access()).union(PteFlags::dirty())
}

#[test]
fn layout_is_a_page() {
    let table = Table::new();
    assert_eq!(table.entries.len(), ENTRIES_PER_PAGE, "table fills one page");
    assert_eq!(ENTRIES_PER_PAGE * 8, 4096);
}

#[test]
fn new_table_is_empty() {
    let table = Table::new();
    assert!(table.entries.iter().all(|e| !e.is_valid()), "fresh table has no valid entries");
}

#[test]
fn const_built_boot_table_has_the_expected_entries() {
    let early = Table::identity_and_offset(HIGH_BASE, SPAN, boot());
    // The high half starts at root index 256 — derived, not assumed.
    let high_index = VirtualAddr::new(HIGH_BASE).vpn(ROOT_LEVEL);
    assert_eq!(high_index, ROOT_ENTRIES_PER_HALF, "high half begins at root entry 256");
    let window_slots = (SPAN / GIGAPAGE) as usize;

    for i in 0..ROOT_ENTRIES_PER_HALF {
        let expected = PhysicalAddr::new(i as u64 * GIGAPAGE);

        let identity = early.entries[i];
        assert!(identity.is_leaf(), "identity entry {i} must be a leaf, not a branch");
        assert_eq!(identity.target(), expected, "identity entry {i} targets the wrong frame");

        let high = early.entries[high_index + i];
        if i >= window_slots {
            assert!(!high.is_valid(), "high-half entry {i} is outside the window and mapped");
            continue;
        }
        assert!(high.is_leaf(), "high-half entry {i} must be a leaf");
        assert_eq!(high.target(), expected, "high-half entry {i} targets the wrong frame");
        assert_eq!(high.flags(), boot().union(PteFlags::valid()), "high-half entry {i} lost flags");
    }

    let valid = early.entries.iter().filter(|entry| entry.is_valid()).count();
    assert_eq!(
        valid,
        ROOT_ENTRIES_PER_HALF + window_slots,
        "the table must map the whole low half and exactly the window above it"
    );
}

#[test]
fn a_full_width_offset_half_fills_the_table() {
    let table =
        Table::identity_and_offset(HIGH_BASE, ROOT_ENTRIES_PER_HALF as u64 * GIGAPAGE, boot());
    assert!(
        table.entries.iter().all(|entry| entry.is_valid()),
        "a window as wide as the half must leave no slot invalid"
    );
}

#[test]
fn gigapage_entry_encodes_ppn_and_flags() {
    let mut table = Table::new();
    let pa = PhysicalAddr::new(2 * GIGAPAGE);
    table.map_gigapage(VirtualAddr::new(3 * GIGAPAGE), pa, boot());

    let entry = table.entries[3];
    assert_eq!(entry.target(), pa, "entry must carry the mapped frame");
    assert!(entry.flags().contains(PteFlags::valid()), "VALID is applied automatically");
    assert!(entry.is_leaf(), "a gigapage is a leaf");
}

#[test]
fn default_table_is_empty() {
    let table = Table::default();
    assert_eq!(table.entries.len(), ENTRIES_PER_PAGE);
    assert!(table.entries.iter().all(|e| e.bits() == 0));
}
