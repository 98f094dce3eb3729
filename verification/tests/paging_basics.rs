use lib::addr::VirtualAddr;
use lib::geometry::{page_size_at, PAGE_SIZE};
use lib::pte::PteFlags;
use lib::satp::{Mode, Satp};
use lib::scheme::{Scheme, Sv39, Sv48, Sv57};
use lib::utils::{align_down, align_offset, align_up, field, mask, with_field, GIGABYTE, TERABYTE, USIZE_BITS};

#[test]
fn mode_encodings_match_the_privileged_spec() {
    assert_eq!(Mode::Bare.bits(), 0, "Bare is MODE 0");
    assert_eq!(Mode::Sv39.bits(), 8, "Sv39 is MODE 8");
    assert_eq!(Mode::Sv48.bits(), 9);
    assert_eq!(Mode::Sv57.bits(), 10);

    assert_eq!(Mode::from_bits(8), Some(Mode::Sv39), "MODE 8 round-trips");
    assert_eq!(Mode::from_bits(1), None, "MODE 1 is reserved, not a mode");
    assert_eq!(Mode::from_bits(11), None, "MODE 11 is reserved");

    assert_eq!(Mode::Sv39.levels(), Sv39::levels(), "Sv39 walks one level per VPN field");
}

#[test]
fn a_level_count_names_exactly_one_mode() {
    for mode in [Mode::Bare, Mode::Sv39, Mode::Sv48, Mode::Sv57] {
        assert_eq!(
            Mode::from_levels(mode.levels()),
            Some(mode),
            "{mode:?} must be recoverable from its own level count"
        );
    }
    assert_eq!(Mode::from_levels(2), None, "no RV64 scheme walks two levels");
    assert_eq!(Mode::from_levels(6), None, "nor six");
}

#[test]
fn bare_disables_translation() {
    let satp = Satp::bare();
    assert_eq!(satp.bits(), 0, "Bare is an all-zero register");
    assert_eq!(satp.mode(), Some(Mode::Bare));
    assert_eq!(Satp::from_bits(0), satp, "raw 0 round-trips to Bare");
}

#[test]
fn page_size_agrees_with_the_ppn_shift() {
    assert_eq!(PAGE_SIZE, 4096, "satp.PPN is an address >> 12");
    assert_eq!(page_size_at(Sv39::root_level()), 1 << 30, "an Sv39 root leaf is a gigapage");
}

#[test]
fn each_scheme_derives_its_own_geometry_from_the_level_count() {
    assert_eq!(Sv39::va_bits(), 39, "Sv39 names 39 bits");
    assert_eq!(Sv48::va_bits(), 48);
    assert_eq!(Sv57::va_bits(), 57);

    assert_eq!(Sv39::root_level(), 2, "three levels means the root is level 2");
    assert_eq!(Sv57::root_level(), 4);

    assert_eq!(Sv39::mode(), Mode::Sv39, "the mode encoding follows from the level count");
    assert_eq!(Sv48::mode(), Mode::Sv48);
    assert_eq!(Sv57::mode(), Mode::Sv57);

    assert_eq!(Sv39::root_page(), GIGABYTE, "an Sv39 root leaf is a gigapage");
    assert_eq!(Sv48::root_page(), 512 * GIGABYTE);
}

#[test]
fn a_canonical_half_is_the_root_slots_it_holds() {
    assert_eq!(Sv39::half_span(), 256 * GIGABYTE, "Sv39 gives a kernel 256 GiB");
    assert_eq!(Sv48::half_span(), 128 * TERABYTE);
}

#[test]
fn flag_bit_positions() {
    assert_eq!(PteFlags::valid().bits(), 1 << 0);
    assert_eq!(PteFlags::read().bits(), 1 << 1);
    assert_eq!(PteFlags::write().bits(), 1 << 2);
    assert_eq!(PteFlags::execute().bits(), 1 << 3);
    assert_eq!(PteFlags::user().bits(), 1 << 4);
    assert_eq!(PteFlags::dirty().bits(), 1 << 7);
}

#[test]
fn leaf_vs_branch_flags() {
    assert!(!PteFlags::valid().is_leaf(), "V-only is a branch");
    assert!(PteFlags::read().is_leaf(), "R is a leaf");
    assert!(PteFlags::execute().is_leaf(), "X is a leaf");
    assert!(PteFlags::read_write().is_legal_leaf(), "RW is legal");
    assert!(!PteFlags::write().is_legal_leaf(), "W-only is reserved");
}

#[test]
fn mask_widths() {
    assert_eq!(mask(0), 0, "zero-width mask is empty");
    assert_eq!(mask(1), 0b1);
    assert_eq!(mask(9), 0x1FF, "9-bit VPN/PPN index mask");
    assert_eq!(mask(12), 0xFFF, "page offset mask");
    assert_eq!(mask(44), (1u64 << 44) - 1, "full PPN mask");
    assert_eq!(mask(USIZE_BITS), u64::MAX, "full-width mask must not overflow");
}

#[test]
fn field_roundtrip() {
    let base = 0xFFFF_FFFF_FFFF_FFFF;
    let w = with_field(base, 10, 9, 0x1AB);
    assert_eq!(field(w, 10, 9), 0x1AB & 0x1FF, "field reads back what was written");
    assert_eq!(field(w, 0, 10), mask(10), "low bits untouched");
    assert_eq!(field(w, 19, 9), mask(9), "high bits untouched");
}

#[test]
fn with_field_truncates_value() {
    let w = with_field(0, 4, 4, 0xFF);
    assert_eq!(w, 0xF0, "only the low 4 bits of 0xFF land in the field");
}

#[test]
fn alignment_helpers() {
    assert_eq!(align_down(0x1FFF, 0x1000), 0x1000);
    assert_eq!(align_up(0x1001, 0x1000), 0x2000);
    assert_eq!(align_up(0x2000, 0x1000), 0x2000, "already aligned is a no-op");
    assert_eq!(align_offset(0x1234, 0x1000), 0x234);
}

#[test]
fn canonicalization_follows_the_scheme_rather_than_a_fixed_width() {
    // Bit 38 is the sign bit under Sv39 and an ordinary address bit under Sv48.
    let va = VirtualAddr::new(1 << 38);
    assert!(!Sv39::is_canonical(va), "bit 38 set is non-canonical under Sv39");
    assert!(Sv48::is_canonical(va), "bit 38 is an ordinary bit under Sv48");

    let fixed = Sv39::canonicalize(va);
    assert!(Sv39::is_canonical(fixed), "canonicalizing produces a canonical address");
    assert_eq!(fixed.vpn(2), va.vpn(2), "canonicalization preserves the VPN fields");
    assert_eq!(Sv48::canonicalize(va), va, "an already-canonical address is unchanged");
}
