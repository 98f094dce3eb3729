use lib::addr::PhysicalAddr;
use lib::geometry::PPN_BITS;
use lib::satp::{Mode, Satp, ASID_BITS};

#[test]
fn sv39_value_matches_the_privileged_spec_layout() {
    let root = PhysicalAddr::new(0x8020_1000);
    let satp = Satp::sv39(root, 0);
    assert_eq!(satp.bits(), (8 << 60) | (0x8020_1000 >> 12), "MODE at bit 60, PPN at bit 0");
    assert_eq!(satp.mode(), Some(Mode::Sv39), "mode decodes back");
    assert_eq!(satp.root(), root, "root decodes back");
    assert_eq!(satp.asid(), 0, "no ASID requested");
}

#[test]
fn fields_do_not_bleed_into_each_other() {
    // A root address using the full 44-bit PPN, plus a full-width ASID.
    let root = PhysicalAddr::from_ppn((1 << PPN_BITS) - 1);
    let satp = Satp::new(Mode::Sv57, (1 << ASID_BITS) - 1, root);

    assert_eq!(satp.ppn(), (1 << PPN_BITS) - 1, "PPN survives a maximal ASID");
    assert_eq!(satp.asid(), (1 << ASID_BITS) - 1, "ASID survives a maximal PPN");
    assert_eq!(satp.mode(), Some(Mode::Sv57), "MODE survives both");
}

#[test]
fn root_can_be_grafted_onto_a_const_template() {
    let template: Satp = Satp::sv39(PhysicalAddr::new(0), 0);
    assert_eq!(template.bits(), 8 << 60, "a rootless template is mode bits only");

    let root = PhysicalAddr::new(0x8100_0000);
    let filled = template.with_root(root);
    assert_eq!(filled, Satp::sv39(root, 0), "grafting == composing directly");
}

#[test]
fn with_root_keeps_mode_and_asid() {
    let satp = Satp::new(Mode::Sv48, 0x1234, PhysicalAddr::new(0x8000_0000));
    let moved = satp.with_root(PhysicalAddr::new(0x9000_0000));
    assert_eq!(moved.mode(), Some(Mode::Sv48));
    assert_eq!(moved.asid(), 0x1234);
    assert_eq!(moved.root(), PhysicalAddr::new(0x9000_0000));
}

#[test]
fn a_reserved_mode_field_decodes_to_none() {
    assert_eq!(Satp::from_bits(1 << 60).mode(), None);
    assert_eq!(Satp::from_bits(11 << 60).mode(), None);
}
