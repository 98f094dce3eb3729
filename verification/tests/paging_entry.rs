use lib::addr::PhysicalAddr;
use lib::pte::{Entry, PteFlags};

#[test]
fn entry_validity_and_kind() {
    assert!(!Entry::empty().is_valid(), "zeroed entry is invalid");

    let mut branch = Entry::empty();
    branch.set_flags(PteFlags::valid());
    assert!(branch.is_branch(), "valid + no perms = branch");
    assert!(!branch.is_leaf());

    let mut leaf = Entry::empty();
    leaf.set_flags(PteFlags::valid().union(PteFlags::read()));
    assert!(leaf.is_leaf(), "valid + R = leaf");
    assert!(!leaf.is_branch());

    // R/W/X set but not valid → neither leaf nor branch (e.g. after unmap).
    let stale = Entry::new(PteFlags::read().bits());
    assert!(!stale.is_leaf(), "invalid entry is never a leaf");
    assert!(!stale.is_branch(), "invalid entry is never a branch");
}

#[test]
fn ppn_storage_preserves_flags() {
    let rw = PteFlags::valid().union(PteFlags::read()).union(PteFlags::write());
    let mut entry = Entry::empty();
    entry.set_flags(rw);
    entry.set_ppn(PhysicalAddr::new(0x8020_0000));

    assert_eq!(entry.ppn(), 0x8020_0000 >> 12, "ppn stored");
    assert_eq!(entry.target(), PhysicalAddr::new(0x8020_0000), "target is page-aligned frame");
    assert_eq!(entry.flags(), rw, "flags kept");
}

#[test]
fn ppn_field_split() {
    // PPN[2] is 26 bits at PTE bit 28; PPN[0] is 9 bits at bit 10.
    let entry = Entry::new(0x3FF_FFFF << 28);
    assert_eq!(entry.ppn_field(2), 0x3FF_FFFF, "26-bit PPN[2]");
    assert_eq!(entry.ppn_field(0), 0);

    let entry = Entry::new(0x1FF << 10);
    assert_eq!(entry.ppn_field(0), 0x1FF, "9-bit PPN[0]");
    assert_eq!(entry.ppn_field(2), 0);
}

#[test]
fn leaf_and_branch_constructors() {
    let leaf = Entry::leaf(PhysicalAddr::new(0x8020_0ABC), PteFlags::read_write());
    assert!(leaf.is_valid(), "VALID is added");
    assert!(leaf.is_leaf());
    assert_eq!(leaf.target(), PhysicalAddr::new(0x8020_0000), "the offset is dropped");
    assert_eq!(leaf.flags(), PteFlags::valid().union(PteFlags::read_write()));

    let branch = Entry::branch(PhysicalAddr::new(0x8030_0000));
    assert!(branch.is_branch());
    assert_eq!(branch.flags(), PteFlags::valid(), "a branch carries VALID only");
    assert_eq!(branch.target(), PhysicalAddr::new(0x8030_0000));
}

#[test]
fn set_flags_keeps_the_frame_and_set_ppn_keeps_the_flags() {
    let mut entry = Entry::leaf(PhysicalAddr::new(0x1234_5000), PteFlags::read());
    entry.set_flags(PteFlags::valid().union(PteFlags::read_execute()));
    assert_eq!(entry.ppn(), 0x12345);
    entry.set_ppn(PhysicalAddr::new(0x5000));
    assert_eq!(entry.ppn(), 5);
    assert_eq!(entry.flags(), PteFlags::valid().union(PteFlags::read_execute()));
}

#[test]
fn flag_set_operations() {
    let rw = PteFlags::read_write();
    assert!(rw.contains(PteFlags::read()));
    assert!(!rw.contains(PteFlags::execute()));
    assert!(rw.intersects(PteFlags::write()));
    assert!(!rw.intersects(PteFlags::user()));
    assert!(PteFlags::empty().is_empty());
    assert_eq!(PteFlags::all().bits(), 0xff);
    assert_eq!(PteFlags::from_bits(0x100), None, "bits outside the byte are refused");
    assert_eq!(PteFlags::from_bits_truncate(0x1ff).bits(), 0xff);
}
