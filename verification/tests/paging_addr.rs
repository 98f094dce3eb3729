use lib::addr::{MemoryAddr, PhysicalAddr, VirtualAddr};
use lib::geometry::PAGE_SIZE;
use lib::sv39::VA_BITS;

#[test]
fn offset_extraction() {
    assert_eq!(VirtualAddr::new(0x8200_1ABC).offset(), 0xABC, "offset");
}

#[test]
fn addr_alignment() {
    assert!(VirtualAddr::new(0x8000_0000).is_aligned(PAGE_SIZE), "page-aligned");
    assert!(!VirtualAddr::new(0x8000_0001).is_aligned(PAGE_SIZE), "not page-aligned");
    assert!(VirtualAddr::new(0x8020_0000).is_aligned(2 * 1024 * 1024), "2 MiB aligned");
}

#[test]
fn vpn_and_offset_extraction() {
    // 0x8200_1ABC → vpn2=2, vpn1=16, vpn0=1, offset=0xABC
    let va = VirtualAddr::new(0x8200_1ABC);
    assert_eq!(va.vpn(2), 2, "vpn[2]");
    assert_eq!(va.vpn(1), 16, "vpn[1]");
    assert_eq!(va.vpn(0), 1, "vpn[0]");
    assert_eq!(va.offset(), 0xABC, "offset");
}

#[test]
fn from_parts_roundtrip() {
    let vpn = (0x1FF << 18) | (0x1FF << 9) | 0x1FF; // all fields maxed
    let va = VirtualAddr::from_parts(vpn, 0xFFF);
    assert_eq!(va.vpn(2), 0x1FF);
    assert_eq!(va.vpn(1), 0x1FF);
    assert_eq!(va.vpn(0), 0x1FF);
    assert_eq!(va.offset(), 0xFFF);
}

#[test]
fn canonicalization() {
    // Low half of the space: already canonical, unchanged.
    let low = VirtualAddr::new(0x8000_0000);
    assert!(low.is_canonical(), "low address is canonical");
    assert_eq!(low.canonicalize().bits(), low.bits(), "low address unchanged");

    // Bit 38 set → canonical form fills the top bits with ones.
    let high = VirtualAddr::new(1 << (VA_BITS - 1));
    assert!(!high.is_canonical(), "raw high-bit address is non-canonical");
    let c = high.canonicalize();
    assert!(c.is_canonical(), "canonicalized address is canonical");
    assert_eq!(c.vpn(2), high.vpn(2), "canonicalization preserves the VPN fields");
    assert_eq!(c.bits(), 0xFFFF_FFC0_0000_0000, "top bits filled with ones");
}

#[test]
fn addr_ppn_extraction() {
    let pa = PhysicalAddr::new(0x8200_1ABC);
    assert_eq!(pa.ppn_field(2), 2, "PPN[2]");
    assert_eq!(pa.ppn_field(1), 16, "PPN[1]");
    assert_eq!(pa.ppn_field(0), 1, "PPN[0]");
    assert_eq!(pa.offset(), 0xABC, "offset");
    assert_eq!(pa.ppn(), 0x8200_1ABC >> 12, "full PPN");
}

#[test]
fn addr_from_parts_and_from_ppn() {
    let pa = PhysicalAddr::from_parts(0x80201, 0xABC);
    assert_eq!(pa.ppn(), 0x80201);
    assert_eq!(pa.offset(), 0xABC);
    assert_eq!(pa.bits(), (0x80201 << 12) | 0xABC);
    assert_eq!(PhysicalAddr::from_ppn(0x80201).bits(), 0x80201 << 12, "from_ppn is offset 0");
}

#[test]
fn addr_full_ppn_roundtrip() {
    for ppn in [0u64, 1, 0x80201, (1 << 44) - 1] {
        let pa = PhysicalAddr::from_parts(ppn, 0xFFF);
        assert_eq!(pa.ppn(), ppn, "ppn={ppn:#x}");
        assert_eq!(pa.offset(), 0xFFF, "offset preserved for ppn={ppn:#x}");
    }
}

#[test]
fn physical_from_parts_drops_bits_beyond_each_field() {
    let pa = PhysicalAddr::from_parts(1 << 44 | 0x5, 0x1_0ABC);
    assert_eq!(pa.ppn(), 0x5, "PPN bits past 44 are ignored");
    assert_eq!(pa.offset(), 0xABC, "offset bits past 12 are ignored");
}

#[test]
fn memory_addr_rounding_and_offsets() {
    let va = VirtualAddr::new(0x8000_1234);
    assert_eq!(va.align_down(PAGE_SIZE).bits(), 0x8000_1000);
    assert_eq!(va.align_up(PAGE_SIZE).bits(), 0x8000_2000);
    assert_eq!(va.align_offset(PAGE_SIZE), 0x234);
    assert_eq!(MemoryAddr::offset(va, -0x234).bits(), 0x8000_1000);
    assert_eq!(VirtualAddr::new(0).wrapping_offset(-1).bits(), u64::MAX);
    assert_eq!(va.offset_from(VirtualAddr::new(0x8000_0000)), 0x1234);
}
