use xv6_mm::address::{vaddr_pg, vaddr_raw};
use xv6_mm::common::fill;
use xv6_mm::mmu::{
    page_rounddown, page_roundup, pdx, pgaddr, pte_addr, pte_flags, ptx, GateDesc, PteFlags,
    SegDesc, taskstate, DPL_USER, STA_R, STA_W, STA_X,
};

#[test]
fn rounding_to_pages() {
    assert_eq!(page_roundup(vaddr_raw(0x8010_6001)).as_raw(), 0x8010_7000);
    assert_eq!(page_roundup(vaddr_raw(0x8010_6000)).as_raw(), 0x8010_6000);
    assert_eq!(page_roundup(vaddr_raw(0)).as_raw(), 0);
    assert_eq!(page_rounddown(vaddr_raw(0x8010_6FFF)).as_raw(), 0x8010_6000);
    assert_eq!(page_rounddown(vaddr_raw(0xFFF)).as_raw(), 0);
}

#[test]
fn directory_and_table_indexes() {
    let va = vaddr_pg::from_raw(0x8010_1000).unwrap();
    assert_eq!(pdx(va), 0x200);
    assert_eq!(ptx(va), 0x101);
    let top = vaddr_pg::from_raw(0xFFFF_F000).unwrap();
    assert_eq!(pdx(top), 1023);
    assert_eq!(ptx(top), 1023);
    assert_eq!(pgaddr(0x200, 0x101, 0).as_raw(), 0x8010_1000);
    assert_eq!(pgaddr(1023, 1023, 0).as_raw(), 0xFFFF_F000);
    assert_eq!(pgaddr(0, 0, 0).as_raw(), 0);
}

#[test]
fn entry_address_and_flags() {
    assert_eq!(pte_addr(0x0010_1007).as_raw(), 0x0010_1000);
    assert_eq!(pte_addr(0xFE00_0003).as_raw(), 0xFE00_0000);
    assert_eq!(pte_flags(0x0010_1007).bits(), 7);
    assert_eq!(pte_flags(0x0000_0081).bits(), 0x81);
}

#[test]
fn flag_sets() {
    let rw = PteFlags::present().union(PteFlags::writable());
    assert_eq!(rw.bits(), 3);
    assert!(rw.contains(PteFlags::writable()));
    assert!(!rw.contains(PteFlags::user()));
    assert_eq!(PteFlags::empty().bits(), 0);
    assert_eq!(PteFlags::page_size().bits(), 0x80);
    assert_eq!(PteFlags::from_bits(0x87).unwrap().bits(), 0x87);
    assert!(PteFlags::from_bits(0x20).is_none());
}

#[test]
fn fill_sets_every_element() {
    let mut v = vec![7u32; 10];
    fill(&mut v, 0);
    assert!(v.iter().all(|x| *x == 0));
    let mut b = [0u8; 3];
    fill(&mut b, 0xAB);
    assert_eq!(b, [0xAB; 3]);
}

#[test]
fn segment_descriptors() {
    assert_eq!(format!("{:?}", SegDesc::zero()), "SegDesc(0)");
    let code = SegDesc::new(STA_X | STA_R, 0, 0xffff_ffff, 0);
    assert_eq!(format!("{:?}", code), format!("SegDesc({})", 0x00CF_9A00_0000_FFFFu64));
    let udata = SegDesc::new(STA_W, 0, 0xffff_ffff, DPL_USER);
    assert_eq!(format!("{:?}", udata), format!("SegDesc({})", 0x00CF_F200_0000_FFFFu64));
}

#[test]
fn gate_descriptors() {
    let mut g = GateDesc::new();
    assert_eq!(g.get_p(), 0);
    g.set_gate(true, 8, 0x8010_2345, 3);
    assert_eq!(g.get_cs(), 8);
    assert_eq!(g.get_args(), 0);
    assert_eq!(g.get_type(), 0xF);
    assert_eq!(g.get_dpl(), 3);
    assert_eq!(g.get_p(), 1);
    assert_eq!(g.get_offfset(), 0x8010 | 0x2345);
    g.set_gate(false, 16, 0x1234, 0);
    assert_eq!(g.get_type(), 0xE);
    assert_eq!(g.get_cs(), 16);
    assert_eq!(g.get_dpl(), 0);
    g.set_offset(0xABCD_0001);
    assert_eq!(g.get_offfset(), 0xABCD | 0x0001);
}

#[test]
fn task_state_starts_cleared() {
    let t = taskstate::new();
    assert_eq!(t.cr3, 0);
    assert_eq!(t.esp0, 0);
    assert_eq!(t.iomb, 0);
    assert_eq!(t.ss0, 0);
}
