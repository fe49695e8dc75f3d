use xv6_mm::address::{
    p2v, p2v_raw, paddr, paddr_pg, paddr_raw, unaligned, v2p, v2p_raw, vaddr, vaddr_pg, vaddr_raw,
    Align, FreeAligned, PageAligned, KERNBASE,
};
use xv6_mm::pointer::Ptr;

#[test]
fn page_aligned_from_raw_rejects_non_multiples() {
    for v in [1usize, 4095, 4097, 0x8000_0001, 0x1234, usize::MAX] {
        assert!(vaddr_pg::from_raw(v).is_none(), "{:#x}", v);
        assert!(paddr_pg::from_raw(v).is_none(), "{:#x}", v);
    }
}

#[test]
fn page_aligned_from_raw_accepts_multiples() {
    for v in [0usize, 4096, 8192, 0x8000_0000, 0xFE00_0000, 0xFFFF_F000] {
        let a = vaddr_pg::from_raw(v).expect("multiple of the page size");
        assert_eq!(a.as_raw(), v);
    }
}

#[test]
fn free_aligned_from_raw_accepts_anything() {
    for v in [0usize, 1, 4095, 0x8010_0001, usize::MAX] {
        assert_eq!(vaddr::from_raw(v).unwrap().as_raw(), v);
    }
}

#[test]
fn null_and_new_are_zero() {
    assert!(vaddr::null().is_null());
    assert!(vaddr_pg::new().is_null());
    assert!(!vaddr_raw(4).is_null());
}

#[test]
fn increase_steps_by_the_class_stride() {
    let mut a = vaddr_pg::from_raw(0x1000).unwrap();
    a.increase(3);
    assert_eq!(a.as_raw(), 0x4000);
    a.decrease(4);
    assert_eq!(a.as_raw(), 0);
    let mut b = vaddr_raw(10);
    b.increase(3);
    assert_eq!(b.as_raw(), 13);
}

#[test]
fn decrease_wraps_around_the_word() {
    let mut a = vaddr_pg::from_raw(0).unwrap();
    a.decrease(1);
    assert_eq!(a.as_raw(), 0usize.wrapping_sub(4096));
    a.increase(1);
    assert_eq!(a.as_raw(), 0);
}

#[test]
fn increase_bytes_keeps_alignment_or_fails() {
    let mut a = vaddr_pg::from_raw(0x2000).unwrap();
    assert_eq!(a.increase_bytes(12), None);
    assert_eq!(a.as_raw(), 0x2000);
    assert_eq!(a.increase_bytes(0x3000), Some(()));
    assert_eq!(a.as_raw(), 0x5000);
    assert_eq!(a.decrease_bytes(1), None);
    assert_eq!(a.decrease_bytes(0x1000), Some(()));
    assert_eq!(a.as_raw(), 0x4000);
}

#[test]
fn next_prev_and_byte_variants() {
    let a = vaddr_pg::from_raw(0x8000_0000).unwrap();
    assert_eq!(a.next(2).as_raw(), 0x8000_2000);
    assert_eq!(a.prev(1).as_raw(), 0x7FFF_F000);
    assert!(a.next_bytes(7).is_none());
    assert_eq!(a.next_bytes(0x1000).unwrap().as_raw(), 0x8000_1000);
    assert_eq!(a.prev_bytes(0x2000).unwrap().as_raw(), 0x7FFF_E000);
    assert!(a.prev_bytes(3).is_none());
    assert_eq!(a.as_raw(), 0x8000_0000);
}

#[test]
fn check_aligned_promotes_only_multiples() {
    assert!(vaddr_raw(0x3001).check_aligned::<PageAligned>().is_none());
    let p = vaddr_raw(0x3000).check_aligned::<PageAligned>().unwrap();
    assert_eq!(p.as_raw(), 0x3000);
    assert_eq!(unaligned(p).as_raw(), 0x3000);
}

#[test]
fn conversion_is_an_offset_by_the_kernel_base() {
    assert_eq!(p2v(paddr_raw(0x1234)).as_raw(), 0x8000_1234);
    assert_eq!(v2p(vaddr_raw(0x8010_6000)).as_raw(), 0x10_6000);
    assert_eq!(p2v_raw(0xE00_0000), 0x8E00_0000);
    assert_eq!(v2p_raw(0x8E00_0000), 0xE00_0000);
    let p = paddr_pg::from_raw(0x42_0000).unwrap();
    assert_eq!(p2v(p).as_raw(), 0x8042_0000);
}

#[test]
fn round_trip_in_both_directions() {
    for p in [0usize, 1, 0x1000, 0x10_6000, 0xDFF_FFFF, 0x7FFF_FFFF] {
        assert_eq!(v2p(p2v(paddr_raw(p))).as_raw(), p);
        let pg = paddr_pg::from_raw(p & !0xFFF).unwrap();
        assert_eq!(v2p(p2v(pg)).as_raw(), p & !0xFFF);
    }
    for v in [KERNBASE, 0x8010_0000, 0x8E00_0000, 0xFE00_0000, 0x1000] {
        assert_eq!(p2v(v2p(vaddr_raw(v))).as_raw(), v);
    }
}

#[test]
fn equality_and_order_ignore_the_class() {
    let free: vaddr = vaddr_raw(0x5000);
    let page: vaddr_pg = vaddr_pg::from_raw(0x5000).unwrap();
    assert!(free == page);
    assert!(page == free);
    assert!(vaddr_raw(0x4FFF) < page);
    assert!(page < vaddr_raw(0x5001));
    let p: paddr = paddr_raw(9);
    assert!(p > paddr_raw(8));
}

#[test]
fn class_strides_and_names() {
    assert_eq!(FreeAligned::bytes(), 1);
    assert_eq!(PageAligned::bytes(), 4096);
    assert!(FreeAligned::check(&3));
    assert!(!PageAligned::check(&3));
    assert!(PageAligned::check(&8192));
    assert_eq!(FreeAligned::display(), "free");
    assert_eq!(PageAligned::display(), "page");
}

#[test]
fn pointer_steps_by_the_pointee_size() {
    let mut p: Ptr<u32> = Ptr::from(vaddr_raw(0x8000_0000));
    p.increase(3);
    assert_eq!(p.address().as_raw(), 0x8000_000C);
    p.decrease(1);
    assert_eq!(p.address().as_raw(), 0x8000_0008);
    assert_eq!(p.next(2).address().as_raw(), 0x8000_0010);
    assert_eq!(p.prev(2).address().as_raw(), 0x8000_0000);
    assert_eq!(p.next_bytes(1).unwrap().address().as_raw(), 0x8000_0009);
    assert_eq!(p.prev_bytes(9).unwrap().address().as_raw(), 0x7FFF_FFFF);
    assert_eq!(p.increase_bytes(2), Some(()));
    assert_eq!(p.decrease_bytes(1), Some(()));
    assert_eq!(p.address().as_raw(), 0x8000_0009);
    let q: Ptr<[u8; 4096]> = p.cast();
    assert_eq!(q.next(1).address().as_raw(), 0x8000_1009);
}

#[test]
fn null_pointer() {
    let p: Ptr<u64> = Ptr::null();
    assert!(p.is_null());
    assert!(p == Ptr::null());
    let q: Ptr<u64> = Ptr::from(vaddr_pg::from_raw(0x1000).unwrap());
    assert!(!q.is_null());
    assert!(p != q);
}
