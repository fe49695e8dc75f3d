use std::collections::HashSet;

use xv6_mm::address::{p2v, paddr_raw, v2p, vaddr_pg, vaddr_raw};
use xv6_mm::kalloc::{kalloc, kfree, kinit1, Kmem, PHYSTOP, POISON};
use xv6_mm::memory::{fill_page, PhysMem};
use xv6_mm::mmu::PGSIZE;

const KERNEL_END: usize = 0x8010_6000;

fn machine(phystop: usize) -> (Kmem, PhysMem) {
    (Kmem::new(vaddr_raw(KERNEL_END), phystop), PhysMem::new(phystop / PGSIZE))
}

fn seeded(phystop: usize) -> (Kmem, PhysMem) {
    let (mut k, mut mem) = machine(phystop);
    let end = p2v(paddr_raw(phystop));
    kinit1(&mut k, &mut mem, vaddr_raw(KERNEL_END), end);
    (k, mem)
}

fn drain(k: &mut Kmem) -> Vec<usize> {
    let mut out = Vec::new();
    while let Some(p) = kalloc(k) {
        out.push(p.as_raw());
    }
    out
}

#[test]
fn seeding_then_draining_yields_every_page_once() {
    let (mut k, _mem) = seeded(PHYSTOP);
    let expected = (0x0E00_0000 - (0x8010_6000 - 0x8000_0000)) / 4096;
    assert_eq!(expected, 57082);
    assert_eq!(k.num_free(), expected);
    let pages = drain(&mut k);
    assert_eq!(pages.len(), expected);
    let distinct: HashSet<usize> = pages.iter().copied().collect();
    assert_eq!(distinct.len(), expected);
    for p in &pages {
        assert_eq!(p % 4096, 0);
        assert!(*p >= KERNEL_END && *p < 0x8E00_0000);
    }
    assert!(kalloc(&mut k).is_none());
}

#[test]
fn seeding_rounds_start_up_and_end_down() {
    let (mut k, mut mem) = machine(0x40_0000);
    kinit1(&mut k, &mut mem, vaddr_raw(0x8010_6001), vaddr_raw(0x8010_9FFF));
    assert_eq!(drain(&mut k), vec![0x8010_8000, 0x8010_7000]);
}

#[test]
fn seeding_an_empty_range_frees_nothing() {
    let (mut k, mut mem) = machine(0x40_0000);
    kinit1(&mut k, &mut mem, vaddr_raw(0x8010_6001), vaddr_raw(0x8010_6FFF));
    assert_eq!(k.num_free(), 0);
}

#[test]
fn allocation_is_last_in_first_out() {
    let (mut k, mut mem) = machine(0x40_0000);
    kinit1(&mut k, &mut mem, vaddr_raw(KERNEL_END), vaddr_raw(0x8010_9000));
    let top = kalloc(&mut k).unwrap();
    assert_eq!(top.as_raw(), 0x8010_8000);
    let page = vaddr_pg::from_raw(0x8010_6000).unwrap();
    let second = kalloc(&mut k).unwrap();
    assert_eq!(second.as_raw(), 0x8010_7000);
    kfree(&mut k, &mut mem, top);
    assert_eq!(kalloc(&mut k).unwrap().as_raw(), 0x8010_8000);
    assert_eq!(kalloc(&mut k).unwrap().as_raw(), page.as_raw());
    assert!(kalloc(&mut k).is_none());
}

#[test]
fn two_allocations_never_return_the_same_page() {
    let (mut k, _mem) = seeded(0x40_0000);
    let a = kalloc(&mut k).unwrap();
    let b = kalloc(&mut k).unwrap();
    assert_ne!(a.as_raw(), b.as_raw());
}

#[test]
fn freed_page_is_poisoned() {
    let (mut k, mut mem) = machine(0x40_0000);
    let page = vaddr_pg::from_raw(0x8020_0000).unwrap();
    fill_page(&mut mem, page, 0x5A);
    let pa = v2p(page);
    assert_eq!(mem.read(pa, 17), 0x5A5A_5A5A);
    kfree(&mut k, &mut mem, page);
    assert_eq!(POISON, 1);
    for i in 0..1024 {
        assert_eq!(mem.read(pa, i), 0x0101_0101);
    }
    let neighbour = v2p(vaddr_pg::from_raw(0x8020_1000).unwrap());
    assert_eq!(mem.read(neighbour, 0), 0);
}

#[test]
fn interleaved_calls_conserve_pages() {
    let (mut k, mut mem) = seeded(0x40_0000);
    let n = k.num_free();
    let mut held = Vec::new();
    for round in 0..50 {
        held.push(kalloc(&mut k).unwrap());
        held.push(kalloc(&mut k).unwrap());
        if round % 3 == 0 {
            let p = held.pop().unwrap();
            kfree(&mut k, &mut mem, p);
        }
    }
    while let Some(p) = held.pop() {
        kfree(&mut k, &mut mem, p);
    }
    assert_eq!(k.num_free(), n);
    assert_eq!(drain(&mut k).len(), n);
}

#[test]
fn allocator_bounds() {
    let (k, _mem) = machine(PHYSTOP);
    assert_eq!(k.kernel_end().as_raw(), KERNEL_END);
    assert_eq!(k.phystop(), PHYSTOP);
    assert_eq!(k.num_free(), 0);
}

#[test]
fn memory_words_read_back() {
    let mut mem = PhysMem::new(4);
    assert_eq!(mem.frame_count(), 4);
    let pa = v2p(vaddr_pg::from_raw(0x8000_2000).unwrap());
    assert_eq!(mem.read(pa, 5), 0);
    mem.write(pa, 5, 0xDEAD_BEEF);
    assert_eq!(mem.read(pa, 5), 0xDEAD_BEEF);
    assert_eq!(mem.read(pa, 6), 0);
    mem.fill(pa, 7);
    assert_eq!(mem.read(pa, 5), 7);
}
