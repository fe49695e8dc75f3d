use xv6_mm::address::{p2v, paddr_raw, v2p, vaddr_pg, vaddr_raw, KERNBASE};
use xv6_mm::kalloc::{kalloc, kinit1, Kmem, PHYSTOP};
use xv6_mm::memory::PhysMem;
use xv6_mm::mmu::{pte_addr, PteFlags, PGSIZE};
use xv6_mm::vm::{
    deallocuvm, freevm, is_present, kmap, kvmalloc, mappages, setupkvm, switchkvm, walkpgdir,
    walkpgdir_lookup, DEVSPACE, EXTMEM, KERNLINK,
};

const KERNEL_END: usize = 0x8011_5000;
const DATA: usize = 0x8010_8000;

fn machine(phystop: usize) -> (Kmem, PhysMem) {
    let mut k = Kmem::new(vaddr_raw(KERNEL_END), phystop);
    let mut mem = PhysMem::new(phystop / PGSIZE);
    kinit1(&mut k, &mut mem, vaddr_raw(KERNEL_END), p2v(paddr_raw(phystop)));
    (k, mem)
}

fn data() -> vaddr_pg {
    vaddr_pg::from_raw(DATA).unwrap()
}

fn lookup(k: &Kmem, mem: &PhysMem, pgdir: vaddr_pg, va: usize) -> Option<u32> {
    walkpgdir_lookup(k, mem, pgdir, vaddr_pg::from_raw(va).unwrap())
}

fn empty_table(k: &mut Kmem, mem: &mut PhysMem) -> vaddr_pg {
    let pgdir = kalloc(k).unwrap();
    mem.fill(v2p(pgdir), 0);
    pgdir
}

#[test]
fn kernel_table_maps_kernbase_to_physical_zero() {
    let (mut k, mut mem) = machine(PHYSTOP);
    let pgdir = setupkvm(&mut k, &mut mem, data()).unwrap();
    let e = lookup(&k, &mem, pgdir, KERNBASE).unwrap();
    assert!(is_present(e));
    assert_eq!(pte_addr(e).as_raw(), 0);
    assert_eq!(e & 0x2, 0x2);
}

#[test]
fn kernel_table_maps_device_window_to_itself() {
    let (mut k, mut mem) = machine(PHYSTOP);
    let pgdir = setupkvm(&mut k, &mut mem, data()).unwrap();
    let e = lookup(&k, &mem, pgdir, DEVSPACE).unwrap();
    assert!(is_present(e));
    assert_eq!(pte_addr(e).as_raw(), DEVSPACE);
    let top = lookup(&k, &mem, pgdir, 0xFFFF_F000).unwrap();
    assert_eq!(pte_addr(top).as_raw(), 0xFFFF_F000);
}

#[test]
fn kernel_table_maps_text_read_only_and_data_writable() {
    let (mut k, mut mem) = machine(PHYSTOP);
    let pgdir = setupkvm(&mut k, &mut mem, data()).unwrap();
    let text = lookup(&k, &mem, pgdir, 0x8010_1000).unwrap();
    assert_eq!(pte_addr(text).as_raw(), 0x10_1000);
    assert_eq!(text & 0xFFF, 0x1);
    let d = lookup(&k, &mem, pgdir, DATA).unwrap();
    assert_eq!(pte_addr(d).as_raw(), DATA - KERNBASE);
    assert_eq!(d & 0xFFF, 0x3);
    let last = lookup(&k, &mem, pgdir, KERNBASE + PHYSTOP - PGSIZE).unwrap();
    assert_eq!(pte_addr(last).as_raw(), PHYSTOP - PGSIZE);
}

#[test]
fn kernel_table_leaves_the_rest_unmapped() {
    let (mut k, mut mem) = machine(PHYSTOP);
    let pgdir = setupkvm(&mut k, &mut mem, data()).unwrap();
    assert!(lookup(&k, &mem, pgdir, 0).is_none());
    assert!(lookup(&k, &mem, pgdir, 0x4000_0000).is_none());
    let gap = lookup(&k, &mem, pgdir, KERNBASE + PHYSTOP);
    assert!(gap.map_or(true, |e| !is_present(e)));
}

#[test]
fn kernel_map_segments() {
    let m = kmap(data(), PHYSTOP);
    assert_eq!(m.len(), 4);
    assert_eq!(m[0].virt.as_raw(), KERNBASE);
    assert_eq!(m[0].end.as_raw(), EXTMEM);
    assert_eq!(m[1].virt.as_raw(), KERNLINK);
    assert_eq!(m[1].perm.bits(), 0);
    assert_eq!(m[2].start.as_raw(), DATA - KERNBASE);
    assert_eq!(m[2].end.as_raw(), PHYSTOP);
    assert_eq!(m[3].start.as_raw(), DEVSPACE);
    assert_eq!(m[3].end.as_raw(), 0);
}

#[test]
fn setup_fails_cleanly_when_pages_run_out() {
    let mut k = Kmem::new(vaddr_raw(KERNEL_END), PHYSTOP);
    let mut mem = PhysMem::new(PHYSTOP / PGSIZE);
    kinit1(&mut k, &mut mem, vaddr_raw(KERNEL_END), vaddr_raw(KERNEL_END + 10 * PGSIZE));
    assert_eq!(k.num_free(), 10);
    assert!(setupkvm(&mut k, &mut mem, data()).is_none());
    assert_eq!(k.num_free(), 10);
}

#[test]
fn switching_loads_the_directory_physical_address() {
    let (mut k, mut mem) = machine(PHYSTOP);
    let (pgdir, cr3) = kvmalloc(&mut k, &mut mem, data()).unwrap();
    assert_eq!(cr3.as_raw(), pgdir.as_raw() - KERNBASE);
    assert_eq!(switchkvm(pgdir).as_raw(), v2p(pgdir).as_raw());
}

#[test]
fn walk_without_create_finds_no_table() {
    let (mut k, mut mem) = machine(0x40_0000);
    let pgdir = empty_table(&mut k, &mut mem);
    let before = k.num_free();
    let va = vaddr_pg::from_raw(0x1000).unwrap();
    assert!(walkpgdir(&mut k, &mut mem, pgdir, va, false).is_none());
    assert_eq!(k.num_free(), before);
    let loc = walkpgdir(&mut k, &mut mem, pgdir, va, true).unwrap();
    assert_eq!(k.num_free(), before - 1);
    assert_eq!(loc.index, 1);
    assert_eq!(mem.read(loc.table, loc.index), 0);
    assert!(walkpgdir(&mut k, &mut mem, pgdir, va, false).is_some());
    assert_eq!(k.num_free(), before - 1);
}

#[test]
fn walk_with_create_fails_without_pages() {
    let mut k = Kmem::new(vaddr_raw(KERNEL_END), 0x40_0000);
    let mut mem = PhysMem::new(0x400);
    kinit1(&mut k, &mut mem, vaddr_raw(KERNEL_END), vaddr_raw(KERNEL_END + PGSIZE));
    let pgdir = empty_table(&mut k, &mut mem);
    let va = vaddr_pg::from_raw(0x1000).unwrap();
    assert!(walkpgdir(&mut k, &mut mem, pgdir, va, true).is_none());
}

#[test]
fn mapping_sets_consecutive_entries() {
    let (mut k, mut mem) = machine(0x40_0000);
    let pgdir = empty_table(&mut k, &mut mem);
    let pa = paddr_raw(0x30_0000).check_aligned().unwrap();
    let perm = PteFlags::writable().union(PteFlags::user());
    assert!(mappages(&mut k, &mut mem, pgdir, vaddr_raw(0x3F_F800), 0x1000, pa, perm).is_some());
    let a = lookup(&k, &mem, pgdir, 0x3F_F000).unwrap();
    let b = lookup(&k, &mem, pgdir, 0x40_0000).unwrap();
    assert_eq!(a, 0x30_0007);
    assert_eq!(b, 0x30_1007);
    assert!(lookup(&k, &mem, pgdir, 0x40_1000).map_or(true, |e| !is_present(e)));
}

#[test]
fn user_range_is_released_and_unmapped() {
    let (mut k, mut mem) = machine(0x80_0000);
    let pgdir = empty_table(&mut k, &mut mem);
    let user = [0x0usize, 0x1000, 0x7FFF_F000, 0x8000_0000, 0x800F_F000];
    let perm = PteFlags::writable().union(PteFlags::user());
    for va in user {
        let page = kalloc(&mut k).unwrap();
        let pa = v2p(page);
        assert!(mappages(&mut k, &mut mem, pgdir, vaddr_raw(va), PGSIZE, pa, perm).is_some());
    }
    let beyond = kalloc(&mut k).unwrap();
    assert!(mappages(&mut k, &mut mem, pgdir, vaddr_raw(0x8010_0000), PGSIZE, v2p(beyond), perm)
        .is_some());
    let before = k.num_free();
    assert_eq!(deallocuvm(&mut k, &mut mem, pgdir, 0x8010_0000, 0), 0);
    assert_eq!(k.num_free(), before + user.len());
    for va in user {
        assert!(lookup(&k, &mem, pgdir, va).map_or(true, |e| !is_present(e)));
    }
    let kept = lookup(&k, &mem, pgdir, 0x8010_0000).unwrap();
    assert_eq!(pte_addr(kept).as_raw(), v2p(beyond).as_raw());
}

#[test]
fn shrinking_to_a_larger_size_changes_nothing() {
    let (mut k, mut mem) = machine(0x40_0000);
    let pgdir = empty_table(&mut k, &mut mem);
    let before = k.num_free();
    assert_eq!(deallocuvm(&mut k, &mut mem, pgdir, 0x2000, 0x5000), 0x2000);
    assert_eq!(deallocuvm(&mut k, &mut mem, pgdir, 0x2000, 0x2000), 0x2000);
    assert_eq!(k.num_free(), before);
}

#[test]
fn partial_shrink_keeps_the_low_pages() {
    let (mut k, mut mem) = machine(0x40_0000);
    let pgdir = empty_table(&mut k, &mut mem);
    let perm = PteFlags::writable().union(PteFlags::user());
    for va in [0usize, 0x1000, 0x2000] {
        let page = kalloc(&mut k).unwrap();
        assert!(mappages(&mut k, &mut mem, pgdir, vaddr_raw(va), PGSIZE, v2p(page), perm).is_some());
    }
    let before = k.num_free();
    assert_eq!(deallocuvm(&mut k, &mut mem, pgdir, 0x3000, 0x1001), 0x1001);
    assert_eq!(k.num_free(), before + 1);
    assert!(is_present(lookup(&k, &mem, pgdir, 0x1000).unwrap()));
    assert!(!is_present(lookup(&k, &mem, pgdir, 0x2000).unwrap()));
}

#[test]
fn freeing_a_table_returns_every_page() {
    let (mut k, mut mem) = machine(0x80_0000);
    let start = k.num_free();
    let pgdir = empty_table(&mut k, &mut mem);
    let perm = PteFlags::writable().union(PteFlags::user());
    for va in [0usize, 0x40_0000, 0x7FC0_0000] {
        let page = kalloc(&mut k).unwrap();
        assert!(mappages(&mut k, &mut mem, pgdir, vaddr_raw(va), PGSIZE, v2p(page), perm).is_some());
    }
    assert_eq!(k.num_free(), start - 1 - 3 - 3);
    freevm(&mut k, &mut mem, pgdir);
    assert_eq!(k.num_free(), start);
}

#[test]
fn freeing_the_kernel_table_returns_its_pages() {
    let (mut k, mut mem) = machine(PHYSTOP);
    let start = k.num_free();
    let pgdir = setupkvm(&mut k, &mut mem, data()).unwrap();
    assert!(k.num_free() < start);
    freevm(&mut k, &mut mem, pgdir);
    assert_eq!(k.num_free(), start);
}

fn seeded_with(n: usize) -> (Kmem, PhysMem) {
    let mut k = Kmem::new(vaddr_raw(KERNEL_END), PHYSTOP);
    let mut mem = PhysMem::new(PHYSTOP / PGSIZE);
    kinit1(&mut k, &mut mem, vaddr_raw(KERNEL_END), vaddr_raw(KERNEL_END + n * PGSIZE));
    (k, mem)
}

#[test]
fn setup_needs_a_directory_and_one_table_per_slot() {
    let (mut k, mut mem) = seeded_with(65);
    assert!(setupkvm(&mut k, &mut mem, data()).is_some());
    assert_eq!(k.num_free(), 0);
}

#[test]
fn setup_one_page_short_gives_every_page_back() {
    let (mut k, mut mem) = seeded_with(64);
    assert!(setupkvm(&mut k, &mut mem, data()).is_none());
    let mut pages = Vec::new();
    while let Some(p) = kalloc(&mut k) {
        pages.push(p.as_raw());
    }
    pages.sort();
    let expected: Vec<usize> = (0..64).map(|i| KERNEL_END + i * PGSIZE).collect();
    assert_eq!(pages, expected);
}

#[test]
fn setup_with_no_free_page_fails() {
    let (mut k, mut mem) = seeded_with(0);
    assert!(setupkvm(&mut k, &mut mem, data()).is_none());
}

#[test]
fn freeing_a_table_frees_the_directory_last() {
    let (mut k, mut mem) = machine(0x80_0000);
    let pgdir = empty_table(&mut k, &mut mem);
    let perm = PteFlags::writable().union(PteFlags::user());
    let page = kalloc(&mut k).unwrap();
    assert!(mappages(&mut k, &mut mem, pgdir, vaddr_raw(0x1000), PGSIZE, v2p(page), perm).is_some());
    freevm(&mut k, &mut mem, pgdir);
    assert_eq!(kalloc(&mut k).unwrap().as_raw(), pgdir.as_raw());
    kalloc(&mut k).unwrap();
    assert_eq!(kalloc(&mut k).unwrap().as_raw(), page.as_raw());
}

#[test]
fn released_pages_are_freed_in_address_order_and_poisoned() {
    let (mut k, mut mem) = machine(0x80_0000);
    let pgdir = empty_table(&mut k, &mut mem);
    let perm = PteFlags::writable().union(PteFlags::user());
    let mut backing = Vec::new();
    for va in [0x3000usize, 0x1000, 0x40_0000] {
        let page = kalloc(&mut k).unwrap();
        mem.fill(v2p(page), 0xABAB_ABAB);
        assert!(mappages(&mut k, &mut mem, pgdir, vaddr_raw(va), PGSIZE, v2p(page), perm).is_some());
        backing.push((va, page));
    }
    let kept = kalloc(&mut k).unwrap();
    mem.fill(v2p(kept), 0x1234_5678);
    assert_eq!(deallocuvm(&mut k, &mut mem, pgdir, 0x50_0000, 0), 0);
    let page_at = |va: usize| backing.iter().find(|(v, _)| *v == va).unwrap().1;
    for want in [0x40_0000usize, 0x3000, 0x1000] {
        let got = kalloc(&mut k).unwrap();
        assert_eq!(got.as_raw(), page_at(want).as_raw());
        assert_eq!(mem.read(v2p(got), 9), 0x0101_0101);
    }
    assert_eq!(mem.read(v2p(kept), 0), 0x1234_5678);
}

#[test]
fn shrinking_to_a_larger_size_leaves_memory_alone() {
    let (mut k, mut mem) = machine(0x40_0000);
    let pgdir = empty_table(&mut k, &mut mem);
    let perm = PteFlags::writable().union(PteFlags::user());
    let page = kalloc(&mut k).unwrap();
    mem.fill(v2p(page), 0x5555_5555);
    assert!(mappages(&mut k, &mut mem, pgdir, vaddr_raw(0), PGSIZE, v2p(page), perm).is_some());
    assert_eq!(deallocuvm(&mut k, &mut mem, pgdir, 0x1000, 0x1000), 0x1000);
    assert_eq!(mem.read(v2p(page), 3), 0x5555_5555);
    assert!(is_present(lookup(&k, &mem, pgdir, 0).unwrap()));
}
