//! Two-level page tables: walking, mapping, tearing down, and the kernel's
//! own map.
//!
//! A table is named by the kernel virtual address of its page directory.
//! Directory entries point to page-table pages taken from the allocator;
//! the model below reads both levels out of physical memory.

use vstd::prelude::*;

use crate::address::{lemma_wrap_small, p2v, paddr_pg, spec_v2p, v2p, vaddr, vaddr_pg, KERNBASE};
use crate::kalloc::{after_alloc, kalloc, kfree, lemma_managed_frame, Kmem, POISON};
use crate::memory::{frame_index, repeated_word, uniform_page, PhysMem, PAGE_WORDS};
use crate::mmu::{
    page_rounddown, page_roundup, pdx, pte_addr, ptx, round_down, round_up, spec_pdx,
    spec_ptx, PteFlags, NPDENTRIES, PDSPAN, PGSIZE, PTE_P, PTE_U, PTE_W,
};

verus! {

/// Size of the linear address space.
pub const ADDRESS_SPACE: u64 = 0x1_0000_0000;

/// Whether an entry's present bit is set.
pub open spec fn present(e: u32) -> bool {
    e as int % 2 == 1
}

/// The frame an entry points to.
pub open spec fn entry_frame(e: u32) -> int {
    e as int / PGSIZE as int
}

/// The kernel virtual address of the page an entry points to.
pub open spec fn entry_page(e: u32) -> int {
    entry_frame(e) * PGSIZE + KERNBASE
}

/// The frame of the directory at kernel virtual address `pgdir`.
pub open spec fn dir_frame(pgdir: usize) -> int {
    frame_index(spec_v2p(pgdir))
}

/// Whether `va` is the start of a page of the linear address space.
pub open spec fn is_page(va: int) -> bool {
    &&& 0 <= va < ADDRESS_SPACE
    &&& va % PGSIZE as int == 0
}

/// The directory entry that covers `va`.
pub open spec fn pde(mem: Seq<Seq<u32>>, pgdir: usize, va: int) -> u32 {
    mem[dir_frame(pgdir)][spec_pdx(va)]
}

/// The page-table entry for `va`, read through its directory entry.
pub open spec fn pte(mem: Seq<Seq<u32>>, pgdir: usize, va: int) -> u32 {
    mem[entry_frame(pde(mem, pgdir, va))][spec_ptx(va)]
}

/// What `va` is mapped by: its page-table entry, when that entry and the
/// directory entry above it are both present.
#[verifier::opaque]
pub open spec fn translate(mem: Seq<Seq<u32>>, pgdir: usize, va: int) -> Option<u32> {
    if present(pde(mem, pgdir, va)) && present(pte(mem, pgdir, va)) {
        Some(pte(mem, pgdir, va))
    } else {
        None
    }
}

/// A directory entry points to a page-table page that the allocator
/// handed out and that is not the directory itself.
pub open spec fn table_ok(k: &Kmem, pgdir: usize, e: u32) -> bool {
    &&& entry_frame(e) * PGSIZE < k.spec_phystop()
    &&& k.manages(entry_page(e) as usize)
    &&& !k.free_list().contains(entry_page(e) as usize)
    &&& entry_page(e) != pgdir
}

/// A well-formed page table: its directory is an allocated page, and its
/// present directory entries point to distinct allocated page-table pages.
#[verifier::opaque]
pub open spec fn pgdir_wf(k: &Kmem, mem: &PhysMem, pgdir: usize) -> bool {
    let d = dir_frame(pgdir);
    &&& k.wf()
    &&& k.covers(mem)
    &&& k.manages(pgdir)
    &&& !k.free_list().contains(pgdir)
    &&& forall|i: int|
        0 <= i < NPDENTRIES && present(#[trigger] mem@[d][i]) ==> table_ok(k, pgdir, mem@[d][i])
    &&& forall|i: int, j: int|
        0 <= i < NPDENTRIES && 0 <= j < NPDENTRIES && i != j && present(#[trigger] mem@[d][i])
            && present(#[trigger] mem@[d][j]) ==> entry_frame(mem@[d][i]) != entry_frame(
            mem@[d][j],
        )
}

/// Whether `x` is the kernel virtual address of a page table that the
/// directory points to.
pub open spec fn is_table_page(mem: Seq<Seq<u32>>, pgdir: usize, x: usize) -> bool {
    exists|i: int|
        0 <= i < NPDENTRIES && present(#[trigger] mem[dir_frame(pgdir)][i]) && entry_page(
            mem[dir_frame(pgdir)][i],
        ) == x
}

/// From `mem0` to `mem1` no present directory entry changed, and every page
/// free in `k0` is free in `k1` or became a page table of the directory.
pub open spec fn tables_kept(
    k0: &Kmem,
    mem0: Seq<Seq<u32>>,
    k1: &Kmem,
    mem1: Seq<Seq<u32>>,
    pgdir: usize,
) -> bool {
    &&& forall|i: int|
        0 <= i < NPDENTRIES && present(#[trigger] mem0[dir_frame(pgdir)][i]) ==> mem1[dir_frame(
            pgdir,
        )][i] == mem0[dir_frame(pgdir)][i]
    &&& forall|x: usize|
        #[trigger] k0.free_list().contains(x) ==> k1.free_list().contains(x) || is_table_page(
            mem1,
            pgdir,
            x,
        )
}

/// From `k0`, `mem0` to `k1`, `mem1` the free list only lost pages from its
/// end, and each page table of the directory either was one before or was a
/// free page.
pub open spec fn tables_from_free(
    k0: &Kmem,
    mem0: Seq<Seq<u32>>,
    k1: &Kmem,
    mem1: Seq<Seq<u32>>,
    pgdir: usize,
) -> bool {
    &&& k1.free_list().is_prefix_of(k0.free_list())
    &&& forall|x: usize| #[trigger]
        is_table_page(mem1, pgdir, x) ==> is_table_page(mem0, pgdir, x) || k0.free_list().contains(x)
}

/// A prefix of a prefix is a prefix.
proof fn lemma_prefix_trans(a: Seq<usize>, b: Seq<usize>, c: Seq<usize>)
    requires
        a.is_prefix_of(b),
        b.is_prefix_of(c),
    ensures
        a.is_prefix_of(c),
        forall|x: usize| #[trigger] a.contains(x) ==> c.contains(x),
{
    assert(a =~= c.subrange(0, a.len() as int));
    assert forall|x: usize| #[trigger] a.contains(x) implies c.contains(x) by {
        let n = choose|n: int| 0 <= n < a.len() && a[n] == x;
        assert(c[n] == x);
    }
}

/// Taking tables from the free list is transitive.
proof fn lemma_tables_from_free_trans(
    k0: &Kmem,
    mem0: Seq<Seq<u32>>,
    k1: &Kmem,
    mem1: Seq<Seq<u32>>,
    k2: &Kmem,
    mem2: Seq<Seq<u32>>,
    pgdir: usize,
)
    requires
        tables_from_free(k0, mem0, k1, mem1, pgdir),
        tables_from_free(k1, mem1, k2, mem2, pgdir),
    ensures
        tables_from_free(k0, mem0, k2, mem2, pgdir),
{
    lemma_prefix_trans(k2.free_list(), k1.free_list(), k0.free_list());
    assert(k0.free_list().is_prefix_of(k0.free_list())) by {
        assert(k0.free_list() =~= k0.free_list().subrange(0, k0.free_list().len() as int));
    }
    lemma_prefix_trans(k1.free_list(), k0.free_list(), k0.free_list());
}

/// Whether the directory entry covering `va` is present, as a count.
pub open spec fn dir_present(mem: Seq<Seq<u32>>, pgdir: usize, va: int) -> int {
    if present(pde(mem, pgdir, va)) {
        1
    } else {
        0
    }
}

/// A mapped page's directory entry is present.
proof fn lemma_mapped_dir_present(mem: Seq<Seq<u32>>, pgdir: usize, v: int)
    requires
        translate(mem, pgdir, v) is Some,
    ensures
        present(pde(mem, pgdir, v)),
{
    reveal(translate);
}

/// Keeping tables is transitive.
proof fn lemma_tables_kept_trans(
    k0: &Kmem,
    mem0: Seq<Seq<u32>>,
    k1: &Kmem,
    mem1: Seq<Seq<u32>>,
    k2: &Kmem,
    mem2: Seq<Seq<u32>>,
    pgdir: usize,
)
    requires
        tables_kept(k0, mem0, k1, mem1, pgdir),
        tables_kept(k1, mem1, k2, mem2, pgdir),
    ensures
        tables_kept(k0, mem0, k2, mem2, pgdir),
{
    let d = dir_frame(pgdir);
    assert forall|x: usize| #[trigger] k0.free_list().contains(x) implies k2.free_list().contains(x)
        || is_table_page(mem2, pgdir, x) by {
        if !k1.free_list().contains(x) {
            let i = choose|i: int|
                0 <= i < NPDENTRIES && present(#[trigger] mem1[d][i]) && entry_page(mem1[d][i]) == x;
            assert(mem2[d][i] == mem1[d][i]);
        }
    }
}

/// A page table stays one while present directory entries are kept.
proof fn lemma_table_page_kept(
    k0: &Kmem,
    mem0: Seq<Seq<u32>>,
    k1: &Kmem,
    mem1: Seq<Seq<u32>>,
    pgdir: usize,
    x: usize,
)
    requires
        tables_kept(k0, mem0, k1, mem1, pgdir),
        is_table_page(mem0, pgdir, x),
    ensures
        is_table_page(mem1, pgdir, x),
{
    let d = dir_frame(pgdir);
    let i = choose|i: int|
        0 <= i < NPDENTRIES && present(#[trigger] mem0[d][i]) && entry_page(mem0[d][i]) == x;
    assert(mem1[d][i] == mem0[d][i]);
}

/// Nothing kept is nothing changed.
proof fn lemma_tables_kept_refl(k: &Kmem, mem: Seq<Seq<u32>>, pgdir: usize)
    ensures
        tables_kept(k, mem, k, mem, pgdir),
{
}

/// Where a page-table entry lives: the page table's physical page and the
/// index in it.
#[derive(Debug, Clone, Copy)]
pub struct PteRef {
    pub table: paddr_pg,
    pub index: usize,
}

/// Whether an entry's present bit is set.
pub fn is_present(e: u32) -> (r: bool)
    ensures
        r == present(e),
{
    let r = e & PTE_P != 0;
    assert(r == (e % 2 == 1)) by (bit_vector)
        requires
            r == (e & 1u32 != 0),
    ;
    r
}

/// An entry made of a page-aligned address and flags keeps both.
proof fn lemma_entry_bits(pa: u32, flags: u32)
    requires
        pa % 4096 == 0,
        flags < 4096,
    ensures
        (pa | flags) / 4096 == pa / 4096,
        (pa | flags) % 4096 == flags,
        (pa | flags) % 2 == flags % 2,
        (pa | flags) == pa + flags,
{
    assert((pa | flags) / 4096 == pa / 4096 && (pa | flags) % 4096 == flags && (pa | flags) % 2
        == flags % 2 && (pa | flags) == pa + flags) by (bit_vector)
        requires
            pa % 4096 == 0,
            flags < 4096,
    ;
}

/// A page of the linear address space is fixed by its two indexes.
pub proof fn lemma_page_indexes(va: int)
    requires
        is_page(va),
    ensures
        va == spec_pdx(va) * PDSPAN + spec_ptx(va) * PGSIZE,
        0 <= spec_pdx(va) < 1024,
        0 <= spec_ptx(va) < 1024,
{
    let q = va / 4096;
    assert(va == 4096 * q);
    vstd::arithmetic::div_mod::lemma_div_denominator(va, 4096, 1024);
    assert(va / PDSPAN as int == q / 1024);
    assert(q < 0x10_0000);
    assert(q / 1024 < 1024);
    vstd::arithmetic::div_mod::lemma_small_mod((q / 1024) as nat, 1024);
    vstd::arithmetic::div_mod::lemma_fundamental_div_mod(q, 1024);
}

/// Two pages with the same indexes are the same page.
pub proof fn lemma_indexes_inject(va: int, vb: int)
    requires
        is_page(va),
        is_page(vb),
        spec_pdx(va) == spec_pdx(vb),
        spec_ptx(va) == spec_ptx(vb),
    ensures
        va == vb,
{
    lemma_page_indexes(va);
    lemma_page_indexes(vb);
}

/// The entry at index `i` of the directory, read from memory.
fn read_pde(k: &Kmem, mem: &PhysMem, pgdir: vaddr_pg, i: usize) -> (r: u32)
    requires
        pgdir_wf(k, mem, pgdir@),
        i < NPDENTRIES,
    ensures
        r == mem@[dir_frame(pgdir@)][i as int],
{
    proof {
        reveal(pgdir_wf);
        reveal(translate);
    }
    proof {
        lemma_managed_frame(k, mem, pgdir@);
    }
    mem.read(v2p(pgdir), i)
}

/// Finds the page-table entry for `va`. When the page table that would hold
/// it is missing and `alloc` is set, takes a page from the allocator, zeroes
/// it and installs it with permissive flags; `None` when the table is
/// missing and `alloc` is clear, or no page is left.
#[verifier::rlimit(60)]
pub fn walkpgdir(k: &mut Kmem, mem: &mut PhysMem, pgdir: vaddr_pg, va: vaddr_pg, alloc: bool) -> (r:
    Option<PteRef>)
    requires
        pgdir_wf(old(k), old(mem), pgdir@),
    ensures
        pgdir_wf(final(k), final(mem), pgdir@),
        final(k).spec_kernel_end() == old(k).spec_kernel_end(),
        final(k).spec_phystop() == old(k).spec_phystop(),
        r is None <==> !present(pde(old(mem)@, pgdir@, va@ as int)) && (!alloc
            || old(k).free_list().len() == 0),
        present(pde(old(mem)@, pgdir@, va@ as int)) || r is None ==> final(k).free_list() == old(
            k,
        ).free_list() && final(mem)@ == old(mem)@,
        !present(pde(old(mem)@, pgdir@, va@ as int)) && r is Some ==> {
            let page = old(k).free_list().last();
            &&& final(k).free_list() == after_alloc(old(k).free_list())
            &&& entry_page(pde(final(mem)@, pgdir@, va@ as int)) == page
            &&& pde(final(mem)@, pgdir@, va@ as int) as int % PGSIZE as int == (PTE_P | PTE_W
                | PTE_U) as int
            &&& final(mem)@ == old(mem)@.update(frame_index(spec_v2p(page)), uniform_page(0)).update(
                dir_frame(pgdir@),
                old(mem)@[dir_frame(pgdir@)].update(
                    spec_pdx(va@ as int),
                    pde(final(mem)@, pgdir@, va@ as int),
                ),
            )
        },
        r matches Some(p) ==> {
            &&& present(pde(final(mem)@, pgdir@, va@ as int))
            &&& frame_index(p.table@) == entry_frame(pde(final(mem)@, pgdir@, va@ as int))
            &&& p.index == spec_ptx(va@ as int)
        },
        forall|v: int| #[trigger]
            translate(final(mem)@, pgdir@, v) == translate(old(mem)@, pgdir@, v),
        tables_kept(old(k), old(mem)@, final(k), final(mem)@, pgdir@),
        tables_from_free(old(k), old(mem)@, final(k), final(mem)@, pgdir@),
{
    proof {
        reveal(pgdir_wf);
        reveal(translate);
    }
    proof {
        lemma_managed_frame(k, mem, pgdir@);
        assert(old(k).free_list() =~= old(k).free_list().subrange(0, old(k).free_list().len() as int));
    }
    let i = pdx(va);
    let e = read_pde(k, mem, pgdir, i);
    if is_present(e) {
        proof {
            assert(table_ok(k, pgdir@, e));
            lemma_entry_bits((e / 4096 * 4096) as u32, 0);
        }
        return Some(PteRef { table: pte_addr(e), index: ptx(va) });
    }
    if !alloc {
        return None;
    }
    let page = match kalloc(k) {
        Some(p) => p,
        None => {
            return None;
        },
    };
    proof {
        lemma_managed_frame(&*old(k), mem, page@);
    }
    let table = v2p(page);
    mem.fill(table, 0);
    let pa = table.as_raw() as u32;
    let flags = PteFlags::present().union(PteFlags::writable()).union(PteFlags::user());
    let fbits = flags.bits();
    let entry = pa | fbits;
    proof {
        assert(fbits == 7 && (PTE_P | PTE_W | PTE_U) == 7) by (bit_vector)
            requires
                fbits == (1u32 | 2u32) | 4u32,
        ;
        lemma_entry_bits(pa, 7);
    }
    mem.write(v2p(pgdir), i, entry);
    proof {
        old(mem).lemma_page_len();
        let d = dir_frame(pgdir@);
        let t = frame_index(spec_v2p(page@));
        assert(entry_frame(entry) == t);
        assert(entry_page(entry) == page@);
        assert(t != d);
        assert(mem@[d] == old(mem)@[d].update(i as int, entry));
        assert(mem@[t] == uniform_page(0));
        assert forall|j: int|
            0 <= j < NPDENTRIES && present(#[trigger] mem@[d][j]) implies table_ok(
            k,
            pgdir@,
            mem@[d][j],
        ) by {
            if j != i {
                assert(old(mem)@[d][j] == mem@[d][j]);
                assert(table_ok(&*old(k), pgdir@, old(mem)@[d][j]));
                assert(k.free_list() =~= old(k).free_list().drop_last());
                assert(!k.free_list().contains(entry_page(mem@[d][j]) as usize)) by {
                    if k.free_list().contains(entry_page(mem@[d][j]) as usize) {
                        let n = choose|n: int| 0 <= n < k.free_list().len() && k.free_list()[n]
                            == entry_page(mem@[d][j]) as usize;
                        assert(old(k).free_list()[n] == k.free_list()[n]);
                    }
                }
            }
        }
        assert forall|a: int, b: int|
            0 <= a < NPDENTRIES && 0 <= b < NPDENTRIES && a != b && present(#[trigger] mem@[d][a])
                && present(#[trigger] mem@[d][b]) implies entry_frame(mem@[d][a]) != entry_frame(
            mem@[d][b],
        ) by {
            if a != i && b != i {
                assert(old(mem)@[d][a] == mem@[d][a]);
                assert(old(mem)@[d][b] == mem@[d][b]);
            } else if a == i {
                assert(old(mem)@[d][b] == mem@[d][b]);
                assert(table_ok(&*old(k), pgdir@, old(mem)@[d][b]));
                assert(old(k).free_list().contains(page@));
            } else {
                assert(old(mem)@[d][a] == mem@[d][a]);
                assert(table_ok(&*old(k), pgdir@, old(mem)@[d][a]));
                assert(old(k).free_list().contains(page@));
            }
        }
        assert(!k.free_list().contains(pgdir@)) by {
            if k.free_list().contains(pgdir@) {
                let n = choose|n: int| 0 <= n < k.free_list().len() && k.free_list()[n] == pgdir@;
                assert(old(k).free_list()[n] == k.free_list()[n]);
            }
        }
        assert forall|v: int| #[trigger]
            translate(mem@, pgdir@, v) == translate(old(mem)@, pgdir@, v) by {
            let iv = spec_pdx(v);
            if iv == i {
                assert(pte(mem@, pgdir@, v) == 0);
                assert(!present(pde(old(mem)@, pgdir@, v)));
            } else {
                assert(pde(mem@, pgdir@, v) == pde(old(mem)@, pgdir@, v));
                if present(pde(old(mem)@, pgdir@, v)) {
                    assert(0 <= iv < 1024);
                    assert(table_ok(&*old(k), pgdir@, old(mem)@[d][iv]));
                    assert(old(k).free_list().contains(page@));
                    assert(entry_frame(pde(old(mem)@, pgdir@, v)) != t);
                    assert(entry_frame(pde(old(mem)@, pgdir@, v)) != d);
                }
            }
        }
        assert(k.free_list() =~= old(k).free_list().subrange(0, k.free_list().len() as int));
        assert forall|x: usize| #[trigger] is_table_page(mem@, pgdir@, x) implies is_table_page(
            old(mem)@,
            pgdir@,
            x,
        ) || old(k).free_list().contains(x) by {
            let j = choose|j: int|
                0 <= j < NPDENTRIES && present(#[trigger] mem@[d][j]) && entry_page(mem@[d][j]) == x;
            if j == i {
                assert(old(k).free_list()[old(k).free_list().len() - 1] == page@);
            } else {
                assert(old(mem)@[d][j] == mem@[d][j]);
            }
        }
        assert forall|x: usize| #[trigger] old(k).free_list().contains(x) implies k.free_list().contains(
            x,
        ) || is_table_page(mem@, pgdir@, x) by {
            if x == page@ {
                assert(present(mem@[d][i as int]));
            } else {
                let n = choose|n: int|
                    0 <= n < old(k).free_list().len() && old(k).free_list()[n] == x;
                assert(n < k.free_list().len());
                assert(k.free_list()[n] == x);
            }
        }
    }
    Some(PteRef { table, index: ptx(va) })
}

/// The page-table entry for `va`, when the page table that holds it exists.
pub fn walkpgdir_lookup(k: &Kmem, mem: &PhysMem, pgdir: vaddr_pg, va: vaddr_pg) -> (r: Option<u32>)
    requires
        pgdir_wf(k, mem, pgdir@),
    ensures
        r is Some <==> present(pde(mem@, pgdir@, va@ as int)),
        r matches Some(e) ==> e == pte(mem@, pgdir@, va@ as int),
{
    proof {
        reveal(pgdir_wf);
        reveal(translate);
    }
    let e = read_pde(k, mem, pgdir, pdx(va));
    if is_present(e) {
        proof {
            assert(table_ok(k, pgdir@, e));
            lemma_managed_frame(k, mem, entry_page(e) as usize);
        }
        let table = pte_addr(e);
        Some(mem.read(table, ptx(va)))
    } else {
        None
    }
}

/// Whether no page of `[lo, hi)` is mapped.
pub open spec fn unmapped(mem: Seq<Seq<u32>>, pgdir: usize, lo: int, hi: int) -> bool {
    forall|v: int| lo <= v < hi && is_page(v) ==> #[trigger] translate(mem, pgdir, v) is None
}

/// The entry that maps a page to physical address `pa` with flag bits `flags`.
pub open spec fn mapping_entry(pa: int, flags: u32) -> u32 {
    (pa + flags) as u32
}

/// Sets the page-table entry for `va`, found by `walkpgdir`, to `e`.
fn set_pte(k: &Kmem, mem: &mut PhysMem, pgdir: vaddr_pg, va: vaddr_pg, loc: PteRef, e: u32)
    requires
        pgdir_wf(k, old(mem), pgdir@),
        is_page(va@ as int),
        present(pde(old(mem)@, pgdir@, va@ as int)),
        frame_index(loc.table@) == entry_frame(pde(old(mem)@, pgdir@, va@ as int)),
        loc.index == spec_ptx(va@ as int),
    ensures
        pgdir_wf(k, final(mem), pgdir@),
        final(mem)@ == old(mem)@.update(
            frame_index(loc.table@),
            old(mem)@[frame_index(loc.table@)].update(loc.index as int, e),
        ),
        pde(final(mem)@, pgdir@, va@ as int) == pde(old(mem)@, pgdir@, va@ as int),
        final(mem)@[dir_frame(pgdir@)] == old(mem)@[dir_frame(pgdir@)],
        pte(final(mem)@, pgdir@, va@ as int) == e,
        forall|v: int|
            is_page(v) && v != va@ ==> #[trigger] translate(final(mem)@, pgdir@, v) == translate(
                old(mem)@,
                pgdir@,
                v,
            ),
{
    proof {
        reveal(pgdir_wf);
        reveal(translate);
    }
    let ghost d = dir_frame(pgdir@);
    let ghost i = spec_pdx(va@ as int);
    let ghost t = frame_index(loc.table@);
    proof {
        old(mem).lemma_page_len();
        lemma_managed_frame(k, old(mem), pgdir@);
        lemma_page_indexes(va@ as int);
        assert(table_ok(k, pgdir@, old(mem)@[d][i]));
        lemma_managed_frame(k, old(mem), entry_page(old(mem)@[d][i]) as usize);
        assert(t != d);
    }
    mem.write(loc.table, loc.index, e);
    proof {
        assert(mem@[d] == old(mem)@[d]);
        assert forall|v: int| is_page(v) && v != va@ implies #[trigger] translate(
            mem@,
            pgdir@,
            v,
        ) == translate(old(mem)@, pgdir@, v) by {
            lemma_page_indexes(v);
            let iv = spec_pdx(v);
            assert(pde(mem@, pgdir@, v) == pde(old(mem)@, pgdir@, v));
            if present(pde(old(mem)@, pgdir@, v)) {
                if iv == i {
                    if spec_ptx(v) == spec_ptx(va@ as int) {
                        lemma_indexes_inject(v, va@ as int);
                    }
                } else {
                    assert(entry_frame(old(mem)@[d][iv]) != entry_frame(old(mem)@[d][i]));
                    assert(table_ok(k, pgdir@, old(mem)@[d][iv]));
                    lemma_managed_frame(k, old(mem), entry_page(old(mem)@[d][iv]) as usize);
                }
            }
        }
    }
}

/// Maps page `a`, which is not mapped yet, with entry `entry`, creating its
/// page table if needed; `None` when a page table is needed and no page is left.
fn map_page(k: &mut Kmem, mem: &mut PhysMem, pgdir: vaddr_pg, a: vaddr_pg, entry: u32) -> (r:
    Option<()>)
    requires
        pgdir_wf(old(k), old(mem), pgdir@),
        is_page(a@ as int),
        translate(old(mem)@, pgdir@, a@ as int) is None,
        present(entry),
    ensures
        pgdir_wf(final(k), final(mem), pgdir@),
        final(k).spec_kernel_end() == old(k).spec_kernel_end(),
        final(k).spec_phystop() == old(k).spec_phystop(),
        r is None <==> !present(pde(old(mem)@, pgdir@, a@ as int)) && old(k).free_list().len()
            == 0,
        r is None ==> final(k).free_list() == old(k).free_list() && final(mem)@ == old(mem)@,
        present(pde(old(mem)@, pgdir@, a@ as int)) ==> final(k).free_list() == old(k).free_list(),
        final(k).free_list().len() + 1 >= old(k).free_list().len(),
        final(k).free_list().len() <= old(k).free_list().len(),
        r is Some ==> present(pde(final(mem)@, pgdir@, a@ as int)),
        r is Some ==> translate(final(mem)@, pgdir@, a@ as int) == Some(entry),
        forall|v: int|
            is_page(v) && v != a@ ==> #[trigger] translate(final(mem)@, pgdir@, v) == translate(
                old(mem)@,
                pgdir@,
                v,
            ),
        tables_kept(old(k), old(mem)@, final(k), final(mem)@, pgdir@),
        tables_from_free(old(k), old(mem)@, final(k), final(mem)@, pgdir@),
{
    proof {
        reveal(pgdir_wf);
        reveal(translate);
    }
    let loc = match walkpgdir(k, mem, pgdir, a, true) {
        Some(loc) => loc,
        None => {
            return None;
        },
    };
    proof {
        assert(translate(mem@, pgdir@, a@ as int) is None);
    }
    let ghost mem1 = mem@;
    set_pte(k, mem, pgdir, a, loc, entry);
    proof {
        assert(tables_kept(k, mem1, k, mem@, pgdir@)) by {
            let d = dir_frame(pgdir@);
            assert forall|x: usize| #[trigger] k.free_list().contains(x) implies k.free_list().contains(
                x,
            ) || is_table_page(mem@, pgdir@, x) by {
            }
        }
        lemma_tables_kept_trans(old(k), old(mem)@, k, mem1, k, mem@, pgdir@);
        assert(k.free_list() =~= k.free_list().subrange(0, k.free_list().len() as int));
        assert(tables_from_free(k, mem1, k, mem@, pgdir@)) by {
            let d = dir_frame(pgdir@);
            assert forall|x: usize| #[trigger] is_table_page(mem@, pgdir@, x) implies is_table_page(
                mem1,
                pgdir@,
                x,
            ) || k.free_list().contains(x) by {
                let j = choose|j: int|
                    0 <= j < NPDENTRIES && present(#[trigger] mem@[d][j]) && entry_page(mem@[d][j])
                        == x;
                assert(mem1[d][j] == mem@[d][j]);
            }
        }
        lemma_tables_from_free_trans(old(k), old(mem)@, k, mem1, k, mem@, pgdir@);
    }
    Some(())
}

/// Between two distinct page boundaries lies at least a page.
proof fn lemma_aligned_gap(a: int, b: int)
    requires
        0 <= a < b,
        a % PGSIZE as int == 0,
        b % PGSIZE as int == 0,
    ensures
        a + PGSIZE <= b,
{
    vstd::arithmetic::div_mod::lemma_fundamental_div_mod(a, PGSIZE as int);
    vstd::arithmetic::div_mod::lemma_fundamental_div_mod(b, PGSIZE as int);
    let qa = a / PGSIZE as int;
    let qb = b / PGSIZE as int;
    assert(qa < qb) by (nonlinear_arith)
        requires
            a == PGSIZE * qa,
            b == PGSIZE * qb,
            a < b,
    ;
    assert(a + PGSIZE <= b) by (nonlinear_arith)
        requires
            a == PGSIZE * qa,
            b == PGSIZE * qb,
            qa + 1 <= qb,
    ;
}

/// The page after `a` lies under the same directory entry or the next one.
proof fn lemma_next_page_dir(a: int)
    requires
        is_page(a),
        is_page(a + PGSIZE),
    ensures
        spec_pdx(a + PGSIZE) == spec_pdx(a) || spec_pdx(a + PGSIZE) == spec_pdx(a) + 1,
{
    lemma_page_indexes(a);
    lemma_page_indexes(a + PGSIZE);
    vstd::arithmetic::div_mod::lemma_div_is_ordered(a, a + PGSIZE, PDSPAN as int);
}

/// Directory indexes grow with the address.
proof fn lemma_pdx_ordered(a: int, b: int)
    requires
        is_page(a),
        is_page(b),
        a <= b,
    ensures
        spec_pdx(a) <= spec_pdx(b),
{
    lemma_page_indexes(a);
    lemma_page_indexes(b);
    vstd::arithmetic::div_mod::lemma_div_is_ordered(a, b, PDSPAN as int);
}

/// Maps the pages that cover `[va, va + size)` to consecutive physical
/// pages from `pa` on, with permissions `perm`, creating page tables as
/// needed; `None` when no page is left for a page table, with the pages
/// mapped so far left mapped. No page of the range may be mapped already.
#[verifier::rlimit(80)]
pub fn mappages(
    k: &mut Kmem,
    mem: &mut PhysMem,
    pgdir: vaddr_pg,
    va: vaddr,
    size: usize,
    pa: paddr_pg,
    perm: PteFlags,
) -> (r: Option<()>)
    requires
        pgdir_wf(old(k), old(mem), pgdir@),
        size > 0,
        va@ + size <= ADDRESS_SPACE,
        pa@ + round_down(va@ + size - 1) - round_down(va@ as int) < ADDRESS_SPACE,
        perm.bits() < PGSIZE,
        unmapped(old(mem)@, pgdir@, round_down(va@ as int), round_down(va@ + size - 1) + PGSIZE),
    ensures
        pgdir_wf(final(k), final(mem), pgdir@),
        final(k).spec_kernel_end() == old(k).spec_kernel_end(),
        final(k).spec_phystop() == old(k).spec_phystop(),
        old(k).free_list().len() + dir_present(old(mem)@, pgdir@, round_down(va@ as int)) > spec_pdx(
            round_down(va@ + size - 1),
        ) - spec_pdx(round_down(va@ as int)) ==> r is Some,
        r is None ==> final(k).free_list().len() == 0,
        final(k).free_list().len() + spec_pdx(round_down(va@ + size - 1)) - spec_pdx(
            round_down(va@ as int),
        ) + 1 >= old(k).free_list().len() + dir_present(old(mem)@, pgdir@, round_down(va@ as int)),
        tables_from_free(old(k), old(mem)@, final(k), final(mem)@, pgdir@),
        forall|v: int|
            is_page(v) && round_down(va@ as int) <= v <= round_down(va@ + size - 1) ==> {
                let want = Some(mapping_entry(pa@ + v - round_down(va@ as int), perm.bits() | PTE_P));
                r is Some ==> #[trigger] translate(final(mem)@, pgdir@, v) == want
            },
        forall|v: int|
            is_page(v) && round_down(va@ as int) <= v <= round_down(va@ + size - 1) ==> {
                let want = Some(mapping_entry(pa@ + v - round_down(va@ as int), perm.bits() | PTE_P));
                #[trigger] translate(final(mem)@, pgdir@, v) == want || translate(
                    final(mem)@,
                    pgdir@,
                    v,
                ) is None
            },
        forall|v: int|
            is_page(v) && !(round_down(va@ as int) <= v <= round_down(va@ + size - 1))
                ==> #[trigger] translate(final(mem)@, pgdir@, v) == translate(old(mem)@, pgdir@, v),
        tables_kept(old(k), old(mem)@, final(k), final(mem)@, pgdir@),
{
    let mut a = page_rounddown(va);
    let last = page_rounddown(crate::address::vaddr_raw(va.as_raw() + (size - 1)));
    let mut p = pa;
    let flags = perm.union(PteFlags::present()).bits();
    let ghost first = a@ as int;
    let ghost n_old = old(k).free_list().len();
    let ghost fp = dir_present(old(mem)@, pgdir@, first);
    proof {
        assert(old(k).free_list() =~= old(k).free_list().subrange(0, old(k).free_list().len() as int));
        let pb = perm.bits();
        assert(pb | 1u32 < 4096 && (pb | 1u32) % 2 == 1) by (bit_vector)
            requires
                pb < 4096,
        ;
        assert(first <= last@);
        lemma_tables_kept_refl(k, mem@, pgdir@);
    }
    loop
        invariant_except_break
            pgdir_wf(k, mem, pgdir@),
            k.spec_kernel_end() == old(k).spec_kernel_end(),
            k.spec_phystop() == old(k).spec_phystop(),
            first <= a@ <= last@,
            last@ < ADDRESS_SPACE,
            a@ as int % PGSIZE as int == 0,
            last@ as int % PGSIZE as int == 0,
            first == round_down(va@ as int),
            last@ == round_down(va@ + size - 1),
            p@ == pa@ + (a@ - first),
            pa@ + last@ - first < ADDRESS_SPACE,
            flags == perm.bits() | PTE_P,
            flags < 4096,
            flags % 2 == 1,
            n_old == old(k).free_list().len(),
            fp == dir_present(old(mem)@, pgdir@, first),
            n_old - k.free_list().len() <= spec_pdx(a@ as int) - spec_pdx(first) + dir_present(
                mem@,
                pgdir@,
                a@ as int,
            ) - fp,
            tables_from_free(old(k), old(mem)@, k, mem@, pgdir@),
            k.free_list().len() <= n_old,
            forall|v: int|
                is_page(v) && first <= v < a@ ==> #[trigger] translate(mem@, pgdir@, v) == Some(
                    mapping_entry(pa@ + v - first, flags),
                ),
            forall|v: int|
                is_page(v) && a@ <= v <= last@ ==> #[trigger] translate(mem@, pgdir@, v) is None,
            forall|v: int|
                is_page(v) && !(first <= v <= last@) ==> #[trigger] translate(mem@, pgdir@, v)
                    == translate(old(mem)@, pgdir@, v),
            tables_kept(old(k), old(mem)@, k, mem@, pgdir@),
        ensures
            tables_kept(old(k), old(mem)@, k, mem@, pgdir@),
            pgdir_wf(k, mem, pgdir@),
            k.spec_kernel_end() == old(k).spec_kernel_end(),
            k.spec_phystop() == old(k).spec_phystop(),
            k.free_list().len() + spec_pdx(last@ as int) - spec_pdx(first) + 1 >= n_old + fp,
            tables_from_free(old(k), old(mem)@, k, mem@, pgdir@),
            forall|v: int|
                is_page(v) && first <= v <= last@ ==> #[trigger] translate(mem@, pgdir@, v) == Some(
                    mapping_entry(pa@ + v - first, flags),
                ),
            forall|v: int|
                is_page(v) && !(first <= v <= last@) ==> #[trigger] translate(mem@, pgdir@, v)
                    == translate(old(mem)@, pgdir@, v),
        decreases last@ - a@,
    {
        let ghost k_before = *k;
        let ghost mem_before = mem@;
        let entry = (p.as_raw() as u32) | flags;
        proof {
            lemma_entry_bits(p@ as u32, flags);
        }
        let step = map_page(k, mem, pgdir, a, entry);
        proof {
            lemma_tables_kept_trans(old(k), old(mem)@, &k_before, mem_before, k, mem@, pgdir@);
            lemma_tables_from_free_trans(old(k), old(mem)@, &k_before, mem_before, k, mem@, pgdir@);
        }
        match step {
            Some(()) => {},
            None => {
                proof {
                    lemma_pdx_ordered(a@ as int, last@ as int);
                    assert forall|v: int|
                        is_page(v) && round_down(va@ as int) <= v <= round_down(
                            va@ + size - 1,
                        ) implies #[trigger] translate(mem@, pgdir@, v) == Some(
                        mapping_entry(pa@ + v - round_down(va@ as int), perm.bits() | PTE_P),
                    ) || translate(mem@, pgdir@, v) is None by {
                        if v >= a@ {
                        }
                    }
                }
                return None;
            },
        }
        if a.as_raw() == last.as_raw() {
            break ;
        }
        let ghost a0 = a@ as int;
        let ghost p0 = p@ as int;
        proof {
            lemma_aligned_gap(a0, last@ as int);
            lemma_next_page_dir(a0);
            if spec_pdx(a0 + PGSIZE) == spec_pdx(a0) {
                assert(pde(mem@, pgdir@, a0 + PGSIZE) == pde(mem@, pgdir@, a0));
            }
        }
        a.increase(1);
        p.increase(1);
        proof {
            lemma_wrap_small(a0 + PGSIZE);
            lemma_wrap_small(p0 + PGSIZE);
        }
    }
    Some(())
}

/// A mapped user page that may be freed: a page of the allocator's, not
/// free, and neither the directory nor one of its page tables.
pub open spec fn leaf_ok(k: &Kmem, mem: Seq<Seq<u32>>, pgdir: usize, e: u32) -> bool {
    let d = dir_frame(pgdir);
    &&& 0 < entry_frame(e)
    &&& entry_frame(e) * PGSIZE < k.spec_phystop()
    &&& k.manages(entry_page(e) as usize)
    &&& !k.free_list().contains(entry_page(e) as usize)
    &&& entry_page(e) != pgdir
    &&& forall|i: int|
        0 <= i < NPDENTRIES && present(#[trigger] mem[d][i]) ==> entry_frame(mem[d][i])
            != entry_frame(e)
}

/// The pages mapped in `[lo, hi)` are the table's own: each may be freed,
/// and no two pages of the range share one.
pub open spec fn owns_user_pages(k: &Kmem, mem: Seq<Seq<u32>>, pgdir: usize, lo: int, hi: int) -> bool {
    &&& forall|v: int|
        lo <= v < hi && is_page(v) && #[trigger] translate(mem, pgdir, v) is Some ==> leaf_ok(
            k,
            mem,
            pgdir,
            translate(mem, pgdir, v)->0,
        )
    &&& forall|v: int, w: int|
        lo <= v < hi && lo <= w < hi && is_page(v) && is_page(w) && v != w && #[trigger] translate(
            mem,
            pgdir,
            v,
        ) is Some && #[trigger] translate(mem, pgdir, w) is Some ==> entry_frame(
            translate(mem, pgdir, v)->0,
        ) != entry_frame(translate(mem, pgdir, w)->0)
}

/// Whether frame `f` holds a page table that directory `dir` points to.
pub open spec fn is_table_frame(dir: Seq<u32>, f: int) -> bool {
    exists|i: int| 0 <= i < NPDENTRIES && present(#[trigger] dir[i]) && entry_frame(dir[i]) == f
}

/// Whether frame `f` holds one of the pages freed from position `from` of
/// `free` on.
pub open spec fn freed_frame(free: Seq<usize>, from: int, f: int) -> bool {
    exists|j: int| from <= j < free.len() && frame_index(spec_v2p(#[trigger] free[j])) == f
}

/// Whether frame `f` holds the page that `a` maps to.
pub open spec fn maps_frame(mem: Seq<Seq<u32>>, pgdir: usize, a: int, f: int) -> bool {
    match translate(mem, pgdir, a) {
        Some(e) => f == entry_frame(e),
        None => false,
    }
}

/// The page a kernel virtual address `x` names lies in frame `(x - KERNBASE) / PGSIZE`.
proof fn lemma_page_frame(e: u32)
    requires
        entry_frame(e) * PGSIZE < KERNBASE,
    ensures
        frame_index(spec_v2p(entry_page(e) as usize)) == entry_frame(e),
{
    let f = entry_frame(e);
    lemma_wrap_small(f * PGSIZE);
    assert(f >= 0);
    vstd::arithmetic::div_mod::lemma_div_multiples_vanish(f, PGSIZE as int);
    assert(PGSIZE * f == f * PGSIZE) by (nonlinear_arith);
}

/// Frees the page that maps `a` and clears its entry.
fn free_leaf(k: &mut Kmem, mem: &mut PhysMem, pgdir: vaddr_pg, a: vaddr_pg, loc: PteRef, e: u32)
    requires
        pgdir_wf(old(k), old(mem), pgdir@),
        is_page(a@ as int),
        translate(old(mem)@, pgdir@, a@ as int) == Some(e),
        leaf_ok(old(k), old(mem)@, pgdir@, e),
        frame_index(loc.table@) == entry_frame(pde(old(mem)@, pgdir@, a@ as int)),
        loc.index == spec_ptx(a@ as int),
    ensures
        pgdir_wf(final(k), final(mem), pgdir@),
        final(k).spec_kernel_end() == old(k).spec_kernel_end(),
        final(k).spec_phystop() == old(k).spec_phystop(),
        final(k).free_list() == old(k).free_list().push(entry_page(e) as usize),
        translate(final(mem)@, pgdir@, a@ as int) is None,
        final(mem)@[dir_frame(pgdir@)] == old(mem)@[dir_frame(pgdir@)],
        forall|v: int|
            is_page(v) && v != a@ ==> #[trigger] translate(final(mem)@, pgdir@, v) == translate(
                old(mem)@,
                pgdir@,
                v,
            ),
        final(mem)@.len() == old(mem)@.len(),
        final(mem)@[entry_frame(e)] == uniform_page(repeated_word(POISON)),
        forall|f: int|
            0 <= f < old(mem)@.len() && f != entry_frame(e) && f != frame_index(loc.table@)
                ==> #[trigger] final(mem)@[f] == old(mem)@[f],
{
    proof {
        reveal(pgdir_wf);
        reveal(translate);
    }
    let ghost d = dir_frame(pgdir@);
    let ghost f = entry_frame(e);
    let ghost mem0 = mem@;
    let page = p2v(pte_addr(e));
    proof {
        lemma_wrap_small(f * PGSIZE + KERNBASE);
        assert(page@ == entry_page(e));
        lemma_managed_frame(k, mem, pgdir@);
        lemma_managed_frame(k, mem, page@);
        old(mem).lemma_page_len();
    }
    kfree(k, mem, page);
    proof {
        assert(frame_index(spec_v2p(page@)) == f);
        assert(f != d);
        assert(mem@[d] == mem0[d]);
        assert forall|i: int|
            0 <= i < NPDENTRIES && present(#[trigger] mem@[d][i]) implies table_ok(
            k,
            pgdir@,
            mem@[d][i],
        ) by {
            assert(table_ok(&*old(k), pgdir@, mem0[d][i]));
            assert(entry_frame(mem0[d][i]) != f);
        }
        assert forall|v: int| #[trigger] translate(mem@, pgdir@, v) == translate(mem0, pgdir@, v) by {
            if present(pde(mem0, pgdir@, v)) {
                let iv = spec_pdx(v);
                lemma_page_indexes(a@ as int);
                if 0 <= iv < 1024 {
                    assert(entry_frame(mem0[d][iv]) != f);
                }
            }
        }
        assert(present(pde(mem@, pgdir@, a@ as int)));
    }
    let ghost mem1 = mem@;
    proof {
        let ia = spec_pdx(a@ as int);
        lemma_page_indexes(a@ as int);
        assert(present(mem0[d][ia]));
        assert(entry_frame(mem0[d][ia]) != f);
    }
    set_pte(k, mem, pgdir, a, loc, 0);
    proof {
        assert(!present(0u32));
        assert(mem@[f] == mem1[f]);
    }
}

/// Pages under one directory entry share it.
proof fn lemma_same_dir(a: int, v: int)
    requires
        is_page(a),
        is_page(v),
        spec_pdx(a) * PDSPAN <= v < (spec_pdx(a) + 1) * PDSPAN,
    ensures
        spec_pdx(v) == spec_pdx(a),
{
    lemma_page_indexes(a);
    lemma_page_indexes(v);
    let i = spec_pdx(a);
    let j = spec_pdx(v);
    if j < i {
        assert(v < (j + 1) * PDSPAN);
        assert((j + 1) * PDSPAN <= i * PDSPAN) by (nonlinear_arith)
            requires
                j + 1 <= i,
        ;
    } else if j > i {
        assert((i + 1) * PDSPAN <= j * PDSPAN) by (nonlinear_arith)
            requires
                i + 1 <= j,
        ;
    }
}

/// A page whose directory entry is absent is not mapped.
proof fn lemma_absent_dir(mem: Seq<Seq<u32>>, pgdir: usize, a: int, v: int)
    requires
        !present(pde(mem, pgdir, a)),
        spec_pdx(v) == spec_pdx(a),
    ensures
        translate(mem, pgdir, v) is None,
{
    reveal(translate);
}

/// Whether `x` is the page that a page of `[lo, hi)` was mapped to.
pub open spec fn mapped_page_in(mem: Seq<Seq<u32>>, pgdir: usize, lo: int, hi: int, x: usize) -> bool {
    exists|v: int|
        lo <= v < hi && is_page(v) && #[trigger] translate(mem, pgdir, v) is Some && entry_page(
            translate(mem, pgdir, v)->0,
        ) == x
}

/// The pages that the first `n` pages from `lo` on map to, in ascending
/// order of address, skipping the pages that are not mapped.
pub open spec fn mapped_pages(mem: Seq<Seq<u32>>, pgdir: usize, lo: int, n: nat) -> Seq<usize>
    decreases n,
{
    if n == 0 {
        Seq::empty()
    } else {
        let prev = mapped_pages(mem, pgdir, lo, (n - 1) as nat);
        match translate(mem, pgdir, lo + (n - 1) * PGSIZE) {
            Some(e) => prev.push(entry_page(e) as usize),
            None => prev,
        }
    }
}

/// How many of the pages from `lo` on start below `hi`.
pub open spec fn pages_below(lo: int, hi: int) -> nat {
    if hi <= lo {
        0
    } else {
        ((hi - lo + PGSIZE - 1) / PGSIZE as int) as nat
    }
}

/// Unmapped pages add nothing to the mapped pages.
proof fn lemma_mapped_pages_skip(mem: Seq<Seq<u32>>, pgdir: usize, lo: int, n1: nat, n2: nat)
    requires
        n1 <= n2,
        forall|i: int| n1 <= i < n2 ==> #[trigger] unmapped_at(mem, pgdir, lo, i),
    ensures
        mapped_pages(mem, pgdir, lo, n2) == mapped_pages(mem, pgdir, lo, n1),
    decreases n2,
{
    if n2 > n1 {
        assert(unmapped_at(mem, pgdir, lo, n2 - 1));
        lemma_mapped_pages_skip(mem, pgdir, lo, n1, (n2 - 1) as nat);
    }
}

/// Whether page `i` from `lo` on is unmapped.
pub open spec fn unmapped_at(mem: Seq<Seq<u32>>, pgdir: usize, lo: int, i: int) -> bool {
    translate(mem, pgdir, lo + i * PGSIZE) is None
}

/// Releases the page that maps `a`, if `a` is mapped, and clears its entry.
fn release_page(k: &mut Kmem, mem: &mut PhysMem, pgdir: vaddr_pg, a: vaddr_pg, loc: PteRef)
    requires
        pgdir_wf(old(k), old(mem), pgdir@),
        is_page(a@ as int),
        present(pde(old(mem)@, pgdir@, a@ as int)),
        frame_index(loc.table@) == entry_frame(pde(old(mem)@, pgdir@, a@ as int)),
        loc.index == spec_ptx(a@ as int),
        translate(old(mem)@, pgdir@, a@ as int) is Some ==> leaf_ok(
            old(k),
            old(mem)@,
            pgdir@,
            translate(old(mem)@, pgdir@, a@ as int)->0,
        ),
    ensures
        pgdir_wf(final(k), final(mem), pgdir@),
        final(k).spec_kernel_end() == old(k).spec_kernel_end(),
        final(k).spec_phystop() == old(k).spec_phystop(),
        final(mem)@[dir_frame(pgdir@)] == old(mem)@[dir_frame(pgdir@)],
        translate(final(mem)@, pgdir@, a@ as int) is None,
        translate(old(mem)@, pgdir@, a@ as int) matches Some(e) ==> final(k).free_list() == old(
            k,
        ).free_list().push(entry_page(e) as usize),
        translate(old(mem)@, pgdir@, a@ as int) is None ==> final(k).free_list() == old(
            k,
        ).free_list(),
        forall|v: int|
            is_page(v) && v != a@ ==> #[trigger] translate(final(mem)@, pgdir@, v) == translate(
                old(mem)@,
                pgdir@,
                v,
            ),
        final(mem)@.len() == old(mem)@.len(),
        is_table_frame(old(mem)@[dir_frame(pgdir@)], frame_index(loc.table@)),
        forall|f: int|
            0 <= f < old(mem)@.len() && f != frame_index(loc.table@) && !maps_frame(
                old(mem)@,
                pgdir@,
                a@ as int,
                f,
            ) ==> #[trigger] final(mem)@[f] == old(mem)@[f],
        translate(old(mem)@, pgdir@, a@ as int) matches Some(e) ==> {
            &&& final(mem)@[entry_frame(e)] == uniform_page(repeated_word(POISON))
            &&& !is_table_frame(old(mem)@[dir_frame(pgdir@)], entry_frame(e))
            &&& frame_index(spec_v2p(entry_page(e) as usize)) == entry_frame(e)
        },
{
    proof {
        reveal(pgdir_wf);
        reveal(translate);
        let d = dir_frame(pgdir@);
        let iv = spec_pdx(a@ as int);
        lemma_page_indexes(a@ as int);
        assert(table_ok(k, pgdir@, mem@[d][iv]));
        lemma_managed_frame(k, mem, entry_page(mem@[d][iv]) as usize);
    }
    let e = mem.read(loc.table, loc.index);
    proof {
        let d = dir_frame(pgdir@);
        let iv = spec_pdx(a@ as int);
        assert(present(mem@[d][iv]) && entry_frame(mem@[d][iv]) == frame_index(loc.table@));
        if let Some(e0) = translate(mem@, pgdir@, a@ as int) {
            assert(leaf_ok(k, mem@, pgdir@, e0));
            assert forall|i: int|
                0 <= i < NPDENTRIES && present(#[trigger] mem@[d][i]) implies entry_frame(mem@[d][i])
                != entry_frame(e0) by {}
            lemma_page_frame(e0);
        }
    }
    if is_present(e) {
        free_leaf(k, mem, pgdir, a, loc, e);
    }
}

/// Releasing page `a` keeps the rest of the range the table's own.
proof fn lemma_owns_after_release(
    k0: &Kmem,
    k1: &Kmem,
    mem0: Seq<Seq<u32>>,
    mem1: Seq<Seq<u32>>,
    pgdir: usize,
    a: int,
    hi: int,
)
    requires
        k0.wf(),
        owns_user_pages(k0, mem0, pgdir, a, hi),
        is_page(a),
        k1.spec_kernel_end() == k0.spec_kernel_end(),
        k1.spec_phystop() == k0.spec_phystop(),
        translate(mem0, pgdir, a) matches Some(e) ==> k1.free_list() == k0.free_list().push(
            entry_page(e) as usize,
        ),
        translate(mem0, pgdir, a) is None ==> k1.free_list() == k0.free_list(),
        mem1[dir_frame(pgdir)] == mem0[dir_frame(pgdir)],
        forall|v: int|
            is_page(v) && v != a ==> #[trigger] translate(mem1, pgdir, v) == translate(
                mem0,
                pgdir,
                v,
            ),
    ensures
        owns_user_pages(k1, mem1, pgdir, a + PGSIZE, hi),
{
    assert forall|v: int|
        a + PGSIZE <= v < hi && is_page(v) && #[trigger] translate(mem1, pgdir, v) is Some implies leaf_ok(
        k1,
        mem1,
        pgdir,
        translate(mem1, pgdir, v)->0,
    ) by {
        assert(translate(mem0, pgdir, v) == translate(mem1, pgdir, v));
        let ev = translate(mem0, pgdir, v)->0;
        assert(leaf_ok(k0, mem0, pgdir, ev));
        let x = entry_page(ev) as usize;
        if let Some(e) = translate(mem0, pgdir, a) {
            assert(entry_frame(ev) != entry_frame(e));
            assert(entry_page(ev) != entry_page(e));
        }
        assert(!k1.free_list().contains(x)) by {
            if k1.free_list().contains(x) {
                let n = choose|n: int| 0 <= n < k1.free_list().len() && k1.free_list()[n] == x;
                if n < k0.free_list().len() {
                    assert(k0.free_list()[n] == k1.free_list()[n]);
                }
            }
        }
    }
    assert forall|v: int, w: int|
        a + PGSIZE <= v < hi && a + PGSIZE <= w < hi && is_page(v) && is_page(w) && v != w
            && #[trigger] translate(mem1, pgdir, v) is Some && #[trigger] translate(
            mem1,
            pgdir,
            w,
        ) is Some implies entry_frame(translate(mem1, pgdir, v)->0) != entry_frame(
        translate(mem1, pgdir, w)->0,
    ) by {
        assert(translate(mem0, pgdir, v) == translate(mem1, pgdir, v));
        assert(translate(mem0, pgdir, w) == translate(mem1, pgdir, w));
    }
}

/// Unmaps the user pages from `new_sz` rounded up to `old_sz` and frees the
/// pages behind them, lowest address first; returns the new size. Sizes need not be page-aligned;
/// when `new_sz` is not below `old_sz` nothing changes and `old_sz` is
/// returned.
#[verifier::rlimit(60)]
pub fn deallocuvm(k: &mut Kmem, mem: &mut PhysMem, pgdir: vaddr_pg, old_sz: usize, new_sz: usize) -> (r:
    usize)
    requires
        pgdir_wf(old(k), old(mem), pgdir@),
        old_sz <= ADDRESS_SPACE,
        new_sz < old_sz ==> new_sz + PGSIZE - 1 <= usize::MAX,
        new_sz < old_sz ==> owns_user_pages(
            old(k),
            old(mem)@,
            pgdir@,
            round_up(new_sz as int),
            old_sz as int,
        ),
    ensures
        r == (if new_sz >= old_sz {
            old_sz
        } else {
            new_sz
        }),
        new_sz >= old_sz ==> final(mem)@ == old(mem)@ && final(k).free_list() == old(k).free_list(),
        pgdir_wf(final(k), final(mem), pgdir@),
        final(k).spec_kernel_end() == old(k).spec_kernel_end(),
        final(k).spec_phystop() == old(k).spec_phystop(),
        final(mem)@[dir_frame(pgdir@)] == old(mem)@[dir_frame(pgdir@)],
        old(k).free_list().is_prefix_of(final(k).free_list()),
        forall|v: int|
            is_page(v) && new_sz < old_sz && round_up(new_sz as int) <= v < old_sz ==> #[trigger]
            translate(final(mem)@, pgdir@, v) is None,
        forall|v: int|
            is_page(v) && new_sz < old_sz && round_up(new_sz as int) <= v < old_sz && #[trigger]
            translate(old(mem)@, pgdir@, v) is Some ==> final(k).free_list().contains(
                entry_page(translate(old(mem)@, pgdir@, v)->0) as usize,
            ),
        forall|v: int|
            is_page(v) && !(new_sz < old_sz && round_up(new_sz as int) <= v < old_sz) ==> #[trigger]
            translate(final(mem)@, pgdir@, v) == translate(old(mem)@, pgdir@, v),
        forall|j: int|
            old(k).free_list().len() <= j < final(k).free_list().len() ==> mapped_page_in(
                old(mem)@,
                pgdir@,
                round_up(new_sz as int),
                old_sz as int,
                #[trigger] final(k).free_list()[j],
            ),
        final(mem)@.len() == old(mem)@.len(),
        forall|f: int|
            0 <= f < old(mem)@.len() && !is_table_frame(old(mem)@[dir_frame(pgdir@)], f)
                && !freed_frame(final(k).free_list(), old(k).free_list().len() as int, f)
                ==> #[trigger] final(mem)@[f] == old(mem)@[f],
        forall|j: int|
            old(k).free_list().len() <= j < final(k).free_list().len() ==> final(mem)@[frame_index(
                spec_v2p(#[trigger] final(k).free_list()[j]),
            )] == uniform_page(repeated_word(POISON)),
        new_sz < old_sz ==> final(k).free_list() == old(k).free_list() + mapped_pages(
            old(mem)@,
            pgdir@,
            round_up(new_sz as int),
            pages_below(round_up(new_sz as int), old_sz as int),
        ),
{
    if new_sz >= old_sz {
        return old_sz;
    }
    let start = page_roundup(crate::address::vaddr_raw(new_sz));
    let mut cur: u64 = start.as_raw() as u64;
    let ghost lo = start@ as int;
    let ghost hi = old_sz as int;
    proof {
        assert(old(k).free_list() + mapped_pages(old(mem)@, pgdir@, lo, 0) =~= old(k).free_list());
    }
    while cur < old_sz as u64
        invariant
            pgdir_wf(k, mem, pgdir@),
            k.spec_kernel_end() == old(k).spec_kernel_end(),
            k.spec_phystop() == old(k).spec_phystop(),
            mem@[dir_frame(pgdir@)] == old(mem)@[dir_frame(pgdir@)],
            old(k).free_list().is_prefix_of(k.free_list()),
            lo == round_up(new_sz as int),
            hi == old_sz,
            hi <= ADDRESS_SPACE,
            lo <= cur,
            cur <= ADDRESS_SPACE,
            cur as int % PGSIZE as int == 0,
            owns_user_pages(k, mem@, pgdir@, cur as int, hi),
            forall|v: int|
                is_page(v) && lo <= v < cur && v < hi ==> #[trigger] translate(mem@, pgdir@, v) is None,
            forall|v: int|
                is_page(v) && lo <= v < cur && v < hi && #[trigger] translate(old(mem)@, pgdir@, v)
                    is Some ==> k.free_list().contains(
                    entry_page(translate(old(mem)@, pgdir@, v)->0) as usize,
                ),
            forall|v: int|
                is_page(v) && !(lo <= v < cur && v < hi) ==> #[trigger] translate(mem@, pgdir@, v)
                    == translate(old(mem)@, pgdir@, v),
            mem@.len() == old(mem)@.len(),
            forall|f: int|
                0 <= f < old(mem)@.len() && !is_table_frame(old(mem)@[dir_frame(pgdir@)], f)
                    && !freed_frame(k.free_list(), old(k).free_list().len() as int, f)
                    ==> #[trigger] mem@[f] == old(mem)@[f],
            forall|j: int|
                old(k).free_list().len() <= j < k.free_list().len() ==> mem@[frame_index(
                    spec_v2p(#[trigger] k.free_list()[j]),
                )] == uniform_page(repeated_word(POISON)),
            forall|j: int|
                old(k).free_list().len() <= j < k.free_list().len() ==> !is_table_frame(
                    old(mem)@[dir_frame(pgdir@)],
                    frame_index(spec_v2p(#[trigger] k.free_list()[j])),
                ),
            k.free_list() == old(k).free_list() + mapped_pages(
                old(mem)@,
                pgdir@,
                lo,
                if cur < hi {
                    ((cur - lo) / PGSIZE as int) as nat
                } else {
                    pages_below(lo, hi)
                },
            ),
            forall|j: int|
                old(k).free_list().len() <= j < k.free_list().len() ==> mapped_page_in(
                    old(mem)@,
                    pgdir@,
                    lo,
                    hi,
                    #[trigger] k.free_list()[j],
                ),
        decreases ADDRESS_SPACE - cur,
    {
        let ghost k0 = *k;
        let ghost mem0 = mem@;
        let a = match vaddr_pg::from_raw(cur as usize) {
            Some(a) => a,
            None => {
                return new_sz;
            },
        };
        proof {
            lemma_page_indexes(a@ as int);
        }
        match walkpgdir(k, mem, pgdir, a, false) {
            None => {
                let i = pdx(a);
                assert((i as u64 + 1) * (PDSPAN as u64) <= ADDRESS_SPACE) by (nonlinear_arith)
                    requires
                        i < 1024,
                ;
                let next: u64 = (i as u64 + 1) * (PDSPAN as u64);
                proof {
                    assert(a@ < next);
                    assert(next as int % PGSIZE as int == 0) by {
                        assert(next == (i + 1) * 1024 * PGSIZE);
                        vstd::arithmetic::div_mod::lemma_mod_multiples_basic((i + 1) * 1024, PGSIZE as int);
                    }
                    assert forall|v: int| is_page(v) && a@ <= v < next implies #[trigger]
                        translate(mem@, pgdir@, v) is None by {
                        lemma_same_dir(a@ as int, v);
                        lemma_absent_dir(mem@, pgdir@, a@ as int, v);
                    }
                    assert forall|v: int|
                        is_page(v) && lo <= v < next && v < hi && #[trigger] translate(
                            old(mem)@,
                            pgdir@,
                            v,
                        ) is Some implies k.free_list().contains(
                        entry_page(translate(old(mem)@, pgdir@, v)->0) as usize,
                    ) by {
                        if v >= a@ {
                            assert(translate(mem@, pgdir@, v) is None);
                        }
                    }
                    assert forall|v: int|
                        next <= v < hi && is_page(v) && #[trigger] translate(mem@, pgdir@, v)
                            is Some implies leaf_ok(k, mem@, pgdir@, translate(mem@, pgdir@, v)->0) by {
                    }
                    assert forall|v: int, w: int|
                        next <= v < hi && next <= w < hi && is_page(v) && is_page(w) && v != w
                            && #[trigger] translate(mem@, pgdir@, v) is Some && #[trigger] translate(
                            mem@,
                            pgdir@,
                            w,
                        ) is Some implies entry_frame(translate(mem@, pgdir@, v)->0) != entry_frame(
                        translate(mem@, pgdir@, w)->0,
                    ) by {
                    }
                }
                proof {
                    let n1 = ((cur - lo) / PGSIZE as int) as nat;
                    let n2: nat = if next < hi {
                        ((next - lo) / PGSIZE as int) as nat
                    } else {
                        pages_below(lo, hi)
                    };
                    assert(lo + n1 * PGSIZE == cur) by (nonlinear_arith)
                        requires
                            n1 == (cur - lo) / PGSIZE as int,
                            (cur - lo) % PGSIZE as int == 0,
                            lo <= cur,
                    ;
                    assert forall|i: int| n1 <= i < n2 implies #[trigger] unmapped_at(
                        old(mem)@,
                        pgdir@,
                        lo,
                        i,
                    ) by {
                        let v = lo + i * PGSIZE;
                        assert(cur <= v) by (nonlinear_arith)
                            requires
                                lo + n1 * PGSIZE == cur,
                                n1 <= i,
                                v == lo + i * PGSIZE,
                        ;
                        assert(v < next && v < hi) by (nonlinear_arith)
                            requires
                                i < n2,
                                v == lo + i * PGSIZE,
                                next < hi ==> n2 == (next - lo) / PGSIZE as int,
                                next >= hi ==> n2 == pages_below(lo, hi),
                                hi > lo,
                                pages_below(lo, hi) == (hi - lo + PGSIZE - 1) / PGSIZE as int,
                                (next - lo) % PGSIZE as int == 0,
                                lo < next,
                        ;
                        assert(v % PGSIZE as int == 0) by (nonlinear_arith)
                            requires
                                v == lo + i * PGSIZE,
                                lo % PGSIZE as int == 0,
                        ;
                        assert(is_page(v));
                        assert(translate(mem@, pgdir@, v) is None);
                    }
                    assert(n1 <= n2) by (nonlinear_arith)
                        requires
                            n1 == (cur - lo) / PGSIZE as int,
                            cur < next,
                            cur < hi,
                            next < hi ==> n2 == (next - lo) / PGSIZE as int,
                            next >= hi ==> n2 == (hi - lo + PGSIZE - 1) / PGSIZE as int,
                            lo <= cur,
                    ;
                    lemma_mapped_pages_skip(old(mem)@, pgdir@, lo, n1, n2);
                }
                cur = next;
            },
            Some(loc) => {
                release_page(k, mem, pgdir, a, loc);
                proof {
                    reveal(pgdir_wf);
                    lemma_owns_after_release(&k0, k, mem0, mem@, pgdir@, a@ as int, hi);
                    if let Some(e) = translate(mem0, pgdir@, a@ as int) {
                        let page = entry_page(e) as usize;
                        assert(k.free_list()[k.free_list().len() - 1] == page);
                        assert(translate(old(mem)@, pgdir@, a@ as int) == Some(e));
                    }
                    assert forall|j: int|
                        old(k).free_list().len() <= j < k.free_list().len() implies mapped_page_in(
                        old(mem)@,
                        pgdir@,
                        lo,
                        hi,
                        #[trigger] k.free_list()[j],
                    ) by {
                        if j < k0.free_list().len() {
                            assert(k0.free_list()[j] == k.free_list()[j]);
                        } else {
                            assert(is_page(a@ as int));
                            assert(translate(old(mem)@, pgdir@, a@ as int) is Some);
                        }
                    }
                    assert forall|v: int|
                        is_page(v) && lo <= v < a@ + PGSIZE && v < hi && #[trigger] translate(
                            old(mem)@,
                            pgdir@,
                            v,
                        ) is Some implies k.free_list().contains(
                        entry_page(translate(old(mem)@, pgdir@, v)->0) as usize,
                    ) by {
                        if v < a@ {
                            let x = entry_page(translate(old(mem)@, pgdir@, v)->0) as usize;
                            assert(k0.free_list().contains(x));
                            let n = choose|n: int|
                                0 <= n < k0.free_list().len() && k0.free_list()[n] == x;
                            assert(k.free_list()[n] == x);
                        } else {
                            assert(v == a@);
                        }
                    }
                }
                proof {
                    let d = dir_frame(pgdir@);
                    let n_old = old(k).free_list().len() as int;
                    let t = frame_index(loc.table@);
                    assert(mem0[d] == old(mem)@[d]);
                    assert forall|f: int|
                        0 <= f < old(mem)@.len() && !is_table_frame(old(mem)@[d], f) && !freed_frame(
                            k.free_list(),
                            n_old,
                            f,
                        ) implies #[trigger] mem@[f] == old(mem)@[f] by {
                        if freed_frame(k0.free_list(), n_old, f) {
                            let j = choose|j: int|
                                n_old <= j < k0.free_list().len() && frame_index(
                                    spec_v2p(#[trigger] k0.free_list()[j]),
                                ) == f;
                            assert(k.free_list()[j] == k0.free_list()[j]);
                        }
                        if let Some(e) = translate(mem0, pgdir@, a@ as int) {
                            if f == entry_frame(e) {
                                let j = k.free_list().len() - 1;
                                assert(frame_index(spec_v2p(k.free_list()[j])) == f);
                            }
                        }
                        assert(f != t);
                        assert(!maps_frame(mem0, pgdir@, a@ as int, f));
                        assert(mem@[f] == mem0[f]);
                    }
                    assert forall|j: int|
                        n_old <= j < k.free_list().len() implies mem@[frame_index(
                            spec_v2p(#[trigger] k.free_list()[j]),
                        )] == uniform_page(repeated_word(POISON)) && !is_table_frame(
                        old(mem)@[d],
                        frame_index(spec_v2p(k.free_list()[j])),
                    ) by {
                        if j < k0.free_list().len() {
                            let x = k0.free_list()[j];
                            assert(k.free_list()[j] == x);
                            let f = frame_index(spec_v2p(x));
                            assert(mem0[f] == uniform_page(repeated_word(POISON)));
                            assert(f != t);
                            if !maps_frame(mem0, pgdir@, a@ as int, f) {
                                assert(0 <= f < old(mem)@.len()) by {
                                    reveal(pgdir_wf);
                                    assert(k0.manages(k0.free_list()[j]));
                                    lemma_managed_frame(&k0, mem, x);
                                }
                                assert(mem@[f] == mem0[f]);
                            }
                        }
                    }
                }
                proof {
                    let n1 = ((cur - lo) / PGSIZE as int) as nat;
                    assert(lo + n1 * PGSIZE == cur) by (nonlinear_arith)
                        requires
                            n1 == (cur - lo) / PGSIZE as int,
                            (cur - lo) % PGSIZE as int == 0,
                            lo <= cur,
                    ;
                    let n2: nat = if cur + PGSIZE < hi {
                        ((cur + PGSIZE - lo) / PGSIZE as int) as nat
                    } else {
                        pages_below(lo, hi)
                    };
                    assert(n2 == n1 + 1) by (nonlinear_arith)
                        requires
                            n1 == (cur - lo) / PGSIZE as int,
                            (cur - lo) % PGSIZE as int == 0,
                            lo <= cur,
                            cur < hi,
                            cur + PGSIZE < hi ==> n2 == (cur + PGSIZE - lo) / PGSIZE as int,
                            cur + PGSIZE >= hi ==> n2 == (hi - lo + PGSIZE - 1) / PGSIZE as int,
                    ;
                    assert(translate(mem0, pgdir@, a@ as int) == translate(old(mem)@, pgdir@, a@ as int));
                    assert(mapped_pages(old(mem)@, pgdir@, lo, n2) == match translate(
                        old(mem)@,
                        pgdir@,
                        a@ as int,
                    ) {
                        Some(e) => mapped_pages(old(mem)@, pgdir@, lo, n1).push(entry_page(e) as usize),
                        None => mapped_pages(old(mem)@, pgdir@, lo, n1),
                    });
                    assert(k.free_list() =~= old(k).free_list() + mapped_pages(
                        old(mem)@,
                        pgdir@,
                        lo,
                        n2,
                    ));
                }
                cur = cur + PGSIZE as u64;
            },
        }
    }
    new_sz
}

/// The pages freed from position `from` of `free` on are the user pages
/// below `KERNBASE`, up to position `n`, then page tables of the directory,
/// and last the directory itself.
pub open spec fn teardown_order(
    free: Seq<usize>,
    from: int,
    n: int,
    mem: Seq<Seq<u32>>,
    pgdir: usize,
) -> bool {
    &&& from <= n < free.len()
    &&& forall|j: int|
        from <= j < n ==> mapped_page_in(mem, pgdir, 0, KERNBASE as int, #[trigger] free[j])
    &&& forall|j: int| n <= j < free.len() - 1 ==> is_table_page(mem, pgdir, #[trigger] free[j])
    &&& free.last() == pgdir
}

/// Frees a page table: the user pages below `KERNBASE`, then every page
/// table its directory points to, then the directory itself.
#[verifier::rlimit(60)]
pub fn freevm(k: &mut Kmem, mem: &mut PhysMem, pgdir: vaddr_pg)
    requires
        pgdir_wf(old(k), old(mem), pgdir@),
        owns_user_pages(old(k), old(mem)@, pgdir@, 0, KERNBASE as int),
    ensures
        final(k).wf(),
        final(k).covers(final(mem)),
        final(k).spec_kernel_end() == old(k).spec_kernel_end(),
        final(k).spec_phystop() == old(k).spec_phystop(),
        old(k).free_list().is_prefix_of(final(k).free_list()),
        final(k).free_list().contains(pgdir@),
        forall|i: int|
            0 <= i < NPDENTRIES && present(#[trigger] old(mem)@[dir_frame(pgdir@)][i])
                ==> final(k).free_list().contains(
                entry_page(old(mem)@[dir_frame(pgdir@)][i]) as usize,
            ),
        forall|v: int|
            is_page(v) && v < KERNBASE && #[trigger] translate(old(mem)@, pgdir@, v) is Some
                ==> final(k).free_list().contains(
                entry_page(translate(old(mem)@, pgdir@, v)->0) as usize,
            ),
        final(k).free_list().last() == pgdir@,
        exists|n: int|
            #[trigger] teardown_order(final(k).free_list(), old(k).free_list().len() as int, n, old(mem)@, pgdir@),
{
    proof {
        assert(round_up(0) == 0);
    }
    deallocuvm(k, mem, pgdir, KERNBASE, 0);
    let ghost k1 = *k;
    let ghost d = dir_frame(pgdir@);
    let ghost dir = mem@[d];
    proof {
        reveal(pgdir_wf);
        lemma_managed_frame(k, mem, pgdir@);
        mem.lemma_page_len();
    }
    let mut i: usize = 0;
    while i < NPDENTRIES
        invariant
            k.wf(),
            k.covers(mem),
            k.spec_kernel_end() == old(k).spec_kernel_end(),
            k.spec_phystop() == old(k).spec_phystop(),
            old(k).free_list().is_prefix_of(k1.free_list()),
            k1.free_list().is_prefix_of(k.free_list()),
            i <= NPDENTRIES,
            d == dir_frame(pgdir@),
            0 <= d < mem@.len(),
            d * PGSIZE + KERNBASE == pgdir@,
            mem@[d] == dir,
            dir == old(mem)@[d],
            dir.len() == PAGE_WORDS,
            k.manages(pgdir@),
            !k.free_list().contains(pgdir@),
            forall|j: int|
                i <= j < NPDENTRIES && present(#[trigger] dir[j]) ==> table_ok(k, pgdir@, dir[j]),
            forall|a: int, b: int|
                0 <= a < NPDENTRIES && 0 <= b < NPDENTRIES && a != b && present(#[trigger] dir[a])
                    && present(#[trigger] dir[b]) ==> entry_frame(dir[a]) != entry_frame(dir[b]),
            forall|j: int|
                0 <= j < i && present(#[trigger] dir[j]) ==> k.free_list().contains(
                    entry_page(dir[j]) as usize,
                ),
            forall|j: int|
                old(k).free_list().len() <= j < k1.free_list().len() ==> mapped_page_in(
                    old(mem)@,
                    pgdir@,
                    0,
                    KERNBASE as int,
                    #[trigger] k1.free_list()[j],
                ),
            forall|j: int|
                k1.free_list().len() <= j < k.free_list().len() ==> is_table_page(
                    old(mem)@,
                    pgdir@,
                    #[trigger] k.free_list()[j],
                ),
        decreases NPDENTRIES - i,
    {
        let e = mem.read(v2p(pgdir), i);
        if is_present(e) {
            let ghost k0 = *k;
            let ghost page_i = entry_page(e);
            let table = p2v(pte_addr(e));
            proof {
                assert(table_ok(k, pgdir@, dir[i as int]));
                lemma_wrap_small(entry_frame(e) * PGSIZE + KERNBASE);
                assert(table@ == page_i);
                lemma_managed_frame(k, mem, table@);
            }
            kfree(k, mem, table);
            proof {
                assert(frame_index(spec_v2p(table@)) != d);
                assert(mem@[d] == dir);
                assert forall|j: int|
                    i < j < NPDENTRIES && present(#[trigger] dir[j]) implies table_ok(
                    k,
                    pgdir@,
                    dir[j],
                ) by {
                    assert(table_ok(&k0, pgdir@, dir[j]));
                    assert(entry_frame(dir[j]) != entry_frame(dir[i as int]));
                    let x = entry_page(dir[j]) as usize;
                    if k.free_list().contains(x) {
                        let n = choose|n: int| 0 <= n < k.free_list().len() && k.free_list()[n] == x;
                        if n < k0.free_list().len() {
                            assert(k0.free_list()[n] == k.free_list()[n]);
                        }
                    }
                }
                assert(!k.free_list().contains(pgdir@)) by {
                    if k.free_list().contains(pgdir@) {
                        let n = choose|n: int| 0 <= n < k.free_list().len() && k.free_list()[n] == pgdir@;
                        if n < k0.free_list().len() {
                            assert(k0.free_list()[n] == k.free_list()[n]);
                        }
                    }
                }
                assert forall|j: int|
                    0 <= j <= i && present(#[trigger] dir[j]) implies k.free_list().contains(
                    entry_page(dir[j]) as usize,
                ) by {
                    if j < i {
                        let x = entry_page(dir[j]) as usize;
                        let n = choose|n: int| 0 <= n < k0.free_list().len() && k0.free_list()[n] == x;
                        assert(k.free_list()[n] == x);
                    } else {
                        assert(k.free_list()[k.free_list().len() - 1] == table@);
                    }
                }
                assert(k0.free_list().is_prefix_of(k.free_list()));
                assert forall|j: int|
                    k1.free_list().len() <= j < k.free_list().len() implies is_table_page(
                    old(mem)@,
                    pgdir@,
                    #[trigger] k.free_list()[j],
                ) by {
                    if j < k0.free_list().len() {
                        assert(k0.free_list()[j] == k.free_list()[j]);
                    } else {
                        assert(present(old(mem)@[d][i as int]));
                        assert(entry_page(old(mem)@[d][i as int]) == k.free_list()[j] as int);
                    }
                }
            }
        }
        i = i + 1;
    }
    let ghost k2 = *k;
    kfree(k, mem, pgdir);
    proof {
        assert(k.free_list()[k.free_list().len() - 1] == pgdir@);
        assert forall|j: int|
            0 <= j < NPDENTRIES && present(#[trigger] old(mem)@[dir_frame(pgdir@)][j])
                implies k.free_list().contains(entry_page(old(mem)@[dir_frame(pgdir@)][j]) as usize) by {
            let x = entry_page(dir[j]) as usize;
            let n = choose|n: int| 0 <= n < k2.free_list().len() && k2.free_list()[n] == x;
            assert(k.free_list()[n] == x);
        }
        assert forall|v: int|
            is_page(v) && v < KERNBASE && #[trigger] translate(old(mem)@, pgdir@, v) is Some
                implies k.free_list().contains(
                entry_page(translate(old(mem)@, pgdir@, v)->0) as usize,
            ) by {
            let x = entry_page(translate(old(mem)@, pgdir@, v)->0) as usize;
            assert(k1.free_list().contains(x));
            let n = choose|n: int| 0 <= n < k1.free_list().len() && k1.free_list()[n] == x;
            assert(k2.free_list()[n] == x);
            assert(k.free_list()[n] == x);
        }
        let n = k1.free_list().len() as int;
        assert(old(k).free_list().len() <= n);
        assert forall|j: int| old(k).free_list().len() <= j < n implies mapped_page_in(
            old(mem)@,
            pgdir@,
            0,
            KERNBASE as int,
            #[trigger] k.free_list()[j],
        ) by {
            assert(k1.free_list()[j] == k.free_list()[j]);
        }
        assert forall|j: int| n <= j < k.free_list().len() - 1 implies is_table_page(
            old(mem)@,
            pgdir@,
            #[trigger] k.free_list()[j],
        ) by {
            assert(k2.free_list()[j] == k.free_list()[j]);
        }
        assert(teardown_order(k.free_list(), old(k).free_list().len() as int, n, old(mem)@, pgdir@));
    }
}

/// Start of extended memory.
pub const EXTMEM: usize = 0x10_0000;

/// Where the device window starts, at the top of the address space.
pub const DEVSPACE: usize = 0xFE00_0000;

/// Where the kernel is linked.
pub const KERNLINK: usize = KERNBASE + EXTMEM;

/// One segment of the kernel's map: virtual addresses from `virt` on map to
/// the physical pages from `start` up to `end`, where an `end` of zero means
/// the top of the address space.
#[derive(Debug, Clone, Copy)]
pub struct Kmap {
    pub virt: vaddr,
    pub start: paddr_pg,
    pub end: paddr_pg,
    pub perm: PteFlags,
}

/// Bytes in a segment.
pub open spec fn segment_size(m: Kmap) -> int {
    if m.start@ < m.end@ {
        m.end@ - m.start@
    } else {
        ADDRESS_SPACE + m.end@ - m.start@
    }
}

/// What the kernel's map sends page `v` to, for a kernel whose data starts
/// at `data` on a machine whose memory stops at `phystop`: the I/O space
/// and the kernel data and free memory writable, the kernel text read-only,
/// and the device window mapped to itself.
pub open spec fn kernel_map(v: int, data: int, phystop: int) -> Option<u32> {
    if KERNBASE <= v < KERNLINK {
        Some(mapping_entry(v - KERNBASE, PTE_W | PTE_P))
    } else if KERNLINK <= v < data {
        Some(mapping_entry(v - KERNBASE, PTE_P))
    } else if data <= v < KERNBASE + phystop {
        Some(mapping_entry(v - KERNBASE, PTE_W | PTE_P))
    } else if DEVSPACE <= v {
        Some(mapping_entry(v, PTE_W | PTE_P))
    } else {
        None
    }
}

/// Where segment `i` of the kernel's map starts; past the last one, the end
/// of the address space.
pub open spec fn segment_start(i: int, data: int) -> int {
    if i == 0 {
        KERNBASE as int
    } else if i == 1 {
        KERNLINK as int
    } else if i == 2 {
        data
    } else if i == 3 {
        DEVSPACE as int
    } else {
        ADDRESS_SPACE as int
    }
}

/// The kernel's map, for a kernel whose data starts at `data` on a machine
/// whose memory stops at `phystop`.
pub fn kmap(data: vaddr_pg, phystop: usize) -> (r: Vec<Kmap>)
    requires
        KERNLINK < data@,
        data@ < KERNBASE + phystop,
        KERNBASE + phystop <= DEVSPACE,
        phystop as int % PGSIZE as int == 0,
    ensures
        r@.len() == 4,
        r@[0].virt@ == KERNBASE && r@[0].start@ == 0 && r@[0].end@ == EXTMEM && r@[0].perm.bits()
            == PTE_W,
        r@[1].virt@ == KERNLINK && r@[1].start@ == EXTMEM && r@[1].end@ == data@ - KERNBASE
            && r@[1].perm.bits() == 0,
        r@[2].virt@ == data@ && r@[2].start@ == data@ - KERNBASE && r@[2].end@ == phystop
            && r@[2].perm.bits() == PTE_W,
        r@[3].virt@ == DEVSPACE && r@[3].start@ == DEVSPACE && r@[3].end@ == 0 && r@[3].perm.bits()
            == PTE_W,
{
    let data_pa = v2p(data);
    proof {
        lemma_wrap_small(data@ - KERNBASE);
    }
    let mut r: Vec<Kmap> = Vec::new();
    r.push(
        Kmap {
            virt: crate::address::vaddr_raw(KERNBASE),
            start: paddr_pg::null(),
            end: paddr_or_null(EXTMEM),
            perm: PteFlags::writable(),
        },
    );
    r.push(
        Kmap {
            virt: crate::address::vaddr_raw(KERNLINK),
            start: paddr_or_null(EXTMEM),
            end: data_pa,
            perm: PteFlags::empty(),
        },
    );
    r.push(
        Kmap {
            virt: crate::address::unaligned(data),
            start: data_pa,
            end: paddr_or_null(phystop),
            perm: PteFlags::writable(),
        },
    );
    r.push(
        Kmap {
            virt: crate::address::vaddr_raw(DEVSPACE),
            start: paddr_or_null(DEVSPACE),
            end: paddr_pg::null(),
            perm: PteFlags::writable(),
        },
    );
    r
}

/// The page-aligned physical address `a`.
fn paddr_or_null(a: usize) -> (r: paddr_pg)
    requires
        a as int % PGSIZE as int == 0,
    ensures
        r@ == a,
{
    match paddr_pg::from_raw(a) {
        Some(p) => p,
        None => paddr_pg::null(),
    }
}

/// A page-aligned span of whole pages ends one page before its end.
proof fn lemma_aligned_span(x: int, size: int)
    requires
        x % PGSIZE as int == 0,
        size % PGSIZE as int == 0,
        size > 0,
        x >= 0,
    ensures
        round_down(x) == x,
        round_down(x + size - 1) == x + size - PGSIZE,
{
    vstd::arithmetic::div_mod::lemma_fundamental_div_mod(x, PGSIZE as int);
    let m = (x + size) / PGSIZE as int;
    vstd::arithmetic::div_mod::lemma_fundamental_div_mod(x + size, PGSIZE as int);
    assert(x + size == m * PGSIZE);
    assert((x + size - 1) / PGSIZE as int == m - 1) by {
        vstd::arithmetic::div_mod::lemma_div_multiples_vanish_fancy(m - 1, PGSIZE as int - 1, PGSIZE as int);
    }
}

/// A fresh directory maps nothing.
proof fn lemma_zero_dir_unmapped(mem: Seq<Seq<u32>>, pgdir: usize, v: int)
    requires
        0 <= dir_frame(pgdir) < mem.len(),
        mem[dir_frame(pgdir)] == uniform_page(0),
        0 <= spec_pdx(v) < 1024,
    ensures
        translate(mem, pgdir, v) is None,
{
    reveal(translate);
}

/// Pages the kernel's map takes: its directory, one page table for each
/// directory slot that `[KERNBASE, KERNBASE + phystop)` covers, and one for
/// each slot of the device window.
pub open spec fn kernel_table_pages(phystop: int) -> int {
    1 + (spec_pdx(KERNBASE + phystop - PGSIZE) - spec_pdx(KERNBASE as int) + 1) + (spec_pdx(
        ADDRESS_SPACE - PGSIZE,
    ) - spec_pdx(DEVSPACE as int) + 1)
}

/// Page tables that the segments before segment `i` of the kernel's map
/// take.
spec fn tables_before(i: int, data: int, phystop: int) -> int {
    if i <= 0 {
        0
    } else if i == 1 {
        1
    } else if i == 2 {
        1 + spec_pdx(data - PGSIZE) - spec_pdx(KERNBASE as int)
    } else if i == 3 {
        1 + spec_pdx(KERNBASE + phystop - PGSIZE) - spec_pdx(KERNBASE as int)
    } else {
        1 + spec_pdx(KERNBASE + phystop - PGSIZE) - spec_pdx(KERNBASE as int) + 8
    }
}

/// Builds the kernel's part of a page table: a fresh directory, then each
/// segment of the kernel's map. `None` when pages run out, after handing
/// back every page taken.
#[verifier::rlimit(100)]
pub fn setupkvm(k: &mut Kmem, mem: &mut PhysMem, data: vaddr_pg) -> (r: Option<vaddr_pg>)
    requires
        old(k).wf(),
        old(k).covers(old(mem)),
        KERNLINK < data@,
        data@ < KERNBASE + old(k).spec_phystop(),
        KERNBASE + old(k).spec_phystop() <= DEVSPACE,
        old(k).spec_phystop() as int % PGSIZE as int == 0,
    ensures
        final(k).wf(),
        final(k).covers(final(mem)),
        final(k).spec_kernel_end() == old(k).spec_kernel_end(),
        final(k).spec_phystop() == old(k).spec_phystop(),
        old(k).free_list().len() >= kernel_table_pages(old(k).spec_phystop() as int) ==> r is Some,
        old(k).free_list().len() == 0 ==> r is None,
        r matches Some(pgdir) ==> {
            &&& pgdir_wf(final(k), final(mem), pgdir@)
            &&& forall|v: int|
                is_page(v) ==> #[trigger] translate(final(mem)@, pgdir@, v) == kernel_map(
                    v,
                    data@ as int,
                    old(k).spec_phystop() as int,
                )
            &&& final(k).free_list().is_prefix_of(old(k).free_list())
            &&& old(k).free_list().contains(pgdir@)
            &&& forall|x: usize| #[trigger]
                is_table_page(final(mem)@, pgdir@, x) ==> old(k).free_list().contains(x)
            &&& forall|x: usize| #[trigger]
                old(k).free_list().contains(x) ==> final(k).free_list().contains(x) || x == pgdir@
                    || is_table_page(final(mem)@, pgdir@, x)
        },
        r is None ==> final(k).free_list().to_set() == old(k).free_list().to_set(),
{
    let ghost phystop = k.spec_phystop() as int;
    let ghost n0 = k.free_list().len();
    // Reading the raw address brings in that the kernel data is page-aligned.
    let _ = data.as_raw();
    let pgdir = match kalloc(k) {
        Some(p) => p,
        None => {
            proof {
                assert(k.free_list().to_set() =~= old(k).free_list().to_set());
            }
            return None;
        },
    };
    proof {
        lemma_managed_frame(&*old(k), mem, pgdir@);
        assert forall|x: usize| #[trigger] old(k).free_list().contains(x) implies k.free_list().contains(
            x,
        ) || x == pgdir@ by {
            if x != pgdir@ {
                let n = choose|n: int|
                    0 <= n < old(k).free_list().len() && old(k).free_list()[n] == x;
                assert(k.free_list()[n] == x);
            }
        }
        assert(k.free_list() =~= old(k).free_list().subrange(0, k.free_list().len() as int));
        assert(old(k).free_list()[old(k).free_list().len() - 1] == pgdir@);
    }
    mem.fill(v2p(pgdir), 0);
    proof {
        reveal(pgdir_wf);
        assert(!present(0u32));
        assert forall|v: int| is_page(v) implies #[trigger] translate(mem@, pgdir@, v) is None by {
            lemma_page_indexes(v);
            lemma_zero_dir_unmapped(mem@, pgdir@, v);
        }
        assert(0u32 | PTE_P == PTE_P) by (bit_vector);
        assert forall|x: usize| #[trigger] is_table_page(mem@, pgdir@, x) implies old(
            k,
        ).free_list().contains(x) by {
            let d = dir_frame(pgdir@);
            let j = choose|j: int|
                0 <= j < NPDENTRIES && present(#[trigger] mem@[d][j]) && entry_page(mem@[d][j]) == x;
        }
        lemma_pdx_ordered(KERNBASE as int, data@ - PGSIZE);
        lemma_pdx_ordered(data@ - PGSIZE, KERNBASE + phystop - PGSIZE);
    }
    let maps = kmap(data, k.phystop());
    let mut i: usize = 0;
    while i < 4
        invariant
            pgdir_wf(k, mem, pgdir@),
            k.spec_kernel_end() == old(k).spec_kernel_end(),
            k.spec_phystop() == old(k).spec_phystop(),
            phystop == old(k).spec_phystop(),
            i <= 4,
            n0 == old(k).free_list().len(),
            n0 - k.free_list().len() <= 1 + tables_before(i as int, data@ as int, phystop),
            tables_before(2, data@ as int, phystop) >= 1,
            tables_before(3, data@ as int, phystop) >= tables_before(2, data@ as int, phystop),
            KERNLINK < data@,
            data@ < KERNBASE + phystop,
            KERNBASE + phystop <= DEVSPACE,
            phystop % PGSIZE as int == 0,
            0u32 | PTE_P == PTE_P,
            maps@.len() == 4,
            maps@[0].virt@ == KERNBASE && maps@[0].start@ == 0 && maps@[0].end@ == EXTMEM
                && maps@[0].perm.bits() == PTE_W,
            maps@[1].virt@ == KERNLINK && maps@[1].start@ == EXTMEM && maps@[1].end@ == data@
                - KERNBASE && maps@[1].perm.bits() == 0,
            maps@[2].virt@ == data@ && maps@[2].start@ == data@ - KERNBASE && maps@[2].end@
                == phystop && maps@[2].perm.bits() == PTE_W,
            maps@[3].virt@ == DEVSPACE && maps@[3].start@ == DEVSPACE && maps@[3].end@ == 0
                && maps@[3].perm.bits() == PTE_W,
            forall|v: int|
                is_page(v) && v < segment_start(i as int, data@ as int) ==> #[trigger] translate(
                    mem@,
                    pgdir@,
                    v,
                ) == kernel_map(v, data@ as int, phystop),
            forall|v: int|
                is_page(v) && v >= segment_start(i as int, data@ as int) ==> #[trigger] translate(
                    mem@,
                    pgdir@,
                    v,
                ) is None,
            forall|x: usize| #[trigger]
                old(k).free_list().contains(x) ==> k.free_list().contains(x) || x == pgdir@
                    || is_table_page(mem@, pgdir@, x),
            k.free_list().is_prefix_of(old(k).free_list()),
            old(k).free_list().contains(pgdir@),
            forall|x: usize| #[trigger] is_table_page(mem@, pgdir@, x) ==> old(k).free_list().contains(x),
        decreases 4 - i,
    {
        let seg = maps[i];
        let size = (seg.end.as_raw() as u32).wrapping_sub(seg.start.as_raw() as u32) as usize;
        let ghost first = seg.virt@ as int;
        let ghost mem0 = mem@;
        let ghost k0 = *k;
        proof {
            assert(size as int == segment_size(seg));
            assert(size > 0);
            assert(size as int % PGSIZE as int == 0);
            assert(first % PGSIZE as int == 0);
            lemma_aligned_span(first, size as int);
            assert(first == segment_start(i as int, data@ as int));
            assert(first + size <= segment_start(i as int + 1, data@ as int));
            let last = first + size - PGSIZE;
            let span = spec_pdx(last) - spec_pdx(first);
            let fp = dir_present(mem0, pgdir@, first);
            let need = tables_before(i as int + 1, data@ as int, phystop) - tables_before(
                i as int,
                data@ as int,
                phystop,
            );
            if i == 0 {
                assert(spec_pdx(last) == spec_pdx(first));
            } else if i == 1 {
                assert(translate(mem0, pgdir@, KERNBASE as int) is Some);
                lemma_mapped_dir_present(mem0, pgdir@, KERNBASE as int);
                assert(pde(mem0, pgdir@, first) == pde(mem0, pgdir@, KERNBASE as int));
            } else if i == 2 {
                lemma_next_page_dir(data@ - PGSIZE);
                if spec_pdx(first) == spec_pdx(data@ - PGSIZE) {
                    assert(translate(mem0, pgdir@, data@ - PGSIZE) is Some);
                    lemma_mapped_dir_present(mem0, pgdir@, data@ - PGSIZE);
                    assert(pde(mem0, pgdir@, first) == pde(mem0, pgdir@, data@ - PGSIZE));
                }
            }
            assert(span + 1 - fp <= need);
        }
        let mapped = mappages(k, mem, pgdir, seg.virt, size, seg.start, seg.perm);
        proof {
            assert forall|x: usize| #[trigger] old(k).free_list().contains(x) implies k.free_list().contains(
                x,
            ) || x == pgdir@ || is_table_page(mem@, pgdir@, x) by {
                if k0.free_list().contains(x) {
                } else if x != pgdir@ {
                    lemma_table_page_kept(&k0, mem0, k, mem@, pgdir@, x);
                }
            }
            lemma_prefix_trans(k.free_list(), k0.free_list(), old(k).free_list());
            lemma_prefix_trans(k0.free_list(), old(k).free_list(), old(k).free_list());
        }
        match mapped {
            Some(()) => {},
            None => {
                proof {
                    assert forall|v: int|
                        0 <= v < KERNBASE && is_page(v) && #[trigger] translate(mem@, pgdir@, v)
                            is Some implies false by {
                        assert(translate(mem@, pgdir@, v) == translate(mem0, pgdir@, v));
                    }
                    assert(n0 < kernel_table_pages(phystop));
                }
                let ghost k1 = *k;
                let ghost mem1 = mem@;
                freevm(k, mem, pgdir);
                proof {
                    assert forall|x: usize| #[trigger] old(k).free_list().contains(x) implies k.free_list().contains(
                        x,
                    ) by {
                        if k1.free_list().contains(x) {
                            let n = choose|n: int|
                                0 <= n < k1.free_list().len() && k1.free_list()[n] == x;
                            assert(k.free_list()[n] == x);
                        } else if x != pgdir@ {
                            let d = dir_frame(pgdir@);
                            let j = choose|j: int|
                                0 <= j < NPDENTRIES && present(#[trigger] mem1[d][j]) && entry_page(
                                    mem1[d][j],
                                ) == x;
                            assert(k.free_list().contains(entry_page(mem1[d][j]) as usize));
                        }
                    }
                    let n = choose|n: int|
                        #[trigger] teardown_order(
                            k.free_list(),
                            k1.free_list().len() as int,
                            n,
                            mem1,
                            pgdir@,
                        );
                    assert forall|x: usize| #[trigger] k.free_list().contains(x) implies old(
                        k,
                    ).free_list().contains(x) by {
                        let j = choose|j: int| 0 <= j < k.free_list().len() && k.free_list()[j] == x;
                        if j < k1.free_list().len() {
                            assert(k1.free_list()[j] == x);
                            assert(k1.free_list().contains(x));
                        } else if j < n {
                            assert(mapped_page_in(mem1, pgdir@, 0, KERNBASE as int, x));
                            let v = choose|v: int|
                                0 <= v < KERNBASE && is_page(v) && #[trigger] translate(
                                    mem1,
                                    pgdir@,
                                    v,
                                ) is Some && entry_page(translate(mem1, pgdir@, v)->0) == x;
                            assert(translate(mem1, pgdir@, v) is Some);
                        } else if j < k.free_list().len() - 1 {
                            assert(is_table_page(mem1, pgdir@, x));
                        }
                    }
                    assert(k.free_list().to_set() =~= old(k).free_list().to_set());
                }
                return None;
            },
        }
        proof {
            assert forall|v: int|
                is_page(v) && v < segment_start(i as int + 1, data@ as int) implies #[trigger] translate(
                mem@,
                pgdir@,
                v,
            ) == kernel_map(v, data@ as int, phystop) by {
                if v >= first && v < first + size {
                    assert(translate(mem@, pgdir@, v) == Some(
                        mapping_entry(seg.start@ + v - first, seg.perm.bits() | PTE_P),
                    ));
                } else {
                    assert(translate(mem@, pgdir@, v) == translate(mem0, pgdir@, v));
                }
            }
            assert forall|v: int|
                is_page(v) && v >= segment_start(i as int + 1, data@ as int) implies #[trigger] translate(
                mem@,
                pgdir@,
                v,
            ) is None by {
                assert(translate(mem@, pgdir@, v) == translate(mem0, pgdir@, v));
            }
            assert forall|x: usize| #[trigger] is_table_page(mem@, pgdir@, x) implies old(
                k,
            ).free_list().contains(x) by {
                if !is_table_page(mem0, pgdir@, x) {
                    assert(k0.free_list().contains(x));
                }
            }
        }
        i = i + 1;
    }
    Some(pgdir)
}

/// The value to load into the page-table base register to run on
/// `pgdir`: the directory's physical address.
pub fn switchkvm(pgdir: vaddr_pg) -> (r: paddr_pg)
    ensures
        r@ == spec_v2p(pgdir@),
{
    v2p(pgdir)
}

/// Builds the kernel's page table and returns it with the value to load
/// into the page-table base register; `None` when pages run out.
pub fn kvmalloc(k: &mut Kmem, mem: &mut PhysMem, data: vaddr_pg) -> (r: Option<(vaddr_pg, paddr_pg)>)
    requires
        old(k).wf(),
        old(k).covers(old(mem)),
        KERNLINK < data@,
        data@ < KERNBASE + old(k).spec_phystop(),
        KERNBASE + old(k).spec_phystop() <= DEVSPACE,
        old(k).spec_phystop() as int % PGSIZE as int == 0,
    ensures
        final(k).wf(),
        final(k).covers(final(mem)),
        final(k).spec_kernel_end() == old(k).spec_kernel_end(),
        final(k).spec_phystop() == old(k).spec_phystop(),
        old(k).free_list().len() >= kernel_table_pages(old(k).spec_phystop() as int) ==> r is Some,
        old(k).free_list().len() == 0 ==> r is None,
        r matches Some((pgdir, cr3)) ==> {
            &&& pgdir_wf(final(k), final(mem), pgdir@)
            &&& cr3@ == spec_v2p(pgdir@)
            &&& forall|v: int|
                is_page(v) ==> #[trigger] translate(final(mem)@, pgdir@, v) == kernel_map(
                    v,
                    data@ as int,
                    old(k).spec_phystop() as int,
                )
            &&& final(k).free_list().is_prefix_of(old(k).free_list())
            &&& old(k).free_list().contains(pgdir@)
            &&& forall|x: usize| #[trigger]
                is_table_page(final(mem)@, pgdir@, x) ==> old(k).free_list().contains(x)
            &&& forall|x: usize| #[trigger]
                old(k).free_list().contains(x) ==> final(k).free_list().contains(x) || x == pgdir@
                    || is_table_page(final(mem)@, pgdir@, x)
        },
        r is None ==> final(k).free_list().to_set() == old(k).free_list().to_set(),
{
    match setupkvm(k, mem, data) {
        Some(pgdir) => Some((pgdir, switchkvm(pgdir))),
        None => None,
    }
}

/// Mapping a page twice is refused: once the pages covering
/// `[va1, va1 + size1)` are mapped, as `mappages` leaves them, a second
/// `mappages` over any range that overlaps them fails its requirement that
/// no page of its range be mapped, so it can never overwrite a mapping.
pub proof fn lemma_remap_refused(
    mem: Seq<Seq<u32>>,
    pgdir: usize,
    va1: int,
    size1: int,
    va2: int,
    size2: int,
)
    requires
        0 <= va1,
        0 < size1,
        va1 + size1 <= ADDRESS_SPACE,
        0 <= va2,
        0 < size2,
        va2 + size2 <= ADDRESS_SPACE,
        forall|v: int|
            is_page(v) && round_down(va1) <= v <= round_down(va1 + size1 - 1) ==> #[trigger] translate(
                mem,
                pgdir,
                v,
            ) is Some,
        va1 < va2 + size2,
        va2 < va1 + size1,
    ensures
        !unmapped(mem, pgdir, round_down(va2), round_down(va2 + size2 - 1) + PGSIZE),
{
    let lo1 = round_down(va1);
    let lo2 = round_down(va2);
    let v = if lo1 <= lo2 {
        lo2
    } else {
        lo1
    };
    vstd::arithmetic::div_mod::lemma_fundamental_div_mod(va1, PGSIZE as int);
    vstd::arithmetic::div_mod::lemma_fundamental_div_mod(va2, PGSIZE as int);
    vstd::arithmetic::div_mod::lemma_div_is_ordered(va1, va2 + size2 - 1, PGSIZE as int);
    vstd::arithmetic::div_mod::lemma_div_is_ordered(va2, va1 + size1 - 1, PGSIZE as int);
    vstd::arithmetic::div_mod::lemma_div_is_ordered(va1, va1 + size1 - 1, PGSIZE as int);
    vstd::arithmetic::div_mod::lemma_div_is_ordered(va2, va2 + size2 - 1, PGSIZE as int);
    vstd::arithmetic::div_mod::lemma_mod_multiples_basic(va1 / PGSIZE as int, PGSIZE as int);
    vstd::arithmetic::div_mod::lemma_mod_multiples_basic(va2 / PGSIZE as int, PGSIZE as int);
    assert(lo1 == (va1 / PGSIZE as int) * PGSIZE);
    assert(lo1 <= va1);
    assert(lo2 <= va2);
    assert((va1 / PGSIZE as int) <= (va2 + size2 - 1) / PGSIZE as int);
    assert((va2 / PGSIZE as int) <= (va1 + size1 - 1) / PGSIZE as int);
    assert(lo1 <= round_down(va2 + size2 - 1)) by (nonlinear_arith)
        requires
            lo1 == (va1 / PGSIZE as int) * PGSIZE,
            round_down(va2 + size2 - 1) == ((va2 + size2 - 1) / PGSIZE as int) * PGSIZE,
            (va1 / PGSIZE as int) <= (va2 + size2 - 1) / PGSIZE as int,
    ;
    assert(lo2 <= round_down(va1 + size1 - 1)) by (nonlinear_arith)
        requires
            lo2 == (va2 / PGSIZE as int) * PGSIZE,
            round_down(va1 + size1 - 1) == ((va1 + size1 - 1) / PGSIZE as int) * PGSIZE,
            (va2 / PGSIZE as int) <= (va1 + size1 - 1) / PGSIZE as int,
    ;
    assert(is_page(v));
    assert(translate(mem, pgdir, v) is Some);
}

} // verus!
