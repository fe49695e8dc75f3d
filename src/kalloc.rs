//! The physical page allocator.
//!
//! Free pages are kept on a last-in first-out list of their kernel virtual
//! addresses. Every unit is one page: there is no coalescing and no size
//! class. A freed page is filled with a poison byte, so that a stale
//! reference to it reads junk.

use vstd::prelude::*;

use crate::address::{lemma_wrap_small, spec_v2p, vaddr, vaddr_pg, KERNBASE};
use crate::memory::{
    fill_page, frame_index, page_byte, repeated_word, uniform_page, PhysMem,
};
use crate::mmu::{page_rounddown, page_roundup, round_down, round_up, PGSIZE};

verus! {

/// Top of physical memory on the machines this kernel boots on.
pub const PHYSTOP: usize = 0xE00_0000;

/// The byte that fills every freed page.
pub const POISON: u8 = 1;

/// The free list after one allocation: the most recently freed page leaves it.
pub open spec fn after_alloc(free: Seq<usize>) -> Seq<usize> {
    if free.len() == 0 {
        free
    } else {
        free.drop_last()
    }
}

/// The free list after `page` is freed: it becomes the next page handed out.
pub open spec fn after_free(free: Seq<usize>, page: usize) -> Seq<usize> {
    free.push(page)
}

/// The free list after a run of calls, where `None` is an allocation and
/// `Some(p)` frees page `p`.
pub open spec fn replay(free: Seq<usize>, ops: Seq<Option<usize>>) -> Seq<usize>
    decreases ops.len(),
{
    if ops.len() == 0 {
        free
    } else {
        let next = match ops[0] {
            None => after_alloc(free),
            Some(p) => after_free(free, p),
        };
        replay(next, ops.drop_first())
    }
}

/// How many allocations of a run hand out a page.
pub open spec fn pages_handed_out(free: Seq<usize>, ops: Seq<Option<usize>>) -> nat
    decreases ops.len(),
{
    if ops.len() == 0 {
        0
    } else {
        match ops[0] {
            None => (if free.len() > 0 {
                1nat
            } else {
                0nat
            }) + pages_handed_out(after_alloc(free), ops.drop_first()),
            Some(p) => pages_handed_out(after_free(free, p), ops.drop_first()),
        }
    }
}

/// How many calls of a run free a page.
pub open spec fn frees_in(ops: Seq<Option<usize>>) -> nat
    decreases ops.len(),
{
    if ops.len() == 0 {
        0
    } else {
        (if ops[0] is Some {
            1nat
        } else {
            0nat
        }) + frees_in(ops.drop_first())
    }
}

/// A run of `n` allocations.
pub open spec fn allocations(n: nat) -> Seq<Option<usize>> {
    Seq::new(n, |i: int| None)
}

/// The `n` consecutive pages from `start` on, in ascending order.
pub open spec fn page_run(start: int, n: nat) -> Seq<usize> {
    Seq::new(n, |i: int| (start + i * PGSIZE) as usize)
}

/// The allocator: its free list and the bounds of the memory it manages.
pub struct Kmem {
    freelist: Vec<usize>,
    kernel_end: usize,
    phystop: usize,
}

impl Kmem {
    /// The free pages; the last one is the next handed out.
    pub closed spec fn free_list(&self) -> Seq<usize> {
        self.freelist@
    }

    /// The first virtual address after the kernel image.
    pub closed spec fn spec_kernel_end(&self) -> usize {
        self.kernel_end
    }

    /// The physical memory ceiling.
    pub closed spec fn spec_phystop(&self) -> usize {
        self.phystop
    }

    /// Whether the page at kernel virtual address `va` is one this allocator manages:
    /// page-aligned, past the kernel image and below the ceiling.
    pub open spec fn manages(&self, va: usize) -> bool {
        &&& va as int % PGSIZE as int == 0
        &&& self.spec_kernel_end() <= va
        &&& va - KERNBASE < self.spec_phystop()
    }

    /// Whether `mem` is well formed and holds every page this allocator manages.
    pub open spec fn covers(&self, mem: &PhysMem) -> bool {
        &&& mem.wf()
        &&& self.spec_phystop() <= mem@.len() * PGSIZE
    }

    pub open spec fn wf(&self) -> bool {
        &&& KERNBASE <= self.spec_kernel_end()
        &&& self.spec_phystop() <= KERNBASE
        &&& forall|i: int|
            0 <= i < self.free_list().len() ==> #[trigger] self.manages(self.free_list()[i])
        &&& self.free_list().no_duplicates()
    }

    /// An allocator with no free page yet, for a kernel image that ends at
    /// `kernel_end` on a machine whose memory stops at physical `phystop`.
    pub fn new(kernel_end: vaddr, phystop: usize) -> (r: Kmem)
        requires
            KERNBASE <= kernel_end@,
            phystop <= KERNBASE,
        ensures
            r.wf(),
            r.free_list() == Seq::<usize>::empty(),
            r.spec_kernel_end() == kernel_end@,
            r.spec_phystop() == phystop,
    {
        Kmem { freelist: Vec::new(), kernel_end: kernel_end.as_raw(), phystop }
    }

    /// The first virtual address after the kernel image.
    pub fn kernel_end(&self) -> (r: vaddr)
        ensures
            r@ == self.spec_kernel_end(),
    {
        crate::address::vaddr_raw(self.kernel_end)
    }

    /// The physical memory ceiling.
    pub fn phystop(&self) -> (r: usize)
        ensures
            r == self.spec_phystop(),
    {
        self.phystop
    }

    /// How many pages are free.
    pub fn num_free(&self) -> (r: usize)
        ensures
            r == self.free_list().len(),
    {
        self.freelist.len()
    }
}

/// A managed page lies in memory, at physical address `va - KERNBASE`.
pub proof fn lemma_managed_frame(k: &Kmem, mem: &PhysMem, va: usize)
    requires
        k.wf(),
        k.covers(mem),
        k.manages(va),
    ensures
        spec_v2p(va) == va - KERNBASE,
        0 <= frame_index(spec_v2p(va)) < mem@.len(),
        frame_index(spec_v2p(va)) * PGSIZE + KERNBASE == va,
{
    lemma_wrap_small(va - KERNBASE);
    assert(KERNBASE as int % PGSIZE as int == 0);
}

/// Frees `page`: fills it with the poison byte and puts it at the head of
/// the free list.
pub fn kfree(k: &mut Kmem, mem: &mut PhysMem, page: vaddr_pg)
    requires
        old(k).wf(),
        old(k).covers(old(mem)),
        old(k).manages(page@),
        !old(k).free_list().contains(page@),
    ensures
        final(k).wf(),
        final(k).free_list() == after_free(old(k).free_list(), page@),
        final(k).spec_kernel_end() == old(k).spec_kernel_end(),
        final(k).spec_phystop() == old(k).spec_phystop(),
        final(k).covers(final(mem)),
        final(mem)@ == old(mem)@.update(
            frame_index(spec_v2p(page@)),
            uniform_page(repeated_word(POISON)),
        ),
        forall|i: int|
            0 <= i < PGSIZE ==> #[trigger] page_byte(final(mem)@[frame_index(spec_v2p(page@))], i)
                == POISON,
{
    proof {
        lemma_managed_frame(k, mem, page@);
    }
    fill_page(mem, page, POISON);
    k.freelist.push(page.as_raw());
    proof {
        assert forall|i: int| 0 <= i < k.free_list().len() implies #[trigger] k.manages(
            k.free_list()[i],
        ) by {
            if i < old(k).free_list().len() {
                assert(old(k).manages(old(k).free_list()[i]));
            }
        }
        assert forall|i: int, j: int|
            0 <= i < k.free_list().len() && 0 <= j < k.free_list().len() && i != j implies k.free_list()[i]
            != k.free_list()[j] by {
            if i < old(k).free_list().len() && j < old(k).free_list().len() {
            } else if i < old(k).free_list().len() {
                assert(old(k).free_list().contains(old(k).free_list()[i]));
            } else {
                assert(old(k).free_list().contains(old(k).free_list()[j]));
            }
        }
    }
}

/// Takes the page at the head of the free list, or `None` when no page is
/// free. Its contents are left as they were.
pub fn kalloc(k: &mut Kmem) -> (r: Option<vaddr_pg>)
    requires
        old(k).wf(),
    ensures
        final(k).wf(),
        final(k).free_list() == after_alloc(old(k).free_list()),
        final(k).spec_kernel_end() == old(k).spec_kernel_end(),
        final(k).spec_phystop() == old(k).spec_phystop(),
        r is None <==> old(k).free_list().len() == 0,
        r matches Some(p) ==> p@ == old(k).free_list().last() && old(k).manages(p@)
            && !final(k).free_list().contains(p@),
{
    match k.freelist.pop() {
        None => None,
        Some(x) => {
            proof {
                let n = old(k).free_list().len() as int;
                assert(old(k).manages(old(k).free_list()[n - 1]));
                assert(k.free_list() =~= old(k).free_list().drop_last());
                assert forall|i: int| 0 <= i < k.free_list().len() implies #[trigger] k.manages(
                    k.free_list()[i],
                ) by {
                    assert(old(k).manages(old(k).free_list()[i]));
                }
                assert forall|i: int| 0 <= i < k.free_list().len() implies k.free_list()[i] != x by {
                    assert(old(k).free_list()[i] == k.free_list()[i]);
                }
            }
            match vaddr_pg::from_raw(x) {
                Some(p) => Some(p),
                None => None,
            }
        },
    }
}

/// Frees every page from `start` up to `end`, lowest first.
fn freerange(k: &mut Kmem, mem: &mut PhysMem, start: vaddr_pg, end: vaddr_pg)
    requires
        old(k).wf(),
        old(k).covers(old(mem)),
        start@ < end@ ==> old(k).spec_kernel_end() <= start@,
        start@ < end@ ==> end@ - KERNBASE <= old(k).spec_phystop(),
        forall|i: int|
            0 <= i < old(k).free_list().len() ==> #[trigger] old(k).free_list()[i] < start@
                || old(k).free_list()[i] >= end@,
    ensures
        final(k).wf(),
        final(k).covers(final(mem)),
        final(k).spec_kernel_end() == old(k).spec_kernel_end(),
        final(k).spec_phystop() == old(k).spec_phystop(),
        final(k).free_list() == old(k).free_list() + page_run(
            start@ as int,
            (if start@ < end@ {
                (end@ - start@) / PGSIZE as int
            } else {
                0
            }) as nat,
        ),
        forall|f: int|
            0 <= f < old(mem)@.len() ==> #[trigger] final(mem)@[f] == (if start@ < end@
                && frame_index(spec_v2p(start@)) <= f < frame_index(spec_v2p(end@)) {
                uniform_page(repeated_word(POISON))
            } else {
                old(mem)@[f]
            }),
        final(mem)@.len() == old(mem)@.len(),
{
    let mut p = start;
    let ghost n_old = old(k).free_list().len();
    // Reading the raw bounds brings in that both are page-aligned.
    let _ = start.as_raw();
    let _ = end.as_raw();
    proof {
        if start@ < end@ {
            lemma_wrap_small(start@ - KERNBASE);
            lemma_wrap_small(end@ - KERNBASE);
        }
    }
    while p.as_raw() < end.as_raw()
        invariant
            k.wf(),
            k.covers(mem),
            k.spec_kernel_end() == old(k).spec_kernel_end(),
            k.spec_phystop() == old(k).spec_phystop(),
            start@ <= p@,
            start@ < end@ ==> p@ <= end@,
            start@ >= end@ ==> p@ == start@,
            p@ as int % PGSIZE as int == 0,
            start@ as int % PGSIZE as int == 0,
            end@ as int % PGSIZE as int == 0,
            start@ < end@ ==> old(k).spec_kernel_end() <= start@,
            start@ < end@ ==> end@ - KERNBASE <= old(k).spec_phystop(),
            n_old == old(k).free_list().len(),
            k.free_list() == old(k).free_list() + page_run(
                start@ as int,
                ((p@ - start@) / PGSIZE as int) as nat,
            ),
            forall|i: int|
                0 <= i < old(k).free_list().len() ==> #[trigger] old(k).free_list()[i] < start@
                    || old(k).free_list()[i] >= end@,
            mem@.len() == old(mem)@.len(),
            start@ < end@ ==> spec_v2p(start@) == start@ - KERNBASE,
            start@ < end@ ==> spec_v2p(end@) == end@ - KERNBASE,
            forall|f: int|
                0 <= f < old(mem)@.len() ==> #[trigger] mem@[f] == (if start@ < end@
                    && frame_index(spec_v2p(start@)) <= f < frame_index(spec_v2p(p@)) {
                    uniform_page(repeated_word(POISON))
                } else {
                    old(mem)@[f]
                }),
        decreases end@ - p@,
    {
        let ghost before = k.free_list();
        let ghost i_run = (p@ - start@) / PGSIZE as int;
        proof {
            assert(p@ + PGSIZE <= end@);
            assert forall|i: int| 0 <= i < before.len() implies before[i] != p@ by {
                if i < n_old {
                    assert(old(k).free_list()[i] == before[i]);
                } else {
                    let j = i - n_old;
                    assert(before[i] == page_run(start@ as int, i_run as nat)[j]);
                    assert(j * PGSIZE < i_run * PGSIZE) by (nonlinear_arith)
                        requires
                            0 <= j < i_run,
                    ;
                    assert(i_run * PGSIZE == p@ - start@) by (nonlinear_arith)
                        requires
                            i_run == (p@ - start@) / PGSIZE as int,
                            (p@ - start@) % PGSIZE as int == 0,
                    ;
                }
            }
            lemma_wrap_small(p@ - KERNBASE);
        }
        kfree(k, mem, p);
        p.increase(1);
        proof {
            lemma_wrap_small(p@ - PGSIZE + PGSIZE);
            let n_run = ((p@ - start@) / PGSIZE as int) as nat;
            assert(n_run == i_run + 1);
            assert(k.free_list() =~= old(k).free_list() + page_run(start@ as int, n_run)) by {
                assert(page_run(start@ as int, n_run) =~= page_run(
                    start@ as int,
                    i_run as nat,
                ).push((p@ - PGSIZE) as usize));
                assert(i_run * PGSIZE == p@ - PGSIZE - start@) by (nonlinear_arith)
                    requires
                        i_run == (p@ - PGSIZE - start@) / PGSIZE as int,
                        (p@ - PGSIZE - start@) % PGSIZE as int == 0,
                ;
            }
            lemma_wrap_small(p@ - KERNBASE);
            assert(frame_index(spec_v2p(p@)) == frame_index(spec_v2p((p@ - PGSIZE) as usize)) + 1);
        }
    }
    proof {
        if start@ < end@ {
            assert(p@ == end@);
        }
    }
}

/// Seeds the free list with every page from `start` rounded up to `end`
/// rounded down, lowest first, so that the highest is handed out first.
pub fn kinit1(k: &mut Kmem, mem: &mut PhysMem, start: vaddr, end: vaddr)
    requires
        old(k).wf(),
        old(k).covers(old(mem)),
        start@ + PGSIZE - 1 <= usize::MAX,
        round_up(start@ as int) < round_down(end@ as int) ==> old(k).spec_kernel_end() <= round_up(
            start@ as int,
        ),
        round_up(start@ as int) < round_down(end@ as int) ==> round_down(end@ as int) - KERNBASE
            <= old(k).spec_phystop(),
        forall|i: int|
            0 <= i < old(k).free_list().len() ==> #[trigger] old(k).free_list()[i] < round_up(
                start@ as int,
            ) || old(k).free_list()[i] >= round_down(end@ as int),
    ensures
        final(k).wf(),
        final(k).covers(final(mem)),
        final(k).spec_kernel_end() == old(k).spec_kernel_end(),
        final(k).spec_phystop() == old(k).spec_phystop(),
        final(k).free_list() == old(k).free_list() + page_run(
            round_up(start@ as int),
            (if round_up(start@ as int) < round_down(end@ as int) {
                (round_down(end@ as int) - round_up(start@ as int)) / PGSIZE as int
            } else {
                0
            }) as nat,
        ),
        final(mem)@.len() == old(mem)@.len(),
        forall|f: int|
            0 <= f < old(mem)@.len() ==> #[trigger] final(mem)@[f] == (if round_up(
                start@ as int,
            ) < round_down(end@ as int) && round_up(start@ as int) - KERNBASE <= f * PGSIZE
                < round_down(end@ as int) - KERNBASE {
                uniform_page(repeated_word(POISON))
            } else {
                old(mem)@[f]
            }),
{
    let lo = page_roundup(start);
    let hi = page_rounddown(end);
    freerange(k, mem, lo, hi);
    proof {
        if lo@ < hi@ {
            lemma_wrap_small(lo@ - KERNBASE);
            lemma_wrap_small(hi@ - KERNBASE);
            assert forall|f: int| 0 <= f < old(mem)@.len() implies #[trigger] mem@[f] == (if lo@
                < hi@ && lo@ - KERNBASE <= f * PGSIZE < hi@ - KERNBASE {
                uniform_page(repeated_word(POISON))
            } else {
                old(mem)@[f]
            }) by {
                let a = (lo@ - KERNBASE) / PGSIZE as int;
                let b = (hi@ - KERNBASE) / PGSIZE as int;
                assert(a * PGSIZE == lo@ - KERNBASE);
                assert(b * PGSIZE == hi@ - KERNBASE);
                assert((a <= f) == (a * PGSIZE <= f * PGSIZE)) by (nonlinear_arith);
                assert((f < b) == (f * PGSIZE < b * PGSIZE)) by (nonlinear_arith);
            }
        }
    }
}

/// Two allocations in a row, with no free between them, never hand out the
/// same page.
pub proof fn lemma_no_double_issue(k: &Kmem)
    requires
        k.wf(),
        k.free_list().len() >= 2,
    ensures
        k.free_list().last() != after_alloc(k.free_list()).last(),
{
    let s = k.free_list();
    assert(after_alloc(s).last() == s[s.len() - 2]);
}

/// Each step of a run moves the free list's length by one page per free and
/// one per page handed out.
proof fn lemma_replay_count(free: Seq<usize>, ops: Seq<Option<usize>>)
    ensures
        replay(free, ops).len() + pages_handed_out(free, ops) == free.len() + frees_in(ops),
    decreases ops.len(),
{
    if ops.len() > 0 {
        match ops[0] {
            None => lemma_replay_count(after_alloc(free), ops.drop_first()),
            Some(p) => lemma_replay_count(after_free(free, p), ops.drop_first()),
        }
    }
}

/// Pages are conserved: after a run of allocations and frees that takes back
/// as many pages as it hands out, the free list holds as many pages as
/// before, and `n` allocations, for any `n` at least that many, hand out
/// exactly that many pages.
pub proof fn lemma_allocator_conservation(free: Seq<usize>, ops: Seq<Option<usize>>, n: nat)
    requires
        pages_handed_out(free, ops) == frees_in(ops),
        n >= free.len(),
    ensures
        replay(free, ops).len() == free.len(),
        pages_handed_out(replay(free, ops), allocations(n)) == free.len(),
{
    lemma_replay_count(free, ops);
    lemma_drain(replay(free, ops), n);
}

/// Allocating until exhaustion hands out exactly the pages on the free list.
pub proof fn lemma_drain(free: Seq<usize>, n: nat)
    requires
        n >= free.len(),
    ensures
        pages_handed_out(free, allocations(n)) == free.len(),
        replay(free, allocations(n)).len() == 0,
    decreases n,
{
    if n > 0 {
        assert(allocations(n).drop_first() =~= allocations((n - 1) as nat));
        lemma_drain(after_alloc(free), (n - 1) as nat);
    }
}

} // verus!
