//! Physical memory as the kernel sees it: an array of page frames, each
//! frame 1024 little-endian 32-bit words.
//!
//! A frame whose words are all equal is held as that one word, so that a
//! machine with a few hundred megabytes costs little until its pages are
//! written word by word.

use vstd::prelude::*;

use crate::address::{paddr_pg, spec_v2p, v2p, vaddr_pg};
use crate::mmu::PGSIZE;

verus! {

/// Words in one page.
pub const PAGE_WORDS: usize = 1024;

/// The frame index of physical address `pa`.
pub open spec fn frame_index(pa: usize) -> int {
    pa as int / PGSIZE as int
}

/// The byte at offset `i` of a page whose words are `page`.
pub open spec fn page_byte(page: Seq<u32>, i: int) -> u8 {
    ((page[i / 4] >> ((8 * (i % 4)) as u32)) & 0xff) as u8
}

/// The word whose four bytes are all `b`.
pub open spec fn repeated_word(b: u8) -> u32 {
    (b as u32) | ((b as u32) << 8u32) | ((b as u32) << 16u32) | ((b as u32) << 24u32)
}

/// A page whose words are all `w`.
pub open spec fn uniform_page(w: u32) -> Seq<u32> {
    Seq::new(PAGE_WORDS as nat, |i: int| w)
}

/// Every byte of a page filled with `b` is `b`.
pub proof fn lemma_filled_page_bytes(b: u8)
    ensures
        forall|i: int| 0 <= i < PGSIZE ==> #[trigger] page_byte(uniform_page(repeated_word(b)), i) == b,
{
    let w = repeated_word(b);
    assert(((w >> 0u32) & 0xff) as u8 == b) by (bit_vector)
        requires
            w == (b as u32) | ((b as u32) << 8u32) | ((b as u32) << 16u32) | ((b as u32) << 24u32),
    ;
    assert(((w >> 8u32) & 0xff) as u8 == b) by (bit_vector)
        requires
            w == (b as u32) | ((b as u32) << 8u32) | ((b as u32) << 16u32) | ((b as u32) << 24u32),
    ;
    assert(((w >> 16u32) & 0xff) as u8 == b) by (bit_vector)
        requires
            w == (b as u32) | ((b as u32) << 8u32) | ((b as u32) << 16u32) | ((b as u32) << 24u32),
    ;
    assert(((w >> 24u32) & 0xff) as u8 == b) by (bit_vector)
        requires
            w == (b as u32) | ((b as u32) << 8u32) | ((b as u32) << 16u32) | ((b as u32) << 24u32),
    ;
    assert forall|i: int| 0 <= i < PGSIZE implies #[trigger] page_byte(
        uniform_page(repeated_word(b)),
        i,
    ) == b by {
        assert(0 <= i / 4 < 1024);
        let k = i % 4;
        assert(k == 0 || k == 1 || k == 2 || k == 3);
    }
}

/// The contents of one frame.
enum Frame {
    /// Every word holds this value.
    Uniform(u32),
    /// The words one by one.
    Words(Vec<u32>),
}

impl Frame {
    spec fn words(&self) -> Seq<u32> {
        match self {
            Frame::Uniform(w) => uniform_page(*w),
            Frame::Words(v) => v@,
        }
    }

    spec fn well_formed(&self) -> bool {
        match self {
            Frame::Uniform(_) => true,
            Frame::Words(v) => v@.len() == PAGE_WORDS,
        }
    }
}

/// Physical memory from address zero up, frame by frame.
pub struct PhysMem {
    frames: Vec<Frame>,
}

impl View for PhysMem {
    type V = Seq<Seq<u32>>;

    closed spec fn view(&self) -> Seq<Seq<u32>> {
        Seq::new(self.frames@.len(), |f: int| self.frames@[f].words())
    }
}

impl PhysMem {
    /// Every frame that is held word by word has exactly a page of words.
    pub closed spec fn wf(&self) -> bool {
        forall|f: int| 0 <= f < self.frames@.len() ==> #[trigger] self.frames@[f].well_formed()
    }

    /// Every page of well-formed memory has a page of words.
    pub proof fn lemma_page_len(&self)
        requires
            self.wf(),
        ensures
            forall|f: int| 0 <= f < self@.len() ==> (#[trigger] self@[f]).len() == PAGE_WORDS,
    {
        assert forall|f: int| 0 <= f < self@.len() implies (#[trigger] self@[f]).len() == PAGE_WORDS by {
            assert(self.frames@[f].well_formed());
        }
    }

    /// Memory of `n_frames` pages, all zero.
    pub fn new(n_frames: usize) -> (r: PhysMem)
        ensures
            r.wf(),
            r@.len() == n_frames,
            forall|f: int| 0 <= f < n_frames ==> #[trigger] r@[f] == uniform_page(0),
    {
        let mut frames: Vec<Frame> = Vec::new();
        let mut k: usize = 0;
        while k < n_frames
            invariant
                k <= n_frames,
                frames@.len() == k,
                forall|f: int| 0 <= f < k ==> #[trigger] frames@[f] == Frame::Uniform(0),
            decreases n_frames - k,
        {
            frames.push(Frame::Uniform(0));
            k = k + 1;
        }
        let r = PhysMem { frames };
        assert forall|f: int| 0 <= f < n_frames implies #[trigger] r@[f] == uniform_page(0) by {
            assert(r.frames@[f] == Frame::Uniform(0));
        }
        r
    }

    /// The number of frames.
    pub fn frame_count(&self) -> (r: usize)
        ensures
            r == self@.len(),
    {
        self.frames.len()
    }

    /// Word `i` of the page at `pa`.
    pub fn read(&self, pa: paddr_pg, i: usize) -> (r: u32)
        requires
            self.wf(),
            frame_index(pa@) < self@.len(),
            i < PAGE_WORDS,
        ensures
            r == self@[frame_index(pa@)][i as int],
    {
        let f = pa.as_raw() / PGSIZE;
        assert(self.frames@[f as int].well_formed());
        match &self.frames[f] {
            Frame::Uniform(w) => *w,
            Frame::Words(v) => v[i],
        }
    }

    /// Sets word `i` of the page at `pa` to `w`.
    pub fn write(&mut self, pa: paddr_pg, i: usize, w: u32)
        requires
            old(self).wf(),
            frame_index(pa@) < old(self)@.len(),
            i < PAGE_WORDS,
        ensures
            final(self).wf(),
            final(self)@ == old(self)@.update(
                frame_index(pa@),
                old(self)@[frame_index(pa@)].update(i as int, w),
            ),
    {
        let f = pa.as_raw() / PGSIZE;
        let fill = match &self.frames[f] {
            Frame::Uniform(u) => Some(*u),
            Frame::Words(_) => None,
        };
        match fill {
            Some(u) => {
                let mut v: Vec<u32> = Vec::new();
                let mut k: usize = 0;
                while k < PAGE_WORDS
                    invariant
                        k <= PAGE_WORDS,
                        v@ == uniform_page(u).take(k as int),
                    decreases PAGE_WORDS - k,
                {
                    v.push(u);
                    k = k + 1;
                    assert(v@ =~= uniform_page(u).take(k as int));
                }
                assert(v@ =~= uniform_page(u));
                v.set(i, w);
                self.frames.set(f, Frame::Words(v));
            },
            None => {
                assert(self.frames@[f as int].well_formed());
                match &mut self.frames[f] {
                    Frame::Words(v) => {
                        v.set(i, w);
                    },
                    Frame::Uniform(_) => {},
                }
            },
        }
        assert(self@ =~= old(self)@.update(
            frame_index(pa@),
            old(self)@[frame_index(pa@)].update(i as int, w),
        ));
    }

    /// Sets every word of the page at `pa` to `w`.
    pub fn fill(&mut self, pa: paddr_pg, w: u32)
        requires
            old(self).wf(),
            frame_index(pa@) < old(self)@.len(),
        ensures
            final(self).wf(),
            final(self)@ == old(self)@.update(frame_index(pa@), uniform_page(w)),
    {
        let f = pa.as_raw() / PGSIZE;
        self.frames.set(f, Frame::Uniform(w));
        assert(self@ =~= old(self)@.update(frame_index(pa@), uniform_page(w)));
    }
}

/// Fills every byte of the page at kernel virtual address `addr` with `byte`.
pub fn fill_page(mem: &mut PhysMem, addr: vaddr_pg, byte: u8)
    requires
        old(mem).wf(),
        frame_index(spec_v2p(addr@)) < old(mem)@.len(),
    ensures
        final(mem).wf(),
        final(mem)@ == old(mem)@.update(
            frame_index(spec_v2p(addr@)),
            uniform_page(repeated_word(byte)),
        ),
        forall|i: int|
            0 <= i < PGSIZE ==> #[trigger] page_byte(final(mem)@[frame_index(spec_v2p(addr@))], i)
                == byte,
{
    let b = byte as u32;
    let w = b | (b << 8u32) | (b << 16u32) | (b << 24u32);
    assert(w == repeated_word(byte));
    mem.fill(v2p(addr), w);
    proof {
        lemma_filled_page_bytes(byte);
        assert(mem@[frame_index(spec_v2p(addr@))] == uniform_page(repeated_word(byte)));
    }
}

} // verus!
