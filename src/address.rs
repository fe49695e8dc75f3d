//! Addresses tagged with their address space and alignment class.
//!
//! The space (`Virtual` or `Physical`) and the class (`FreeAligned` or
//! `PageAligned`) are zero-sized type parameters: they cost nothing at run
//! time, and the only way across them is a named conversion.
#![allow(non_camel_case_types)]

use core::marker::PhantomData;
use vstd::arithmetic::div_mod::{lemma_add_mod_noop_right, lemma_mod_mod, lemma_sub_mod_noop_right};
use vstd::prelude::*;

use crate::mmu::PGSIZE;

verus! {

/// First kernel virtual address: physical address `p` is seen by the kernel at `p + KERNBASE`.
pub const KERNBASE: usize = 0x8000_0000;

/// The number of distinct machine words.
pub open spec fn word_modulus() -> int {
    usize::MAX as int + 1
}

/// `x` reduced to a machine word, as unsigned wrapping arithmetic reduces it.
pub open spec fn wrap(x: int) -> usize {
    (x % word_modulus()) as usize
}

/// The physical address behind kernel virtual address `v`.
pub open spec fn spec_v2p(v: usize) -> usize {
    wrap(v - KERNBASE)
}

/// The kernel virtual alias of physical address `p`.
pub open spec fn spec_p2v(p: usize) -> usize {
    wrap(p + KERNBASE)
}

/// The word is 32 or 64 bits wide, so a page divides the number of words.
proof fn lemma_page_divides_modulus()
    ensures
        word_modulus() % (PGSIZE as int) == 0,
        word_modulus() == (PGSIZE as int) * (word_modulus() / (PGSIZE as int)),
        word_modulus() / (PGSIZE as int) > 0,
{
    assert(usize::MAX == 0xffff_ffff || usize::MAX == 0xffff_ffff_ffff_ffff);
}

/// Wrapping keeps a value's remainder by any stride that divides the word modulus.
proof fn lemma_wrap_keeps_alignment(x: int, s: nat)
    requires
        s == 1 || s == PGSIZE as nat,
        x % (s as int) == 0,
    ensures
        (wrap(x) as nat) % s == 0,
{
    lemma_page_divides_modulus();
    let m = word_modulus();
    assert(0 <= x % m < m);
    if s == 1 {
        assert((wrap(x) as int) % 1 == 0);
    } else {
        let k = m / (PGSIZE as int);
        lemma_mod_mod(x, PGSIZE as int, k);
        assert(wrap(x) as int == x % m);
    }
}

/// Whole strides keep a value's remainder by the stride.
proof fn lemma_stride_steps(a: int, u: int, s: nat)
    requires
        s == 1 || s == PGSIZE as nat,
        a % (s as int) == 0,
    ensures
        (a + u * s) % (s as int) == 0,
        (a - u * s) % (s as int) == 0,
        0int % (s as int) == 0,
{
    vstd::arithmetic::div_mod::lemma_mod_multiples_vanish(u, a, s as int);
    vstd::arithmetic::div_mod::lemma_mod_multiples_vanish(-u, a, s as int);
    assert(a + u * s == s * u + a) by (nonlinear_arith);
    assert(a - u * s == s * (-u) + a) by (nonlinear_arith);
}

/// `a.wrapping_add(b)` is the wrapped sum.
proof fn lemma_wrapping_add(a: usize, b: usize, x: int)
    requires
        b == wrap(x),
    ensures
        vstd::wrapping::usize_specs::wrapping_add(a, b) == wrap(a + x),
{
    let m = word_modulus();
    lemma_add_mod_noop_right(a as int, x, m);
    assert(0 <= x % m < m);
    if a + b > usize::MAX {
        assert((a + b) % m == a + b - m) by {
            vstd::arithmetic::div_mod::lemma_mod_sub_multiples_vanish(a + b, m);
            vstd::arithmetic::div_mod::lemma_small_mod((a + b - m) as nat, m as nat);
        }
    } else {
        vstd::arithmetic::div_mod::lemma_small_mod((a + b) as nat, m as nat);
    }
}

/// `a.wrapping_sub(b)` is the wrapped difference.
proof fn lemma_wrapping_sub(a: usize, b: usize, x: int)
    requires
        b == wrap(x),
    ensures
        vstd::wrapping::usize_specs::wrapping_sub(a, b) == wrap(a - x),
{
    let m = word_modulus();
    lemma_sub_mod_noop_right(a as int, x, m);
    assert(0 <= x % m < m);
    if a - b < 0 {
        assert((a - b) % m == a - b + m) by {
            vstd::arithmetic::div_mod::lemma_mod_add_multiples_vanish(a - b, m);
            vstd::arithmetic::div_mod::lemma_small_mod((a - b + m) as nat, m as nat);
        }
    } else {
        vstd::arithmetic::div_mod::lemma_small_mod((a - b) as nat, m as nat);
    }
}

/// `a.wrapping_mul(b)` is the wrapped product.
proof fn lemma_wrapping_mul(a: usize, b: usize)
    ensures
        vstd::wrapping::usize_specs::wrapping_mul(a, b) == wrap(a * b),
{
    assert(0 <= a * b) by (nonlinear_arith);
}

/// Marker for the virtual address space.
#[derive(Debug, Copy, Clone, PartialEq, Eq, Structural)]
pub struct Virtual;

/// Marker for the physical address space.
#[derive(Debug, Copy, Clone, PartialEq, Eq, Structural)]
pub struct Physical;

/// Marker for addresses with no alignment constraint.
#[derive(Debug, Copy, Clone, PartialEq, Eq, Structural)]
pub struct FreeAligned;

/// Marker for addresses that are multiples of the page size.
#[derive(Debug, Copy, Clone, PartialEq, Eq, Structural)]
pub struct PageAligned;

/// An alignment class: the raw values it admits are the multiples of its stride.
pub trait Align {
    /// Bytes in one unit of this class.
    spec fn stride() -> nat;

    proof fn lemma_stride()
        ensures
            Self::stride() == 1 || Self::stride() == PGSIZE as nat,
    ;

    /// Whether `addr` belongs to this class.
    fn check(addr: &usize) -> (r: bool)
        ensures
            r == ((*addr as nat) % Self::stride() == 0),
    ;

    /// The stride of this class.
    fn bytes() -> (r: usize)
        ensures
            r as nat == Self::stride(),
    ;

    /// A short name of this class.
    fn display() -> &'static str;
}

impl Align for FreeAligned {
    open spec fn stride() -> nat {
        1
    }

    proof fn lemma_stride() {
    }

    fn check(addr: &usize) -> (r: bool) {
        true
    }

    fn bytes() -> (r: usize) {
        1
    }

    fn display() -> &'static str {
        "free"
    }
}

impl Align for PageAligned {
    open spec fn stride() -> nat {
        PGSIZE as nat
    }

    proof fn lemma_stride() {
    }

    fn check(addr: &usize) -> (r: bool) {
        *addr % PGSIZE == 0
    }

    fn bytes() -> (r: usize) {
        PGSIZE
    }

    fn display() -> &'static str {
        "page"
    }
}

/// A machine address in space `S`, whose raw value belongs to class `A`.
#[derive(Debug)]
pub struct Address<S, A: Align> {
    addr: usize,
    _phantom: PhantomData<(S, A)>,
}

impl<S, A: Align> Clone for Address<S, A> {
    fn clone(&self) -> (r: Self)
        ensures
            r@ == self@,
    {
        proof {
            use_type_invariant(self);
        }
        Address { addr: self.addr, _phantom: PhantomData }
    }
}

impl<S, A: Align> Copy for Address<S, A> {

}

impl<S, A: Align> View for Address<S, A> {
    type V = usize;

    closed spec fn view(&self) -> usize {
        self.addr
    }
}

impl<S, A: Align> Address<S, A> {
    #[verifier::type_invariant]
    spec fn aligned(self) -> bool {
        (self.addr as nat) % A::stride() == 0
    }

    /// The address zero.
    pub fn new() -> (r: Self)
        ensures
            r@ == 0,
    {
        proof {
            A::lemma_stride();
            lemma_stride_steps(0, 0, A::stride());
        }
        Address { addr: 0, _phantom: PhantomData }
    }

    /// The null address.
    pub fn null() -> (r: Self)
        ensures
            r@ == 0,
    {
        proof {
            A::lemma_stride();
            lemma_stride_steps(0, 0, A::stride());
        }
        Address { addr: 0, _phantom: PhantomData }
    }

    pub fn is_null(&self) -> (r: bool)
        ensures
            r == (self@ == 0),
    {
        self.addr == 0
    }

    /// The address with raw value `addr`, if `addr` belongs to class `A`.
    pub fn from_raw(addr: usize) -> (r: Option<Self>)
        ensures
            r is Some <==> (addr as nat) % A::stride() == 0,
            r matches Some(a) ==> a@ == addr,
    {
        if A::check(&addr) {
            Some(Address { addr, _phantom: PhantomData })
        } else {
            None
        }
    }

    /// Steps forward by `units` strides of the class, wrapping at the word size.
    pub fn increase(&mut self, units: usize)
        ensures
            final(self)@ == wrap(old(self)@ + units * A::stride()),
    {
        proof {
            use_type_invariant(&*self);
            A::lemma_stride();
        }
        let stride = A::bytes();
        let step = units.wrapping_mul(stride);
        proof {
            lemma_wrapping_mul(units, stride);
            lemma_wrapping_add(self.addr, step, units * stride);
            lemma_stride_steps(self.addr as int, units as int, A::stride());
            lemma_wrap_keeps_alignment(self.addr + units * stride, A::stride());
        }
        self.addr = self.addr.wrapping_add(step);
    }

    /// Steps back by `units` strides of the class, wrapping at the word size.
    pub fn decrease(&mut self, units: usize)
        ensures
            final(self)@ == wrap(old(self)@ - units * A::stride()),
    {
        proof {
            use_type_invariant(&*self);
            A::lemma_stride();
        }
        let stride = A::bytes();
        let step = units.wrapping_mul(stride);
        proof {
            lemma_wrapping_mul(units, stride);
            lemma_wrapping_sub(self.addr, step, units * stride);
            lemma_stride_steps(self.addr as int, units as int, A::stride());
            lemma_wrap_keeps_alignment(self.addr - units * stride, A::stride());
        }
        self.addr = self.addr.wrapping_sub(step);
    }

    /// Steps forward by `bytes` bytes; fails, leaving the address as it was,
    /// when the result would leave class `A`.
    pub fn increase_bytes(&mut self, bytes: usize) -> (r: Option<()>)
        ensures
            r is Some <==> (wrap(old(self)@ + bytes) as nat) % A::stride() == 0,
            r is Some ==> final(self)@ == wrap(old(self)@ + bytes),
            r is None ==> final(self)@ == old(self)@,
    {
        let moved = self.addr.wrapping_add(bytes);
        proof {
            lemma_wrapping_add(self.addr, bytes, bytes as int);
            vstd::arithmetic::div_mod::lemma_small_mod(bytes as nat, word_modulus() as nat);
        }
        if A::check(&moved) {
            self.addr = moved;
            Some(())
        } else {
            None
        }
    }

    /// Steps back by `bytes` bytes; fails, leaving the address as it was,
    /// when the result would leave class `A`.
    pub fn decrease_bytes(&mut self, bytes: usize) -> (r: Option<()>)
        ensures
            r is Some <==> (wrap(old(self)@ - bytes) as nat) % A::stride() == 0,
            r is Some ==> final(self)@ == wrap(old(self)@ - bytes),
            r is None ==> final(self)@ == old(self)@,
    {
        let moved = self.addr.wrapping_sub(bytes);
        proof {
            lemma_wrapping_sub(self.addr, bytes, bytes as int);
            vstd::arithmetic::div_mod::lemma_small_mod(bytes as nat, word_modulus() as nat);
        }
        if A::check(&moved) {
            self.addr = moved;
            Some(())
        } else {
            None
        }
    }

    /// The address `units` strides further on.
    pub fn next(&self, units: usize) -> (r: Self)
        ensures
            r@ == wrap(self@ + units * A::stride()),
    {
        proof {
            use_type_invariant(self);
        }
        let mut ret = Address { addr: self.addr, _phantom: PhantomData };
        ret.increase(units);
        ret
    }

    /// The address `units` strides back.
    pub fn prev(&self, units: usize) -> (r: Self)
        ensures
            r@ == wrap(self@ - units * A::stride()),
    {
        proof {
            use_type_invariant(self);
        }
        let mut ret = Address { addr: self.addr, _phantom: PhantomData };
        ret.decrease(units);
        ret
    }

    /// The address `bytes` bytes further on, if it stays in class `A`.
    pub fn next_bytes(&self, bytes: usize) -> (r: Option<Self>)
        ensures
            r is Some <==> (wrap(self@ + bytes) as nat) % A::stride() == 0,
            r matches Some(a) ==> a@ == wrap(self@ + bytes),
    {
        proof {
            use_type_invariant(self);
        }
        let mut ret = Address { addr: self.addr, _phantom: PhantomData };
        match ret.increase_bytes(bytes) {
            Some(()) => Some(ret),
            None => None,
        }
    }

    /// The address `bytes` bytes back, if it stays in class `A`.
    pub fn prev_bytes(&self, bytes: usize) -> (r: Option<Self>)
        ensures
            r is Some <==> (wrap(self@ - bytes) as nat) % A::stride() == 0,
            r matches Some(a) ==> a@ == wrap(self@ - bytes),
    {
        proof {
            use_type_invariant(self);
        }
        let mut ret = Address { addr: self.addr, _phantom: PhantomData };
        match ret.decrease_bytes(bytes) {
            Some(()) => Some(ret),
            None => None,
        }
    }

    /// The same address in class `B`, if its raw value belongs to `B`.
    pub fn check_aligned<B: Align>(self) -> (r: Option<Address<S, B>>)
        ensures
            r is Some <==> (self@ as nat) % B::stride() == 0,
            r matches Some(a) ==> a@ == self@,
    {
        Address::<S, B>::from_raw(self.addr)
    }

    /// The raw value, which is a multiple of the class's stride.
    pub fn as_raw(&self) -> (r: usize)
        ensures
            r == self@,
            (r as nat) % A::stride() == 0,
    {
        proof {
            use_type_invariant(self);
        }
        self.addr
    }
}

impl<S, A: Align, B: Align> PartialEq<Address<S, B>> for Address<S, A> {
    /// Addresses of one space are equal when their raw values are, whatever their classes.
    fn eq(&self, other: &Address<S, B>) -> (r: bool) {
        self.addr == other.addr
    }
}

impl<S, A: Align, B: Align> vstd::std_specs::cmp::PartialEqSpecImpl<Address<S, B>> for Address<S, A> {
    open spec fn obeys_eq_spec() -> bool {
        true
    }

    open spec fn eq_spec(&self, other: &Address<S, B>) -> bool {
        self@ == other@
    }
}

impl<S, A: Align, B: Align> PartialOrd<Address<S, B>> for Address<S, A> {
    /// Addresses of one space are ordered by their raw values, whatever their classes.
    fn partial_cmp(&self, other: &Address<S, B>) -> (r: Option<core::cmp::Ordering>) {
        if self.addr == other.addr {
            Some(core::cmp::Ordering::Equal)
        } else if self.addr < other.addr {
            Some(core::cmp::Ordering::Less)
        } else {
            Some(core::cmp::Ordering::Greater)
        }
    }
}

impl<S, A: Align, B: Align> vstd::std_specs::cmp::PartialOrdSpecImpl<Address<S, B>> for Address<S, A> {
    open spec fn obeys_partial_cmp_spec() -> bool {
        true
    }

    open spec fn partial_cmp_spec(&self, other: &Address<S, B>) -> Option<core::cmp::Ordering> {
        if self@ == other@ {
            Some(core::cmp::Ordering::Equal)
        } else if self@ < other@ {
            Some(core::cmp::Ordering::Less)
        } else {
            Some(core::cmp::Ordering::Greater)
        }
    }
}

/// Any value is a multiple of the kernel base's quotient by a stride.
proof fn lemma_kernbase_steps(a: int, s: nat)
    requires
        s == 1 || s == PGSIZE as nat,
        a % (s as int) == 0,
    ensures
        (a + KERNBASE) % (s as int) == 0,
        (a - KERNBASE) % (s as int) == 0,
{
    if s == 1 {
        lemma_stride_steps(a, KERNBASE as int, s);
    } else {
        assert(524288 * 4096 == KERNBASE);
        lemma_stride_steps(a, 524288, s);
    }
}

/// The physical address behind kernel virtual address `v`, in the same class.
pub fn v2p<A: Align>(v: Address<Virtual, A>) -> (r: Address<Physical, A>)
    ensures
        r@ == spec_v2p(v@),
{
    proof {
        use_type_invariant(&v);
        A::lemma_stride();
        lemma_wrapping_sub(v.addr, KERNBASE, KERNBASE as int);
        vstd::arithmetic::div_mod::lemma_small_mod(KERNBASE as nat, word_modulus() as nat);
        lemma_kernbase_steps(v.addr as int, A::stride());
        lemma_wrap_keeps_alignment(v.addr - KERNBASE, A::stride());
    }
    Address { addr: v.addr.wrapping_sub(KERNBASE), _phantom: PhantomData }
}

/// The kernel virtual alias of physical address `p`, in the same class.
pub fn p2v<A: Align>(p: Address<Physical, A>) -> (r: Address<Virtual, A>)
    ensures
        r@ == spec_p2v(p@),
{
    proof {
        use_type_invariant(&p);
        A::lemma_stride();
        lemma_wrapping_add(p.addr, KERNBASE, KERNBASE as int);
        vstd::arithmetic::div_mod::lemma_small_mod(KERNBASE as nat, word_modulus() as nat);
        lemma_kernbase_steps(p.addr as int, A::stride());
        lemma_wrap_keeps_alignment(p.addr + KERNBASE, A::stride());
    }
    Address { addr: p.addr.wrapping_add(KERNBASE), _phantom: PhantomData }
}

/// Virtual addresses with no alignment constraint.
pub type vaddr = Address<Virtual, FreeAligned>;

/// Physical addresses with no alignment constraint.
pub type paddr = Address<Physical, FreeAligned>;

/// Page-aligned virtual addresses.
pub type vaddr_pg = Address<Virtual, PageAligned>;

/// Page-aligned physical addresses.
pub type paddr_pg = Address<Physical, PageAligned>;

/// `v2p` on raw values.
pub fn v2p_raw(v: usize) -> (r: usize)
    ensures
        r == spec_v2p(v),
{
    v2p(vaddr_raw(v)).as_raw()
}

/// `p2v` on raw values.
pub fn p2v_raw(p: usize) -> (r: usize)
    ensures
        r == spec_p2v(p),
{
    p2v(paddr_raw(p)).as_raw()
}

/// The virtual address with raw value `a`.
pub fn vaddr_raw(a: usize) -> (r: vaddr)
    ensures
        r@ == a,
        r == spec_unconstrained::<Virtual>(a),
{
    match vaddr::from_raw(a) {
        Some(v) => v,
        None => {
            proof {
                vstd::arithmetic::div_mod::lemma_small_mod(0, 1);
            }
            vaddr::null()
        },
    }
}

/// The physical address with raw value `a`.
pub fn paddr_raw(a: usize) -> (r: paddr)
    ensures
        r@ == a,
{
    match paddr::from_raw(a) {
        Some(p) => p,
        None => paddr::null(),
    }
}

/// A page-aligned address seen with no alignment constraint.
pub fn unaligned<S>(a: Address<S, PageAligned>) -> (r: Address<S, FreeAligned>)
    ensures
        r@ == a@,
{
    Address { addr: a.as_raw(), _phantom: PhantomData }
}

/// Wrapping a summand first does not change a wrapped sum.
pub proof fn lemma_wrap_sum(a: int, x: int)
    ensures
        wrap(a + wrap(x)) == wrap(a + x),
        wrap(a - wrap(x)) == wrap(a - x),
{
    let m = word_modulus();
    lemma_add_mod_noop_right(a, x, m);
    lemma_sub_mod_noop_right(a, x, m);
    assert(0 <= x % m < m);
    assert(wrap(x) as int == x % m);
}

/// A value that already fits in a word is its own wrap.
pub proof fn lemma_wrap_small(x: int)
    requires
        0 <= x <= usize::MAX,
    ensures
        wrap(x) == x,
{
    vstd::arithmetic::div_mod::lemma_small_mod(x as nat, word_modulus() as nat);
}

/// The unconstrained address with raw value `a`.
pub closed spec fn spec_unconstrained<S>(a: usize) -> Address<S, FreeAligned> {
    Address { addr: a, _phantom: PhantomData }
}

/// Crossing to the kernel alias and back gives the address one started from,
/// from either space and in every class.
pub proof fn lemma_v2p_p2v_round_trip<A: Align>(p: Address<Physical, A>, v: Address<Virtual, A>)
    ensures
        spec_v2p(spec_p2v(p@)) == p@,
        spec_p2v(spec_v2p(v@)) == v@,
{
    let m = word_modulus();
    let k = KERNBASE as int;
    vstd::arithmetic::div_mod::lemma_small_mod(KERNBASE as nat, m as nat);
    vstd::arithmetic::div_mod::lemma_small_mod(p@ as nat, m as nat);
    vstd::arithmetic::div_mod::lemma_small_mod(v@ as nat, m as nat);
    vstd::arithmetic::div_mod::lemma_sub_mod_noop(p@ + k, k, m);
    vstd::arithmetic::div_mod::lemma_add_mod_noop(v@ - k, k, m);
    assert(0 <= (p@ + k) % m < m);
    assert(0 <= (v@ - k) % m < m);
}

} // verus!
