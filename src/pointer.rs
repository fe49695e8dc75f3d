//! Typed pointers to kernel virtual memory, stepped in units of the
//! pointee's size.

use core::marker::PhantomData;
use vstd::layout::size_of;
use vstd::prelude::*;

use crate::address::{lemma_wrap_sum, spec_unconstrained, vaddr, wrap, Address, Align, Virtual};

verus! {

/// A pointer to a `T` at a kernel virtual address.
#[derive(Debug)]
pub struct Ptr<T> {
    addr: vaddr,
    _phantom: PhantomData<T>,
}

impl<T> Clone for Ptr<T> {
    fn clone(&self) -> (r: Self)
        ensures
            r@ == self@,
    {
        Ptr { addr: self.addr, _phantom: PhantomData }
    }
}

impl<T> Copy for Ptr<T> {

}

impl<T> View for Ptr<T> {
    type V = usize;

    closed spec fn view(&self) -> usize {
        self.addr@
    }
}

impl<T> PartialEq for Ptr<T> {
    /// Pointers are equal when their addresses are.
    fn eq(&self, other: &Ptr<T>) -> (r: bool) {
        self.addr.as_raw() == other.addr.as_raw()
    }
}

impl<T> vstd::std_specs::cmp::PartialEqSpecImpl for Ptr<T> {
    open spec fn obeys_eq_spec() -> bool {
        true
    }

    open spec fn eq_spec(&self, other: &Ptr<T>) -> bool {
        self@ == other@
    }
}

impl<T, A: Align> From<Address<Virtual, A>> for Ptr<T> {
    /// The pointer at virtual address `a`.
    fn from(a: Address<Virtual, A>) -> (r: Ptr<T>) {
        Ptr { addr: crate::address::vaddr_raw(a.as_raw()), _phantom: PhantomData }
    }
}

impl<T, A: Align> vstd::std_specs::convert::FromSpecImpl<Address<Virtual, A>> for Ptr<T> {
    open spec fn obeys_from_spec() -> bool {
        true
    }

    closed spec fn from_spec(a: Address<Virtual, A>) -> Ptr<T> {
        Ptr { addr: spec_unconstrained::<Virtual>(a@), _phantom: PhantomData }
    }
}

impl<T> Ptr<T> {
    /// The null pointer.
    pub fn null() -> (r: Self)
        ensures
            r@ == 0,
    {
        Ptr { addr: vaddr::null(), _phantom: PhantomData }
    }

    pub fn is_null(&self) -> (r: bool)
        ensures
            r == (self@ == 0),
    {
        self.addr.is_null()
    }

    /// The same address, seen as a pointer to a `U`.
    pub fn cast<U>(&self) -> (r: Ptr<U>)
        ensures
            r@ == self@,
    {
        Ptr { addr: self.addr, _phantom: PhantomData }
    }

    /// The address pointed to.
    pub fn address(&self) -> (r: vaddr)
        ensures
            r@ == self@,
    {
        self.addr
    }

    /// Steps forward by `units` elements, wrapping at the word size.
    pub fn increase(&mut self, units: usize)
        ensures
            final(self)@ == wrap(old(self)@ + units * size_of::<T>()),
    {
        let sz = core::mem::size_of::<T>();
        let step = units.wrapping_mul(sz);
        proof {
            assert(0 <= units * sz) by (nonlinear_arith);
            lemma_wrap_sum(self@ as int, units * sz);
        }
        self.addr.increase(step);
    }

    /// Steps back by `units` elements, wrapping at the word size.
    pub fn decrease(&mut self, units: usize)
        ensures
            final(self)@ == wrap(old(self)@ - units * size_of::<T>()),
    {
        let sz = core::mem::size_of::<T>();
        let step = units.wrapping_mul(sz);
        proof {
            assert(0 <= units * sz) by (nonlinear_arith);
            lemma_wrap_sum(self@ as int, units * sz);
        }
        self.addr.decrease(step);
    }

    /// Steps forward by `bytes` bytes; a pointer has no alignment to lose,
    /// so this always succeeds.
    pub fn increase_bytes(&mut self, bytes: usize) -> (r: Option<()>)
        ensures
            r is Some,
            final(self)@ == wrap(old(self)@ + bytes),
    {
        self.addr.increase_bytes(bytes)
    }

    /// Steps back by `bytes` bytes; always succeeds.
    pub fn decrease_bytes(&mut self, bytes: usize) -> (r: Option<()>)
        ensures
            r is Some,
            final(self)@ == wrap(old(self)@ - bytes),
    {
        self.addr.decrease_bytes(bytes)
    }

    /// The pointer `units` elements further on.
    pub fn next(&self, units: usize) -> (r: Self)
        ensures
            r@ == wrap(self@ + units * size_of::<T>()),
    {
        let mut ret = Ptr { addr: self.addr, _phantom: PhantomData };
        ret.increase(units);
        ret
    }

    /// The pointer `units` elements back.
    pub fn prev(&self, units: usize) -> (r: Self)
        ensures
            r@ == wrap(self@ - units * size_of::<T>()),
    {
        let mut ret = Ptr { addr: self.addr, _phantom: PhantomData };
        ret.decrease(units);
        ret
    }

    /// The pointer `bytes` bytes further on.
    pub fn next_bytes(&self, bytes: usize) -> (r: Option<Self>)
        ensures
            r matches Some(p) && p@ == wrap(self@ + bytes),
    {
        let mut ret = Ptr { addr: self.addr, _phantom: PhantomData };
        match ret.increase_bytes(bytes) {
            Some(()) => Some(ret),
            None => None,
        }
    }

    /// The pointer `bytes` bytes back.
    pub fn prev_bytes(&self, bytes: usize) -> (r: Option<Self>)
        ensures
            r matches Some(p) && p@ == wrap(self@ - bytes),
    {
        let mut ret = Ptr { addr: self.addr, _phantom: PhantomData };
        match ret.decrease_bytes(bytes) {
            Some(()) => Some(ret),
            None => None,
        }
    }
}

} // verus!
