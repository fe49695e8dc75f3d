//! Console character handling.
#![allow(non_snake_case)]

use vstd::prelude::*;

verus! {

/// The console character that erases the one before it.
pub const BACKSPACE: u16 = 0x100;

/// The byte that Control-`x` produces.
pub fn C(x: u8) -> (r: u8)
    requires
        x >= 0x40,
    ensures
        r == x - 0x40,
{
    x - 0x40
}

/// The bytes sent down the serial line for console character `c`: a
/// backspace is sent as back, space, back, so that it erases.
pub fn uart_bytes(c: u16) -> (r: Vec<u8>)
    ensures
        c == BACKSPACE ==> r@ == seq![0x08u8, 0x20u8, 0x08u8],
        c != BACKSPACE ==> r@ == seq![c as u8],
{
    let mut r: Vec<u8> = Vec::new();
    if c == BACKSPACE {
        r.push(0x08);
        r.push(0x20);
        r.push(0x08);
        assert(r@ =~= seq![0x08u8, 0x20u8, 0x08u8]);
    } else {
        r.push(c as u8);
        assert(r@ =~= seq![c as u8]);
    }
    r
}

} // verus!
