//! Kinds of open files.
#![allow(non_camel_case_types)]

use vstd::prelude::*;

verus! {

/// What an open file refers to.
#[derive(Debug, Copy, Clone, PartialEq, Eq, Structural)]
pub enum FileType {
    FD_NONE,
    FD_PIPE,
    FD_INODE,
}

} // verus!
