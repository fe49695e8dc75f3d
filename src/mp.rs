//! Finding the multiprocessor floating pointer structure in a range of
//! memory read by the caller.

use vstd::prelude::*;

use crate::proc::{CPUArray, CPU, NCPU};

verus! {

/// Bytes in a floating pointer structure.
pub const MP_SIZE: usize = 16;

/// The sum of the bytes of `s`.
pub open spec fn byte_sum(s: Seq<u8>) -> nat
    decreases s.len(),
{
    if s.len() == 0 {
        0
    } else {
        byte_sum(s.drop_last()) + s.last() as nat
    }
}

/// Whether the 16 bytes at `off` form a floating pointer structure: they
/// start with `_MP_` and add up to zero.
pub open spec fn is_mp_at(s: Seq<u8>, off: int) -> bool {
    &&& 0 <= off
    &&& off + MP_SIZE <= s.len()
    &&& s[off] == 0x5F && s[off + 1] == 0x4D && s[off + 2] == 0x50 && s[off + 3] == 0x5F
    &&& byte_sum(s.subrange(off, off + MP_SIZE)) % 256 == 0
}

/// The sum of the bytes of `range`, modulo 256.
pub fn sum(range: &[u8]) -> (r: u8)
    ensures
        r == byte_sum(range@) % 256,
{
    let mut acc: u8 = 0;
    let mut i: usize = 0;
    while i < range.len()
        invariant
            i <= range@.len(),
            acc == byte_sum(range@.subrange(0, i as int)) % 256,
        decreases range@.len() - i,
    {
        proof {
            let s = range@.subrange(0, i as int + 1);
            assert(s.drop_last() =~= range@.subrange(0, i as int));
            vstd::arithmetic::div_mod::lemma_add_mod_noop(
                byte_sum(range@.subrange(0, i as int)) as int,
                range@[i as int] as int,
                256,
            );
        }
        acc = acc.wrapping_add(range[i]);
        i = i + 1;
    }
    proof {
        assert(range@.subrange(0, range@.len() as int) =~= range@);
    }
    acc
}

/// The offset of the first floating pointer structure among the 16-byte
/// records of `range`, if there is one.
pub fn mpsearch1(range: &[u8]) -> (r: Option<usize>)
    ensures
        r matches Some(off) ==> off % MP_SIZE == 0 && is_mp_at(range@, off as int) && forall|j: int|
            0 <= j < off && j % MP_SIZE as int == 0 ==> !#[trigger] is_mp_at(range@, j),
        r is None ==> forall|j: int|
            0 <= j && j % MP_SIZE as int == 0 ==> !#[trigger] is_mp_at(range@, j),
{
    let len = range.len();
    let n = len / MP_SIZE;
    let mut k: usize = 0;
    while k < n
        invariant
            len == range@.len(),
            n == range@.len() as int / MP_SIZE as int,
            k <= n,
            forall|j: int| 0 <= j < k * MP_SIZE && j % MP_SIZE as int == 0 ==> !#[trigger] is_mp_at(range@, j),
        decreases n - k,
    {
        assert((k + 1) * MP_SIZE <= len) by (nonlinear_arith)
            requires
                k < n,
                n == len as int / MP_SIZE as int,
        ;
        let off = k * MP_SIZE;
        let rec = &range[off..off + MP_SIZE];
        proof {
            assert(rec@ =~= range@.subrange(off as int, off + MP_SIZE));
        }
        if rec[0] == 0x5F && rec[1] == 0x4D && rec[2] == 0x50 && rec[3] == 0x5F && sum(rec) == 0 {
            return Some(off);
        }
        proof {
            assert forall|j: int|
                0 <= j < (k + 1) * MP_SIZE && j % MP_SIZE as int == 0 implies !#[trigger] is_mp_at(
                range@,
                j,
            ) by {
                if j >= k * MP_SIZE {
                    assert(j == off);
                }
            }
        }
        k = k + 1;
    }
    proof {
        assert forall|j: int| 0 <= j && j % MP_SIZE as int == 0 implies !#[trigger] is_mp_at(
            range@,
            j,
        ) by {
            if j >= n * MP_SIZE {
                assert(j + MP_SIZE > range@.len()) by (nonlinear_arith)
                    requires
                        j >= n * MP_SIZE,
                        n == range@.len() as int / MP_SIZE as int,
                ;
            }
        }
    }
    None
}

/// Bytes in the configuration table header; the entries follow it.
pub const MPCONF_SIZE: usize = 44;

/// Entry types of the configuration table and their sizes.
pub const MPPROC: u8 = 0x00;

pub const MPBUS: u8 = 0x01;

pub const MPIOAPIC: u8 = 0x02;

pub const MPIOINTR: u8 = 0x03;

pub const MPLINTR: u8 = 0x04;

pub const MPPROC_SIZE: usize = 20;

pub const MPIOAPIC_SIZE: usize = 8;

/// Why a configuration table is refused.
#[derive(Debug, Clone, Copy, PartialEq, Eq, Structural)]
pub enum MpError {
    /// Shorter than its header or than the length it gives.
    TooShort,
    /// Does not start with `PCMP`.
    BadSignature,
    /// Neither version 1 nor version 4.
    BadVersion,
    /// Its bytes do not add up to zero.
    BadChecksum,
    /// An entry of unknown type, or one that runs past the table.
    BadEntry,
}

/// The length a configuration table gives itself.
pub open spec fn conf_length(t: Seq<u8>) -> int {
    t[4] + 256 * t[5]
}

/// The error for table `t`, if its header is refused.
pub open spec fn conf_error(t: Seq<u8>) -> Option<MpError> {
    if t.len() < MPCONF_SIZE || t.len() < conf_length(t) || conf_length(t) < MPCONF_SIZE {
        Some(MpError::TooShort)
    } else if !(t[0] == 0x50 && t[1] == 0x43 && t[2] == 0x4D && t[3] == 0x50) {
        Some(MpError::BadSignature)
    } else if !(t[6] == 1 || t[6] == 4) {
        Some(MpError::BadVersion)
    } else if byte_sum(t.subrange(0, conf_length(t))) % 256 != 0 {
        Some(MpError::BadChecksum)
    } else {
        None
    }
}

/// Checks the header of configuration table `t`; returns the table's length.
pub fn mpconfig(t: &[u8]) -> (r: Result<usize, MpError>)
    ensures
        r matches Ok(n) ==> conf_error(t@) is None && n == conf_length(t@),
        r matches Err(e) ==> conf_error(t@) == Some(e),
{
    if t.len() < MPCONF_SIZE {
        return Err(MpError::TooShort);
    }
    let length = t[4] as usize + 256 * t[5] as usize;
    if t.len() < length || length < MPCONF_SIZE {
        return Err(MpError::TooShort);
    }
    if !(t[0] == 0x50 && t[1] == 0x43 && t[2] == 0x4D && t[3] == 0x50) {
        return Err(MpError::BadSignature);
    }
    if !(t[6] == 1 || t[6] == 4) {
        return Err(MpError::BadVersion);
    }
    let body = &t[0..length];
    proof {
        assert(body@ =~= t@.subrange(0, conf_length(t@)));
    }
    if sum(body) != 0 {
        return Err(MpError::BadChecksum);
    }
    Ok(length)
}

/// The bytes an entry of type `ty` takes, or zero for an unknown type.
pub open spec fn entry_size(ty: u8) -> int {
    if ty == MPPROC {
        MPPROC_SIZE as int
    } else if ty == MPBUS || ty == MPIOAPIC || ty == MPIOINTR || ty == MPLINTR {
        MPIOAPIC_SIZE as int
    } else {
        0
    }
}

/// What the entries from offset `p` up to `end` of `t` list, added to
/// `found`: the processors' local APIC ids in order and the last I/O APIC id.
/// `None` when an entry is of unknown type or runs past `end`.
pub open spec fn scan(t: Seq<u8>, p: int, end: int, found: (Seq<u8>, u8)) -> Option<(Seq<u8>, u8)>
    decreases end - p,
{
    if p >= end {
        Some(found)
    } else {
        let ty = t[p];
        let n = entry_size(ty);
        if n == 0 || p + n > end {
            None
        } else if ty == MPPROC {
            scan(t, p + n, end, (found.0.push(t[p + 1]), found.1))
        } else if ty == MPIOAPIC {
            scan(t, p + n, end, (found.0, t[p + 1]))
        } else {
            scan(t, p + n, end, found)
        }
    }
}

/// Whether a slot holds processor `id` with local APIC id `apicid`.
pub open spec fn slot_is(slot: Option<CPU>, id: int, apicid: u8) -> bool {
    match slot {
        Some(c) => c.id == id && c.apicid == apicid,
        None => false,
    }
}

/// What the configuration table found at boot says.
#[derive(Debug, Clone, Copy, PartialEq, Eq, Structural)]
pub struct MpInfo {
    /// Physical address of the local APIC.
    pub lapic: u32,
    /// Id of the I/O APIC, zero when none is listed.
    pub ioapicid: u8,
}

/// Reads the entries of configuration table `t`, whose header `mpconfig`
/// accepted: records each processor, up to `NCPU`, in `cpus`, and returns
/// the local APIC address and the I/O APIC id. `BadEntry` when an entry is
/// of unknown type or runs past the table; `cpus` may then hold the
/// processors listed before it.
pub fn mp_init(t: &[u8], cpus: &mut CPUArray) -> (r: Result<MpInfo, MpError>)
    requires
        conf_error(t@) is None,
        old(cpus).wf(),
        old(cpus).spec_len() == 0,
    ensures
        final(cpus).wf(),
        r is Ok <==> scan(t@, MPCONF_SIZE as int, conf_length(t@), (Seq::empty(), 0u8)) is Some,
        r matches Ok(info) ==> {
            let (ids, io) = scan(t@, MPCONF_SIZE as int, conf_length(t@), (Seq::empty(), 0u8))->0;
            &&& info.ioapicid == io
            &&& info.lapic == t@[36] + 256 * t@[37] + 65536 * t@[38] + 16777216 * t@[39]
            &&& final(cpus).spec_len() == if ids.len() < NCPU {
                ids.len()
            } else {
                NCPU as nat
            }
            &&& forall|i: int|
                0 <= i < final(cpus).spec_len() ==> slot_is(#[trigger] final(cpus).spec_cpus()[i], i, ids[i])
        },
{
    let length = t[4] as usize + 256 * t[5] as usize;
    let lapic = t[36] as u32 + 256 * t[37] as u32 + 65536 * t[38] as u32 + 16777216 * t[39] as u32;
    let mut ioapicid: u8 = 0;
    let mut p: usize = MPCONF_SIZE;
    let mut ncpu: usize = 0;
    let ghost mut ids: Seq<u8> = Seq::empty();
    while p < length
        invariant
            length == conf_length(t@),
            length <= t@.len(),
            MPCONF_SIZE <= p,
            cpus.wf(),
            ncpu == cpus.spec_len(),
            ncpu == if ids.len() < NCPU {
                ids.len()
            } else {
                NCPU as nat
            },
            forall|i: int| 0 <= i < ncpu ==> slot_is(#[trigger] cpus.spec_cpus()[i], i, ids[i]),
            scan(t@, MPCONF_SIZE as int, length as int, (Seq::empty(), 0u8)) == scan(
                t@,
                p as int,
                length as int,
                (ids, ioapicid),
            ),
        decreases length - p,
    {
        let ty = t[p];
        if ty == MPPROC {
            if p + MPPROC_SIZE > length {
                return Err(MpError::BadEntry);
            }
            let apicid = t[p + 1];
            if ncpu < NCPU {
                cpus.add(ncpu, apicid);
                ncpu = ncpu + 1;
            }
            proof {
                ids = ids.push(apicid);
            }
            p = p + MPPROC_SIZE;
        } else if ty == MPIOAPIC {
            if p + MPIOAPIC_SIZE > length {
                return Err(MpError::BadEntry);
            }
            ioapicid = t[p + 1];
            p = p + MPIOAPIC_SIZE;
        } else if ty == MPBUS || ty == MPIOINTR || ty == MPLINTR {
            if p + 8 > length {
                return Err(MpError::BadEntry);
            }
            p = p + 8;
        } else {
            return Err(MpError::BadEntry);
        }
    }
    Ok(MpInfo { lapic, ioapicid })
}

} // verus!
