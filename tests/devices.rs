use xv6_mm::ioapic::ioapic_enable;
use xv6_mm::mp::{mpsearch1, sum};
use xv6_mm::proc::{CPUArray, CPU, NCPU};

#[test]
fn cpu_starts_idle() {
    let c = CPU::new(3, 7);
    assert_eq!(c.cpuid(), 3);
    assert_eq!(c.apicid, 7);
    assert!(!c.started);
    assert_eq!(c.ncli, 0);
    assert_eq!(c.proc, 0);
    assert_eq!(c.ts.esp0, 0);
}

#[test]
fn cpu_table_records_in_order() {
    let mut t = CPUArray::new();
    assert_eq!(t.len(), 0);
    assert_eq!(t.slice().len(), NCPU);
    t.add(0, 10);
    t.add(1, 12);
    assert_eq!(t.len(), 2);
    assert_eq!(t.borrow(1).apicid, 12);
    assert_eq!(t.borrow(0).cpuid(), 0);
    assert!(t.slice()[2].is_none());
    assert_eq!(t.find(12), Some(1));
    assert_eq!(t.find(10), Some(0));
    assert_eq!(t.find(11), None);
}

#[test]
fn checksum_wraps() {
    assert_eq!(sum(&[]), 0);
    assert_eq!(sum(&[1, 2, 3]), 6);
    assert_eq!(sum(&[0xFF, 0x02]), 1);
    assert_eq!(sum(&[0x80, 0x80]), 0);
}

fn floating_pointer(valid: bool) -> [u8; 16] {
    let mut r = [0u8; 16];
    r[..4].copy_from_slice(b"_MP_");
    r[4] = 0x34;
    let s = r.iter().fold(0u8, |a, b| a.wrapping_add(*b));
    r[10] = 0u8.wrapping_sub(s);
    if !valid {
        r[11] = 1;
    }
    r
}

#[test]
fn floating_pointer_search() {
    let mut area = vec![0u8; 64];
    assert_eq!(mpsearch1(&area), None);
    area[32..48].copy_from_slice(&floating_pointer(false));
    assert_eq!(mpsearch1(&area), None);
    area[16..32].copy_from_slice(&floating_pointer(true));
    assert_eq!(mpsearch1(&area), Some(16));
    area[33..49].copy_from_slice(&floating_pointer(true));
    assert_eq!(mpsearch1(&area[..40]), Some(16));
    assert_eq!(mpsearch1(&area[..20]), None);
}

#[test]
fn interrupt_routing_writes() {
    let w = ioapic_enable(1, 0);
    assert_eq!(w, [(0x12, 33), (0x13, 0)]);
    let w = ioapic_enable(4, 2);
    assert_eq!(w, [(0x18, 36), (0x19, 2 << 24)]);
}

use xv6_mm::mp::{mp_init, mpconfig, MpError, MpInfo};

fn conf_table(entries: &[u8], version: u8) -> Vec<u8> {
    let mut t = vec![0u8; 44];
    t[..4].copy_from_slice(b"PCMP");
    let len = (44 + entries.len()) as u16;
    t[4] = (len & 0xFF) as u8;
    t[5] = (len >> 8) as u8;
    t[6] = version;
    t[36..40].copy_from_slice(&0xFEE0_0000u32.to_le_bytes());
    t.extend_from_slice(entries);
    let s = t.iter().fold(0u8, |a, b| a.wrapping_add(*b));
    t[7] = 0u8.wrapping_sub(s);
    t
}

fn proc_entry(apicid: u8) -> Vec<u8> {
    let mut e = vec![0u8; 20];
    e[1] = apicid;
    e
}

fn short_entry(ty: u8, id: u8) -> Vec<u8> {
    let mut e = vec![0u8; 8];
    e[0] = ty;
    e[1] = id;
    e
}

#[test]
fn configuration_header_checks() {
    let good = conf_table(&[], 4);
    assert_eq!(mpconfig(&good), Ok(44));
    assert_eq!(mpconfig(&good[..40]), Err(MpError::TooShort));
    let mut bad = good.clone();
    bad[0] = b'X';
    assert_eq!(mpconfig(&bad), Err(MpError::BadSignature));
    assert_eq!(mpconfig(&conf_table(&[], 2)), Err(MpError::BadVersion));
    let mut bad = good.clone();
    bad[20] = 1;
    assert_eq!(mpconfig(&bad), Err(MpError::BadChecksum));
}

#[test]
fn configuration_entries_record_processors() {
    let mut entries = Vec::new();
    entries.extend(proc_entry(0));
    entries.extend(short_entry(1, 0));
    entries.extend(proc_entry(1));
    entries.extend(short_entry(2, 9));
    entries.extend(short_entry(3, 0));
    let t = conf_table(&entries, 1);
    assert_eq!(mpconfig(&t), Ok(t.len()));
    let mut cpus = CPUArray::new();
    assert_eq!(mp_init(&t, &mut cpus), Ok(MpInfo { lapic: 0xFEE0_0000, ioapicid: 9 }));
    assert_eq!(cpus.len(), 2);
    assert_eq!(cpus.borrow(1).apicid, 1);
    assert_eq!(cpus.borrow(1).cpuid(), 1);
}

#[test]
fn configuration_keeps_at_most_ncpu_processors() {
    let mut entries = Vec::new();
    for id in 0..10u8 {
        entries.extend(proc_entry(id));
    }
    let t = conf_table(&entries, 4);
    let mut cpus = CPUArray::new();
    assert!(mp_init(&t, &mut cpus).is_ok());
    assert_eq!(cpus.len(), NCPU);
    assert_eq!(cpus.borrow(NCPU - 1).apicid, (NCPU - 1) as u8);
}

#[test]
fn configuration_with_unknown_entry_is_refused() {
    let mut entries = proc_entry(0);
    entries.extend(short_entry(7, 0));
    let t = conf_table(&entries, 4);
    let mut cpus = CPUArray::new();
    assert_eq!(mp_init(&t, &mut cpus), Err(MpError::BadEntry));
    let mut truncated = proc_entry(0);
    truncated.truncate(12);
    let t = conf_table(&truncated, 4);
    let mut cpus = CPUArray::new();
    assert_eq!(mp_init(&t, &mut cpus), Err(MpError::BadEntry));
}

use xv6_mm::elf::{elfhdr, proghdr, ELF_MAGIC};
use xv6_mm::file::FileType;
use xv6_mm::spinlock::SpinLock;

fn header(ident: [u8; 4]) -> elfhdr {
    let mut e_ident = [0u8; 16];
    e_ident[..4].copy_from_slice(&ident);
    elfhdr {
        e_ident,
        e_type: 2,
        e_machine: 3,
        e_version: 1,
        e_entry: 0x10_000C,
        e_phoff: 52,
        e_shoff: 0,
        e_flags: 0,
        e_ehsize: 52,
        e_phentsize: 32,
        e_phnum: 2,
        e_shent_size: 0,
        e_shnum: 0,
        e_shstrndx: 0,
    }
}

#[test]
fn elf_magic_is_recognised() {
    assert!(header(ELF_MAGIC).is_elf());
    assert!(!header(*b"\x7fELG").is_elf());
}

#[test]
fn segment_zero_fill() {
    let mut ph = proghdr {
        p_type: 1,
        p_offset: 0x1000,
        p_vaddr: 0x8010_0000,
        p_paddr: 0x10_0000,
        p_filesz: 0x500,
        p_memsz: 0x800,
        p_flags: 5,
        p_align: 0x1000,
    };
    assert_eq!(ph.zero_fill(), 0x300);
    ph.p_memsz = 0x500;
    assert_eq!(ph.zero_fill(), 0);
}

#[test]
fn locks_start_free() {
    let l = SpinLock::new();
    assert!(!l.locked);
    assert!(l.name.is_none());
    let named = SpinLock::with_name("kmem");
    assert_eq!(named.name, Some("kmem"));
    assert!(named.pcs.iter().all(|p| *p == 0));
}

#[test]
fn file_types_differ() {
    assert_ne!(FileType::FD_NONE, FileType::FD_PIPE);
    assert_eq!(FileType::FD_INODE, FileType::FD_INODE);
}

use xv6_mm::mmu::{GateDesc, SegDesc, KCODE, KDATA, TSS, UCODE, UDATA};
use xv6_mm::proc::seg_init;
use xv6_mm::traps::{tvinit, NIDT, T_SYSCALL};

#[test]
fn descriptor_table_gates() {
    let mut idt = vec![GateDesc::new(); NIDT];
    let vectors: Vec<u32> = (0..NIDT as u32).map(|i| 0x8010_0000 + 4 * i).collect();
    tvinit(&mut idt, &vectors);
    assert_eq!(idt[0].get_type(), 0xE);
    assert_eq!(idt[0].get_cs(), 8);
    assert_eq!(idt[0].get_dpl(), 0);
    assert_eq!(idt[0].get_p(), 1);
    assert_eq!(idt[T_SYSCALL].get_type(), 0xF);
    assert_eq!(idt[T_SYSCALL].get_dpl(), 3);
    assert_eq!(idt[255].get_offfset(), 0x8010 | (4 * 255));
}

#[test]
fn processor_segments() {
    let mut c = CPU::new(0, 0);
    seg_init(&mut c);
    let show = |d: SegDesc| format!("{:?}", d);
    assert_eq!(show(c.gdt[KCODE]), format!("SegDesc({})", 0x00CF_9A00_0000_FFFFu64));
    assert_eq!(show(c.gdt[KDATA]), format!("SegDesc({})", 0x00CF_9200_0000_FFFFu64));
    assert_eq!(show(c.gdt[UCODE]), format!("SegDesc({})", 0x00CF_FA00_0000_FFFFu64));
    assert_eq!(show(c.gdt[UDATA]), format!("SegDesc({})", 0x00CF_F200_0000_FFFFu64));
    assert_eq!(show(c.gdt[TSS]), "SegDesc(0)");
    assert_eq!(show(c.gdt[0]), "SegDesc(0)");
}

#[test]
fn processor_state_changes_in_place() {
    let mut t = CPUArray::new();
    t.add(0, 4);
    t.borrow_mut(0).started = true;
    seg_init(t.borrow_mut(0));
    assert!(t.borrow(0).started);
    assert_eq!(format!("{:?}", t.borrow(0).gdt[KCODE]), format!("SegDesc({})", 0x00CF_9A00_0000_FFFFu64));
}

use xv6_mm::console::{uart_bytes, BACKSPACE, C};

#[test]
fn console_characters() {
    assert_eq!(C(b'D'), 4);
    assert_eq!(C(b'@'), 0);
    assert_eq!(uart_bytes(BACKSPACE), vec![0x08, 0x20, 0x08]);
    assert_eq!(uart_bytes(b'a' as u16), vec![b'a']);
}
