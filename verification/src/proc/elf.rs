//! The ELF64 loader's checks: a static, non-PIE x86-64 executable's header
//! and program headers are validated, in a fixed order, before anything is
//! mapped; each loadable segment must lie in the user range, must not be
//! both writable and executable, must not overlap another, and the entry
//! point must lie in an executable one.
use vstd::prelude::*;
use crate::mm::addr::{PhysAddr, VirtAddr};
use crate::mm::paging::{PageFlags, FLAG_USER, FLAG_WRITABLE, FLAG_NO_EXECUTE, FLAG_PRESENT, FLAG_HUGE, FLAGS_MASK};
use crate::mm::pmm::{Pmm, alloc_frame, frame_of};
use crate::mm::bitmap::free_count;
use crate::mm::vmm::{PhysMem, AddressSpace, PageSize, walk, owns_tables, pd_entry, lemma_all_used_no_free, lemma_free_count_decrements};
use crate::mm::vmm::tree::{tree_ok, unmapped_4k, lemma_frame, lemma_mapped_one_facts, mapped_one, is_link};
use crate::mm::vmm::range::lemma_pages_differ;
use crate::proc::usermem::USER_SPACE_CEILING;

verus! {

pub const ELFCLASS64: u8 = 2;
pub const ELFDATA2LSB: u8 = 1;
pub const EV_CURRENT: u8 = 1;
pub const ET_EXEC: u16 = 2;
pub const EM_X86_64: u16 = 0x3e;
pub const PT_LOAD: u32 = 1;
pub const PT_DYNAMIC: u32 = 2;
pub const PT_INTERP: u32 = 3;
pub const PT_TLS: u32 = 7;
pub const PF_X: u32 = 1;
pub const PF_W: u32 = 2;
/// Size of the ELF64 file header.
pub const EHDR_SIZE: usize = 64;
/// Size of one ELF64 program header.
pub const PHDR_SIZE: usize = 56;
/// Lowest address a segment may start at.
pub const SEGMENT_LOW: u64 = 0x40_0000;
/// Address no segment may reach past.
pub const SEGMENT_HIGH: u64 = 0x7000_0000_0000;

/// Why an executable was rejected.
#[derive(Debug, Clone, Copy, PartialEq, Eq, Structural)]
pub enum ElfError {
    TooShort,
    BadMagic,
    WrongClass,
    WrongEndian,
    WrongVersion,
    WrongMachine,
    WrongType,
    TruncatedProgramHeaders,
    SegmentOutOfRange,
    SegmentOverlap,
    WriteAndExecute,
    FilesizeExceedsMemsize,
    UnsupportedInterp,
    UnsupportedDynamic,
    UnsupportedTls,
    EntryNotExecutable,
    OutOfMemory,
}

/// A loaded executable: where it starts running.
#[derive(Debug, Clone, Copy, PartialEq, Eq, Structural)]
pub struct ElfImage {
    pub entry: u64,
}

/// One program header, with the page span its memory covers.
#[derive(Debug, Clone, Copy, PartialEq, Eq, Structural)]
pub struct ProgramHeader {
    pub p_type: u32,
    pub p_flags: u32,
    pub p_offset: u64,
    pub p_vaddr: u64,
    pub p_filesz: u64,
    pub p_memsz: u64,
    pub page_start: u64,
    pub page_end: u64,
}

/// The little-endian `u16` at `off`.
#[verifier::opaque]
pub open spec fn le16(d: Seq<u8>, off: int) -> u16 {
    (d[off] + d[off + 1] * 0x100) as u16
}

/// The little-endian `u32` at `off`.
#[verifier::opaque]
pub open spec fn le32(d: Seq<u8>, off: int) -> u32 {
    (d[off] + d[off + 1] * 0x100 + d[off + 2] * 0x1_0000 + d[off + 3] * 0x100_0000) as u32
}

/// The little-endian `u64` at `off`.
#[verifier::opaque]
pub open spec fn le64(d: Seq<u8>, off: int) -> u64 {
    (d[off] + d[off + 1] * 0x100 + d[off + 2] * 0x1_0000 + d[off + 3] * 0x100_0000
        + d[off + 4] * 0x1_0000_0000 + d[off + 5] * 0x100_0000_0000 + d[off + 6] * 0x1_0000_0000_0000
        + d[off + 7] * 0x100_0000_0000_0000) as u64
}

/// The little-endian `u16` at `off`, if two bytes are there.
pub fn u16_at(data: &[u8], off: usize) -> (r: Option<u16>)
    requires
        off + 2 <= usize::MAX,
    ensures
        off + 2 <= data@.len() ==> r == Some(le16(data@, off as int)),
        off + 2 > data@.len() ==> r.is_none(),
{
    reveal(le16);
    if off + 2 > data.len() {
        return None;
    }
    Some((data[off] as u16) + (data[off + 1] as u16) * 0x100)
}

/// The little-endian `u32` at `off`, if four bytes are there.
pub fn u32_at(data: &[u8], off: usize) -> (r: Option<u32>)
    requires
        off + 4 <= usize::MAX,
    ensures
        off + 4 <= data@.len() ==> r == Some(le32(data@, off as int)),
        off + 4 > data@.len() ==> r.is_none(),
{
    reveal(le32);
    if off + 4 > data.len() {
        return None;
    }
    Some((data[off] as u32) + (data[off + 1] as u32) * 0x100 + (data[off + 2] as u32) * 0x1_0000
        + (data[off + 3] as u32) * 0x100_0000)
}

/// The little-endian `u64` at `off`, if eight bytes are there.
pub fn u64_at(data: &[u8], off: usize) -> (r: Option<u64>)
    requires
        off + 8 <= usize::MAX,
    ensures
        off + 8 <= data@.len() ==> r == Some(le64(data@, off as int)),
        off + 8 > data@.len() ==> r.is_none(),
{
    reveal(le64);
    if off + 8 > data.len() {
        return None;
    }
    Some((data[off] as u64) + (data[off + 1] as u64) * 0x100 + (data[off + 2] as u64) * 0x1_0000
        + (data[off + 3] as u64) * 0x100_0000 + (data[off + 4] as u64) * 0x1_0000_0000
        + (data[off + 5] as u64) * 0x100_0000_0000 + (data[off + 6] as u64) * 0x1_0000_0000_0000
        + (data[off + 7] as u64) * 0x100_0000_0000_0000)
}

/// The first failing file-header check, in the order they're made.
pub open spec fn header_error(d: Seq<u8>) -> Option<ElfError> {
    if d.len() < EHDR_SIZE {
        Some(ElfError::TooShort)
    } else if !(d[0] == 0x7f && d[1] == 0x45 && d[2] == 0x4c && d[3] == 0x46) {
        Some(ElfError::BadMagic)
    } else if d[4] != ELFCLASS64 {
        Some(ElfError::WrongClass)
    } else if d[5] != ELFDATA2LSB {
        Some(ElfError::WrongEndian)
    } else if d[6] != EV_CURRENT {
        Some(ElfError::WrongVersion)
    } else if le16(d, 16) != ET_EXEC {
        Some(ElfError::WrongType)
    } else if le16(d, 18) != EM_X86_64 {
        Some(ElfError::WrongMachine)
    } else {
        None
    }
}

/// The file headers accepted are exactly those of 64-bit little-endian
/// x86-64 executables: at least 64 bytes, `\x7fELF`, class 2, data 1,
/// version 1, type 2 (`ET_EXEC`) and machine 0x3e, the last two as
/// little-endian 16-bit fields at offsets 16 and 18.
pub proof fn law_header_accepts_x86_64_executables(d: Seq<u8>)
    ensures
        header_error(d) is None <==> {
            &&& d.len() >= 64
            &&& d[0] == 0x7f && d[1] == 0x45 && d[2] == 0x4c && d[3] == 0x46
            &&& d[4] == 2 && d[5] == 1 && d[6] == 1
            &&& d[16] == 2 && d[17] == 0
            &&& d[18] == 0x3e && d[19] == 0
        },
        d.len() < 64 ==> header_error(d) == Some(ElfError::TooShort),
{
    reveal(le16);
    if d.len() >= 64 {
        let a = d[16];
        let b = d[17];
        let c = d[18];
        let e = d[19];
        assert(((a + b * 0x100) as u16 == 2) <==> (a == 2 && b == 0));
        assert(((c + e * 0x100) as u16 == 0x3e) <==> (c == 0x3e && e == 0));
    }
}

/// Every loadable segment of an accepted file is readable and never both
/// writable and executable, holds no more file bytes than memory bytes,
/// lies within the user window and inside the file; and the entry point
/// lies inside an executable one of them.
pub proof fn law_check_accepted_segments(d: Seq<u8>)
    ensures
        check_spec(d) matches Ok((entry, ls)) ==> {
            &&& header_error(d) is None
            &&& forall|j: int| 0 <= j < ls.len() ==> {
                let ph = #[trigger] ls[j];
                &&& ph.p_type == 1
                &&& !(ph.p_flags & 0x2 != 0 && ph.p_flags & 0x1 != 0)
                &&& ph.p_filesz <= ph.p_memsz
                &&& 0x40_0000 <= ph.p_vaddr
                &&& ph.p_vaddr + ph.p_memsz <= 0x7000_0000_0000
                &&& ph.p_offset + ph.p_filesz <= d.len()
            }
            &&& exists|j: int| 0 <= j < ls.len() && (#[trigger] ls[j]).p_flags & 0x1 != 0
                && ls[j].p_vaddr <= entry < ls[j].p_vaddr + ls[j].p_memsz
        },
{
    if let Ok((entry, ls)) = check_spec(d) {
        let hs = headers_spec(d).unwrap();
        lemma_loads_all_load(hs);
        lemma_segments_each(d, ls);
        let j = choose|i: int| 0 <= i < ls.len() && (#[trigger] ls[i]).p_flags & PF_X != 0
            && entry >= ls[i].p_vaddr && entry < sat_add(ls[i].p_vaddr, ls[i].p_memsz);
        assert(segment_error(d, ls[j]) is None);
    }
}

/// Every header `loads_of` keeps is a loadable one.
proof fn lemma_loads_all_load(hs: Seq<ProgramHeader>)
    ensures
        forall|j: int| 0 <= j < loads_of(hs).len() ==> (#[trigger] loads_of(hs)[j]).p_type == PT_LOAD,
    decreases hs.len(),
{
    if hs.len() > 0 {
        lemma_loads_all_load(hs.drop_last());
        let prev = loads_of(hs.drop_last());
        if hs.last().p_type == PT_LOAD {
            assert forall|j: int| 0 <= j < loads_of(hs).len() implies (#[trigger] loads_of(hs)[j]).p_type == PT_LOAD by {
                if j < prev.len() {
                    assert(loads_of(hs)[j] == prev[j]);
                }
            }
        }
    }
}

/// When no segment fails, each passes its own checks.
proof fn lemma_segments_each(d: Seq<u8>, ls: Seq<ProgramHeader>)
    ensures
        segments_error(d, ls) is None ==> forall|j: int| 0 <= j < ls.len() ==> segment_error(d, #[trigger] ls[j]) is None,
    decreases ls.len(),
{
    if ls.len() > 0 {
        lemma_segments_each(d, ls.drop_first());
        if segments_error(d, ls) is None {
            assert forall|j: int| 0 <= j < ls.len() implies segment_error(d, #[trigger] ls[j]) is None by {
                if j > 0 {
                    assert(ls[j] == ls.drop_first()[j - 1]);
                }
            }
        }
    }
}

/// Checks the ELF file header: size, magic, 64-bit class, little endian,
/// current version, executable type, x86-64 machine.
pub fn validate_header(data: &[u8]) -> (r: Result<(), ElfError>)
    ensures
        match header_error(data@) {
            Some(e) => r == Err::<(), ElfError>(e),
            None => r is Ok,
        },
{
    if data.len() < EHDR_SIZE {
        return Err(ElfError::TooShort);
    }
    if !(data[0] == 0x7f && data[1] == 0x45 && data[2] == 0x4c && data[3] == 0x46) {
        return Err(ElfError::BadMagic);
    }
    if data[4] != ELFCLASS64 {
        return Err(ElfError::WrongClass);
    }
    if data[5] != ELFDATA2LSB {
        return Err(ElfError::WrongEndian);
    }
    if data[6] != EV_CURRENT {
        return Err(ElfError::WrongVersion);
    }
    match u16_at(data, 16) {
        Some(t) => if t != ET_EXEC {
            return Err(ElfError::WrongType);
        },
        None => return Err(ElfError::TooShort),
    }
    match u16_at(data, 18) {
        Some(m) => if m != EM_X86_64 {
            return Err(ElfError::WrongMachine);
        },
        None => return Err(ElfError::TooShort),
    }
    Ok(())
}

/// The program header at `off` (whose 56 bytes are all inside `d`).
pub open spec fn phdr_spec(d: Seq<u8>, off: int) -> Result<ProgramHeader, ElfError> {
    let vaddr = le64(d, off + 16);
    let memsz = le64(d, off + 40);
    let seg_end = vaddr + memsz;
    let page_end = (seg_end + 4095) / 4096 * 4096;
    if seg_end > u64::MAX || page_end > u64::MAX {
        Err(ElfError::SegmentOutOfRange)
    } else {
        Ok(ProgramHeader {
            p_type: le32(d, off),
            p_flags: le32(d, off + 4),
            p_offset: le64(d, off + 8),
            p_vaddr: vaddr,
            p_filesz: le64(d, off + 32),
            p_memsz: memsz,
            page_start: (vaddr - vaddr % 4096) as u64,
            page_end: page_end as u64,
        })
    }
}

/// Rounding up to a whole page by adding what's missing.
proof fn lemma_round_up_page(x: int)
    requires
        x >= 0,
    ensures
        (if x % 4096 == 0 { x } else { x + (4096 - x % 4096) }) == (x + 4095) / 4096 * 4096,
{
    let q = x / 4096;
    let r = x % 4096;
    assert(x == q * 4096 + r);
    if r == 0 {
        assert((x + 4095) / 4096 == q);
    } else {
        assert((x + 4095) / 4096 == q + 1);
    }
}

/// Reads the program header at `off`; the only failure is a segment
/// whose end (or page-rounded end) overflows.
pub fn read_phdr(data: &[u8], off: usize) -> (r: Result<ProgramHeader, ElfError>)
    requires
        off + PHDR_SIZE <= data@.len(),
    ensures
        r == phdr_spec(data@, off as int),
{
    proof {
        assert(data@.len() == data.len());
    }
    let p_vaddr = u64_at(data, off + 16).unwrap();
    let p_memsz = u64_at(data, off + 40).unwrap();
    let page_start = p_vaddr & !0xfffu64;
    proof {
        assert(p_vaddr & !0xfffu64 == p_vaddr - p_vaddr % 4096) by (bit_vector);
    }
    let seg_end = match p_vaddr.checked_add(p_memsz) {
        Some(e) => e,
        None => return Err(ElfError::SegmentOutOfRange),
    };
    let rem = seg_end % 4096;
    let page_end = if rem == 0 {
        seg_end
    } else {
        match seg_end.checked_add(4096 - rem) {
            Some(e) => e,
            None => return Err(ElfError::SegmentOutOfRange),
        }
    };
    proof {
        lemma_round_up_page(seg_end as int);
    }
    Ok(ProgramHeader {
        p_type: u32_at(data, off).unwrap(),
        p_flags: u32_at(data, off + 4).unwrap(),
        p_offset: u64_at(data, off + 8).unwrap(),
        p_vaddr,
        p_filesz: u64_at(data, off + 32).unwrap(),
        p_memsz,
        page_start,
        page_end,
    })
}

/// The first failing check of one loadable segment.
pub open spec fn segment_error(d: Seq<u8>, ph: ProgramHeader) -> Option<ElfError> {
    if ph.p_filesz > ph.p_memsz {
        Some(ElfError::FilesizeExceedsMemsize)
    } else if ph.p_flags & PF_W != 0 && ph.p_flags & PF_X != 0 {
        Some(ElfError::WriteAndExecute)
    } else if ph.p_vaddr + ph.p_memsz > u64::MAX || ph.p_vaddr < SEGMENT_LOW || ph.p_vaddr + ph.p_memsz > SEGMENT_HIGH {
        Some(ElfError::SegmentOutOfRange)
    } else if ph.p_offset + ph.p_filesz > u64::MAX || ph.p_offset + ph.p_filesz > d.len() {
        Some(ElfError::SegmentOutOfRange)
    } else {
        None
    }
}

/// Checks one loadable segment: file size within memory size, not both
/// writable and executable, inside the user range, file bytes inside the
/// file.
pub fn validate_segment(data: &[u8], ph: &ProgramHeader) -> (r: Result<(), ElfError>)
    ensures
        match segment_error(data@, *ph) {
            Some(e) => r == Err::<(), ElfError>(e),
            None => r is Ok,
        },
{
    if ph.p_filesz > ph.p_memsz {
        return Err(ElfError::FilesizeExceedsMemsize);
    }
    if ph.p_flags & PF_W != 0 && ph.p_flags & PF_X != 0 {
        return Err(ElfError::WriteAndExecute);
    }
    let seg_end = match ph.p_vaddr.checked_add(ph.p_memsz) {
        Some(e) => e,
        None => return Err(ElfError::SegmentOutOfRange),
    };
    if ph.p_vaddr < SEGMENT_LOW || seg_end > SEGMENT_HIGH {
        return Err(ElfError::SegmentOutOfRange);
    }
    let file_end = match ph.p_offset.checked_add(ph.p_filesz) {
        Some(e) => e,
        None => return Err(ElfError::SegmentOutOfRange),
    };
    if file_end as u128 > data.len() as u128 {
        return Err(ElfError::SegmentOutOfRange);
    }
    Ok(())
}

/// Reading program headers `i..phnum` of the table at `phoff`.
pub open spec fn read_from(d: Seq<u8>, phoff: int, phentsize: int, phnum: int, i: int) -> Result<Seq<ProgramHeader>, ElfError>
    decreases phnum - i,
{
    if i >= phnum || i < 0 {
        Ok(Seq::empty())
    } else {
        let off = phoff + i * phentsize;
        if off > usize::MAX || off + PHDR_SIZE > usize::MAX || off + PHDR_SIZE > d.len() {
            Err(ElfError::TruncatedProgramHeaders)
        } else {
            match phdr_spec(d, off) {
                Err(e) => Err(e),
                Ok(ph) => match read_from(d, phoff, phentsize, phnum, i + 1) {
                    Err(e) => Err(e),
                    Ok(rest) => Ok(seq![ph] + rest),
                },
            }
        }
    }
}

/// The error the first interpreter, dynamic or TLS header raises, if any.
pub open spec fn type_error(hs: Seq<ProgramHeader>) -> Option<ElfError>
    decreases hs.len(),
{
    if hs.len() == 0 {
        None
    } else if hs[0].p_type == PT_INTERP {
        Some(ElfError::UnsupportedInterp)
    } else if hs[0].p_type == PT_DYNAMIC {
        Some(ElfError::UnsupportedDynamic)
    } else if hs[0].p_type == PT_TLS {
        Some(ElfError::UnsupportedTls)
    } else {
        type_error(hs.drop_first())
    }
}

/// The loadable headers, in order.
pub open spec fn loads_of(hs: Seq<ProgramHeader>) -> Seq<ProgramHeader>
    decreases hs.len(),
{
    if hs.len() == 0 {
        Seq::empty()
    } else if hs.last().p_type == PT_LOAD {
        loads_of(hs.drop_last()).push(hs.last())
    } else {
        loads_of(hs.drop_last())
    }
}

/// The error of the first loadable segment that fails its checks, if any.
pub open spec fn segments_error(d: Seq<u8>, ls: Seq<ProgramHeader>) -> Option<ElfError>
    decreases ls.len(),
{
    if ls.len() == 0 {
        None
    } else if segment_error(d, ls[0]) is Some {
        segment_error(d, ls[0])
    } else {
        segments_error(d, ls.drop_first())
    }
}

/// Two loadable segments' page spans overlap.
pub open spec fn any_overlap(ls: Seq<ProgramHeader>) -> bool {
    exists|i: int, j: int| 0 <= i < j < ls.len()
        && #[trigger] ls[i].page_start < #[trigger] ls[j].page_end && ls[j].page_start < ls[i].page_end
}

/// `a + b`, or `u64::MAX` if that overflows.
pub open spec fn sat_add(a: u64, b: u64) -> u64 {
    if a + b > u64::MAX { u64::MAX } else { (a + b) as u64 }
}

/// The entry point lies in an executable loadable segment.
pub open spec fn entry_ok(ls: Seq<ProgramHeader>, entry: u64) -> bool {
    exists|i: int| 0 <= i < ls.len() && (#[trigger] ls[i]).p_flags & PF_X != 0
        && entry >= ls[i].p_vaddr && entry < sat_add(ls[i].p_vaddr, ls[i].p_memsz)
}

/// `r` with `h` in front of its headers.
pub open spec fn prepend(h: Seq<ProgramHeader>, r: Result<Seq<ProgramHeader>, ElfError>) -> Result<Seq<ProgramHeader>, ElfError> {
    match r {
        Ok(x) => Ok(h + x),
        Err(e) => Err(e),
    }
}

/// The file's program headers, or the first check that fails on the way
/// to reading them: the file header, the table's bounds, each header.
pub open spec fn headers_spec(d: Seq<u8>) -> Result<Seq<ProgramHeader>, ElfError> {
    match header_error(d) {
        Some(e) => Err(e),
        None => {
            let phoff = le64(d, 32) as usize as int;
            let phentsize = le16(d, 54) as int;
            let phnum = le16(d, 56) as int;
            if phentsize < PHDR_SIZE {
                Err(ElfError::TruncatedProgramHeaders)
            } else if phnum * phentsize > usize::MAX || phoff + phnum * phentsize > usize::MAX
                || phoff + phnum * phentsize > d.len() {
                Err(ElfError::TruncatedProgramHeaders)
            } else {
                read_from(d, phoff, phentsize, phnum, 0)
            }
        },
    }
}

/// What `check` makes of file `d`: the entry point and the loadable
/// segments, or the first check that fails, in the order they're made.
pub open spec fn check_spec(d: Seq<u8>) -> Result<(u64, Seq<ProgramHeader>), ElfError> {
    match headers_spec(d) {
        Err(e) => Err(e),
        Ok(hs) => match type_error(hs) {
            Some(e) => Err(e),
            None => {
                let ls = loads_of(hs);
                let entry = le64(d, 24);
                match segments_error(d, ls) {
                    Some(e) => Err(e),
                    None => if any_overlap(ls) {
                        Err(ElfError::SegmentOverlap)
                    } else if !entry_ok(ls, entry) {
                        Err(ElfError::EntryNotExecutable)
                    } else {
                        Ok((entry, ls))
                    },
                }
            },
        },
    }
}

/// Runs every check `load` makes before mapping anything: the file header,
/// the program-header table's bounds, each program header, unsupported
/// header types, each loadable segment, overlaps, and the entry point.
/// Returns the entry point and the loadable segments, in file order.
#[verifier::spinoff_prover]
pub fn check(data: &[u8]) -> (r: Result<(u64, Vec<ProgramHeader>), ElfError>)
    ensures
        match check_spec(data@) {
            Ok((entry, ls)) => r matches Ok((e, v)) && e == entry && v@ == ls,
            Err(err) => r matches Err(e2) && e2 == err,
        },
{
    validate_header(data)?;
    proof {
        assert(data@.len() == data.len());
    }
    let entry = u64_at(data, 24).unwrap();
    let phoff = u64_at(data, 32).unwrap() as usize;
    let phentsize = u16_at(data, 54).unwrap() as usize;
    let phnum = u16_at(data, 56).unwrap() as usize;
    if phentsize < PHDR_SIZE {
        return Err(ElfError::TruncatedProgramHeaders);
    }
    let table_len = match phnum.checked_mul(phentsize) {
        Some(l) => l,
        None => return Err(ElfError::TruncatedProgramHeaders),
    };
    let table_end = match phoff.checked_add(table_len) {
        Some(e) => e,
        None => return Err(ElfError::TruncatedProgramHeaders),
    };
    if table_end > data.len() {
        return Err(ElfError::TruncatedProgramHeaders);
    }
    let ghost d = data@;
    let mut headers: Vec<ProgramHeader> = Vec::new();
    let mut i: usize = 0;
    proof {
        assert(headers_spec(d) == read_from(d, phoff as int, phentsize as int, phnum as int, 0));
        assert(Seq::<ProgramHeader>::empty() + Seq::<ProgramHeader>::empty() =~= Seq::<ProgramHeader>::empty());
        if let Ok(x) = read_from(d, phoff as int, phentsize as int, phnum as int, 0) {
            assert(Seq::<ProgramHeader>::empty() + x =~= x);
        }
    }
    while i < phnum
        invariant
            i <= phnum,
            d == data@,
            d.len() <= usize::MAX,
            phentsize >= PHDR_SIZE,
            phnum * phentsize <= usize::MAX,
            phoff + phnum * phentsize <= d.len(),
            headers_spec(d) == prepend(headers@, read_from(d, phoff as int, phentsize as int, phnum as int, i as int)),
        decreases phnum - i,
    {
        assert(i * phentsize + phentsize <= phnum * phentsize) by (nonlinear_arith)
            requires i < phnum, phentsize >= 0;
        let off = phoff + i * phentsize;
        let ph = match read_phdr(data, off) {
            Ok(ph) => ph,
            Err(e) => return Err(e),
        };
        proof {
            match read_from(d, phoff as int, phentsize as int, phnum as int, i + 1) {
                Ok(rest2) => {
                    assert(headers@.push(ph) + rest2 =~= headers@ + (seq![ph] + rest2));
                },
                Err(e) => {},
            }
        }
        headers.push(ph);
        i = i + 1;
    }
    let ghost hs = headers@;
    proof {
        assert(read_from(d, phoff as int, phentsize as int, phnum as int, phnum as int) == Ok::<Seq<ProgramHeader>, ElfError>(Seq::empty()));
        assert(hs + Seq::<ProgramHeader>::empty() =~= hs);
        assert(headers_spec(d) == Ok::<Seq<ProgramHeader>, ElfError>(hs));
        assert(hs.skip(0) =~= hs);
        assert(hs.take(0) =~= Seq::<ProgramHeader>::empty());
    }
    let mut loads: Vec<ProgramHeader> = Vec::new();
    let mut k: usize = 0;
    while k < headers.len()
        invariant
            k <= hs.len(),
            headers@ == hs,
            d == data@,
            headers_spec(d) == Ok::<Seq<ProgramHeader>, ElfError>(hs),
            entry == le64(d, 24),
            type_error(hs) == type_error(hs.skip(k as int)),
            loads@ == loads_of(hs.take(k as int)),
        decreases headers.len() - k,
    {
        let ph = headers[k];
        proof {
            assert(hs.skip(k as int).drop_first() =~= hs.skip(k + 1));
            assert(hs.skip(k as int)[0] == ph);
            assert(hs.take(k + 1).drop_last() =~= hs.take(k as int));
            assert(hs.take(k + 1).last() == ph);
        }
        if ph.p_type == PT_INTERP {
            return Err(ElfError::UnsupportedInterp);
        } else if ph.p_type == PT_DYNAMIC {
            return Err(ElfError::UnsupportedDynamic);
        } else if ph.p_type == PT_TLS {
            return Err(ElfError::UnsupportedTls);
        } else if ph.p_type == PT_LOAD {
            loads.push(ph);
        }
        k = k + 1;
    }
    let ghost ls = loads@;
    proof {
        assert(hs.take(hs.len() as int) =~= hs);
        assert(hs.skip(hs.len() as int) =~= Seq::<ProgramHeader>::empty());
        assert(ls.skip(0) =~= ls);
    }
    let mut k: usize = 0;
    while k < loads.len()
        invariant
            k <= ls.len(),
            loads@ == ls,
            segments_error(d, ls) == segments_error(d, ls.skip(k as int)),
            d == data@,
            headers_spec(d) == Ok::<Seq<ProgramHeader>, ElfError>(hs),
            type_error(hs).is_none(),
            ls == loads_of(hs),
            entry == le64(d, 24),
        decreases loads.len() - k,
    {
        proof {
            assert(ls.skip(k as int).drop_first() =~= ls.skip(k + 1));
            assert(ls.skip(k as int)[0] == ls[k as int]);
        }
        match validate_segment(data, &loads[k]) {
            Ok(()) => {},
            Err(e) => return Err(e),
        }
        k = k + 1;
    }
    proof {
        assert(ls.skip(ls.len() as int) =~= Seq::<ProgramHeader>::empty());
    }
    let mut a: usize = 0;
    while a < loads.len()
        invariant
            a <= ls.len(),
            loads@ == ls,
            forall|x: int, y: int| 0 <= x < a && x < y < ls.len()
                ==> !(#[trigger] ls[x].page_start < #[trigger] ls[y].page_end && ls[y].page_start < ls[x].page_end),
            d == data@,
            headers_spec(d) == Ok::<Seq<ProgramHeader>, ElfError>(hs),
            type_error(hs).is_none(),
            ls == loads_of(hs),
            segments_error(d, ls).is_none(),
            entry == le64(d, 24),
        decreases loads.len() - a,
    {
        let mut b: usize = a + 1;
        while b < loads.len()
            invariant
                a < ls.len(),
                a + 1 <= b <= ls.len(),
                loads@ == ls,
                forall|x: int, y: int| 0 <= x < a && x < y < ls.len()
                    ==> !(#[trigger] ls[x].page_start < #[trigger] ls[y].page_end && ls[y].page_start < ls[x].page_end),
                forall|y: int| a < y < b ==> !(ls[a as int].page_start < #[trigger] ls[y].page_end && ls[y].page_start < ls[a as int].page_end),
                d == data@,
                headers_spec(d) == Ok::<Seq<ProgramHeader>, ElfError>(hs),
                type_error(hs).is_none(),
                ls == loads_of(hs),
                segments_error(d, ls).is_none(),
                entry == le64(d, 24),
            decreases loads.len() - b,
        {
            if loads[a].page_start < loads[b].page_end && loads[b].page_start < loads[a].page_end {
                proof {
                    assert(any_overlap(ls)) by {
                        assert(ls[a as int].page_start < ls[b as int].page_end && ls[b as int].page_start < ls[a as int].page_end);
                    }
                }
                return Err(ElfError::SegmentOverlap);
            }
            b = b + 1;
        }
        a = a + 1;
    }
    proof {
        assert(!any_overlap(ls));
    }
    let mut found = false;
    let mut k: usize = 0;
    while k < loads.len()
        invariant
            k <= ls.len(),
            loads@ == ls,
            found == exists|x: int| 0 <= x < k && (#[trigger] ls[x]).p_flags & PF_X != 0
                && entry >= ls[x].p_vaddr && entry < sat_add(ls[x].p_vaddr, ls[x].p_memsz),
            d == data@,
            headers_spec(d) == Ok::<Seq<ProgramHeader>, ElfError>(hs),
            type_error(hs).is_none(),
            ls == loads_of(hs),
            segments_error(d, ls).is_none(),
            !any_overlap(ls),
            entry == le64(d, 24),
        decreases loads.len() - k,
    {
        let ph = loads[k];
        if ph.p_flags & PF_X != 0 && entry >= ph.p_vaddr && entry < ph.p_vaddr.saturating_add(ph.p_memsz) {
            found = true;
        }
        k = k + 1;
    }
    if !found {
        return Err(ElfError::EntryNotExecutable);
    }
    Ok((entry, loads))
}

/// Where one file byte range goes: `len` bytes from file offset `src_off`
/// into frame `frame` at byte `dst_off`.
#[derive(Debug, Clone, Copy, PartialEq, Eq, Structural)]
pub struct PageCopy {
    pub frame: PhysAddr,
    pub dst_off: usize,
    pub src_off: usize,
    pub len: usize,
}

/// The leaf flags a segment's pages get: user-accessible, writable if the
/// segment is, non-executable unless the segment is executable.
pub open spec fn segment_flags(p_flags: u32) -> u64 {
    FLAG_USER | (if p_flags & PF_W != 0 { FLAG_WRITABLE } else { 0 })
        | (if p_flags & PF_X == 0 { FLAG_NO_EXECUTE } else { 0 })
}

/// `v` is mapped as a 4 KiB page with the leaf flags of a segment with
/// flags `p_flags`.
pub open spec fn segment_page_mapped(m: Map<u64, Seq<u64>>, root: u64, v: u64, p_flags: u32) -> bool {
    walk(m, root, v) matches Some((p, f, s))
        && f == (segment_flags(p_flags) | FLAG_PRESENT) & FLAGS_MASK && s == PageSize::Normal
}

/// A page mapped for a segment gets its permissions from the segment's
/// ELF flags: present and user-accessible always, writable exactly when
/// the segment has `PF_W` (bit 1), no-execute exactly when it lacks
/// `PF_X` (bit 0).
pub proof fn law_segment_permissions(m: Map<u64, Seq<u64>>, root: u64, v: u64, p_flags: u32)
    requires
        segment_page_mapped(m, root, v, p_flags),
    ensures
        walk(m, root, v) matches Some((p, f, s)) && {
            &&& s == PageSize::Normal
            &&& f & 0x1 != 0
            &&& f & 0x4 != 0
            &&& (f & 0x2 != 0 <==> p_flags & 0x2 != 0)
            &&& (f & 0x8000_0000_0000_0000 != 0 <==> p_flags & 0x1 == 0)
        },
{
    let f = walk(m, root, v).unwrap().1;
    let w: u64 = if p_flags & PF_W != 0 { FLAG_WRITABLE } else { 0 };
    let nx: u64 = if p_flags & PF_X == 0 { FLAG_NO_EXECUTE } else { 0 };
    assert(segment_flags(p_flags) == FLAG_USER | w | nx);
    assert(f == (FLAG_USER | w | nx | FLAG_PRESENT) & FLAGS_MASK);
    assert({
        let g = (0x4u64 | w | nx | 0x1u64) & 0x8000_0000_0000_01ffu64;
        &&& g & 0x1 != 0
        &&& g & 0x4 != 0
        &&& (g & 0x2 != 0 <==> w != 0)
        &&& (g & 0x8000_0000_0000_0000 != 0 <==> nx != 0)
    }) by (bit_vector)
        requires
            w == 0 || w == 2,
            nx == 0 || nx == 0x8000_0000_0000_0000u64;
}

/// Page `v` lies in the span of segment `ph`.
pub open spec fn in_span(ph: ProgramHeader, v: int) -> bool {
    ph.page_start <= v < ph.page_end && v % 4096 == 0
}

/// Page `v` is one `load` maps at or after position (`si`, `cursor`):
/// later in segment `si`, or in a later segment.
pub open spec fn pending(ls: Seq<ProgramHeader>, si: int, cursor: int, v: int) -> bool {
    (0 <= si < ls.len() && in_span(ls[si], v) && v >= cursor)
        || exists|j: int| si < j < ls.len() && #[trigger] in_span(ls[j], v)
}

/// How many pages the spans of `ls` cover.
pub open spec fn span_pages(ls: Seq<ProgramHeader>) -> int
    decreases ls.len(),
{
    if ls.len() == 0 {
        0
    } else {
        (ls[0].page_end - ls[0].page_start) / 4096 + span_pages(ls.drop_first())
    }
}

/// The copy into page `page` of segment `ph`, if any file bytes land there.
pub open spec fn page_copy(ph: ProgramHeader, page: int) -> Option<(int, int, int)> {
    let fs = if page >= ph.p_vaddr { page } else { ph.p_vaddr as int };
    let fe = if page + 4096 <= ph.p_vaddr + ph.p_filesz { page + 4096 } else { ph.p_vaddr + ph.p_filesz };
    if fe > fs { Some((fs - page, fs - ph.p_vaddr + ph.p_offset, fe - fs)) } else { None }
}

/// The frame page `v` is mapped to (0 where it is not mapped).
pub open spec fn frame_at(m: Map<u64, Seq<u64>>, root: u64, v: u64) -> u64 {
    match walk(m, root, v) {
        Some((p, _, _)) => p,
        None => 0,
    }
}

/// The copy `load` records for page `v` of segment `ph` mapped to `frame`:
/// the file bytes that land in that page (see `page_copy`), if any.
pub open spec fn copy_for(ph: ProgramHeader, v: int, frame: u64) -> Option<PageCopy> {
    match page_copy(ph, v) {
        Some((d, s, l)) => Some(PageCopy { frame: PhysAddr(frame), dst_off: d as usize, src_off: s as usize, len: l as usize }),
        None => None,
    }
}

/// Page `i` of the span of segment `ph`.
pub open spec fn span_page(ph: ProgramHeader, i: int) -> u64 {
    (ph.page_start + i * 4096) as u64
}

/// How many pages the span of segment `ph` covers.
pub open spec fn span_len(ph: ProgramHeader) -> nat {
    ((ph.page_end - ph.page_start) / 4096) as nat
}

/// The copies for the first `n` pages of segment `ph`, in page order: one
/// for each page that gets file bytes, into the frame mapped there in `m`.
pub open spec fn segment_copies(ph: ProgramHeader, m: Map<u64, Seq<u64>>, root: u64, n: nat) -> Seq<PageCopy>
    decreases n,
{
    if n == 0 {
        Seq::empty()
    } else {
        let v = span_page(ph, n - 1);
        let rest = segment_copies(ph, m, root, (n - 1) as nat);
        match copy_for(ph, v as int, frame_at(m, root, v)) {
            Some(c) => rest.push(c),
            None => rest,
        }
    }
}

/// The copies for segments `0..si` of `ls`, segment by segment.
pub open spec fn load_copies(ls: Seq<ProgramHeader>, m: Map<u64, Seq<u64>>, root: u64, si: nat) -> Seq<PageCopy>
    decreases si,
{
    if si == 0 {
        Seq::empty()
    } else {
        load_copies(ls, m, root, (si - 1) as nat) + segment_copies(ls[si - 1], m, root, span_len(ls[si - 1]))
    }
}

/// A copy stays inside its page and inside the file, and is not empty.
pub open spec fn copy_in_bounds(c: PageCopy, dlen: int) -> bool {
    &&& c.len > 0
    &&& c.dst_off + c.len <= 4096
    &&& c.src_off + c.len <= dlen
}

/// The copy for a page of a checked segment is in bounds.
proof fn lemma_copy_bounds(ls: Seq<ProgramHeader>, dlen: int, j: int, v: int, f: u64)
    requires
        segments_ok(ls, dlen),
        0 <= dlen <= usize::MAX,
        0 <= j < ls.len(),
        in_span(ls[j], v),
        copy_for(ls[j], v, f) is Some,
    ensures
        copy_in_bounds(copy_for(ls[j], v, f)->0, dlen),
{
    let ph = ls[j];
    assert(ph.p_offset + ph.p_filesz <= dlen);
}

/// Every file byte of a checked segment has its copy: for the byte of
/// address `v` (within the segment's file bytes), the page holding `v` is
/// in the segment's span, and its copy puts, at `v`'s offset in the page,
/// the file byte at `p_offset + (v - p_vaddr)`. (`check` guarantees
/// `segments_ok` of what it passes: see `lemma_check_facts`.)
#[verifier::spinoff_prover]
pub proof fn law_file_byte_copied(dlen: int, ls: Seq<ProgramHeader>, j: int, v: int, f: u64)
    requires
        segments_ok(ls, dlen),
        dlen <= usize::MAX,
        0 <= j < ls.len(),
        ls[j].p_vaddr <= v < ls[j].p_vaddr + ls[j].p_filesz,
    ensures
        in_span(ls[j], v - v % 4096),
        copy_for(ls[j], v - v % 4096, f) matches Some(c) && {
            &&& c.frame == PhysAddr(f)
            &&& c.dst_off <= v % 4096 < c.dst_off + c.len
            &&& c.src_off + (v % 4096 - c.dst_off) == ls[j].p_offset + (v - ls[j].p_vaddr)
        },
{
    let ph = ls[j];
    assert(ph.p_vaddr + ph.p_filesz <= ph.page_end);
    assert(ph.p_offset + ph.p_filesz <= dlen);
    let p = v - v % 4096;
    let fs = if p >= ph.p_vaddr { p } else { ph.p_vaddr as int };
    let fe = if p + 4096 <= ph.p_vaddr + ph.p_filesz { p + 4096 } else { ph.p_vaddr + ph.p_filesz };
    assert(fs <= v < fe);
    assert(page_copy(ph, p) == Some((fs - p, fs - ph.p_vaddr + ph.p_offset, fe - fs)));
    assert(0 <= fs - p < 4096);
    assert(0 <= fs - ph.p_vaddr + ph.p_offset <= dlen);
    assert(0 < fe - fs <= 4096);
}

/// A segment's copies depend on the frames of its pages alone.
proof fn lemma_segment_copies_frames(ph: ProgramHeader, m: Map<u64, Seq<u64>>, m2: Map<u64, Seq<u64>>, root: u64, n: nat)
    requires
        forall|i: int| 0 <= i < n ==> #[trigger] frame_at(m2, root, span_page(ph, i)) == frame_at(m, root, span_page(ph, i)),
    ensures
        segment_copies(ph, m2, root, n) == segment_copies(ph, m, root, n),
    decreases n,
{
    if n > 0 {
        lemma_segment_copies_frames(ph, m, m2, root, (n - 1) as nat);
        assert(frame_at(m2, root, span_page(ph, n - 1)) == frame_at(m, root, span_page(ph, n - 1)));
    }
}

/// The copies of segments `0..si` depend on the frames of their pages alone.
pub proof fn lemma_load_copies_frames(ls: Seq<ProgramHeader>, m: Map<u64, Seq<u64>>, m2: Map<u64, Seq<u64>>, root: u64, si: nat)
    requires
        si <= ls.len(),
        forall|j: int, i: int| 0 <= j < si && 0 <= i < span_len(ls[j])
            ==> #[trigger] frame_at(m2, root, span_page(ls[j], i)) == frame_at(m, root, span_page(ls[j], i)),
    ensures
        load_copies(ls, m2, root, si) == load_copies(ls, m, root, si),
    decreases si,
{
    if si > 0 {
        lemma_load_copies_frames(ls, m, m2, root, (si - 1) as nat);
        let ph = ls[si - 1];
        assert forall|i: int| 0 <= i < span_len(ph) implies #[trigger] frame_at(m2, root, span_page(ph, i))
            == frame_at(m, root, span_page(ph, i)) by {
            assert(frame_at(m2, root, span_page(ls[si - 1], i)) == frame_at(m, root, span_page(ls[si - 1], i)));
        }
        lemma_segment_copies_frames(ph, m, m2, root, span_len(ph));
    }
}

/// Page `i` of a checked segment's span lies in that span.
pub proof fn lemma_span_page(ls: Seq<ProgramHeader>, dlen: int, j: int, i: int)
    requires
        segments_ok(ls, dlen),
        0 <= j < ls.len(),
        0 <= i < span_len(ls[j]),
    ensures
        in_span(ls[j], span_page(ls[j], i) as int),
        span_page(ls[j], i) == ls[j].page_start + i * 4096,
{
    let ph = ls[j];
    assert(ph.page_start <= ph.page_end);
    assert(ph.page_start + i * 4096 < ph.page_end) by (nonlinear_arith)
        requires i < (ph.page_end - ph.page_start) / 4096, ph.page_start <= ph.page_end, i >= 0;
}

/// Page `v` is mapped to a frame that was free in pool `g`.
pub open spec fn page_fresh(m: Map<u64, Seq<u64>>, root: u64, v: int, g: Seq<bool>) -> bool {
    &&& frame_at(m, root, v as u64) % 4096 == 0
    &&& frame_of(frame_at(m, root, v as u64)) < g.len()
    &&& !g[frame_of(frame_at(m, root, v as u64))]
}

/// After `load` maps page `page` of segment `si` to the fresh frame `f`
/// (tables `mk` becoming `m2`) and records its copy: the copies so far are
/// those of the pages up to and including `page`, and they all have fresh
/// frames.
proof fn lemma_load_page(ls: Seq<ProgramHeader>, dlen: int, mk: Map<u64, Seq<u64>>, lvk: Map<u64, nat>,
    m2: Map<u64, Seq<u64>>, lv2: Map<u64, nat>, root: u64, si: int, page: u64, n: nat,
    c0: Seq<PageCopy>, c1: Seq<PageCopy>, f: u64, gs: Seq<bool>)
    requires
        segments_ok(ls, dlen),
        0 <= si < ls.len(),
        in_span(ls[si], page as int),
        n == (page - ls[si].page_start) / 4096,
        mapped_one(mk, lvk, m2, lv2, root, page),
        pd_entry(m2, root, page) matches Some(e) && is_link(2, e),
        frame_at(m2, root, page) == f,
        f % 4096 == 0,
        frame_of(f) < gs.len(),
        !gs[frame_of(f)],
        c0 == load_copies(ls, mk, root, si as nat) + segment_copies(ls[si], mk, root, n),
        c1 == (match copy_for(ls[si], page as int, f) { Some(c) => c0.push(c), None => c0 }),
        forall|j: int, v: int| 0 <= j < si && #[trigger] in_span(ls[j], v) ==> page_fresh(mk, root, v, gs),
        forall|v: int| ls[si].page_start <= v < page && v % 4096 == 0 ==> #[trigger] page_fresh(mk, root, v, gs),
    ensures
        c1 == load_copies(ls, m2, root, si as nat) + segment_copies(ls[si], m2, root, n + 1),
        forall|j: int, v: int| 0 <= j < si && #[trigger] in_span(ls[j], v) ==> page_fresh(m2, root, v, gs),
        forall|v: int| ls[si].page_start <= v < page + 4096 && v % 4096 == 0 ==> #[trigger] page_fresh(m2, root, v, gs),
{
    let ph = ls[si];
    assert(span_page(ph, n as int) == page);
    assert forall|j: int, i: int| 0 <= j < si && 0 <= i < span_len(ls[j])
        implies #[trigger] frame_at(m2, root, span_page(ls[j], i)) == frame_at(mk, root, span_page(ls[j], i)) by {
        lemma_span_page(ls, dlen, j, i);
        let v = span_page(ls[j], i) as int;
        lemma_spans_disjoint(ls, dlen, j, si, v, page as int);
        lemma_frame(mk, lvk, m2, lv2, root, page, v as u64);
    }
    lemma_load_copies_frames(ls, mk, m2, root, si as nat);
    assert forall|i: int| 0 <= i < n implies #[trigger] frame_at(m2, root, span_page(ph, i))
        == frame_at(mk, root, span_page(ph, i)) by {
        let v = ph.page_start + i * 4096;
        assert(v < page);
        lemma_user_pages_differ(v, page as int);
        lemma_frame(mk, lvk, m2, lv2, root, page, v as u64);
    }
    lemma_segment_copies_frames(ph, mk, m2, root, n);
    assert(c1 =~= load_copies(ls, m2, root, si as nat) + segment_copies(ph, m2, root, n + 1));
    assert forall|j: int, v: int| 0 <= j < si && #[trigger] in_span(ls[j], v) implies page_fresh(m2, root, v, gs) by {
        lemma_spans_disjoint(ls, dlen, j, si, v, page as int);
        lemma_frame(mk, lvk, m2, lv2, root, page, v as u64);
    }
    assert forall|v: int| ph.page_start <= v < page + 4096 && v % 4096 == 0 implies #[trigger] page_fresh(m2, root, v, gs) by {
        if v < page {
            assert(page_fresh(mk, root, v, gs));
            lemma_user_pages_differ(v, page as int);
            lemma_frame(mk, lvk, m2, lv2, root, page, v as u64);
        } else {
            assert(v == page);
        }
    }
}

/// Checks `data` (see `check`) and maps every loadable segment's pages,
/// each to a fresh PMM frame, user-accessible, writable only if the
/// segment is, executable only if the segment is. Returns the entry point
/// and the file bytes to copy into the new frames, page by page in
/// segment order: into the frame mapped at each page, the file bytes that
/// land in that page. Each page gets a frame that was free before; the
/// caller hands them out zeroed, which covers each segment's bytes beyond
/// its file bytes.
#[verifier::spinoff_prover]
#[verifier::rlimit(100)]
pub fn load(space: AddressSpace, mem: &mut PhysMem, pmm: &mut Pmm, data: &[u8]) -> (r: Result<(ElfImage, Vec<PageCopy>), ElfError>)
    requires
        old(mem).wf(),
        old(pmm).wf(),
        owns_tables(old(pmm), old(mem)@),
        tree_ok(old(mem)@, old(mem).levels(), space.pml4.0),
        check_spec(data@) matches Ok((e, ls)) ==> forall|j: int, v: int| 0 <= j < ls.len() && #[trigger] in_span(ls[j], v)
            ==> unmapped_4k(old(mem)@, space.pml4.0, v as u64),
        check_spec(data@) matches Ok((e, ls)) ==> free_count(old(pmm).general()) >= 4 * span_pages(ls),
    ensures
        final(mem).wf(),
        final(pmm).wf(),
        owns_tables(final(pmm), final(mem)@),
        tree_ok(final(mem)@, final(mem).levels(), space.pml4.0),
        final(pmm).low() == old(pmm).low(),
        final(pmm).regions() == old(pmm).regions(),
        final(pmm).store() == old(pmm).store(),
        final(pmm).spec_low_reserved() == old(pmm).spec_low_reserved(),
        final(pmm).general().len() == old(pmm).general().len(),
        forall|v: u64| v % 4096 == 0 && SEGMENT_HIGH <= v < USER_SPACE_CEILING && unmapped_4k(old(mem)@, space.pml4.0, v)
            ==> #[trigger] unmapped_4k(final(mem)@, space.pml4.0, v),
        match check_spec(data@) {
            Err(e) => r matches Err(e2) && e2 == e && final(mem)@ == old(mem)@ && *final(pmm) == *old(pmm),
            Ok((entry, ls)) => r matches Ok((img, copies)) && {
                &&& img.entry == entry
                &&& free_count(final(pmm).general()) + 4 * span_pages(ls) >= free_count(old(pmm).general())
                &&& forall|j: int, v: int| 0 <= j < ls.len() && #[trigger] in_span(ls[j], v)
                    ==> segment_page_mapped(final(mem)@, space.pml4.0, v as u64, ls[j].p_flags)
                        && page_fresh(final(mem)@, space.pml4.0, v, old(pmm).general())
                &&& copies@ == load_copies(ls, final(mem)@, space.pml4.0, ls.len())
                &&& forall|k: int| 0 <= k < copies@.len() ==> copy_in_bounds(#[trigger] copies@[k], data@.len() as int)
            },
        },
{
    proof {
        assert(data@.len() == data.len());
    }
    let (entry, loads) = match check(data) {
        Ok(x) => x,
        Err(e) => return Err(e),
    };
    let ghost ls = loads@;
    let ghost m0 = mem@;
    let root = space.pml4.as_u64();
    let mut copies: Vec<PageCopy> = Vec::new();
    let mut si: usize = 0;
    proof {
        lemma_check_facts(data@, entry, ls);
        assert(ls.skip(0) =~= ls);
        assert forall|v: int| #[trigger] pending(ls, 0, 0, v) implies unmapped_4k(m0, root, v as u64) by {
            if ls.len() > 0 && in_span(ls[0], v) {
                assert(in_span(ls[0], v));
            } else {
                let j = choose|j: int| 0 < j < ls.len() && #[trigger] in_span(ls[j], v);
                assert(in_span(ls[j], v));
            }
            assert(unmapped_4k(m0, root, v as u64));
        }
    }
    while si < loads.len()
        invariant
            si <= ls.len(),
            loads@ == ls,
            root == space.pml4.0,
            check_spec(data@) == Ok::<(u64, Seq<ProgramHeader>), ElfError>((entry, ls)),
            segments_ok(ls, data@.len() as int),
            data@.len() <= usize::MAX,
            mem.wf(),
            pmm.wf(),
            owns_tables(pmm, mem@),
            tree_ok(mem@, mem.levels(), root),
            free_count(pmm.general()) >= 4 * span_pages(ls.skip(si as int)),
            free_count(pmm.general()) - 4 * span_pages(ls.skip(si as int)) >= free_count(old(pmm).general()) - 4 * span_pages(ls),
            pmm.low() == old(pmm).low(),
            pmm.regions() == old(pmm).regions(),
            pmm.store() == old(pmm).store(),
            pmm.spec_low_reserved() == old(pmm).spec_low_reserved(),
            pmm.general().len() == old(pmm).general().len(),
            forall|v: u64| v % 4096 == 0 && SEGMENT_HIGH <= v < USER_SPACE_CEILING && unmapped_4k(m0, root, v)
                ==> #[trigger] unmapped_4k(mem@, root, v),
            forall|j: int, v: int| 0 <= j < si && #[trigger] in_span(ls[j], v)
                ==> segment_page_mapped(mem@, root, v as u64, ls[j].p_flags),
            forall|v: int| #[trigger] pending(ls, si as int, 0, v) ==> unmapped_4k(mem@, root, v as u64),
            copies@ == load_copies(ls, mem@, root, si as nat),
            forall|k: int| 0 <= k < copies@.len() ==> copy_in_bounds(#[trigger] copies@[k], data@.len() as int),
            forall|j: int, v: int| 0 <= j < si && #[trigger] in_span(ls[j], v) ==> page_fresh(mem@, root, v, old(pmm).general()),
            forall|x: int| 0 <= x < old(pmm).general().len() && old(pmm).general()[x] ==> #[trigger] pmm.general()[x],
        decreases ls.len() - si,
    {
        let ph = loads[si];
        let w: u64 = if ph.p_flags & PF_W != 0 { FLAG_WRITABLE } else { 0 };
        let nx: u64 = if ph.p_flags & PF_X == 0 { FLAG_NO_EXECUTE } else { 0 };
        let flags = PageFlags(FLAG_USER | w | nx);
        proof {
            assert(flags.0 == segment_flags(ph.p_flags));
            lemma_segment_flags(ph.p_flags);
            lemma_span_pages_skip(ls, si as int);
            assert(ph.page_start <= ph.page_end);
            assert forall|v: int| #[trigger] pending(ls, si as int, ph.page_start as int, v) implies unmapped_4k(mem@, root, v as u64) by {
                assert(pending(ls, si as int, 0, v));
            }
            lemma_span_nonneg(ls, data@.len() as int, si + 1);
            assert(segment_copies(ph, mem@, root, 0) =~= Seq::<PageCopy>::empty());
            assert(copies@ =~= load_copies(ls, mem@, root, si as nat) + segment_copies(ph, mem@, root, 0));
        }
        let mut page = ph.page_start;
        while page < ph.page_end
            invariant
                si < ls.len(),
                loads@ == ls,
                ph == ls[si as int],
                root == space.pml4.0,
                flags.0 == segment_flags(ph.p_flags),
                flags.0 & FLAG_HUGE == 0,
                check_spec(data@) == Ok::<(u64, Seq<ProgramHeader>), ElfError>((entry, ls)),
                segments_ok(ls, data@.len() as int),
                data@.len() <= usize::MAX,
                span_pages(ls.skip(si + 1)) >= 0,
                ph.page_start <= page <= ph.page_end,
                page % 4096 == 0,
                mem.wf(),
                pmm.wf(),
                owns_tables(pmm, mem@),
                tree_ok(mem@, mem.levels(), root),
                free_count(pmm.general()) >= 4 * ((ph.page_end - page) / 4096 + span_pages(ls.skip(si + 1))),
                free_count(pmm.general()) - 4 * ((ph.page_end - page) / 4096 + span_pages(ls.skip(si + 1)))
                    >= free_count(old(pmm).general()) - 4 * span_pages(ls),
                span_pages(ls.skip(si as int)) == (ph.page_end - ph.page_start) / 4096 + span_pages(ls.skip(si + 1)),
                pmm.low() == old(pmm).low(),
                pmm.regions() == old(pmm).regions(),
                pmm.store() == old(pmm).store(),
                pmm.spec_low_reserved() == old(pmm).spec_low_reserved(),
                pmm.general().len() == old(pmm).general().len(),
                forall|v: u64| v % 4096 == 0 && SEGMENT_HIGH <= v < USER_SPACE_CEILING && unmapped_4k(m0, root, v)
                    ==> #[trigger] unmapped_4k(mem@, root, v),
                forall|j: int, v: int| 0 <= j < si && #[trigger] in_span(ls[j], v)
                    ==> segment_page_mapped(mem@, root, v as u64, ls[j].p_flags),
                forall|v: int| ph.page_start <= v < page && v % 4096 == 0
                    ==> #[trigger] segment_page_mapped(mem@, root, v as u64, ph.p_flags),
                forall|v: int| #[trigger] pending(ls, si as int, page as int, v) ==> unmapped_4k(mem@, root, v as u64),
                copies@ == load_copies(ls, mem@, root, si as nat)
                    + segment_copies(ph, mem@, root, ((page - ph.page_start) / 4096) as nat),
                forall|k: int| 0 <= k < copies@.len() ==> copy_in_bounds(#[trigger] copies@[k], data@.len() as int),
                forall|j: int, v: int| 0 <= j < si && #[trigger] in_span(ls[j], v) ==> page_fresh(mem@, root, v, old(pmm).general()),
                forall|v: int| ph.page_start <= v < page && v % 4096 == 0 ==> #[trigger] page_fresh(mem@, root, v, old(pmm).general()),
                forall|x: int| 0 <= x < old(pmm).general().len() && old(pmm).general()[x] ==> #[trigger] pmm.general()[x],
            decreases ph.page_end - page,
        {
            let ghost g0 = pmm.general();
            let ghost mk = mem@;
            let ghost lvk = mem.levels();
            proof {
                pmm.lemma_wf_facts();
                assert((ph.page_end - page) / 4096 >= 1);
            }
            let frame = match alloc_frame(pmm) {
                Some(p) => p,
                None => {
                    proof {
                        lemma_all_used_no_free(g0);
                    }
                    return Err(ElfError::OutOfMemory);
                },
            };
            proof {
                let f = frame_of(frame.0);
                lemma_free_count_decrements(g0, f);
                assert(frame.0 < 0x10_0000_0000_0000) by (nonlinear_arith)
                    requires f < g0.len(), g0.len() * 4096 <= 0x10_0000_0000_0000, frame.0 == f * 4096;
                assert forall|kk: u64| #[trigger] mem@.contains_key(kk) implies {
                    &&& kk % 4096 == 0
                    &&& pmm.low().len() <= kk / 4096 < pmm.general().len()
                    &&& pmm.general()[(kk / 4096) as int]
                } by {
                    assert(g0[(kk / 4096) as int]);
                }
                assert(pending(ls, si as int, page as int, page as int));
            }
            let file_start = if page >= ph.p_vaddr { page } else { ph.p_vaddr };
            let file_end_cap = ph.p_vaddr + ph.p_filesz;
            let file_end = if page + 4096 <= file_end_cap { page + 4096 } else { file_end_cap };
            let ghost c0 = copies@;
            let ghost n = ((page - ph.page_start) / 4096) as nat;
            proof {
                assert(ph.p_offset + ph.p_filesz <= data@.len());
                assert(span_page(ph, n as int) == page);
                if file_end > file_start {
                    assert(copy_for(ph, page as int, frame.0) is Some);
                    lemma_copy_bounds(ls, data@.len() as int, si as int, page as int, frame.0);
                } else {
                    assert(copy_for(ph, page as int, frame.0) is None);
                }
            }
            if file_end > file_start {
                copies.push(PageCopy {
                    frame,
                    dst_off: (file_start - page) as usize,
                    src_off: (file_start - ph.p_vaddr + ph.p_offset) as usize,
                    len: (file_end - file_start) as usize,
                });
                proof {
                    assert(copies@ == c0.push(copy_for(ph, page as int, frame.0)->0));
                }
            }
            let ghost g1 = pmm.general();
            space.map_4k(mem, pmm, VirtAddr::new(page), frame, flags);
            proof {
                assert forall|x: int| 0 <= x < old(pmm).general().len() && old(pmm).general()[x] implies #[trigger] pmm.general()[x] by {
                    assert(g0[x]);
                    assert(g1[x]);
                }
                assert(!old(pmm).general()[frame_of(frame.0)]) by {
                    assert(!g0[frame_of(frame.0)]);
                }
                lemma_load_page(ls, data@.len() as int, mk, lvk, mem@, mem.levels(), root, si as int, page, n,
                    c0, copies@, frame.0, old(pmm).general());
                assert(((page + 4096 - ph.page_start) / 4096) as nat == n + 1);
            }
            proof {
                lemma_mapped_one_facts(mk, lvk, mem@, mem.levels(), root, page);
                assert forall|j: int, v: int| 0 <= j < si && #[trigger] in_span(ls[j], v)
                    implies segment_page_mapped(mem@, root, v as u64, ls[j].p_flags) by {
                    assert(segment_page_mapped(mk, root, v as u64, ls[j].p_flags));
                    lemma_spans_disjoint(ls, data@.len() as int, j, si as int, v, page as int);
                    lemma_frame(mk, lvk, mem@, mem.levels(), root, page, v as u64);
                }
                assert forall|v: int| ph.page_start <= v < page + 4096 && v % 4096 == 0
                    implies #[trigger] segment_page_mapped(mem@, root, v as u64, ph.p_flags) by {
                    if v < page {
                        assert(segment_page_mapped(mk, root, v as u64, ph.p_flags));
                        lemma_user_pages_differ(v, page as int);
                        lemma_frame(mk, lvk, mem@, mem.levels(), root, page, v as u64);
                    } else {
                        assert(v == page);
                    }
                }
                assert forall|v: int| #[trigger] pending(ls, si as int, page + 4096, v) implies unmapped_4k(mem@, root, v as u64) by {
                    lemma_pending_other(ls, data@.len() as int, si as int, page as int, v);
                    assert(unmapped_4k(mk, root, v as u64));
                    lemma_frame(mk, lvk, mem@, mem.levels(), root, page, v as u64);
                }
                assert forall|v: u64| v % 4096 == 0 && SEGMENT_HIGH <= v < USER_SPACE_CEILING && unmapped_4k(m0, root, v)
                    implies #[trigger] unmapped_4k(mem@, root, v) by {
                    assert(unmapped_4k(mk, root, v));
                    lemma_pages_differ(page, v);
                    lemma_frame(mk, lvk, mem@, mem.levels(), root, page, v);
                }
            }
            page = page + 4096;
        }
        proof {
            assert forall|j: int, v: int| 0 <= j < si + 1 && #[trigger] in_span(ls[j], v)
                implies segment_page_mapped(mem@, root, v as u64, ls[j].p_flags) by {
                if j == si {
                    assert(segment_page_mapped(mem@, root, v as u64, ph.p_flags));
                }
            }
            assert forall|v: int| #[trigger] pending(ls, si + 1, 0, v) implies unmapped_4k(mem@, root, v as u64) by {
                lemma_pending_next(ls, si as int, page as int, v);
            }
            assert(((page - ph.page_start) / 4096) as nat == span_len(ph));
            assert(copies@ == load_copies(ls, mem@, root, (si + 1) as nat));
            assert forall|j: int, v: int| 0 <= j < si + 1 && #[trigger] in_span(ls[j], v)
                implies page_fresh(mem@, root, v, old(pmm).general()) by {
                if j == si {
                    assert(page_fresh(mem@, root, v, old(pmm).general()));
                }
            }
        }
        si = si + 1;
    }
    Ok((ElfImage { entry }, copies))
}

/// What a passing `check` guarantees of the loadable segments.
pub open spec fn segments_ok(ls: Seq<ProgramHeader>, dlen: int) -> bool {
    &&& forall|j: int| 0 <= j < ls.len() ==> {
        let ph = #[trigger] ls[j];
        &&& ph.page_start <= ph.page_end
        &&& ph.p_offset + ph.p_filesz <= dlen
        &&& ph.page_start % 4096 == 0
        &&& ph.page_end % 4096 == 0
        &&& SEGMENT_LOW <= ph.page_start
        &&& ph.page_end <= SEGMENT_HIGH
        &&& ph.p_vaddr + ph.p_filesz <= SEGMENT_HIGH
        &&& ph.p_vaddr >= ph.page_start
        &&& ph.p_vaddr + ph.p_filesz <= ph.page_end
    }
    &&& forall|i: int, j: int| 0 <= i < j < ls.len() ==> (#[trigger] ls[i]).page_end <= (#[trigger] ls[j]).page_start
        || ls[j].page_end <= ls[i].page_start
}

/// Every header `read_from` returns has its page span computed from its
/// address and memory size.
proof fn lemma_read_shape(d: Seq<u8>, phoff: int, phentsize: int, phnum: int, i: int)
    requires
        read_from(d, phoff, phentsize, phnum, i) is Ok,
    ensures
        forall|k: int| 0 <= k < read_from(d, phoff, phentsize, phnum, i).unwrap().len() ==> {
            let ph = #[trigger] read_from(d, phoff, phentsize, phnum, i).unwrap()[k];
            &&& ph.p_vaddr + ph.p_memsz <= u64::MAX
            &&& ph.page_start == ph.p_vaddr - ph.p_vaddr % 4096
            &&& ph.page_end == (ph.p_vaddr + ph.p_memsz + 4095) / 4096 * 4096
        },
    decreases phnum - i,
{
    if i < phnum && i >= 0 {
        lemma_read_shape(d, phoff, phentsize, phnum, i + 1);
    }
}

/// `loads_of` keeps only headers of `hs`.
proof fn lemma_loads_sub(hs: Seq<ProgramHeader>)
    ensures
        forall|k: int| 0 <= k < loads_of(hs).len() ==> hs.contains(#[trigger] loads_of(hs)[k]),
    decreases hs.len(),
{
    if hs.len() > 0 {
        lemma_loads_sub(hs.drop_last());
        assert forall|k: int| 0 <= k < loads_of(hs).len() implies hs.contains(#[trigger] loads_of(hs)[k]) by {
            if k < loads_of(hs.drop_last()).len() {
                assert(hs.drop_last().contains(loads_of(hs.drop_last())[k]));
                let w = choose|w: int| 0 <= w < hs.drop_last().len() && hs.drop_last()[w] == loads_of(hs.drop_last())[k];
                assert(hs[w] == hs.drop_last()[w]);
            } else {
                assert(hs[hs.len() - 1] == hs.last());
            }
        }
    }
}

/// No segment error means every segment passes.
proof fn lemma_segments_pass(d: Seq<u8>, ls: Seq<ProgramHeader>)
    requires
        segments_error(d, ls).is_none(),
    ensures
        forall|k: int| 0 <= k < ls.len() ==> segment_error(d, #[trigger] ls[k]).is_none(),
    decreases ls.len(),
{
    if ls.len() > 0 {
        lemma_segments_pass(d, ls.drop_first());
        assert forall|k: int| 0 <= k < ls.len() implies segment_error(d, #[trigger] ls[k]).is_none() by {
            if k > 0 {
                assert(ls[k] == ls.drop_first()[k - 1]);
            }
        }
    }
}

/// What a passing `check` guarantees of the loadable segments.
pub proof fn lemma_check_facts(d: Seq<u8>, entry: u64, ls: Seq<ProgramHeader>)
    requires
        check_spec(d) == Ok::<(u64, Seq<ProgramHeader>), ElfError>((entry, ls)),
    ensures
        segments_ok(ls, d.len() as int),
{
    let hs = headers_spec(d).unwrap();
    let phoff = le64(d, 32) as usize as int;
    let phentsize = le16(d, 54) as int;
    let phnum = le16(d, 56) as int;
    assert(hs == read_from(d, phoff, phentsize, phnum, 0).unwrap());
    lemma_read_shape(d, phoff, phentsize, phnum, 0);
    lemma_loads_sub(hs);
    lemma_segments_pass(d, ls);
    assert forall|j: int| 0 <= j < ls.len() implies {
        let ph = #[trigger] ls[j];
        &&& ph.page_start <= ph.page_end
        &&& ph.p_offset + ph.p_filesz <= d.len()
        &&& ph.page_start % 4096 == 0
        &&& ph.page_end % 4096 == 0
        &&& SEGMENT_LOW <= ph.page_start
        &&& ph.page_end <= SEGMENT_HIGH
        &&& ph.p_vaddr + ph.p_filesz <= SEGMENT_HIGH
        &&& ph.p_vaddr >= ph.page_start
        &&& ph.p_vaddr + ph.p_filesz <= ph.page_end
    } by {
        let ph = ls[j];
        assert(hs.contains(ph));
        let w = choose|w: int| 0 <= w < hs.len() && hs[w] == ph;
        assert(segment_error(d, ph).is_none());
        let x = ph.p_vaddr + ph.p_memsz;
        let q = x / 4096;
        assert((x + 4095) / 4096 * 4096 <= SEGMENT_HIGH) by {
            assert(x <= SEGMENT_HIGH);
            assert(x + 4095 <= SEGMENT_HIGH + 4095);
        }
        assert((x + 4095) / 4096 * 4096 >= x);
        assert(((x + 4095) / 4096 * 4096) % 4096 == 0);
    }
    assert forall|i: int, j: int| 0 <= i < j < ls.len() implies (#[trigger] ls[i]).page_end <= (#[trigger] ls[j]).page_start
        || ls[j].page_end <= ls[i].page_start by {
        if !(ls[i].page_end <= ls[j].page_start || ls[j].page_end <= ls[i].page_start) {
            assert(ls[i].page_start < ls[j].page_end && ls[j].page_start < ls[i].page_end);
            assert(any_overlap(ls));
        }
    }
}

/// A segment's leaf flags never carry the 2 MiB bit.
proof fn lemma_segment_flags(p: u32)
    ensures
        segment_flags(p) & FLAG_HUGE == 0,
{
    assert((0x4u64 | 0x2u64 | 0x8000_0000_0000_0000u64) & 0x80 == 0
        && (0x4u64 | 0x2u64 | 0u64) & 0x80 == 0
        && (0x4u64 | 0u64 | 0x8000_0000_0000_0000u64) & 0x80 == 0
        && (0x4u64 | 0u64 | 0u64) & 0x80 == 0) by (bit_vector);
}

/// Two different user pages are different pages to the walk.
proof fn lemma_user_pages_differ(a: int, b: int)
    requires
        0 <= a < b < SEGMENT_HIGH,
        a % 4096 == 0,
        b % 4096 == 0,
    ensures
        crate::mm::vmm::tree::other_page(a as u64, b as u64),
        crate::mm::vmm::tree::other_page(b as u64, a as u64),
{
    lemma_pages_differ(a as u64, b as u64);
}

/// A page of an earlier segment is another page than one of segment `si`.
proof fn lemma_spans_disjoint(ls: Seq<ProgramHeader>, dlen: int, j: int, si: int, v: int, page: int)
    requires
        segments_ok(ls, dlen),
        0 <= j < si < ls.len(),
        in_span(ls[j], v),
        in_span(ls[si], page),
    ensures
        crate::mm::vmm::tree::other_page(v as u64, page as u64),
{
    let a = ls[j];
    let b = ls[si];
    if v < page {
        lemma_user_pages_differ(v, page);
    } else {
        lemma_user_pages_differ(page, v);
    }
}

/// A page still pending after page `page` of segment `si` is another
/// user page.
proof fn lemma_pending_other(ls: Seq<ProgramHeader>, dlen: int, si: int, page: int, v: int)
    requires
        segments_ok(ls, dlen),
        0 <= si < ls.len(),
        in_span(ls[si], page),
        pending(ls, si, page + 4096, v),
    ensures
        pending(ls, si, page, v),
        v != page,
        0 <= v < SEGMENT_HIGH,
        v % 4096 == 0,
        crate::mm::vmm::tree::other_page(v as u64, page as u64),
{
    if in_span(ls[si], v) && v >= page + 4096 {
        lemma_user_pages_differ(page, v);
    } else {
        let j = choose|j: int| si < j < ls.len() && #[trigger] in_span(ls[j], v);
        assert(ls[si].page_end <= ls[j].page_start || ls[j].page_end <= ls[si].page_start);
        if v < page {
            lemma_user_pages_differ(v, page);
        } else {
            lemma_user_pages_differ(page, v);
        }
    }
}

/// Once segment `si` is done, what is pending from segment `si + 1` on was
/// pending after its last page.
proof fn lemma_pending_next(ls: Seq<ProgramHeader>, si: int, page: int, v: int)
    requires
        0 <= si < ls.len(),
        page == ls[si].page_end,
        pending(ls, si + 1, 0, v),
    ensures
        pending(ls, si, page, v),
{
    if si + 1 < ls.len() && in_span(ls[si + 1], v) {
        assert(in_span(ls[si + 1], v));
    } else {
        let j = choose|j: int| si + 1 < j < ls.len() && #[trigger] in_span(ls[j], v);
        assert(in_span(ls[j], v));
    }
}

/// Spans never count negatively.
proof fn lemma_span_nonneg(ls: Seq<ProgramHeader>, dlen: int, si: int)
    requires
        segments_ok(ls, dlen),
        0 <= si <= ls.len(),
    ensures
        span_pages(ls.skip(si)) >= 0,
    decreases ls.len() - si,
{
    if si < ls.len() {
        lemma_span_nonneg(ls, dlen, si + 1);
        lemma_span_pages_skip(ls, si);
        assert(ls[si].page_start <= ls[si].page_end);
    } else {
        assert(ls.skip(si).len() == 0);
    }
}

/// The pages of the spans from `si` on.
proof fn lemma_span_pages_skip(ls: Seq<ProgramHeader>, si: int)
    requires
        0 <= si < ls.len(),
    ensures
        span_pages(ls.skip(si)) == (ls[si].page_end - ls[si].page_start) / 4096 + span_pages(ls.skip(si + 1)),
{
    assert(ls.skip(si).drop_first() =~= ls.skip(si + 1));
    assert(ls.skip(si)[0] == ls[si]);
}

} // verus!
