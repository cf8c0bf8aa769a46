use otteros_kernel::fs::initramfs::{self, init, is_present, list, open, parse, BootModule, InitOutcome, Initramfs, UstarError};
use otteros_kernel::mm::addr::PhysAddr;
use otteros_kernel::mm::pmm::{self, alloc_frame, MemmapEntry, MEMMAP_USABLE};
use otteros_kernel::mm::vmm::{AddressSpace, PhysMem};
use otteros_kernel::proc::elf::{check, load, validate_header, ElfError};

fn octal(field: &mut [u8], value: u64) {
    let s = format!("{:0width$o}", value, width = field.len() - 1);
    field[..s.len()].copy_from_slice(s.as_bytes());
    field[s.len()] = 0;
}

fn header(name: &str, size: usize, kind: u8) -> Vec<u8> {
    let mut h = vec![0u8; 512];
    h[..name.len()].copy_from_slice(name.as_bytes());
    octal(&mut h[100..108], 0o644);
    octal(&mut h[124..136], size as u64);
    h[156] = kind;
    h[257..263].copy_from_slice(b"ustar\0");
    for b in &mut h[148..156] {
        *b = b' ';
    }
    let sum: u64 = h.iter().map(|&b| b as u64).sum();
    octal(&mut h[148..155], sum);
    h[155] = b' ';
    h
}

fn archive(files: &[(&str, &[u8])]) -> Vec<u8> {
    let mut out = Vec::new();
    for (name, data) in files {
        out.extend(header(name, data.len(), b'0'));
        out.extend_from_slice(data);
        while out.len() % 512 != 0 {
            out.push(0);
        }
    }
    out.extend(vec![0u8; 1024]);
    out
}

#[test]
fn parse_two_files() {
    let a = archive(&[("bin/init", b"hello"), ("etc/motd", b"welcome\n")]);
    let entries = parse(&a).unwrap();
    assert_eq!(entries.len(), 2);
    assert_eq!(entries[0].path, "bin/init");
    assert_eq!(entries[0].data, b"hello".to_vec());
    assert_eq!(entries[1].path, "etc/motd");
}

#[test]
fn parse_rejects_bad_checksum() {
    let mut a = archive(&[("a", b"x")]);
    a[148] = b'7';
    assert_eq!(parse(&a).unwrap_err(), UstarError::BadChecksum);
}

#[test]
fn parse_rejects_unsafe_path() {
    let a = archive(&[("../etc/passwd", b"x")]);
    assert_eq!(parse(&a).unwrap_err(), UstarError::UnsafePath);
    let a = archive(&[("/abs", b"x")]);
    assert_eq!(parse(&a).unwrap_err(), UstarError::UnsafePath);
}

#[test]
fn parse_rejects_truncated() {
    let mut a = archive(&[("a", b"0123456789")]);
    a.truncate(512 + 4);
    assert_eq!(parse(&a).unwrap_err(), UstarError::Truncated);
}

#[test]
fn parse_empty_archive() {
    assert_eq!(parse(&[0u8; 1024]).unwrap().len(), 0);
    assert_eq!(parse(&[]).unwrap().len(), 0);
}

#[test]
fn init_open_and_list() {
    let mut fs = Initramfs::new();
    assert!(!is_present(&fs));
    let a = archive(&[("bin/init", b"hello"), ("etc/motd", b"hi")]);
    let mods = vec![
        BootModule { cmdline: String::from("other"), data: vec![1, 2, 3] },
        BootModule { cmdline: String::from("initramfs"), data: a },
    ];
    let outcome = init(&mut fs, Some(&mods));
    assert_eq!(outcome, InitOutcome::Parsed { files: 2, total_bytes: 7 });
    assert!(is_present(&fs));
    assert_eq!(open(&fs, "/bin/init"), Some(&b"hello"[..]));
    assert_eq!(open(&fs, "etc/motd"), Some(&b"hi"[..]));
    assert_eq!(open(&fs, "nope"), None);
    assert_eq!(list(&fs), vec![String::from("bin/init"), String::from("etc/motd")]);
}

#[test]
fn init_without_module() {
    let mut fs = Initramfs::new();
    assert_eq!(init(&mut fs, None), InitOutcome::NoResponse);
    let mods = vec![BootModule { cmdline: String::from("x"), data: vec![] }];
    assert_eq!(init(&mut fs, Some(&mods)), InitOutcome::NoModule);
    let _ = initramfs::is_present(&fs);
}

fn elf(entry: u64, vaddr: u64, flags: u32, code: &[u8]) -> Vec<u8> {
    let mut d = vec![0u8; 64 + 56];
    d[0..4].copy_from_slice(&[0x7f, b'E', b'L', b'F']);
    d[4] = 2;
    d[5] = 1;
    d[6] = 1;
    d[16..18].copy_from_slice(&2u16.to_le_bytes());
    d[18..20].copy_from_slice(&0x3eu16.to_le_bytes());
    d[24..32].copy_from_slice(&entry.to_le_bytes());
    d[32..40].copy_from_slice(&64u64.to_le_bytes());
    d[54..56].copy_from_slice(&56u16.to_le_bytes());
    d[56..58].copy_from_slice(&1u16.to_le_bytes());
    let ph = 64;
    d[ph..ph + 4].copy_from_slice(&1u32.to_le_bytes());
    d[ph + 4..ph + 8].copy_from_slice(&flags.to_le_bytes());
    d[ph + 8..ph + 16].copy_from_slice(&120u64.to_le_bytes());
    d[ph + 16..ph + 24].copy_from_slice(&vaddr.to_le_bytes());
    d[ph + 32..ph + 40].copy_from_slice(&(code.len() as u64).to_le_bytes());
    d[ph + 40..ph + 48].copy_from_slice(&(code.len() as u64).to_le_bytes());
    d.extend_from_slice(code);
    d
}

#[test]
fn elf_header_errors() {
    assert_eq!(validate_header(&[0u8; 10]), Err(ElfError::TooShort));
    assert_eq!(validate_header(&[0u8; 64]), Err(ElfError::BadMagic));
    let mut d = elf(0x40_0000, 0x40_0000, 5, &[0x90; 16]);
    d[4] = 1;
    assert_eq!(check(&d).unwrap_err(), ElfError::WrongClass);
}

#[test]
fn elf_check_accepts_and_rejects() {
    let d = elf(0x40_0000, 0x40_0000, 5, &[0x90; 16]);
    let (entry, loads) = check(&d).unwrap();
    assert_eq!(entry, 0x40_0000);
    assert_eq!(loads.len(), 1);
    assert_eq!(loads[0].page_start, 0x40_0000);
    assert_eq!(loads[0].page_end, 0x40_1000);
    let wx = elf(0x40_0000, 0x40_0000, 7, &[0x90; 16]);
    assert_eq!(check(&wx).unwrap_err(), ElfError::WriteAndExecute);
    let low = elf(0x1000, 0x1000, 5, &[0x90; 16]);
    assert_eq!(check(&low).unwrap_err(), ElfError::SegmentOutOfRange);
    let noexec = elf(0x40_0000, 0x40_0000, 4, &[0x90; 16]);
    assert_eq!(check(&noexec).unwrap_err(), ElfError::EntryNotExecutable);
}

#[test]
fn elf_load_maps_segment() {
    let mut p = pmm::init(&[MemmapEntry { base: 0x10_0000, length: 0x100_0000, type_: MEMMAP_USABLE }]);
    let mut mem = PhysMem::new();
    let root = alloc_frame(&mut p).unwrap();
    mem.install(root.0, 0);
    let space = AddressSpace { pml4: root };
    let d = elf(0x40_0000, 0x40_0000, 5, &[0x90; 16]);
    let (img, copies) = load(space, &mut mem, &mut p, &d).unwrap();
    assert_eq!(img.entry, 0x40_0000);
    assert!(!copies.is_empty());
    assert!(space.translate(&mem, otteros_kernel::mm::addr::VirtAddr(0x40_0000)).is_some());
    let _ = PhysAddr(0);
}

#[test]
fn elf_load_copies_land_in_mapped_frames() {
    let mut p = pmm::init(&[MemmapEntry { base: 0x10_0000, length: 0x100_0000, type_: MEMMAP_USABLE }]);
    let mut mem = PhysMem::new();
    let root = alloc_frame(&mut p).unwrap();
    mem.install(root.0, 0);
    let space = AddressSpace { pml4: root };
    let d = elf(0x40_0ff0, 0x40_0ff0, 5, &[0x90; 32]);
    let (_, copies) = load(space, &mut mem, &mut p, &d).unwrap();
    assert_eq!(copies.len(), 2);
    let (f0, _, _) = space.translate(&mem, otteros_kernel::mm::addr::VirtAddr(0x40_0000)).unwrap();
    let (f1, _, _) = space.translate(&mem, otteros_kernel::mm::addr::VirtAddr(0x40_1000)).unwrap();
    assert_ne!(f0, f1);
    assert_eq!(copies[0].frame, f0);
    assert_eq!((copies[0].dst_off, copies[0].src_off, copies[0].len), (0xff0, 120, 16));
    assert_eq!(copies[1].frame, f1);
    assert_eq!((copies[1].dst_off, copies[1].src_off, copies[1].len), (0, 136, 16));
}

#[test]
fn elf_rejected_load_keeps_free_frames() {
    let mut p = pmm::init(&[MemmapEntry { base: 0x10_0000, length: 0x100_0000, type_: MEMMAP_USABLE }]);
    let mut mem = PhysMem::new();
    let root = alloc_frame(&mut p).unwrap();
    mem.install(root.0, 0);
    let space = AddressSpace { pml4: root };
    let free0 = pmm::stats(&p).free;
    assert_eq!(load(space, &mut mem, &mut p, &[0u8; 10]).unwrap_err(), ElfError::TooShort);
    assert_eq!(load(space, &mut mem, &mut p, &[0u8; 64]).unwrap_err(), ElfError::BadMagic);
    assert_eq!(pmm::stats(&p).free, free0);
}
