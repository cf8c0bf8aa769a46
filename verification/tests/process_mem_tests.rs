use otteros_kernel::fs::initramfs::{init as fs_init, BootModule, InitOutcome, Initramfs};
use otteros_kernel::mm::addr::{PhysAddr, VirtAddr};
use otteros_kernel::mm::kstack::KernelStack;
use otteros_kernel::mm::paging::{PageFlags, FLAG_USER, FLAG_WRITABLE};
use otteros_kernel::mm::pmm::{self, alloc_frame, is_frame_used, MemmapEntry, MEMMAP_USABLE};
use otteros_kernel::mm::vmm::{AddressSpace, PageSize, PhysMem};
use otteros_kernel::proc::elf::ElfError;
use otteros_kernel::proc::exec::{build_image, StackError};
use otteros_kernel::proc::fault::{handle_other_fault, handle_page_fault, FaultOutcome};
use otteros_kernel::proc::process::{MapAnonError, Process, ANON_BASE, MAX_MAP_ANON_LEN};
use otteros_kernel::proc::{current, grow_stack_current, kill, map_anon_current, spawn, spawn_payload, wait, Registry, SpawnError, WaitStep};
use otteros_kernel::sched::{self, init as sched_init};
use otteros_kernel::syscall::table::{
    clamp_io_len, dispatch, err, sys_debug_log, sys_getpid, sys_kill, sys_map_anon, sys_read, sys_unmap, sys_write,
    wait_answer, KillOutcome, Syscall,
};

const TOP: u64 = 0x7fff_ffff_f000;

fn stack(n: u64) -> KernelStack {
    let base = 0xffff_d000_0000_0000u64 + n * 0x20000;
    KernelStack { guard: VirtAddr(base), bottom: VirtAddr(base + 0x1000), top: VirtAddr(base + 0x11000) }
}

fn memory() -> (pmm::Pmm, PhysMem) {
    let p = pmm::init(&[MemmapEntry { base: 0x10_0000, length: 0x200_0000, type_: MEMMAP_USABLE }]);
    (p, PhysMem::new())
}

fn new_space(p: &mut pmm::Pmm, mem: &mut PhysMem) -> AddressSpace {
    let root = alloc_frame(p).unwrap();
    mem.install(root.0, 0);
    AddressSpace { pml4: root }
}

fn word(img: &[u8], i: usize) -> u64 {
    u64::from_le_bytes(img[8 * i..8 * i + 8].try_into().unwrap())
}

#[test]
fn stack_image_layout() {
    let random: [u8; 16] = [1, 2, 3, 4, 5, 6, 7, 8, 9, 10, 11, 12, 13, 14, 15, 16];
    let argv = vec![b"ab".to_vec(), b"c".to_vec()];
    let img = build_image(0x40_1000, &argv, &random, TOP).unwrap();
    // 13 words of pointers, 5 bytes of strings, 16 random bytes: 125, padded to 128.
    assert_eq!(img.len(), 128);
    let base = TOP - 128;
    assert_eq!(word(&img, 0), 2);
    assert_eq!(word(&img, 1), base + 104);
    assert_eq!(word(&img, 2), base + 107);
    assert_eq!(word(&img, 3), 0);
    assert_eq!(word(&img, 4), 0);
    assert_eq!((word(&img, 5), word(&img, 6)), (6, 4096));
    assert_eq!((word(&img, 7), word(&img, 8)), (9, 0x40_1000));
    assert_eq!((word(&img, 9), word(&img, 10)), (25, base + 109));
    assert_eq!((word(&img, 11), word(&img, 12)), (0, 0));
    assert_eq!(&img[104..109], b"ab\0c\0");
    assert_eq!(&img[109..125], &random[..]);
    assert_eq!(&img[125..128], &[0, 0, 0]);
}

#[test]
fn stack_image_without_arguments_is_aligned() {
    let img = build_image(7, &[], &[0u8; 16], TOP).unwrap();
    // 11 words and 16 random bytes: 104, padded to 112.
    assert_eq!(img.len(), 112);
    assert_eq!(word(&img, 0), 0);
    assert_eq!(word(&img, 6), 7);
}

#[test]
fn stack_image_too_large() {
    let argv = vec![vec![b'x'; 70_000]];
    assert_eq!(build_image(0, &argv, &[0u8; 16], TOP), Err(StackError::ArgsTooLarge));
    let many = vec![Vec::new(); 9000];
    assert_eq!(build_image(0, &many, &[0u8; 16], TOP), Err(StackError::ArgsTooLarge));
}

#[test]
fn map_anon_bumps_cursor_and_maps_pages() {
    let (mut p, mut mem) = memory();
    let space = new_space(&mut p, &mut mem);
    let mut proc_ = Process::new(1, String::from("a"), space, 2, TOP);
    assert_eq!(proc_.map_anon(&mut mem, &mut p, 5000), Ok(VirtAddr(ANON_BASE)));
    let (_, flags, size) = space.translate(&mem, VirtAddr(ANON_BASE + 0x1000)).unwrap();
    assert!(flags.contains(PageFlags(FLAG_USER | FLAG_WRITABLE)));
    assert_eq!(size, PageSize::Normal);
    assert!(space.translate(&mem, VirtAddr(ANON_BASE + 0x2000)).is_none());
    assert_eq!(proc_.map_anon(&mut mem, &mut p, 1), Ok(VirtAddr(ANON_BASE + 0x2000)));
    assert_eq!(proc_.map_anon(&mut mem, &mut p, 0), Err(MapAnonError::Invalid));
    assert_eq!(proc_.map_anon(&mut mem, &mut p, MAX_MAP_ANON_LEN + 1), Err(MapAnonError::Invalid));
}

#[test]
fn map_anon_without_frames_is_out_of_memory() {
    let mut p = pmm::init(&[MemmapEntry { base: 0x10_0000, length: 0x4000, type_: MEMMAP_USABLE }]);
    let mut mem = PhysMem::new();
    let space = new_space(&mut p, &mut mem);
    let mut proc_ = Process::new(1, String::from("a"), space, 2, TOP);
    assert_eq!(proc_.map_anon(&mut mem, &mut p, 4096), Err(MapAnonError::OutOfMemory));
    assert!(space.translate(&mem, VirtAddr(ANON_BASE)).is_none());
}

#[test]
fn unmap_frees_frames_and_checks_range() {
    let (mut p, mut mem) = memory();
    let space = new_space(&mut p, &mut mem);
    let mut proc_ = Process::new(1, String::from("a"), space, 2, TOP);
    proc_.map_anon(&mut mem, &mut p, 0x2000).unwrap();
    let (frame, _, _) = space.translate(&mem, VirtAddr(ANON_BASE)).unwrap();
    assert!(is_frame_used(&p, frame));
    assert_eq!(proc_.unmap(&mut mem, &mut p, ANON_BASE + 1, 0x1000), Err(()));
    assert_eq!(proc_.unmap(&mut mem, &mut p, ANON_BASE, 0), Err(()));
    assert_eq!(proc_.unmap(&mut mem, &mut p, 0x1000, 0x1000), Err(()));
    assert_eq!(proc_.unmap(&mut mem, &mut p, ANON_BASE, 0x3000), Err(()));
    assert!(space.translate(&mem, VirtAddr(ANON_BASE)).is_some());
    assert_eq!(proc_.unmap(&mut mem, &mut p, ANON_BASE, 0x1000), Ok(()));
    assert!(space.translate(&mem, VirtAddr(ANON_BASE)).is_none());
    assert!(space.translate(&mem, VirtAddr(ANON_BASE + 0x1000)).is_some());
    assert!(!is_frame_used(&p, frame));
    assert_eq!(proc_.unmap(&mut mem, &mut p, ANON_BASE, 0x1000), Err(()));
}

#[test]
fn stack_grows_only_inside_its_reservation() {
    let (mut p, mut mem) = memory();
    let space = new_space(&mut p, &mut mem);
    let mut proc_ = Process::new(1, String::from("a"), space, 2, TOP);
    let low = TOP - 0x1_0000;
    assert!(!proc_.try_grow_stack(&mut mem, &mut p, low + 8));
    assert!(!proc_.try_grow_stack(&mut mem, &mut p, TOP - 0x200_0000));
    assert!(proc_.try_grow_stack(&mut mem, &mut p, low - 0x1ff8));
    assert!(space.translate(&mem, VirtAddr(low - 0x2000)).is_some());
    assert!(space.translate(&mem, VirtAddr(low - 0x1000)).is_some());
    assert!(space.translate(&mem, VirtAddr(low - 0x3000)).is_none());
    assert!(!proc_.try_grow_stack(&mut mem, &mut p, low - 0x1000));
}

#[test]
fn wait_reports_running_then_collects_once() {
    let mut reg = Registry::new();
    let mut s = sched_init(stack(0), stack(1), 0);
    let space = AddressSpace { pml4: PhysAddr(0x8000) };
    let pid = spawn_payload(&mut reg, &mut s, String::from("child"), space, stack(2), 0, TOP);
    assert!(matches!(wait(&mut reg, &s, pid), WaitStep::Running(2)));
    kill(&mut reg, &mut s, pid, 9);
    let step = wait(&mut reg, &s, pid);
    assert!(matches!(step, WaitStep::Collected(9, sp) if sp == space));
    assert_eq!(wait_answer(&step), Some(9));
    let gone = wait(&mut reg, &s, pid);
    assert!(matches!(gone, WaitStep::NoProcess));
    assert_eq!(wait_answer(&gone), Some(-3));
    assert!(matches!(wait(&mut reg, &s, 42), WaitStep::NoProcess));
}

#[test]
fn syscall_numbers_decode() {
    assert_eq!(dispatch(0, u64::MAX, 0, 0), Syscall::Exit(-1));
    assert_eq!(dispatch(1, 1, 0x1000, 5), Syscall::Write(1, 0x1000, 5));
    assert_eq!(dispatch(2, 0, 0x1000, 1), Syscall::Read(0, 0x1000, 1));
    assert_eq!(dispatch(3, 9, 9, 9), Syscall::GetPid);
    assert_eq!(dispatch(5, 20, 0, 0), Syscall::SleepMs(20));
    assert_eq!(dispatch(7, 0x1000, 0x2000, 0), Syscall::Unmap(0x1000, 0x2000));
    assert_eq!(dispatch(9, 0, 0, 0), Syscall::NotImplemented);
    assert_eq!(dispatch(12, 0x10, 4, 0), Syscall::DebugLog(0x10, 4));
    assert_eq!(dispatch(13, 0, 0, 0), Syscall::NotImplemented);
    assert_eq!(err(38), -38);
    assert_eq!(clamp_io_len(4096), Some(4096));
    assert_eq!(clamp_io_len(4097), None);
}

#[test]
fn io_syscalls_check_before_copying() {
    let (mut p, mut mem) = memory();
    let space = new_space(&mut p, &mut mem);
    let frame = alloc_frame(&mut p).unwrap();
    space.map_4k(&mut mem, &mut p, VirtAddr(0x40_0000), frame, PageFlags(FLAG_USER));
    assert_eq!(sys_write(&space, &mem, 3, 0x40_0000, 4), Err(-22));
    assert_eq!(sys_write(&space, &mem, 1, 0x40_0000, 4097), Err(-22));
    assert_eq!(sys_write(&space, &mem, 2, 0x50_0000, 0), Ok(0));
    assert_eq!(sys_write(&space, &mem, 1, 0x40_0ffe, 4), Err(-14));
    assert_eq!(sys_write(&space, &mem, 1, 0x40_0000, 4), Ok(4));
    assert_eq!(sys_debug_log(&space, &mem, 0x40_0000, 16), Ok(16));
    assert_eq!(sys_debug_log(&space, &mem, 0x50_0000, 1), Err(-14));
    assert_eq!(sys_read(&space, &mem, 1, 0x40_0000, 1), Err(-22));
    assert_eq!(sys_read(&space, &mem, 0, 0x40_0000, 0), Ok(0));
    assert_eq!(sys_read(&space, &mem, 0, 0x40_0000, 1), Err(-14));
    let rw = alloc_frame(&mut p).unwrap();
    space.map_4k(&mut mem, &mut p, VirtAddr(0x40_1000), rw, PageFlags(FLAG_USER | FLAG_WRITABLE));
    assert_eq!(sys_read(&space, &mem, 0, 0x40_1000, 8), Ok(1));
}

#[test]
fn process_syscalls_act_on_the_caller() {
    let (mut p, mut mem) = memory();
    let space = new_space(&mut p, &mut mem);
    let mut reg = Registry::new();
    let mut s = sched_init(stack(0), stack(1), 0);
    let pid = spawn_payload(&mut reg, &mut s, String::from("me"), space, stack(2), 0, TOP);
    let other = spawn_payload(&mut reg, &mut s, String::from("other"), space, stack(3), 0, TOP);
    sched::yield_now(&mut s);
    assert_eq!(current(&reg, &s).pid(), pid);
    assert_eq!(sys_getpid(&reg, &s), pid as i64);
    assert_eq!(sys_map_anon(&mut reg, &s, &mut mem, &mut p, 0x1000), ANON_BASE as i64);
    assert_eq!(sys_map_anon(&mut reg, &s, &mut mem, &mut p, 0), -22);
    assert_eq!(map_anon_current(&mut reg, &s, &mut mem, &mut p, 0x1000), Ok(VirtAddr(ANON_BASE + 0x1000)));
    assert_eq!(sys_unmap(&reg, &s, &mut mem, &mut p, ANON_BASE, 0x1000), 0);
    assert_eq!(sys_unmap(&reg, &s, &mut mem, &mut p, ANON_BASE, 0x1000), -22);
    assert!(grow_stack_current(&mut reg, &s, &mut mem, &mut p, TOP - 0x1_0008));
    match sys_kill(&mut reg, &mut s, 99) {
        KillOutcome::Answered(code, space_back, _) => {
            assert_eq!(code, -3);
            assert!(space_back.is_none());
        }
        KillOutcome::ExitedSelf(..) => panic!("killed itself"),
    }
    assert!(matches!(sys_kill(&mut reg, &mut s, other), KillOutcome::Answered(0, Some(_), _)));
    assert!(matches!(sys_kill(&mut reg, &mut s, pid), KillOutcome::ExitedSelf(Some(_), _)));
    assert_eq!(sched::join(&s, 2), Some(137));
}

#[test]
fn page_faults_grow_the_stack_or_kill() {
    let (mut p, mut mem) = memory();
    let space = new_space(&mut p, &mut mem);
    let mut reg = Registry::new();
    let mut s = sched_init(stack(0), stack(1), 0);
    let pid = spawn_payload(&mut reg, &mut s, String::from("f"), space, stack(2), 0, TOP);
    sched::yield_now(&mut s);
    assert!(matches!(handle_page_fault(&mut reg, &mut s, &mut mem, &mut p, TOP - 0x1_0001), FaultOutcome::Resumed));
    assert!(space.translate(&mem, VirtAddr(TOP - 0x1_1000)).is_some());
    assert!(matches!(handle_page_fault(&mut reg, &mut s, &mut mem, &mut p, 0x10), FaultOutcome::Killed(Some(_), _)));
    assert_eq!(sched::join(&s, 2), Some(139));
    let _ = pid;
}

#[test]
fn other_faults_kill() {
    let mut reg = Registry::new();
    let mut s = sched_init(stack(0), stack(1), 0);
    let space = AddressSpace { pml4: PhysAddr(0x8000) };
    spawn_payload(&mut reg, &mut s, String::from("g"), space, stack(2), 0, TOP);
    sched::yield_now(&mut s);
    let (to_free, sw) = handle_other_fault(&mut reg, &mut s);
    assert_eq!(to_free, Some(space));
    assert_eq!(sw.prev, 2);
    assert_eq!(sched::join(&s, 2), Some(139));
}

fn octal(field: &mut [u8], value: u64) {
    let s = format!("{:0width$o}", value, width = field.len() - 1);
    field[..s.len()].copy_from_slice(s.as_bytes());
    field[s.len()] = 0;
}

fn header(name: &str, size: usize, kind: u8) -> Vec<u8> {
    let mut h = vec![0u8; 512];
    h[..name.len()].copy_from_slice(name.as_bytes());
    octal(&mut h[100..108], 0o644);
    octal(&mut h[124..136], size as u64);
    h[156] = kind;
    h[257..263].copy_from_slice(b"ustar\0");
    for b in &mut h[148..156] {
        *b = b' ';
    }
    let sum: u64 = h.iter().map(|&b| b as u64).sum();
    octal(&mut h[148..155], sum);
    h[155] = b' ';
    h
}

fn archive(files: &[(&str, &[u8])]) -> Vec<u8> {
    let mut out = Vec::new();
    for (name, data) in files {
        out.extend(header(name, data.len(), b'0'));
        out.extend_from_slice(data);
        while out.len() % 512 != 0 {
            out.push(0);
        }
    }
    out.extend(vec![0u8; 1024]);
    out
}

fn elf(entry: u64, vaddr: u64, flags: u32, code: &[u8]) -> Vec<u8> {
    let mut d = vec![0u8; 64 + 56];
    d[0..4].copy_from_slice(&[0x7f, b'E', b'L', b'F']);
    d[4] = 2;
    d[5] = 1;
    d[6] = 1;
    d[16..18].copy_from_slice(&2u16.to_le_bytes());
    d[18..20].copy_from_slice(&0x3eu16.to_le_bytes());
    d[24..32].copy_from_slice(&entry.to_le_bytes());
    d[32..40].copy_from_slice(&64u64.to_le_bytes());
    d[54..56].copy_from_slice(&56u16.to_le_bytes());
    d[56..58].copy_from_slice(&1u16.to_le_bytes());
    let ph = 64;
    d[ph..ph + 4].copy_from_slice(&1u32.to_le_bytes());
    d[ph + 4..ph + 8].copy_from_slice(&flags.to_le_bytes());
    d[ph + 8..ph + 16].copy_from_slice(&120u64.to_le_bytes());
    d[ph + 16..ph + 24].copy_from_slice(&vaddr.to_le_bytes());
    d[ph + 32..ph + 40].copy_from_slice(&(code.len() as u64).to_le_bytes());
    d[ph + 40..ph + 48].copy_from_slice(&(code.len() as u64).to_le_bytes());
    d.extend_from_slice(code);
    d
}

#[test]
fn spawn_prepares_an_image_from_the_initramfs() {
    let (mut p, mut mem) = memory();
    let kernel = new_space(&mut p, &mut mem);
    let mut fs = Initramfs::new();
    let good = elf(0x40_0000, 0x40_0000, 5, &[0x90; 16]);
    let mut bad = good.clone();
    bad[0] = 0;
    let a = archive(&[("bin/init", &good), ("bin/bad", &bad)]);
    let mods = vec![BootModule { cmdline: String::from("initramfs"), data: a }];
    assert!(matches!(fs_init(&mut fs, Some(&mods)), InitOutcome::Parsed { files: 2, .. }));
    let argv = vec![b"init".to_vec()];
    assert!(matches!(spawn(&mut mem, &mut p, &fs, kernel, "/bin/nope", &argv, &[0u8; 16], TOP), Err(SpawnError::NotFound)));
    assert!(matches!(
        spawn(&mut mem, &mut p, &fs, kernel, "/bin/bad", &argv, &[0u8; 16], TOP),
        Err(SpawnError::BadElf(ElfError::BadMagic))
    ));
    let huge = vec![vec![b'x'; 70_000]];
    assert!(matches!(spawn(&mut mem, &mut p, &fs, kernel, "/bin/init", &huge, &[0u8; 16], TOP), Err(SpawnError::BadStack)));
    let np = spawn(&mut mem, &mut p, &fs, kernel, "/bin/init", &argv, &[0u8; 16], TOP).unwrap();
    assert_eq!(np.entry, 0x40_0000);
    assert!(np.space.translate(&mem, VirtAddr(0x40_0000)).is_some());
    assert!(np.space.translate(&mem, VirtAddr(TOP - 0x1000)).is_some());
    assert!(np.space.translate(&mem, VirtAddr(TOP - 0x1_0000)).is_some());
    assert!(np.space.translate(&mem, VirtAddr(TOP - 0x1_1000)).is_none());
    // One argument of 5 bytes with its NUL: 12 words, 5 bytes, 16 random: 117, padded to 128.
    assert_eq!(np.stack_image.len(), 128);
    assert_eq!(np.stack_base, TOP - 128);
    assert!(!np.copies.is_empty());
}
