use otteros_kernel::mm::addr::{PhysAddr, VirtAddr};
use otteros_kernel::mm::kstack::KernelStack;
use otteros_kernel::mm::vmm::{AddressSpace, PhysMem};
use otteros_kernel::proc::process::Process;
use otteros_kernel::proc::usermem::{user_str, validate_writable};
use otteros_kernel::proc::{current, exit_current_process, find, kill, spawn_payload, Registry};
use otteros_kernel::sched::{self, init, ThreadState};

const TOP: u64 = 0x7fff_ffff_f000;

fn stack(n: u64) -> KernelStack {
    let base = 0xffff_d000_0000_0000u64 + n * 0x20000;
    KernelStack { guard: VirtAddr(base), bottom: VirtAddr(base + 0x1000), top: VirtAddr(base + 0x11000) }
}

#[test]
fn process_getters() {
    let space = AddressSpace { pml4: PhysAddr(0x8000) };
    let mut p = Process::new(3, String::from("init"), space, 9, TOP);
    assert_eq!(p.pid(), 3);
    assert_eq!(p.name(), "init");
    assert_eq!(p.address_space(), space);
    assert_eq!(p.main_thread_id(), 9);
    assert!(p.begin_exit());
    assert!(!p.begin_exit());
}

#[test]
fn spawn_payload_registers_process_and_thread() {
    let mut reg = Registry::new();
    let mut s = init(stack(0), stack(1), 0);
    let space = AddressSpace { pml4: PhysAddr(0x8000) };
    let pid = spawn_payload(&mut reg, &mut s, String::from("hello"), space, stack(2), 0x10, TOP);
    assert_eq!(pid, 1);
    let p = find(&reg, pid).unwrap();
    assert_eq!(p.name(), "hello");
    assert_eq!(p.main_thread_id(), 2);
    assert_eq!(sched::find(&s, 2).unwrap().address_space(), Some(space));
    assert!(find(&reg, 2).is_none());
    let pid2 = spawn_payload(&mut reg, &mut s, String::from("two"), space, stack(3), 0, TOP);
    assert_eq!(pid2, 2);
}

#[test]
fn kill_ends_main_thread_once() {
    let mut reg = Registry::new();
    let mut s = init(stack(0), stack(1), 0);
    let space = AddressSpace { pml4: PhysAddr(0x8000) };
    let pid = spawn_payload(&mut reg, &mut s, String::from("victim"), space, stack(2), 0, TOP);
    let (found, to_free, stack_back) = kill(&mut reg, &mut s, pid, 9);
    assert!(found);
    assert_eq!(to_free, Some(space));
    assert_eq!(stack_back, None);
    assert_eq!(sched::join(&s, 2), Some(9));
    let (found, to_free, _) = kill(&mut reg, &mut s, pid, 10);
    assert!(found);
    assert_eq!(to_free, None);
    assert_eq!(kill(&mut reg, &mut s, 77, 0), (false, None, None));
}

#[test]
fn exit_current_process_switches_away() {
    let mut reg = Registry::new();
    let mut s = init(stack(0), stack(1), 0);
    let space = AddressSpace { pml4: PhysAddr(0x8000) };
    let pid = spawn_payload(&mut reg, &mut s, String::from("p"), space, stack(2), 0, TOP);
    sched::yield_now(&mut s);
    assert_eq!(current(&reg, &s).pid(), pid);
    let (to_free, sw) = exit_current_process(&mut reg, &mut s, 5);
    assert_eq!(to_free, Some(space));
    assert_eq!(sw.prev, 2);
    assert_eq!(sw.next, 0);
    assert_eq!(sched::find(&s, 2).unwrap().state(), ThreadState::Exited);
    assert_eq!(sched::join(&s, 2), Some(5));
}

#[test]
fn empty_range_is_valid_and_unmapped_is_efault() {
    let mem = PhysMem::new();
    let space = AddressSpace { pml4: PhysAddr(0x1000) };
    assert_eq!(validate_writable(&space, &mem, 0x4000, 0), Ok(()));
    assert_eq!(validate_writable(&space, &mem, 0x4000, 1), Err(-14));
    assert_eq!(validate_writable(&space, &mem, 0x0000_7fff_ffff_f000, 0x2000), Err(-14));
    assert_eq!(validate_writable(&space, &mem, u64::MAX, 2), Err(-14));
}

#[test]
fn user_str_of_unmapped_memory_faults() {
    let mem = PhysMem::new();
    let space = AddressSpace { pml4: PhysAddr(0x1000) };
    assert_eq!(user_str(&space, &mem, 0x4000, 16, b"hi\0"), Err(-14));
    assert_eq!(user_str(&space, &mem, 0x4000, 0, b"hi\0"), Err(-14));
}
