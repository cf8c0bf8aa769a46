//! The system call table: which call a number and its argument registers
//! make, and what each call answers. A failed call answers the negated
//! error number. The parts that move bytes to or from a device or user
//! memory are left to the caller, which these functions tell what to do.
use vstd::prelude::*;
use crate::mm::addr::VirtAddr;
use crate::mm::kstack::KernelStack;
use crate::mm::pmm::Pmm;
use crate::mm::vmm::{AddressSpace, PhysMem, walk, owns_tables};
use crate::mm::vmm::tree::tree_ok;
use crate::proc::{Registry, WaitStep, current, current_pid, exit_current_process, kill, map_anon_current};
use crate::proc::process::{MapAnonError, anon_mapped, frames_releasable, page_outside, range_mapped, unmap_request_ok};
use crate::proc::usermem::{range_ok, validate_readable, validate_writable};
use crate::sched::{Scheduler, Switch, MAX_THREADS, asleep, sleep_ms, switch_done, yield_now};
use crate::syscall::errno::{EFAULT, EINVAL, ENOMEM, ENOSYS, ESRCH};

verus! {

/// The most bytes one `read`, `write` or `debug_log` moves.
pub const MAX_IO_LEN: usize = 4096;

/// The exit code of a process ended by `kill`: 128 plus the number of
/// `SIGKILL`.
pub const KILLED_EXIT_CODE: i32 = 137;

/// One decoded system call.
#[derive(Debug, Clone, Copy, PartialEq, Eq, Structural)]
pub enum Syscall {
    /// 0: `exit(code)`.
    Exit(i32),
    /// 1: `write(fd, buf, len)`.
    Write(u64, u64, u64),
    /// 2: `read(fd, buf, len)`.
    Read(u64, u64, u64),
    /// 3: `getpid()`.
    GetPid,
    /// 4: `yield()`.
    Yield,
    /// 5: `sleep_ms(ms)`.
    SleepMs(u64),
    /// 6: `map_anon(len)`.
    MapAnon(u64),
    /// 7: `unmap(addr, len)`.
    Unmap(u64, u64),
    /// 8: `time_ms()`.
    TimeMs,
    /// 10: `wait(pid)`.
    Wait(u64),
    /// 11: `kill(pid)`.
    Kill(u64),
    /// 12: `debug_log(buf, len)`.
    DebugLog(u64, u64),
    /// Any other number, `spawn` (9) among them: answered `-ENOSYS`.
    NotImplemented,
}

/// The call that number `nr` with arguments `a0`, `a1`, `a2` makes.
pub open spec fn syscall_of(nr: u64, a0: u64, a1: u64, a2: u64) -> Syscall {
    if nr == 0 {
        Syscall::Exit(a0 as i32)
    } else if nr == 1 {
        Syscall::Write(a0, a1, a2)
    } else if nr == 2 {
        Syscall::Read(a0, a1, a2)
    } else if nr == 3 {
        Syscall::GetPid
    } else if nr == 4 {
        Syscall::Yield
    } else if nr == 5 {
        Syscall::SleepMs(a0)
    } else if nr == 6 {
        Syscall::MapAnon(a0)
    } else if nr == 7 {
        Syscall::Unmap(a0, a1)
    } else if nr == 8 {
        Syscall::TimeMs
    } else if nr == 10 {
        Syscall::Wait(a0)
    } else if nr == 11 {
        Syscall::Kill(a0)
    } else if nr == 12 {
        Syscall::DebugLog(a0, a1)
    } else {
        Syscall::NotImplemented
    }
}

/// Decodes a system call from its number and its first three argument
/// registers.
pub fn dispatch(nr: u64, a0: u64, a1: u64, a2: u64) -> (r: Syscall)
    ensures
        r == syscall_of(nr, a0, a1, a2),
{
    match nr {
        0 => Syscall::Exit(a0 as i32),
        1 => Syscall::Write(a0, a1, a2),
        2 => Syscall::Read(a0, a1, a2),
        3 => Syscall::GetPid,
        4 => Syscall::Yield,
        5 => Syscall::SleepMs(a0),
        6 => Syscall::MapAnon(a0),
        7 => Syscall::Unmap(a0, a1),
        8 => Syscall::TimeMs,
        10 => Syscall::Wait(a0),
        11 => Syscall::Kill(a0),
        12 => Syscall::DebugLog(a0, a1),
        _ => Syscall::NotImplemented,
    }
}

/// The system call numbers of the ABI: each number decodes to its call,
/// with the argument registers it takes, whatever the registers hold.
pub proof fn law_syscall_numbers(a0: u64, a1: u64, a2: u64)
    ensures
        syscall_of(0, a0, a1, a2) == Syscall::Exit(a0 as i32),
        syscall_of(1, a0, a1, a2) == Syscall::Write(a0, a1, a2),
        syscall_of(2, a0, a1, a2) == Syscall::Read(a0, a1, a2),
        syscall_of(3, a0, a1, a2) == Syscall::GetPid,
        syscall_of(4, a0, a1, a2) == Syscall::Yield,
        syscall_of(5, a0, a1, a2) == Syscall::SleepMs(a0),
        syscall_of(6, a0, a1, a2) == Syscall::MapAnon(a0),
        syscall_of(7, a0, a1, a2) == Syscall::Unmap(a0, a1),
        syscall_of(8, a0, a1, a2) == Syscall::TimeMs,
        syscall_of(10, a0, a1, a2) == Syscall::Wait(a0),
        syscall_of(11, a0, a1, a2) == Syscall::Kill(a0),
        syscall_of(12, a0, a1, a2) == Syscall::DebugLog(a0, a1),
{
}

/// Every number past the last call, and 9 (`spawn`, not offered to user
/// programs), decodes to `NotImplemented`.
pub proof fn law_unknown_numbers_not_implemented(nr: u64, a0: u64, a1: u64, a2: u64)
    requires
        nr == 9 || nr > 12,
    ensures
        syscall_of(nr, a0, a1, a2) == Syscall::NotImplemented,
{
}

/// The answer to a call that is not implemented: `-ENOSYS`, with no other
/// effect.
pub fn answer_not_implemented() -> (r: i64)
    ensures
        r == -(ENOSYS as int),
{
    err(ENOSYS)
}

/// The answer for error number `e`.
pub fn err(e: u32) -> (r: i64)
    ensures
        r == -(e as int),
{
    -(e as i64)
}

/// `len` as a `usize` if it is at most `MAX_IO_LEN`.
pub fn clamp_io_len(len: u64) -> (r: Option<usize>)
    ensures
        r == (if len > MAX_IO_LEN { None } else { Some(len as usize) }),
{
    if len > MAX_IO_LEN as u64 { None } else { Some(len as usize) }
}

/// What `write(fd, buf, len)` does before its copy: `-EINVAL` unless `fd`
/// is 1 or 2 and `len` at most `MAX_IO_LEN`; `Ok(0)` for an empty write;
/// `-EFAULT` unless the buffer is user-readable. Otherwise `Ok(len)`: the
/// caller copies `len` bytes from `buf` to the console and answers `len`
/// (or `-EFAULT` if the copy faults).
pub fn sys_write(space: &AddressSpace, mem: &PhysMem, fd: u64, buf: u64, len: u64) -> (r: Result<usize, i64>)
    requires
        mem.wf(),
    ensures
        (fd != 1 && fd != 2) || len > MAX_IO_LEN ==> r == Err::<usize, i64>(-(EINVAL as int) as i64),
        (fd == 1 || fd == 2) && len <= MAX_IO_LEN ==> r == (if len == 0 {
            Ok::<usize, i64>(0)
        } else if !range_ok(mem@, space.pml4.0, buf, len as int, false) {
            Err::<usize, i64>(-(EFAULT as int) as i64)
        } else {
            Ok::<usize, i64>(len as usize)
        }),
{
    if fd != 1 && fd != 2 {
        return Err(err(EINVAL));
    }
    let len = match clamp_io_len(len) {
        Some(l) => l,
        None => return Err(err(EINVAL)),
    };
    if len == 0 {
        return Ok(0);
    }
    match validate_readable(space, mem, buf, len) {
        Ok(()) => Ok(len),
        Err(_) => Err(err(EFAULT)),
    }
}

/// What `debug_log(buf, len)` does before its copy: as `write` to the
/// serial log, without a descriptor.
pub fn sys_debug_log(space: &AddressSpace, mem: &PhysMem, buf: u64, len: u64) -> (r: Result<usize, i64>)
    requires
        mem.wf(),
    ensures
        len > MAX_IO_LEN ==> r == Err::<usize, i64>(-(EINVAL as int) as i64),
        len <= MAX_IO_LEN ==> r == (if len == 0 {
            Ok::<usize, i64>(0)
        } else if !range_ok(mem@, space.pml4.0, buf, len as int, false) {
            Err::<usize, i64>(-(EFAULT as int) as i64)
        } else {
            Ok::<usize, i64>(len as usize)
        }),
{
    let len = match clamp_io_len(len) {
        Some(l) => l,
        None => return Err(err(EINVAL)),
    };
    if len == 0 {
        return Ok(0);
    }
    match validate_readable(space, mem, buf, len) {
        Ok(()) => Ok(len),
        Err(_) => Err(err(EFAULT)),
    }
}

/// What `read(fd, buf, len)` does before it waits for a key: `-EINVAL`
/// unless `fd` is 0; `Ok(0)` for an empty read; `-EFAULT` unless the
/// first byte of the buffer is user-writable, checked before waiting so
/// that a bad buffer never blocks. Otherwise `Ok(1)`: the caller waits for
/// one character, copies it to `buf` and answers 1 (or `-EFAULT` if the
/// copy faults).
pub fn sys_read(space: &AddressSpace, mem: &PhysMem, fd: u64, buf: u64, len: u64) -> (r: Result<usize, i64>)
    requires
        mem.wf(),
    ensures
        r == (if fd != 0 {
            Err::<usize, i64>(-(EINVAL as int) as i64)
        } else if len == 0 {
            Ok::<usize, i64>(0)
        } else if !range_ok(mem@, space.pml4.0, buf, 1, true) {
            Err::<usize, i64>(-(EFAULT as int) as i64)
        } else {
            Ok::<usize, i64>(1)
        }),
{
    if fd != 0 {
        return Err(err(EINVAL));
    }
    if len == 0 {
        return Ok(0);
    }
    match validate_writable(space, mem, buf, 1) {
        Ok(()) => Ok(1),
        Err(_) => Err(err(EFAULT)),
    }
}

/// `getpid()`: the calling process's pid.
pub fn sys_getpid(reg: &Registry, s: &Scheduler) -> (r: i64)
    requires
        reg.wf(),
        reg.current_pid_spec(s@) is Some,
    ensures
        r == reg.current_pid_spec(s@)->0 as i64,
{
    current(reg, s).pid() as i64
}

/// `yield()`: gives up the CPU and answers 0.
pub fn sys_yield(s: &mut Scheduler) -> (r: (i64, Switch))
    requires
        old(s).wf(),
        old(s)@.pick_queue().len() <= MAX_THREADS,
    ensures
        r.0 == 0,
        final(s)@.settled(),
        switch_done(old(s)@, final(s)@, r.1),
{
    (0, yield_now(s))
}

/// `sleep_ms(ms)` at tick `now`: sleeps and answers 0.
pub fn sys_sleep_ms(s: &mut Scheduler, now: u64, ms: u64) -> (r: (i64, Switch))
    requires
        old(s)@.settled(),
        old(s)@.ready.len() <= MAX_THREADS,
    ensures
        r.0 == 0,
        final(s)@.settled(),
        switch_done(asleep(old(s)@, now.saturating_add(ms)), final(s)@, r.1),
{
    (0, sleep_ms(s, now, ms))
}

/// The answer to a `map_anon` outcome: the mapping's address, or
/// `-EINVAL` / `-ENOMEM`.
pub open spec fn map_anon_answer(r: Result<VirtAddr, MapAnonError>) -> i64 {
    match r {
        Ok(a) => a.0 as i64,
        Err(MapAnonError::Invalid) => -(EINVAL as int) as i64,
        Err(MapAnonError::OutOfMemory) => -(ENOMEM as int) as i64,
    }
}

/// `map_anon(len)` for the calling process (see `Process::map_anon`).
pub fn sys_map_anon(reg: &mut Registry, s: &Scheduler, mem: &mut PhysMem, pmm: &mut Pmm, len: u64) -> (r: i64)
    requires
        old(reg).wf(),
        old(reg).agrees(s@),
        old(reg).current_pid_spec(s@) is Some,
        old(reg).processes()[old(reg).current_pid_spec(s@)->0].wf(),
        old(reg).processes()[old(reg).current_pid_spec(s@)->0].anon_free(old(mem)@),
        old(mem).wf(),
        old(pmm).wf(),
        owns_tables(old(pmm), old(mem)@),
        tree_ok(old(mem)@, old(mem).levels(), old(reg).processes()[old(reg).current_pid_spec(s@)->0].space_spec().pml4.0),
    ensures
        final(reg).wf(),
        final(reg).agrees(s@),
        final(mem).wf(),
        final(pmm).wf(),
        owns_tables(final(pmm), final(mem)@),
        len > usize::MAX ==> r == -(EINVAL as int) as i64 && *final(reg) == *old(reg)
            && final(mem)@ == old(mem)@ && *final(pmm) == *old(pmm),
        len <= usize::MAX ==> exists|out: Result<VirtAddr, MapAnonError>| {
            let pid = old(reg).current_pid_spec(s@)->0;
            &&& r == #[trigger] map_anon_answer(out)
            &&& anon_mapped(old(reg).processes()[pid], final(reg).processes()[pid], old(mem)@, final(mem)@,
                *old(pmm), *final(pmm), len as int, out)
        },
{
    if len > usize::MAX as u64 {
        return err(EINVAL);
    }
    let out = map_anon_current(reg, s, mem, pmm, len as usize);
    let r = match out {
        Ok(a) => a.as_u64() as i64,
        Err(MapAnonError::Invalid) => err(EINVAL),
        Err(MapAnonError::OutOfMemory) => err(ENOMEM),
    };
    proof {
        assert(r == map_anon_answer(out));
    }
    r
}

/// `unmap(addr, len)` for the calling process (see `Process::unmap`):
/// 0, or `-EINVAL` with nothing changed.
pub fn sys_unmap(reg: &Registry, s: &Scheduler, mem: &mut PhysMem, pmm: &mut Pmm, addr: u64, len: u64) -> (r: i64)
    requires
        reg.wf(),
        reg.current_pid_spec(s@) is Some,
        old(mem).wf(),
        old(pmm).wf(),
        owns_tables(old(pmm), old(mem)@),
        tree_ok(old(mem)@, old(mem).levels(), reg.processes()[reg.current_pid_spec(s@)->0].space_spec().pml4.0),
        frames_releasable(old(mem)@, reg.processes()[reg.current_pid_spec(s@)->0].space_spec().pml4.0, old(pmm), addr, len as int),
    ensures
        final(mem).wf(),
        final(pmm).wf(),
        owns_tables(final(pmm), final(mem)@),
        ({
            let root = reg.processes()[reg.current_pid_spec(s@)->0].space_spec().pml4.0;
            &&& tree_ok(final(mem)@, final(mem).levels(), root)
            &&& (r == 0) == (unmap_request_ok(addr, len) && range_mapped(old(mem)@, root, addr, len as int))
            &&& r != 0 ==> r == -(EINVAL as int) as i64 && final(mem)@ == old(mem)@ && *final(pmm) == *old(pmm)
            &&& r == 0 ==> (forall|v: u64| v % 4096 == 0 && addr <= v < addr + len ==> (#[trigger] walk(final(mem)@, root, v)) is None)
                && (forall|v: u64| #[trigger] page_outside(v, addr, len as int) ==> walk(final(mem)@, root, v) == walk(old(mem)@, root, v))
        }),
{
    let p = current(reg, s);
    match p.unmap(mem, pmm, addr, len) {
        Ok(()) => 0,
        Err(()) => err(EINVAL),
    }
}

/// The answer to `wait(pid)` once it is known: the exit code, or `-ESRCH`
/// for no such process; `None` while the process still runs (the caller
/// waits for its thread and asks again).
pub fn wait_answer(step: &WaitStep) -> (r: Option<i64>)
    ensures
        r == match *step {
            WaitStep::NoProcess => Some(-(ESRCH as int) as i64),
            WaitStep::Running(_) => None::<i64>,
            WaitStep::Collected(code, _) => Some(code as i64),
        },
{
    match step {
        WaitStep::NoProcess => Some(err(ESRCH)),
        WaitStep::Running(_) => None,
        WaitStep::Collected(code, _) => Some(*code as i64),
    }
}

/// What `kill(pid)` did.
pub enum KillOutcome {
    /// `pid` is the caller's own process: it exited with
    /// `KILLED_EXIT_CODE`, so the call never answers; carries its address
    /// space if this exit is the first, and the switch away.
    ExitedSelf(Option<AddressSpace>, Switch),
    /// Another process: the answer (0, or `-ESRCH` for no such process),
    /// its address space if it exits now for the first time, and the
    /// kernel stack its thread gave back, if any.
    Answered(i64, Option<AddressSpace>, Option<KernelStack>),
}

/// `kill(pid)` from the calling process (see `proc::kill` and
/// `proc::exit_current_process`).
pub fn sys_kill(reg: &mut Registry, s: &mut Scheduler, pid: u64) -> (r: KillOutcome)
    requires
        old(reg).wf(),
        old(reg).agrees(old(s)@),
        old(s).wf(),
        old(reg).current_pid_spec(old(s)@) is Some,
        old(s)@.ready.len() <= MAX_THREADS,
    ensures
        final(reg).wf(),
        final(reg).agrees(final(s)@),
        (r is ExitedSelf) == (old(reg).current_pid_spec(old(s)@) == Some(pid)),
        r is ExitedSelf ==> final(reg).processes()[pid].exiting_spec(),
        r matches KillOutcome::Answered(code, _, _) ==> {
            &&& code == (if old(reg).processes().contains_key(pid) { 0 } else { -(ESRCH as int) as i64 })
            &&& old(reg).processes().contains_key(pid) ==> final(reg).processes()[pid].exiting_spec()
        },
{
    if current_pid(reg, s) == Some(pid) {
        let (space, sw) = exit_current_process(reg, s, KILLED_EXIT_CODE);
        return KillOutcome::ExitedSelf(space, sw);
    }
    let (found, space, stack) = kill(reg, s, pid, KILLED_EXIT_CODE);
    KillOutcome::Answered(if found { 0 } else { err(ESRCH) }, space, stack)
}

} // verus!
