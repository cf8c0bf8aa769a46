//! User processes: the registry of live processes, the ELF loader, and
//! checked access to user memory.
pub mod elf;
pub mod exec;
pub mod fault;
pub mod process;
pub mod usermem;

use vstd::prelude::*;
use crate::mm::kstack::KernelStack;
use crate::mm::vmm::AddressSpace;
use crate::sched::{Scheduler, SchedView, ThreadId, Switch, ThreadState, MAX_THREADS};
use crate::proc::process::{Pid, Process, ANON_BASE, STACK_RESERVED, MapAnonError, anon_mapped, stack_grown};
use crate::mm::addr::VirtAddr;
use crate::mm::pmm::Pmm;
use crate::mm::vmm::{PhysMem, owns_tables, walk, t1, t3, pd_entry};
use crate::mm::vmm::space::user_pml4;
use crate::mm::vmm::tree::unmapped_4k;
use crate::mm::bitmap::free_count;
use crate::mm::paging::va_index;
use crate::fs::initramfs::{Initramfs, open, first_match, trim_slashes};
use crate::proc::elf::{PageCopy, ProgramHeader, SEGMENT_LOW, SEGMENT_HIGH, check, check_spec, load, span_pages, in_span, segment_page_mapped, segments_ok, lemma_check_facts,
    page_fresh, load_copies, copy_in_bounds, frame_at, span_len, span_page, lemma_load_copies_frames, lemma_span_page};
use crate::proc::exec::{build_image, image_len, padded_len, image_byte, args_of, StackError};
use crate::proc::process::{user_page_mapped, map_user_pages};
use vstd::string::StringSliceAdditionalSpecFns;
use crate::mm::vmm::tree::tree_ok;
use crate::proc::exec::INITIAL_STACK_MAPPED;
use crate::proc::usermem::USER_SPACE_CEILING;
use crate::proc::elf::ElfError;
use std::collections::BTreeMap;

verus! {

broadcast use vstd::laws_cmp::group_laws_cmp, vstd::std_specs::btree::group_btree_axioms;

/// Why a process could not be started.
#[derive(Debug)]
pub enum SpawnError {
    NotFound,
    BadElf(ElfError),
    OutOfMemory,
    BadStack,
}

/// Every live process, by pid, and the process each main thread belongs
/// to.
pub struct Registry {
    processes: BTreeMap<Pid, Process>,
    thread_to_pid: BTreeMap<ThreadId, Pid>,
    next_pid: Pid,
}

impl Registry {
    pub closed spec fn processes(&self) -> Map<Pid, Process> {
        self.processes@
    }

    pub closed spec fn owners(&self) -> Map<ThreadId, Pid> {
        self.thread_to_pid@
    }

    pub closed spec fn next_pid_spec(&self) -> Pid {
        self.next_pid
    }

    /// The registry's invariant: each process is filed under its pid,
    /// below the next pid, and its main thread maps back to it; every
    /// thread listed belongs to a listed process whose main thread it is.
    pub open spec fn wf(&self) -> bool {
        &&& forall|pid: Pid| #[trigger] self.processes().contains_key(pid) ==> {
            let p = self.processes()[pid];
            &&& p.pid_spec() == pid
            &&& pid < self.next_pid_spec()
            &&& self.owners().contains_key(p.main_thread_spec())
            &&& self.owners()[p.main_thread_spec()] == pid
        }
        &&& forall|t: ThreadId| #[trigger] self.owners().contains_key(t) ==> {
            &&& self.processes().contains_key(self.owners()[t])
            &&& self.processes()[self.owners()[t]].main_thread_spec() == t
        }
        &&& self.next_pid_spec() < u64::MAX
    }

    /// Every process's main thread is a thread of `s` other than the idle
    /// thread.
    pub open spec fn agrees(&self, s: SchedView) -> bool {
        forall|pid: Pid| #[trigger] self.processes().contains_key(pid) ==> {
            let t = self.processes()[pid].main_thread_spec();
            &&& s.has(t)
            &&& t != s.idle
        }
    }

    /// The process the current thread of `s` belongs to, if any.
    pub open spec fn current_pid_spec(&self, s: SchedView) -> Option<Pid> {
        if self.owners().contains_key(s.current) { Some(self.owners()[s.current]) } else { None }
    }

    /// No processes yet; the first pid is 1.
    pub fn new() -> (r: Self)
        ensures
            r.wf(),
            r.processes() == Map::<Pid, Process>::empty(),
            r.owners() == Map::<ThreadId, Pid>::empty(),
            r.next_pid_spec() == 1,
    {
        Registry { processes: BTreeMap::new(), thread_to_pid: BTreeMap::new(), next_pid: 1 }
    }

    /// Hands out the next pid.
    fn take_pid(&mut self) -> (r: Pid)
        requires
            old(self).wf(),
            old(self).next_pid_spec() + 1 < u64::MAX,
        ensures
            final(self).wf(),
            r == old(self).next_pid_spec(),
            final(self).next_pid_spec() == r + 1,
            final(self).processes() == old(self).processes(),
            final(self).owners() == old(self).owners(),
    {
        let pid = self.next_pid;
        self.next_pid = self.next_pid + 1;
        proof {
            assert forall|q: Pid| #[trigger] self.processes().contains_key(q) implies {
                let p = self.processes()[q];
                &&& p.pid_spec() == q
                &&& q < self.next_pid_spec()
                &&& self.owners().contains_key(p.main_thread_spec())
                &&& self.owners()[p.main_thread_spec()] == q
            } by {
                assert(old(self).processes().contains_key(q));
            }
            assert forall|t: ThreadId| #[trigger] self.owners().contains_key(t) implies {
                &&& self.processes().contains_key(self.owners()[t])
                &&& self.processes()[self.owners()[t]].main_thread_spec() == t
            } by {
                assert(old(self).owners().contains_key(t));
            }
        }
        pid
    }

    /// Files `process` under its pid, with its main thread.
    fn register(&mut self, process: Process)
        requires
            old(self).wf(),
            process.pid_spec() < old(self).next_pid_spec(),
            !old(self).processes().contains_key(process.pid_spec()),
            !old(self).owners().contains_key(process.main_thread_spec()),
        ensures
            final(self).wf(),
            final(self).processes() == old(self).processes().insert(process.pid_spec(), process),
            final(self).owners() == old(self).owners().insert(process.main_thread_spec(), process.pid_spec()),
            final(self).next_pid_spec() == old(self).next_pid_spec(),
    {
        let pid = process.pid();
        let tid = process.main_thread_id();
        self.thread_to_pid.insert(tid, pid);
        self.processes.insert(pid, process);
        proof {
            let old_r = old(self);
            assert forall|q: Pid| #[trigger] self.processes().contains_key(q) implies {
                let p = self.processes()[q];
                &&& p.pid_spec() == q
                &&& q < self.next_pid_spec()
                &&& self.owners().contains_key(p.main_thread_spec())
                &&& self.owners()[p.main_thread_spec()] == q
            } by {
                if q != pid {
                    assert(old_r.processes().contains_key(q));
                    let p = old_r.processes()[q];
                    assert(p.main_thread_spec() != tid);
                }
            }
            assert forall|t: ThreadId| #[trigger] self.owners().contains_key(t) implies {
                &&& self.processes().contains_key(self.owners()[t])
                &&& self.processes()[self.owners()[t]].main_thread_spec() == t
            } by {
                if t != tid {
                    assert(old_r.owners().contains_key(t));
                    assert(old_r.owners()[t] != pid);
                }
            }
        }
    }
}

/// The process with id `pid`, if it is live.
pub fn find(reg: &Registry, pid: Pid) -> (r: Option<&Process>)
    ensures
        match r {
            Some(p) => reg.processes().contains_key(pid) && *p == reg.processes()[pid],
            None => !reg.processes().contains_key(pid),
        },
{
    reg.processes.get(&pid)
}

/// The process the current thread belongs to, if any.
pub fn current_pid(reg: &Registry, s: &Scheduler) -> (r: Option<Pid>)
    ensures
        r == reg.current_pid_spec(s@),
{
    let tid = crate::sched::current_id(s);
    match reg.thread_to_pid.get(&tid) {
        Some(p) => Some(*p),
        None => None,
    }
}

/// The process the current thread belongs to, which must be one.
pub fn current<'a>(reg: &'a Registry, s: &Scheduler) -> (r: &'a Process)
    requires
        reg.wf(),
        reg.current_pid_spec(s@) is Some,
    ensures
        *r == reg.processes()[reg.current_pid_spec(s@)->0],
{
    let pid = current_pid(reg, s).unwrap();
    reg.processes.get(&pid).unwrap()
}

/// Starts a process named `name` in the prepared address space `space`:
/// it gets the next pid and a user thread on `stack`, first switched to at
/// `rsp`, which is queued to run.
pub fn spawn_payload(reg: &mut Registry, s: &mut Scheduler, name: String, space: AddressSpace, stack: KernelStack, rsp: u64, stack_top: u64) -> (r: Pid)
    requires
        stack_top % 4096 == 0,
        STACK_RESERVED <= stack_top <= USER_SPACE_CEILING,
        old(reg).wf(),
        old(reg).agrees(old(s)@),
        old(reg).next_pid_spec() + 1 < u64::MAX,
        old(s).wf(),
        old(s)@.ready.len() < MAX_THREADS,
        old(s)@.next_id + 1 < u64::MAX,
    ensures
        final(reg).wf(),
        final(reg).agrees(final(s)@),
        r == old(reg).next_pid_spec(),
        final(reg).processes().dom() == old(reg).processes().dom().insert(r),
        final(reg).processes()[r].pid_spec() == r,
        final(reg).processes()[r].name_spec() == name@,
        final(reg).processes()[r].space_spec() == space,
        final(reg).processes()[r].main_thread_spec() == old(s)@.next_id,
        !final(reg).processes()[r].exiting_spec(),
        final(reg).processes()[r].anon_cursor_spec() == ANON_BASE,
        final(reg).processes()[r].stack_top_spec() == stack_top,
        final(reg).processes()[r].stack_low_spec() == stack_top - INITIAL_STACK_MAPPED,
        forall|q: Pid| q != r && #[trigger] old(reg).processes().contains_key(q) ==> final(reg).processes()[q] == old(reg).processes()[q],
        final(s).wf(),
        final(s)@ == crate::sched::spawned(old(s)@, crate::sched::fresh_thread(old(s)@.next_id, name, stack, rsp, Some(space))),
        old(s)@.settled() ==> final(s)@.settled(),
{
    let pid = reg.take_pid();
    let thread_name = name.clone();
    let ghost s0 = s@;
    let tid = crate::sched::spawn_user(s, thread_name, stack, rsp, space);
    let process = Process::new(pid, name, space, tid, stack_top);
    proof {
        crate::sched::lemma_spawned(s0, crate::sched::fresh_thread(tid, name, stack, rsp, Some(space)));
        let j = choose|j: int| crate::sched::has_thread(s0.threads, s0.idle, j);
        assert(s0.threads[j].id < s0.next_id);
        assert(!reg.processes().contains_key(pid));
        if reg.owners().contains_key(tid) {
            let q = reg.owners()[tid];
            assert(reg.processes().contains_key(q));
            assert(s0.has(tid));
            let i = choose|i: int| crate::sched::has_thread(s0.threads, tid, i);
            assert(s0.threads[i].id < s0.next_id);
        }
    }
    reg.register(process);
    proof {
        assert forall|q: Pid| #[trigger] reg.processes().contains_key(q) implies {
            let t = reg.processes()[q].main_thread_spec();
            &&& s@.has(t)
            &&& t != s@.idle
        } by {
            if q != pid {
                assert(old(reg).processes().contains_key(q));
                assert(s0.has(reg.processes()[q].main_thread_spec()));
            }
        }
        assert(reg.processes().dom() =~= old(reg).processes().dom().insert(pid));
    }
    pid
}

impl Registry {
    /// Marks process `pid` as exiting; its address space if this was the
    /// first time (to be torn down), else `None`.
    fn begin_exit(&mut self, pid: Pid) -> (r: Option<AddressSpace>)
        requires
            old(self).wf(),
            old(self).processes().contains_key(pid),
        ensures
            final(self).wf(),
            r == (if old(self).processes()[pid].exiting_spec() { None } else { Some(old(self).processes()[pid].space_spec()) }),
            final(self).processes().dom() == old(self).processes().dom(),
            final(self).processes()[pid].exiting_spec(),
            final(self).processes()[pid].pid_spec() == old(self).processes()[pid].pid_spec(),
            final(self).processes()[pid].name_spec() == old(self).processes()[pid].name_spec(),
            final(self).processes()[pid].space_spec() == old(self).processes()[pid].space_spec(),
            final(self).processes()[pid].main_thread_spec() == old(self).processes()[pid].main_thread_spec(),
            forall|q: Pid| q != pid && #[trigger] old(self).processes().contains_key(q) ==> final(self).processes()[q] == old(self).processes()[q],
            final(self).owners() == old(self).owners(),
            final(self).next_pid_spec() == old(self).next_pid_spec(),
    {
        let mut p = self.processes.remove(&pid).unwrap();
        let first = p.begin_exit();
        let space = p.address_space();
        self.processes.insert(pid, p);
        proof {
            let old_r = old(self);
            assert(self.processes() =~= old_r.processes().insert(pid, self.processes()[pid]));
            assert(self.processes().dom() =~= old_r.processes().dom());
            assert forall|q: Pid| #[trigger] self.processes().contains_key(q) implies {
                let p = self.processes()[q];
                &&& p.pid_spec() == q
                &&& q < self.next_pid_spec()
                &&& self.owners().contains_key(p.main_thread_spec())
                &&& self.owners()[p.main_thread_spec()] == q
            } by {
                assert(old_r.processes().contains_key(q));
            }
            assert forall|t: ThreadId| #[trigger] self.owners().contains_key(t) implies {
                &&& self.processes().contains_key(self.owners()[t])
                &&& self.processes()[self.owners()[t]].main_thread_spec() == t
            } by {
                assert(old_r.owners().contains_key(t));
            }
        }
        if first { Some(space) } else { None }
    }
}

/// Ends process `pid`, which must not be the calling process, with exit
/// code `code`: its main thread is ended as by `sched::force_exit`, and
/// it is marked exiting. Returns whether it existed, its address space if
/// this is the first time it exits (for the caller to tear down), and the
/// kernel stack `force_exit` handed back, if any.
pub fn kill(reg: &mut Registry, s: &mut Scheduler, pid: Pid, code: i32) -> (r: (bool, Option<AddressSpace>, Option<KernelStack>))
    requires
        old(reg).wf(),
        old(reg).agrees(old(s)@),
        old(s).wf(),
        old(reg).current_pid_spec(old(s)@) != Some(pid),
    ensures
        final(reg).wf(),
        final(reg).agrees(final(s)@),
        final(s).wf(),
        old(s)@.settled() ==> final(s)@.settled(),
        !old(reg).processes().contains_key(pid) ==> r == (false, None::<AddressSpace>, None::<KernelStack>)
            && final(s)@ == old(s)@ && *final(reg) == *old(reg),
        old(reg).processes().contains_key(pid) ==> {
            let p = old(reg).processes()[pid];
            let t = p.main_thread_spec();
            let st = old(s)@.thread(t).state;
            &&& r.0
            &&& r.1 == (if p.exiting_spec() { None } else { Some(p.space_spec()) })
            &&& final(reg).processes().dom() == old(reg).processes().dom()
            &&& final(reg).processes()[pid].exiting_spec()
            &&& forall|q: Pid| q != pid && #[trigger] old(reg).processes().contains_key(q)
                ==> final(reg).processes()[q] == old(reg).processes()[q]
            &&& st == ThreadState::Exited ==> r.2 == None::<KernelStack> && final(s)@ == old(s)@
            &&& st != ThreadState::Exited ==> final(s)@ == old(s)@.ended(t, code) && r.2 == (
                if st == ThreadState::Blocked || st == ThreadState::Sleeping { Some(old(s)@.thread(t).stack) } else { None })
        },
{
    let tid = match reg.processes.get(&pid) {
        Some(p) => p.main_thread_id(),
        None => return (false, None, None),
    };
    proof {
        assert(reg.owners()[tid] == pid);
        assert(tid != s@.current);
    }
    let ghost s0 = s@;
    let (_found, stack) = crate::sched::force_exit(s, tid, code);
    let space = reg.begin_exit(pid);
    proof {
        if s0.thread(tid).state != ThreadState::Exited {
            crate::sched::lemma_same_ids(s0, s@);
        }
        assert forall|q: Pid| #[trigger] reg.processes().contains_key(q) implies {
            let t = reg.processes()[q].main_thread_spec();
            &&& s@.has(t)
            &&& t != s@.idle
        } by {
            assert(old(reg).processes().contains_key(q));
        }
    }
    (true, space, stack)
}

/// Ends the calling process with exit code `code`: it is marked exiting,
/// the current thread gets `code` as its exit code and exits (see
/// `sched::exit_current`). Returns the address space to tear down if this
/// is the first time the process exits, and the switch away.
pub fn exit_current_process(reg: &mut Registry, s: &mut Scheduler, code: i32) -> (r: (Option<AddressSpace>, Switch))
    requires
        old(reg).wf(),
        old(reg).agrees(old(s)@),
        old(s).wf(),
        old(reg).current_pid_spec(old(s)@) is Some,
        old(s)@.ready.len() <= MAX_THREADS,
    ensures
        final(reg).wf(),
        final(reg).agrees(final(s)@),
        final(s)@.settled(),
        ({
            let pid = old(reg).current_pid_spec(old(s)@)->0;
            let p = old(reg).processes()[pid];
            let cur = old(s)@.current;
            &&& r.0 == (if p.exiting_spec() { None } else { Some(p.space_spec()) })
            &&& final(reg).processes().dom() == old(reg).processes().dom()
            &&& final(reg).processes()[pid].exiting_spec()
            &&& forall|q: Pid| q != pid && #[trigger] old(reg).processes().contains_key(q)
                ==> final(reg).processes()[q] == old(reg).processes()[q]
            &&& crate::sched::switch_done(crate::sched::with_current_code(old(s)@, code).with_state(cur, ThreadState::Exited), final(s)@, r.1)
        }),
{
    let pid = current_pid(reg, s).unwrap();
    let ghost s0 = s@;
    proof {
        assert(reg.processes().contains_key(pid));
        assert(reg.processes()[pid].main_thread_spec() == s0.current);
    }
    let space = reg.begin_exit(pid);
    crate::sched::set_current_exit_code(s, code);
    let ghost s1 = s@;
    let sw = crate::sched::exit_current(s);
    proof {
        let s2 = s1.with_state(s1.current, ThreadState::Exited);
        crate::sched::lemma_same_ids(s0, s1);
        crate::sched::lemma_same_ids(s1, s2);
        assert forall|i: int| 0 <= i < s2.threads.len() implies (#[trigger] s2.threads[i]).id == s@.threads[i].id by {
            assert(crate::sched::same_but_state(s2.threads[i], s@.threads[i]));
        }
        crate::sched::lemma_same_ids(s2, s@);
        assert forall|q: Pid| #[trigger] reg.processes().contains_key(q) implies {
            let t = reg.processes()[q].main_thread_spec();
            &&& s@.has(t)
            &&& t != s@.idle
        } by {
            assert(old(reg).processes().contains_key(q));
        }
    }
    (space, sw)
}

/// What `wait` found.
#[derive(Debug)]
pub enum WaitStep {
    /// No such process: there never was one, or it was already collected.
    NoProcess,
    /// The process still runs: its main thread (this id) has not exited.
    /// The caller waits for that thread and asks again.
    Running(ThreadId),
    /// The process had exited with this code and is now collected: it is
    /// gone from the registry, and its address space goes back to the
    /// caller to free.
    Collected(i32, AddressSpace),
}

impl Registry {
    /// Removes process `pid`, and its main thread's entry.
    fn collect(&mut self, pid: Pid) -> (r: Process)
        requires
            old(self).wf(),
            old(self).processes().contains_key(pid),
        ensures
            final(self).wf(),
            r == old(self).processes()[pid],
            final(self).processes() == old(self).processes().remove(pid),
            final(self).owners() == old(self).owners().remove(r.main_thread_spec()),
            final(self).next_pid_spec() == old(self).next_pid_spec(),
    {
        let p = self.processes.remove(&pid).unwrap();
        let tid = p.main_thread_id();
        self.thread_to_pid.remove(&tid);
        proof {
            let old_r = old(self);
            assert(self.processes() =~= old_r.processes().remove(pid));
            assert(self.owners() =~= old_r.owners().remove(tid));
            assert forall|q: Pid| #[trigger] self.processes().contains_key(q) implies {
                let pq = self.processes()[q];
                &&& pq.pid_spec() == q
                &&& q < self.next_pid_spec()
                &&& self.owners().contains_key(pq.main_thread_spec())
                &&& self.owners()[pq.main_thread_spec()] == q
            } by {
                assert(old_r.processes().contains_key(q));
                let pq = old_r.processes()[q];
                assert(old_r.owners()[pq.main_thread_spec()] == q);
                assert(pq.main_thread_spec() != tid);
            }
            assert forall|t: ThreadId| #[trigger] self.owners().contains_key(t) implies {
                &&& self.processes().contains_key(self.owners()[t])
                &&& self.processes()[self.owners()[t]].main_thread_spec() == t
            } by {
                assert(old_r.owners().contains_key(t));
                assert(old_r.owners()[t] != pid);
            }
        }
        p
    }
}

/// Waits for process `pid`: `NoProcess` if there is no such process;
/// `Running` with its main thread while that thread has not exited; once
/// it has, the process is collected, removed from the registry with its
/// thread's entry, and `Collected` carries the thread's exit code and the
/// process's address space.
pub fn wait(reg: &mut Registry, s: &Scheduler, pid: Pid) -> (r: WaitStep)
    requires
        old(reg).wf(),
        old(reg).agrees(s@),
        s.wf(),
    ensures
        final(reg).wf(),
        final(reg).agrees(s@),
        !old(reg).processes().contains_key(pid) ==> r is NoProcess && *final(reg) == *old(reg),
        old(reg).processes().contains_key(pid) ==> {
            let p = old(reg).processes()[pid];
            let t = p.main_thread_spec();
            if s@.thread(t).state != ThreadState::Exited {
                &&& r == WaitStep::Running(t)
                &&& *final(reg) == *old(reg)
            } else {
                &&& r == WaitStep::Collected(s@.thread(t).exit_code, p.space_spec())
                &&& final(reg).processes() == old(reg).processes().remove(pid)
                &&& final(reg).owners() == old(reg).owners().remove(t)
                &&& final(reg).next_pid_spec() == old(reg).next_pid_spec()
            }
        },
{
    let tid = match reg.processes.get(&pid) {
        Some(p) => p.main_thread_id(),
        None => return WaitStep::NoProcess,
    };
    match crate::sched::join(s, tid) {
        None => WaitStep::Running(tid),
        Some(code) => {
            let p = reg.collect(pid);
            proof {
                assert forall|q: Pid| #[trigger] reg.processes().contains_key(q) implies {
                    let t = reg.processes()[q].main_thread_spec();
                    &&& s@.has(t)
                    &&& t != s@.idle
                } by {
                    assert(old(reg).processes().contains_key(q));
                }
            }
            WaitStep::Collected(code, p.address_space())
        },
    }
}

impl Registry {
    /// Puts process `p` back as process `pid`, after `pid` was taken out
    /// of `r0`: `p` keeps the pid and the main thread it had there.
    proof fn lemma_put_back(r0: Registry, r1: Registry, pid: Pid, p: Process)
        requires
            r0.wf(),
            r0.processes().contains_key(pid),
            p.pid_spec() == pid,
            p.main_thread_spec() == r0.processes()[pid].main_thread_spec(),
            r1.processes() == r0.processes().insert(pid, p),
            r1.owners() == r0.owners(),
            r1.next_pid_spec() == r0.next_pid_spec(),
        ensures
            r1.wf(),
    {
        assert forall|q: Pid| #[trigger] r1.processes().contains_key(q) implies {
            let pq = r1.processes()[q];
            &&& pq.pid_spec() == q
            &&& q < r1.next_pid_spec()
            &&& r1.owners().contains_key(pq.main_thread_spec())
            &&& r1.owners()[pq.main_thread_spec()] == q
        } by {
            assert(r0.processes().contains_key(q));
        }
        assert forall|t: ThreadId| #[trigger] r1.owners().contains_key(t) implies {
            &&& r1.processes().contains_key(r1.owners()[t])
            &&& r1.processes()[r1.owners()[t]].main_thread_spec() == t
        } by {
            assert(r0.owners().contains_key(t));
        }
    }
}

/// `map_anon(len)` for the calling process (see `Process::map_anon`).
pub fn map_anon_current(reg: &mut Registry, s: &Scheduler, mem: &mut PhysMem, pmm: &mut Pmm, len: usize)
    -> (r: Result<VirtAddr, MapAnonError>)
    requires
        old(reg).wf(),
        old(reg).agrees(s@),
        old(reg).current_pid_spec(s@) is Some,
        old(reg).processes()[old(reg).current_pid_spec(s@)->0].wf(),
        old(reg).processes()[old(reg).current_pid_spec(s@)->0].anon_free(old(mem)@),
        old(mem).wf(),
        old(pmm).wf(),
        owns_tables(old(pmm), old(mem)@),
        tree_ok(old(mem)@, old(mem).levels(), old(reg).processes()[old(reg).current_pid_spec(s@)->0].space_spec().pml4.0),
    ensures
        final(reg).wf(),
        final(reg).agrees(s@),
        final(mem).wf(),
        final(pmm).wf(),
        owns_tables(final(pmm), final(mem)@),
        ({
            let pid = old(reg).current_pid_spec(s@)->0;
            &&& final(reg).processes().dom() == old(reg).processes().dom()
            &&& forall|q: Pid| q != pid && #[trigger] old(reg).processes().contains_key(q)
                ==> final(reg).processes()[q] == old(reg).processes()[q]
            &&& final(reg).owners() == old(reg).owners()
            &&& tree_ok(final(mem)@, final(mem).levels(), old(reg).processes()[pid].space_spec().pml4.0)
            &&& anon_mapped(old(reg).processes()[pid], final(reg).processes()[pid], old(mem)@, final(mem)@,
                *old(pmm), *final(pmm), len as int, r)
        }),
{
    let pid = current_pid(reg, s).unwrap();
    let mut p = reg.processes.remove(&pid).unwrap();
    let ghost r0 = *old(reg);
    let r = p.map_anon(mem, pmm, len);
    reg.processes.insert(pid, p);
    proof {
        assert(reg.processes() =~= r0.processes().insert(pid, p));
        Registry::lemma_put_back(r0, *reg, pid, p);
        assert(reg.processes().dom() =~= r0.processes().dom());
        assert forall|q: Pid| #[trigger] reg.processes().contains_key(q) implies {
            let t = reg.processes()[q].main_thread_spec();
            &&& s@.has(t)
            &&& t != s@.idle
        } by {
            assert(r0.processes().contains_key(q));
        }
    }
    r
}

/// `try_grow_stack(fault_addr)` for the calling process (see
/// `Process::try_grow_stack`).
pub fn grow_stack_current(reg: &mut Registry, s: &Scheduler, mem: &mut PhysMem, pmm: &mut Pmm, fault_addr: u64) -> (r: bool)
    requires
        old(reg).wf(),
        old(reg).agrees(s@),
        old(reg).current_pid_spec(s@) is Some,
        old(reg).processes()[old(reg).current_pid_spec(s@)->0].wf(),
        old(reg).processes()[old(reg).current_pid_spec(s@)->0].stack_free(old(mem)@),
        old(mem).wf(),
        old(pmm).wf(),
        owns_tables(old(pmm), old(mem)@),
        tree_ok(old(mem)@, old(mem).levels(), old(reg).processes()[old(reg).current_pid_spec(s@)->0].space_spec().pml4.0),
    ensures
        final(reg).wf(),
        final(reg).agrees(s@),
        final(mem).wf(),
        final(pmm).wf(),
        owns_tables(final(pmm), final(mem)@),
        ({
            let pid = old(reg).current_pid_spec(s@)->0;
            &&& final(reg).processes().dom() == old(reg).processes().dom()
            &&& forall|q: Pid| q != pid && #[trigger] old(reg).processes().contains_key(q)
                ==> final(reg).processes()[q] == old(reg).processes()[q]
            &&& final(reg).owners() == old(reg).owners()
            &&& tree_ok(final(mem)@, final(mem).levels(), old(reg).processes()[pid].space_spec().pml4.0)
            &&& stack_grown(old(reg).processes()[pid], final(reg).processes()[pid], old(mem)@, final(mem)@,
                *old(pmm), *final(pmm), fault_addr, r)
        }),
{
    let pid = current_pid(reg, s).unwrap();
    let mut p = reg.processes.remove(&pid).unwrap();
    let ghost r0 = *old(reg);
    let r = p.try_grow_stack(mem, pmm, fault_addr);
    reg.processes.insert(pid, p);
    proof {
        assert(reg.processes() =~= r0.processes().insert(pid, p));
        Registry::lemma_put_back(r0, *reg, pid, p);
        assert(reg.processes().dom() =~= r0.processes().dom());
        assert forall|q: Pid| #[trigger] reg.processes().contains_key(q) implies {
            let t = reg.processes()[q].main_thread_spec();
            &&& s@.has(t)
            &&& t != s@.idle
        } by {
            assert(r0.processes().contains_key(q));
        }
    }
    r
}

/// The contents of the file `open(fs, path)` finds, if any.
pub open spec fn file_for(fs: &Initramfs, path: &str) -> Option<Seq<u8>> {
    let p = trim_slashes(path.spec_bytes());
    if exists|i: int| first_match(fs.files_spec(), p, i) {
        Some(fs.files_spec()[choose|i: int| first_match(fs.files_spec(), p, i)].data@)
    } else {
        None
    }
}

/// A process image built by `spawn`, ready to start.
pub struct NewProcess {
    /// Its address space.
    pub space: AddressSpace,
    /// Where its code starts.
    pub entry: u64,
    /// The file bytes to copy into the frames of its segments.
    pub copies: Vec<PageCopy>,
    /// The stack prologue to copy to `stack_base`.
    pub stack_image: Vec<u8>,
    /// Where the prologue goes: the initial user stack pointer.
    pub stack_base: u64,
}

/// In a fresh user address space nothing below the top of user space is
/// mapped.
proof fn lemma_fresh_user_half(m: Map<u64, Seq<u64>>, root: u64, k: Seq<u64>, v: u64)
    requires
        m.contains_key(root),
        m[root] == user_pml4(k),
        v < USER_SPACE_CEILING,
    ensures
        unmapped_4k(m, root, v),
{
    crate::mm::paging::lemma_zero_entry();
    assert(va_index(v, 0) < 256);
    assert(m[root][va_index(v, 0)] == 0u64);
    assert(t1(m, root, v).is_none());
}

/// Prepares the program at `path` in the initramfs to run with arguments
/// `argv`: checks it as an ELF executable, builds its stack prologue (as
/// it is to lie below `stack_top`, with `random` for `AT_RANDOM`), then
/// creates a fresh user address space sharing `kernel`'s upper half, maps
/// every loadable segment (see `elf::load`) and the top slice of the stack
/// there. The caller copies the file bytes and the prologue into place and
/// starts the process with `spawn_payload`. Nothing is allocated on an
/// error: `NotFound` for no such file, `BadElf` for a file `elf::check`
/// refuses, `BadStack` for a prologue that does not fit, `OutOfMemory` for
/// fewer free frames than the new root table, four per segment page and
/// four per initial stack page.
#[verifier::spinoff_prover]
#[verifier::rlimit(60)]
pub fn spawn(mem: &mut PhysMem, pmm: &mut Pmm, fs: &Initramfs, kernel: AddressSpace, path: &str, argv: &[Vec<u8>],
    random: &[u8; 16], stack_top: u64) -> (r: Result<NewProcess, SpawnError>)
    requires
        old(mem).wf(),
        old(pmm).wf(),
        owns_tables(old(pmm), old(mem)@),
        tree_ok(old(mem)@, old(mem).levels(), kernel.pml4.0),
        stack_top % 4096 == 0,
        SEGMENT_HIGH + STACK_RESERVED <= stack_top <= USER_SPACE_CEILING,
    ensures
        final(mem).wf(),
        final(pmm).wf(),
        owns_tables(final(pmm), final(mem)@),
        match file_for(fs, path) {
            None => r matches Err(SpawnError::NotFound) && final(mem)@ == old(mem)@ && *final(pmm) == *old(pmm),
            Some(d) => match check_spec(d) {
                Err(e) => r matches Err(SpawnError::BadElf(e2)) && e2 == e && final(mem)@ == old(mem)@ && *final(pmm) == *old(pmm),
                Ok((entry, ls)) => if image_len(args_of(argv@)) > INITIAL_STACK_MAPPED {
                    r matches Err(SpawnError::BadStack) && final(mem)@ == old(mem)@ && *final(pmm) == *old(pmm)
                } else if free_count(old(pmm).general()) < 1 + 4 * span_pages(ls) + 4 * 16 {
                    r matches Err(SpawnError::OutOfMemory) && final(mem)@ == old(mem)@ && *final(pmm) == *old(pmm)
                } else {
                    r matches Ok(np) && {
                        let root = np.space.pml4.0;
                        let a = args_of(argv@);
                        &&& !old(mem)@.contains_key(root)
                        &&& tree_ok(final(mem)@, final(mem).levels(), root)
                        &&& np.entry == entry
                        &&& forall|j: int, v: int| 0 <= j < ls.len() && #[trigger] in_span(ls[j], v)
                            ==> segment_page_mapped(final(mem)@, root, v as u64, ls[j].p_flags)
                                && page_fresh(final(mem)@, root, v, old(pmm).general())
                        &&& np.copies@ == load_copies(ls, final(mem)@, root, ls.len())
                        &&& forall|k: int| 0 <= k < np.copies@.len() ==> copy_in_bounds(#[trigger] np.copies@[k], d.len() as int)
                        &&& forall|k: int| 0 <= k < 16
                            ==> #[trigger] user_page_mapped(final(mem)@, root, (stack_top - INITIAL_STACK_MAPPED + k * 4096) as u64)
                        &&& np.stack_base == stack_top - padded_len(a)
                        &&& np.stack_image@ == Seq::new(padded_len(a) as nat, |k: int| image_byte(a, entry, stack_top, random@, k))
                    }
                },
            },
        },
{
    let data = match open(fs, path) {
        Some(d) => d,
        None => return Err(SpawnError::NotFound),
    };
    let (entry, loads) = match check(data) {
        Ok(x) => x,
        Err(e) => return Err(SpawnError::BadElf(e)),
    };
    let ghost ls = loads@;
    proof {
        lemma_check_facts(data@, entry, ls);
    }
    let image = match build_image(entry, argv, random, stack_top) {
        Ok(img) => img,
        Err(_) => return Err(SpawnError::BadStack),
    };
    // Frames the segments need, summed with overflow treated as "too many".
    let mut span: u64 = 0;
    let mut i: usize = 0;
    let mut too_many = false;
    while i < loads.len()
        invariant
            loads@ == ls,
            segments_ok(ls, data@.len() as int),
            0 <= i <= ls.len(),
            !too_many ==> span == span_pages(ls.take(i as int)),
            too_many ==> span_pages(ls) >= u64::MAX,
        decreases ls.len() - i,
    {
        proof {
            lemma_span_take(ls, i as int);
            lemma_span_monotone(ls, data@.len() as int, i as int + 1);
        }
        if !too_many {
            let n = (loads[i].page_end - loads[i].page_start) / 4096;
            match span.checked_add(n) {
                Some(t) => span = t,
                None => too_many = true,
            }
        }
        i = i + 1;
    }
    proof {
        assert(ls.take(ls.len() as int) =~= ls);
    }
    let free = crate::mm::pmm::stats(pmm).free as u64;
    if too_many || span > (u64::MAX - 65) / 4 || free < 1 + 4 * span + 4 * 16 {
        proof {
            crate::mm::pmm::lemma_free_count_le(pmm.general());
            pmm.lemma_wf_facts();
        }
        return Err(SpawnError::OutOfMemory);
    }
    let space = AddressSpace::new_user(mem, pmm, kernel);
    let root = space.pml4.as_u64();
    let ghost m1 = mem@;
    proof {
        assert forall|j: int, v: int| 0 <= j < ls.len() && #[trigger] in_span(ls[j], v) implies unmapped_4k(m1, root, v as u64) by {
            assert(ls[j].page_start <= v < ls[j].page_end);
            lemma_fresh_user_half(m1, root, old(mem)@[kernel.pml4.0], v as u64);
        }
    }
    let ghost g_nu = pmm.general();
    let loaded = load(space, mem, pmm, data);
    let copies = match loaded {
        Ok((_, c)) => {
            proof {
                assert(check_spec(data@) == Ok::<(u64, Seq<ProgramHeader>), ElfError>((entry, ls)));
                assert(c@ == load_copies(ls, mem@, root, ls.len()));
            }
            c
        },
        Err(_) => {
            proof {
                assert(false);
            }
            Vec::new()
        },
    };
    let low = stack_top - INITIAL_STACK_MAPPED;
    let ghost m2 = mem@;
    proof {
        assert forall|k: int| 0 <= k < 16 implies #[trigger] unmapped_4k(m2, root, (low + k * 4096) as u64) by {
            let x = (low + k * 4096) as u64;
            lemma_fresh_user_half(m1, root, old(mem)@[kernel.pml4.0], x);
            assert(x % 4096 == 0 && SEGMENT_HIGH <= x < USER_SPACE_CEILING);
        }
    }
    map_user_pages(space, mem, pmm, low, 16);
    proof {
        assert forall|j: int, v: int| 0 <= j < ls.len() && #[trigger] in_span(ls[j], v)
            implies segment_page_mapped(mem@, root, v as u64, ls[j].p_flags)
                && page_fresh(mem@, root, v, old(pmm).general()) by {
            assert(segment_page_mapped(m2, root, v as u64, ls[j].p_flags));
            assert(page_fresh(m2, root, v, g_nu));
            assert(crate::proc::process::page_outside(v as u64, low, 16int * 4096));
            let x = crate::mm::pmm::frame_of(frame_at(m2, root, v as u64));
            if old(pmm).general()[x] {
                assert(g_nu[x]);
            }
        }
        assert forall|j: int, i: int| 0 <= j < ls.len() && 0 <= i < span_len(ls[j])
            implies #[trigger] frame_at(mem@, root, span_page(ls[j], i)) == frame_at(m2, root, span_page(ls[j], i)) by {
            lemma_span_page(ls, data@.len() as int, j, i);
            assert(crate::proc::process::page_outside(span_page(ls[j], i), low, 16int * 4096));
        }
        lemma_load_copies_frames(ls, m2, mem@, root, ls.len());
        assert(copies@ == load_copies(ls, mem@, root, ls.len()));
        assert(forall|k: int| 0 <= k < copies@.len() ==> copy_in_bounds(#[trigger] copies@[k], data@.len() as int));
    }
    let base = stack_top - image.len() as u64;
    Ok(NewProcess { space, entry, copies, stack_image: image, stack_base: base })
}

/// The pages of one more segment.
proof fn lemma_span_take(ls: Seq<ProgramHeader>, i: int)
    requires
        0 <= i < ls.len(),
    ensures
        span_pages(ls.take(i + 1)) == span_pages(ls.take(i)) + (ls[i].page_end - ls[i].page_start) / 4096,
    decreases i,
{
    if i > 0 {
        assert(ls.take(i + 1).drop_first() =~= ls.drop_first().take(i));
        assert(ls.take(i).drop_first() =~= ls.drop_first().take(i - 1));
        lemma_span_take(ls.drop_first(), i - 1);
    } else {
        assert(ls.take(1).drop_first() =~= ls.take(0));
    }
}

/// The pages of a prefix of the segments are at most those of all.
proof fn lemma_span_monotone(ls: Seq<ProgramHeader>, dlen: int, i: int)
    requires
        segments_ok(ls, dlen),
        0 <= i <= ls.len(),
    ensures
        0 <= span_pages(ls.take(i)) <= span_pages(ls),
    decreases ls.len() - i,
{
    lemma_span_nonneg_all(ls, dlen, i);
    if i < ls.len() {
        lemma_span_take(ls, i);
        lemma_span_monotone(ls, dlen, i + 1);
        assert(ls[i].page_start <= ls[i].page_end);
    } else {
        assert(ls.take(i) =~= ls);
    }
}

/// The pages of the segments from `i` on are not negative.
proof fn lemma_span_nonneg_all(ls: Seq<ProgramHeader>, dlen: int, i: int)
    requires
        segments_ok(ls, dlen),
        0 <= i <= ls.len(),
    ensures
        span_pages(ls.take(i)) >= 0,
    decreases i,
{
    if i > 0 {
        lemma_span_nonneg_all(ls, dlen, i - 1);
        lemma_span_take(ls, i - 1);
        assert(ls[i - 1].page_start <= ls[i - 1].page_end);
    }
}

} // verus!
