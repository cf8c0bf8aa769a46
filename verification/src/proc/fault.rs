//! Faults taken in user mode: a page fault in the stack reservation below
//! the mapped stack grows the stack and the faulting instruction runs
//! again; any other fault ends the faulting process.
use vstd::prelude::*;
use crate::mm::pmm::Pmm;
use crate::mm::vmm::{AddressSpace, PhysMem, owns_tables};
use crate::mm::vmm::tree::tree_ok;
use crate::proc::{Registry, exit_current_process, grow_stack_current};
use crate::proc::process::{stack_grown, can_grow_stack};
use crate::sched::{Scheduler, Switch, MAX_THREADS};

verus! {

/// The exit code of a process ended by a fault: 128 plus the number of
/// `SIGSEGV`.
pub const FAULT_EXIT_CODE: i32 = 139;

/// How a user fault was handled.
pub enum FaultOutcome {
    /// The stack grew over the faulting address: the process resumes.
    Resumed,
    /// The process was ended with `FAULT_EXIT_CODE` (see
    /// `proc::exit_current_process`): its address space if this exit is
    /// the first, and the switch away.
    Killed(Option<AddressSpace>, Switch),
}

/// A page fault at `cr2` in the calling process: grows its stack down to
/// `cr2` if it can (see `Process::try_grow_stack`), else ends the process.
pub fn handle_page_fault(reg: &mut Registry, s: &mut Scheduler, mem: &mut PhysMem, pmm: &mut Pmm, cr2: u64) -> (r: FaultOutcome)
    requires
        old(reg).wf(),
        old(reg).agrees(old(s)@),
        old(s).wf(),
        old(s)@.ready.len() <= MAX_THREADS,
        old(reg).current_pid_spec(old(s)@) is Some,
        old(reg).processes()[old(reg).current_pid_spec(old(s)@)->0].wf(),
        old(reg).processes()[old(reg).current_pid_spec(old(s)@)->0].stack_free(old(mem)@),
        old(mem).wf(),
        old(pmm).wf(),
        owns_tables(old(pmm), old(mem)@),
        tree_ok(old(mem)@, old(mem).levels(), old(reg).processes()[old(reg).current_pid_spec(old(s)@)->0].space_spec().pml4.0),
    ensures
        final(reg).wf(),
        final(reg).agrees(final(s)@),
        final(mem).wf(),
        final(pmm).wf(),
        owns_tables(final(pmm), final(mem)@),
        ({
            let pid = old(reg).current_pid_spec(old(s)@)->0;
            let p0 = old(reg).processes()[pid];
            &&& r is Resumed ==> *final(s) == *old(s)
                && stack_grown(p0, final(reg).processes()[pid], old(mem)@, final(mem)@, *old(pmm), *final(pmm), cr2, true)
            &&& r is Killed ==> final(reg).processes()[pid].exiting_spec() && final(s)@.settled()
            &&& (r is Resumed) == can_grow_stack(p0, *old(pmm), cr2)
        }),
{
    let ghost pid = old(reg).current_pid_spec(old(s)@)->0;
    let ghost p0 = old(reg).processes()[pid];
    let grown = grow_stack_current(reg, s, mem, pmm, cr2);
    if grown {
        return FaultOutcome::Resumed;
    }
    proof {
        assert(stack_grown(p0, reg.processes()[pid], old(mem)@, mem@, *old(pmm), *pmm, cr2, false));
        assert(reg.current_pid_spec(s@) == Some(pid));
    }
    let (space, sw) = exit_current_process(reg, s, FAULT_EXIT_CODE);
    FaultOutcome::Killed(space, sw)
}

/// Any other fault in the calling process ends it with
/// `FAULT_EXIT_CODE`.
pub fn handle_other_fault(reg: &mut Registry, s: &mut Scheduler) -> (r: (Option<AddressSpace>, Switch))
    requires
        old(reg).wf(),
        old(reg).agrees(old(s)@),
        old(s).wf(),
        old(s)@.ready.len() <= MAX_THREADS,
        old(reg).current_pid_spec(old(s)@) is Some,
    ensures
        final(reg).wf(),
        final(reg).agrees(final(s)@),
        final(s)@.settled(),
        final(reg).processes()[old(reg).current_pid_spec(old(s)@)->0].exiting_spec(),
        final(reg).processes().dom() == old(reg).processes().dom(),
{
    exit_current_process(reg, s, FAULT_EXIT_CODE)
}

} // verus!
