//! The scheduler's decisions: which thread runs next, what happens to the
//! one that stops, which exited threads' stacks can be freed, and the
//! bookkeeping of sleeps, timeslices and forced exits. The context switch
//! itself (and freeing stacks, waking waiters) is the caller's to carry
//! out from what these functions return.
use vstd::prelude::*;
use crate::mm::kstack::KernelStack;
use crate::mm::vmm::AddressSpace;
use crate::drivers::ps2::ring::counter_inc;

verus! {

/// A thread's identity.
pub type ThreadId = u64;

/// How many threads the ready queue can hold.
pub const MAX_THREADS: usize = 64;
/// Timer ticks a thread runs before it is preempted.
pub const TIMESLICE_TICKS: u64 = 10;

/// A thread's scheduling state.
#[derive(Clone, Copy, PartialEq, Eq, Structural, Debug)]
pub enum ThreadState {
    Ready,
    Running,
    Blocked,
    Sleeping,
    Exited,
}

/// One thread's scheduler record.
pub struct Thread {
    pub id: ThreadId,
    pub name: String,
    pub state: ThreadState,
    pub exit_code: i32,
    pub stack: KernelStack,
    pub ticks_run: u64,
    pub dispatches: u64,
    pub address_space: Option<AddressSpace>,
    pub rsp: u64,
}

impl Thread {
    pub open spec fn state_spec(&self) -> ThreadState {
        self.state
    }

    pub open spec fn exit_code_spec(&self) -> i32 {
        self.exit_code
    }

    pub open spec fn stack_spec(&self) -> KernelStack {
        self.stack
    }

    pub open spec fn ticks_spec(&self) -> u64 {
        self.ticks_run
    }

    pub open spec fn dispatches_spec(&self) -> u64 {
        self.dispatches
    }

    pub open spec fn space_spec(&self) -> Option<AddressSpace> {
        self.address_space
    }

    pub open spec fn rsp_spec(&self) -> u64 {
        self.rsp
    }

    /// The thread's scheduling state.
    pub fn state(&self) -> (r: ThreadState)
        ensures
            r == self.state_spec(),
    {
        self.state
    }

    /// The thread's kernel stack.
    pub fn stack(&self) -> (r: KernelStack)
        ensures
            r == self.stack_spec(),
    {
        self.stack
    }

    /// The code the thread exited with (0 until it has).
    pub fn exit_code(&self) -> (r: i32)
        ensures
            r == self.exit_code_spec(),
    {
        self.exit_code
    }

    /// Timer ticks that landed while the thread was running.
    pub fn ticks_run(&self) -> (r: u64)
        ensures
            r == self.ticks_spec(),
    {
        self.ticks_run
    }

    /// How many times the thread was dispatched.
    pub fn dispatches(&self) -> (r: u64)
        ensures
            r == self.dispatches_spec(),
    {
        self.dispatches
    }

    /// The user address space it runs in, for a user thread.
    pub fn address_space(&self) -> (r: Option<AddressSpace>)
        ensures
            r == self.space_spec(),
    {
        self.address_space
    }

    /// Its saved stack pointer.
    pub fn rsp(&self) -> (r: u64)
        ensures
            r == self.rsp_spec(),
    {
        self.rsp
    }
}

/// What `schedule` decided: the stacks of exited threads to free, the
/// thread that stopped, the thread to run, and its stack top.
pub struct Switch {
    pub reaped: Vec<KernelStack>,
    pub prev: ThreadId,
    pub next: ThreadId,
    pub next_top: u64,
}

/// The scheduler's state.
pub struct Scheduler {
    current: ThreadId,
    idle: ThreadId,
    ready: Vec<ThreadId>,
    sleeping: Vec<(u64, ThreadId)>,
    to_reap: Vec<ThreadId>,
    all: Vec<Thread>,
    next_id: ThreadId,
    need_resched: bool,
    timeslice_remaining: u64,
}

/// The scheduler's state as the specifications see it.
pub struct SchedView {
    pub current: ThreadId,
    pub idle: ThreadId,
    pub ready: Seq<ThreadId>,
    pub sleeping: Seq<(u64, ThreadId)>,
    pub to_reap: Seq<ThreadId>,
    pub threads: Seq<Thread>,
    pub next_id: ThreadId,
    pub need_resched: bool,
    pub timeslice: u64,
}

impl View for Scheduler {
    type V = SchedView;

    closed spec fn view(&self) -> SchedView {
        SchedView {
            current: self.current,
            idle: self.idle,
            ready: self.ready@,
            sleeping: self.sleeping@,
            to_reap: self.to_reap@,
            threads: self.all@,
            next_id: self.next_id,
            need_resched: self.need_resched,
            timeslice: self.timeslice_remaining,
        }
    }
}

/// The index of thread `id` in `all`.
pub open spec fn has_thread(all: Seq<Thread>, id: ThreadId, i: int) -> bool {
    0 <= i < all.len() && all[i].id == id
}

impl SchedView {
    /// The record of thread `id`.
    pub open spec fn thread(self, id: ThreadId) -> Thread {
        self.threads[choose|i: int| has_thread(self.threads, id, i)]
    }

    /// Whether a thread `id` exists.
    pub open spec fn has(self, id: ThreadId) -> bool {
        exists|i: int| has_thread(self.threads, id, i)
    }

    /// Thread ids are distinct.
    pub open spec fn ids_ok(self) -> bool {
        forall|i: int, j: int| 0 <= i < j < self.threads.len() ==> (#[trigger] self.threads[i]).id != (#[trigger] self.threads[j]).id
    }

    /// The scheduler's invariant: thread ids are distinct and below
    /// `next_id`; the current and idle threads exist; the idle thread never
    /// exits; the current thread is never `Ready`; every queued id is a
    /// thread; threads awaiting reaping have exited and are not current.
    pub open spec fn wf(self) -> bool {
        &&& self.ids_ok()
        &&& forall|i: int| 0 <= i < self.threads.len() ==> (#[trigger] self.threads[i]).id < self.next_id
        &&& self.has(self.current)
        &&& self.has(self.idle)
        &&& self.thread(self.idle).state != ThreadState::Exited
        &&& self.thread(self.current).state != ThreadState::Ready
        &&& forall|k: int| 0 <= k < self.ready.len() ==> self.has(#[trigger] self.ready[k])
        &&& forall|k: int| 0 <= k < self.sleeping.len() ==> self.has((#[trigger] self.sleeping[k]).1)
        &&& forall|k: int| 0 <= k < self.to_reap.len() ==> {
            let id = #[trigger] self.to_reap[k];
            &&& self.has(id)
            &&& self.thread(id).state == ThreadState::Exited
            &&& id != self.current
        }
        &&& self.next_id < u64::MAX
    }

    /// Between switches: the invariant holds and the current thread runs.
    pub open spec fn settled(self) -> bool {
        &&& self.wf()
        &&& self.thread(self.current).state == ThreadState::Running
    }

}

/// Whether a sleep-list entry is not thread `id`'s.
pub open spec fn other_than(id: ThreadId) -> spec_fn((u64, ThreadId)) -> bool {
    |e: (u64, ThreadId)| e.1 != id
}

impl SchedView {
    /// This state with thread `id`'s state set to `st`.
    pub open spec fn with_state(self, id: ThreadId, st: ThreadState) -> SchedView {
        SchedView {
            threads: self.threads.map_values(|t: Thread| if t.id == id { Thread { state: st, ..t } } else { t }),
            ..self
        }
    }

    /// This state after thread `id` was ended with exit code `code`: it has
    /// exited, and a sleeping one has left the sleep list.
    pub open spec fn ended(self, id: ThreadId, code: i32) -> SchedView {
        SchedView {
            threads: self.threads.map_values(
                |t: Thread| if t.id == id { Thread { state: ThreadState::Exited, exit_code: code, ..t } } else { t },
            ),
            sleeping: if self.thread(id).state == ThreadState::Sleeping {
                self.sleeping.filter(other_than(id))
            } else {
                self.sleeping
            },
            ..self
        }
    }
}

impl Scheduler {
    /// The scheduler's invariant (see `SchedView::wf`).
    pub open spec fn wf(&self) -> bool {
        self@.wf()
    }
}

/// A thread's record is found by its id.
proof fn lemma_thread_at(s: SchedView, i: int)
    requires
        s.ids_ok(),
        0 <= i < s.threads.len(),
    ensures
        s.has(s.threads[i].id),
        s.thread(s.threads[i].id) == s.threads[i],
{
    let id = s.threads[i].id;
    assert(has_thread(s.threads, id, i));
    let c = choose|c: int| has_thread(s.threads, id, c);
    if c != i {
        if c < i {
            assert(s.threads[c].id != s.threads[i].id);
        } else {
            assert(s.threads[i].id != s.threads[c].id);
        }
    }
}

/// Two schedulers whose threads have the same ids, index by index, know the
/// same ids.
pub proof fn lemma_same_ids(a: SchedView, b: SchedView)
    requires
        a.threads.len() == b.threads.len(),
        forall|i: int| 0 <= i < a.threads.len() ==> (#[trigger] a.threads[i]).id == b.threads[i].id,
    ensures
        forall|id: ThreadId| a.has(id) <==> b.has(id),
        a.ids_ok() ==> b.ids_ok(),
{
    if a.ids_ok() {
        assert forall|i: int, j: int| 0 <= i < j < b.threads.len() implies
            (#[trigger] b.threads[i]).id != (#[trigger] b.threads[j]).id by {
            assert(a.threads[i].id != a.threads[j].id);
        }
    }
    assert forall|id: ThreadId| a.has(id) implies b.has(id) by {
        let i = choose|i: int| has_thread(a.threads, id, i);
        assert(has_thread(b.threads, id, i));
    }
    assert forall|id: ThreadId| b.has(id) implies a.has(id) by {
        let i = choose|i: int| has_thread(b.threads, id, i);
        assert(a.threads[i].id == b.threads[i].id);
        assert(has_thread(a.threads, id, i));
    }
}

/// Thread `t` after `schedule` stopped `prev`: a running thread other
/// than idle goes back to `Ready`.
pub open spec fn after_stop(t: Thread, prev: ThreadId, idle: ThreadId) -> ThreadState {
    if t.id == prev && prev != idle && t.state == ThreadState::Running { ThreadState::Ready } else { t.state }
}

/// `t2` is `t` with only its state and dispatch count changed.
pub open spec fn same_but_state(t: Thread, t2: Thread) -> bool {
    &&& t2.id == t.id
    &&& t2.name == t.name
    &&& t2.exit_code == t.exit_code
    &&& t2.stack == t.stack
    &&& t2.ticks_run == t.ticks_run
    &&& t2.address_space == t.address_space
    &&& t2.rsp == t.rsp
}

impl SchedView {
    /// The ids `schedule` picks the next thread from: the ready queue, then
    /// the stopping thread if it was running and isn't the idle thread.
    pub open spec fn pick_queue(&self) -> Seq<ThreadId> {
        let prev = self.current;
        if prev != self.idle && self.thread(prev).state == ThreadState::Running {
            self.ready.push(prev)
        } else {
            self.ready
        }
    }

    /// `k` is the position of the first id of the pick queue whose thread
    /// hasn't exited (or the queue's length if there is none).
    pub open spec fn first_live(&self, k: int) -> bool {
        let q = self.pick_queue();
        &&& 0 <= k <= q.len()
        &&& k < q.len() ==> after_stop(self.thread(q[k]), self.current, self.idle) != ThreadState::Exited
        &&& forall|j: int| 0 <= j < k ==> after_stop(#[trigger] self.thread(q[j]), self.current, self.idle) == ThreadState::Exited
    }

    /// The thread `schedule` runs next.
    pub open spec fn next_pick(&self) -> ThreadId {
        let k = choose|k: int| self.first_live(k);
        if k < self.pick_queue().len() { self.pick_queue()[k] } else { self.idle }
    }

}

impl Scheduler {
    /// Sets thread `i`'s state.
    fn set_state_at(&mut self, i: usize, st: ThreadState)
        requires
            i < old(self)@.threads.len(),
        ensures
            final(self)@.threads == old(self)@.threads.update(i as int, Thread { state: st, ..old(self)@.threads[i as int] }),
            final(self)@.current == old(self)@.current,
            final(self)@.idle == old(self)@.idle,
            final(self)@.ready == old(self)@.ready,
            final(self)@.sleeping == old(self)@.sleeping,
            final(self)@.to_reap == old(self)@.to_reap,
            final(self)@.next_id == old(self)@.next_id,
            final(self)@.need_resched == old(self)@.need_resched,
            final(self)@.timeslice == old(self)@.timeslice,
    {
        let mut t = self.all.remove(i);
        t.state = st;
        self.all.insert(i, t);
        proof {
            assert(self@.threads =~= old(self)@.threads.update(i as int, Thread { state: st, ..old(self)@.threads[i as int] }));
        }
    }

    /// The index of thread `id`.
    fn index_of(&self, id: ThreadId) -> (r: Option<usize>)
        requires
            self@.ids_ok(),
        ensures
            match r {
                Some(i) => has_thread(self@.threads, id, i as int) && self@.thread(id) == self@.threads[i as int],
                None => !self@.has(id),
            },
    {
        let mut i: usize = 0;
        while i < self.all.len()
            invariant
                self@.ids_ok(),
                i <= self.all@.len(),
                forall|j: int| 0 <= j < i ==> self.all@[j].id != id,
            decreases self.all.len() - i,
        {
            if self.all[i].id == id {
                proof {
                    lemma_thread_at(self@, i as int);
                }
                return Some(i);
            }
            i = i + 1;
        }
        None
    }
}

/// Starts scheduling: the boot thread (id 0, running on `boot_stack`) is
/// current; the idle thread (id 1, on `idle_stack`, first switched to at
/// `idle_rsp`) is ready to take over whenever nothing else can run.
pub fn init(boot_stack: KernelStack, idle_stack: KernelStack, idle_rsp: u64) -> (r: Scheduler)
    ensures
        r.wf(),
        r@.current == 0,
        r@.idle == 1,
        r@.next_id == 2,
        r@.ready.len() == 0,
        r@.threads.len() == 2,
        r@.thread(0).state_spec() == ThreadState::Running,
        r@.thread(1).state_spec() == ThreadState::Ready,
        r@.thread(0).stack_spec() == boot_stack,
        r@.thread(1).stack_spec() == idle_stack,
        r@.timeslice == TIMESLICE_TICKS,
        !r@.need_resched,
{
    let main = Thread {
        id: 0, name: String::new(), state: ThreadState::Running, exit_code: 0, stack: boot_stack,
        ticks_run: 0, dispatches: 0, address_space: None, rsp: 0,
    };
    let idle = Thread {
        id: 1, name: String::new(), state: ThreadState::Ready, exit_code: 0, stack: idle_stack,
        ticks_run: 0, dispatches: 0, address_space: None, rsp: idle_rsp,
    };
    let mut all: Vec<Thread> = Vec::new();
    all.push(main);
    all.push(idle);
    let r = Scheduler {
        current: 0, idle: 1, ready: Vec::new(), sleeping: Vec::new(), to_reap: Vec::new(), all,
        next_id: 2, need_resched: false, timeslice_remaining: TIMESLICE_TICKS,
    };
    proof {
        assert(has_thread(r@.threads, 0, 0));
        assert(has_thread(r@.threads, 1, 1));
        lemma_thread_at(r@, 0);
        lemma_thread_at(r@, 1);
    }
    r
}

/// The thread currently running.
pub fn current(s: &Scheduler) -> (r: &Thread)
    requires
        s.wf(),
    ensures
        *r == s@.thread(s@.current),
        r.id == s@.current,
{
    let i = s.index_of(s.current).unwrap();
    &s.all[i]
}

/// The id of the thread currently running.
pub fn current_id(s: &Scheduler) -> (r: ThreadId)
    ensures
        r == s@.current,
{
    s.current
}

/// The thread with id `id`, if any.
pub fn find(s: &Scheduler, id: ThreadId) -> (r: Option<&Thread>)
    requires
        s.wf(),
    ensures
        match r {
            Some(t) => s@.has(id) && *t == s@.thread(id),
            None => !s@.has(id),
        },
{
    match s.index_of(id) {
        Some(i) => Some(&s.all[i]),
        None => None,
    }
}

/// How many threads are queued to run.
pub fn ready_len(s: &Scheduler) -> (r: usize)
    ensures
        r == s@.ready.len(),
{
    s.ready.len()
}

impl Scheduler {
    /// Takes the queue of threads awaiting reaping, returning their stacks.
    fn drain_reaped(&mut self) -> (r: Vec<KernelStack>)
        requires
            old(self).wf(),
        ensures
            r@ == Seq::new(old(self)@.to_reap.len(), |j: int| old(self)@.thread(old(self)@.to_reap[j]).stack),
            final(self)@.to_reap.len() == 0,
            final(self)@.threads == old(self)@.threads,
            final(self)@.current == old(self)@.current,
            final(self)@.idle == old(self)@.idle,
            final(self)@.ready == old(self)@.ready,
            final(self)@.sleeping == old(self)@.sleeping,
            final(self)@.next_id == old(self)@.next_id,
            final(self)@.need_resched == old(self)@.need_resched,
            final(self)@.timeslice == old(self)@.timeslice,
    {
        let ghost s0 = self@;
        let mut reaped: Vec<KernelStack> = Vec::new();
        let mut j: usize = 0;
        while j < self.to_reap.len()
            invariant
                self.wf(),
                self@ == s0,
                j <= s0.to_reap.len(),
                reaped@ == Seq::new(j as nat, |x: int| s0.thread(s0.to_reap[x]).stack),
            decreases self.to_reap.len() - j,
        {
            let id = self.to_reap[j];
            proof {
                assert(s0.has(s0.to_reap[j as int]));
            }
            let i = self.index_of(id).unwrap();
            reaped.push(self.all[i].stack);
            proof {
                assert(reaped@ =~= Seq::new((j + 1) as nat, |x: int| s0.thread(s0.to_reap[x]).stack));
            }
            j = j + 1;
        }
        self.to_reap = Vec::new();
        reaped
    }
}

impl Scheduler {
    /// Marks thread `next` running, counts the dispatch and makes it
    /// current; returns its stack top.
    fn dispatch(&mut self, next: ThreadId) -> (top: u64)
        requires
            old(self)@.ids_ok(),
            old(self)@.has(next),
        ensures
            final(self)@.ids_ok(),
            final(self)@.threads.len() == old(self)@.threads.len(),
            forall|i: int| 0 <= i < old(self)@.threads.len() ==> {
                let t = #[trigger] old(self)@.threads[i];
                let t2 = final(self)@.threads[i];
                &&& same_but_state(t, t2)
                &&& t2.state == (if t.id == next { ThreadState::Running } else { t.state })
                &&& t2.dispatches == (if t.id == next { counter_inc(t.dispatches) } else { t.dispatches })
            },
            final(self)@.has(next),
            final(self)@.thread(next).state == ThreadState::Running,
            top == final(self)@.thread(next).stack.top.0,
            final(self)@.current == next,
            final(self)@.idle == old(self)@.idle,
            final(self)@.ready == old(self)@.ready,
            final(self)@.sleeping == old(self)@.sleeping,
            final(self)@.to_reap == old(self)@.to_reap,
            final(self)@.next_id == old(self)@.next_id,
            final(self)@.need_resched == old(self)@.need_resched,
            final(self)@.timeslice == old(self)@.timeslice,
    {
        let ghost s0 = self@;
        let ni = self.index_of(next).unwrap();
        let mut t = self.all.remove(ni);
        t.state = ThreadState::Running;
        t.dispatches = t.dispatches.wrapping_add(1);
        let top = t.stack.top.as_u64();
        self.all.insert(ni, t);
        self.current = next;
        proof {
            assert forall|i: int| 0 <= i < s0.threads.len() && i != ni implies
                (#[trigger] s0.threads[i]).id != next by {
                if i < ni { } else { }
            }
            assert(self@.ids_ok());
            lemma_thread_at(self@, ni as int);
        }
        top
    }
}

/// `first_live` picks one position.
proof fn lemma_first_live_unique(s: SchedView, k: int)
    requires
        s.first_live(k),
    ensures
        (choose|k2: int| s.first_live(k2)) == k,
{
    let c = choose|k2: int| s.first_live(k2);
    assert(s.first_live(c));
    let q = s.pick_queue();
    if c < k {
        assert(after_stop(s.thread(q[c]), s.current, s.idle) == ThreadState::Exited);
    }
    if c > k {
        assert(after_stop(s.thread(q[k]), s.current, s.idle) == ThreadState::Exited);
    }
}

/// What one call of `schedule` does, from state `s0` to state `s`
/// returning `r`: it hands back the stacks of the threads awaiting reaping;
/// puts the stopping thread back on the ready queue if it was running (or
/// queues it for reaping if it exited); runs the first queued thread that
/// hasn't exited, queueing the exited ones it passes for reaping, else the
/// idle thread; counts the dispatch; and restarts the timeslice on a switch
/// to another thread.
pub open spec fn switch_done(s0: SchedView, s: SchedView, r: Switch) -> bool {
    let q = s0.pick_queue();
    let k = choose|k: int| s0.first_live(k);
    let prev = s0.current;
    let next = s0.next_pick();
    &&& r.prev == prev
    &&& r.next == next
    &&& r.reaped@ == Seq::new(s0.to_reap.len(), |j: int| s0.thread(s0.to_reap[j]).stack)
    &&& s.current == next
    &&& s.ready == (if k < q.len() { q.skip(k + 1) } else { Seq::empty() })
    &&& s.to_reap == (if prev != s0.idle && s0.thread(prev).state == ThreadState::Exited {
            seq![prev] } else { Seq::empty() }) + q.take(k)
    &&& s.threads.len() == s0.threads.len()
    &&& forall|i: int| 0 <= i < s0.threads.len() ==> {
        let t = #[trigger] s0.threads[i];
        let t2 = s.threads[i];
        &&& same_but_state(t, t2)
        &&& t2.state == (if t.id == next { ThreadState::Running } else { after_stop(t, prev, s0.idle) })
        &&& t2.dispatches == (if t.id == next { counter_inc(t.dispatches) } else { t.dispatches })
    }
    &&& r.next_top == s.thread(next).stack.top.0
    &&& s.timeslice == (if prev != next { TIMESLICE_TICKS } else { s0.timeslice })
    &&& s.idle == s0.idle
    &&& s.sleeping == s0.sleeping
    &&& s.next_id == s0.next_id
    &&& s.need_resched == s0.need_resched
}

/// Picks the next thread and records the switch (see `switch_done`). The
/// caller frees the returned stacks and performs the context switch.
#[verifier::rlimit(40)]
pub fn schedule(s: &mut Scheduler) -> (r: Switch)
    requires
        old(s).wf(),
        old(s)@.pick_queue().len() <= MAX_THREADS,
    ensures
        final(s)@.settled(),
        switch_done(old(s)@, final(s)@, r),
{
    let ghost s0 = s@;
    let reaped = s.drain_reaped();
    let prev = s.current;
    let idle = s.idle;
    let pi = s.index_of(prev).unwrap();
    let ghost q = s0.pick_queue();
    if prev != idle {
        let st = s.all[pi].state;
        if st == ThreadState::Running {
            s.set_state_at(pi, ThreadState::Ready);
            s.ready.push(prev);
        } else if st == ThreadState::Exited {
            s.to_reap.push(prev);
        }
    }
    let ghost pre_reap = s.to_reap@;
    let ghost s1 = s@;
    proof {
        assert(s.ready@ == q);
        assert(pre_reap =~= (if prev != idle && s0.thread(prev).state == ThreadState::Exited {
            seq![prev] } else { Seq::<ThreadId>::empty() }));
        assert forall|i: int| 0 <= i < s0.threads.len() implies
            (#[trigger] s@.threads[i]).state == after_stop(s0.threads[i], prev, idle)
            && same_but_state(s0.threads[i], s@.threads[i])
            && s@.threads[i].dispatches == s0.threads[i].dispatches by {
            lemma_thread_at(s0, pi as int);
        }
        assert(s@.ids_ok());
        assert forall|x: int| 0 <= x < q.len() implies s0.has(#[trigger] q[x]) by {
            if x < s0.ready.len() {
                assert(s0.has(s0.ready[x]));
            }
        }
        assert(s.ready@.skip(0) =~= q);
        assert(q.take(0) =~= Seq::<ThreadId>::empty());
        assert(pre_reap + q.take(0) =~= pre_reap);
    }
    let mut next = idle;
    let mut jj: usize = 0;
    let mut found = false;
    while s.ready.len() > 0
        invariant_except_break
            s.ready@ == q.skip(jj as int),
            !found,
            next == idle,
        invariant
            s@.ids_ok(),
            s@.threads == s1.threads,
            s.current == prev,
            s.idle == idle,
            s.sleeping@ == s0.sleeping,
            s.next_id == s0.next_id,
            s.need_resched == s0.need_resched,
            s.timeslice_remaining == s0.timeslice,
            jj <= q.len(),
            q.len() <= MAX_THREADS,
            q == s0.pick_queue(),
            forall|x: int| 0 <= x < q.len() ==> s0.has(#[trigger] q[x]),
            s1.threads.len() == s0.threads.len(),
            forall|i: int| 0 <= i < s0.threads.len() ==> (#[trigger] s1.threads[i]).id == s0.threads[i].id
                && s1.threads[i].state == after_stop(s0.threads[i], prev, idle),
            s0.ids_ok(),
            s.to_reap@ == pre_reap + q.take(jj as int),
            forall|x: int| 0 <= x < jj ==> after_stop(#[trigger] s0.thread(q[x]), prev, idle) == ThreadState::Exited,
        ensures
            s@.ids_ok(),
            s@.threads == s1.threads,
            s.current == prev,
            s.idle == idle,
            s.sleeping@ == s0.sleeping,
            s.next_id == s0.next_id,
            s.need_resched == s0.need_resched,
            s.timeslice_remaining == s0.timeslice,
            s.to_reap@ == pre_reap + q.take(jj as int),
            forall|x: int| 0 <= x < jj ==> after_stop(#[trigger] s0.thread(q[x]), prev, idle) == ThreadState::Exited,
            found ==> jj < q.len() && next == q[jj as int] && s.ready@ == q.skip(jj + 1)
                && after_stop(s0.thread(q[jj as int]), prev, idle) != ThreadState::Exited,
            !found ==> jj == q.len() && next == idle && s.ready@.len() == 0,
        decreases s.ready.len(),
    {
        proof {
            assert(s.ready@.len() == q.len() - jj);
        }
        let cand = s.ready.remove(0);
        proof {
            assert(q[jj as int] == cand);
            assert(s0.has(cand));
            lemma_same_ids(s0, s@);
            assert(s.ready@ =~= q.skip(jj + 1));
        }
        let ci = s.index_of(cand).unwrap();
        proof {
            let c0 = choose|c: int| has_thread(s0.threads, cand, c);
            lemma_thread_at(s0, ci as int);
            assert(s@.threads[ci as int].state == after_stop(s0.thread(cand), prev, idle));
        }
        if s.all[ci].state == ThreadState::Exited {
            s.to_reap.push(cand);
            proof {
                assert(q.take(jj + 1) =~= q.take(jj as int).push(cand));
                assert(s.to_reap@ =~= pre_reap + q.take(jj + 1));
            }
            jj = jj + 1;
        } else {
            next = cand;
            found = true;
            break;
        }
    }
    proof {
        if !found {
            assert(q.skip(jj as int).len() == 0);
            assert(s.ready@ =~= Seq::<ThreadId>::empty());
        }
        lemma_same_ids(s0, s@);
        assert(s0.first_live(jj as int));
        lemma_first_live_unique(s0, jj as int);
        assert(s0.next_pick() == next);
        assert(s0.has(next)) by {
            if found { assert(s0.has(q[jj as int])); } else { }
        }
    }
    let next_top = s.dispatch(next);
    if prev != next {
        s.timeslice_remaining = TIMESLICE_TICKS;
    }
    proof {
        assert forall|i: int| 0 <= i < s0.threads.len() implies {
            let t0 = #[trigger] s0.threads[i];
            let t2 = s@.threads[i];
            &&& same_but_state(t0, t2)
            &&& t2.state == (if t0.id == next { ThreadState::Running } else { after_stop(t0, prev, idle) })
            &&& t2.dispatches == (if t0.id == next { counter_inc(t0.dispatches) } else { t0.dispatches })
        } by {
            assert(s1.threads[i].state == after_stop(s0.threads[i], prev, idle));
        }
        lemma_sched_wf_after(s0, s@, prev, next, jj as int);
    }
    Switch { reaped, prev, next, next_top }
}

/// The scheduler invariant after `schedule`.
proof fn lemma_sched_wf_after(s0: SchedView, s: SchedView, prev: ThreadId, next: ThreadId, k: int)
    requires
        s0.wf(),
        s.ids_ok(),
        prev == s0.current,
        s0.first_live(k),
        next == (if k < s0.pick_queue().len() { s0.pick_queue()[k] } else { s0.idle }),
        s.current == next,
        s.idle == s0.idle,
        s.sleeping == s0.sleeping,
        s.next_id == s0.next_id,
        s.threads.len() == s0.threads.len(),
        forall|i: int| 0 <= i < s0.threads.len() ==> {
            let t = #[trigger] s0.threads[i];
            let t2 = s.threads[i];
            &&& same_but_state(t, t2)
            &&& t2.state == (if t.id == next { ThreadState::Running } else { after_stop(t, prev, s0.idle) })
        },
        s.ready == (if k < s0.pick_queue().len() { s0.pick_queue().skip(k + 1) } else { Seq::empty() }),
        s.to_reap == (if prev != s0.idle && s0.thread(prev).state == ThreadState::Exited {
            seq![prev] } else { Seq::empty() }) + s0.pick_queue().take(k),
    ensures
        s.wf(),
{
    let q = s0.pick_queue();
    let idle = s0.idle;
    // Ids, and so lookups, carry over.
    assert forall|id: ThreadId| #[trigger] s0.has(id) implies s.has(id) && s.thread(id).id == id
        && same_but_state(s0.thread(id), s.thread(id))
        && s.thread(id).state == (if id == next { ThreadState::Running } else { after_stop(s0.thread(id), prev, idle) }) by {
        let i = choose|i: int| has_thread(s0.threads, id, i);
        lemma_thread_at(s0, i);
        assert(has_thread(s.threads, id, i));
        lemma_thread_at(s, i);
    }
    assert forall|i: int| 0 <= i < s.threads.len() implies (#[trigger] s.threads[i]).id < s.next_id by {
        assert(s.threads[i].id == s0.threads[i].id);
    }
    assert(s0.has(next)) by {
        if k < q.len() {
            if k == s0.ready.len() {
            } else {
                assert(s0.has(s0.ready[k]));
            }
        }
    }
    assert forall|x: int| 0 <= x < s.ready.len() implies s.has(#[trigger] s.ready[x]) by {
        let y = x + k + 1;
        assert(s.ready[x] == q[y]);
        if y < s0.ready.len() {
            assert(s0.has(s0.ready[y]));
        }
    }
    assert forall|x: int| 0 <= x < s.sleeping.len() implies s.has((#[trigger] s.sleeping[x]).1) by {
        assert(s0.has(s0.sleeping[x].1));
    }
    assert forall|x: int| 0 <= x < s.to_reap.len() implies {
        let id = #[trigger] s.to_reap[x];
        &&& s.has(id)
        &&& s.thread(id).state_spec() == ThreadState::Exited
        &&& id != s.current
    } by {
        let id = s.to_reap[x];
        let pre = if prev != idle && s0.thread(prev).state == ThreadState::Exited { seq![prev] } else { Seq::<ThreadId>::empty() };
        if x < pre.len() {
            assert(id == prev);
            assert(s0.has(prev));
            if next == prev {
                if k < q.len() {
                    assert(after_stop(s0.thread(q[k]), prev, idle) != ThreadState::Exited);
                }
            }
        } else {
            let y = x - pre.len();
            assert(id == q[y]);
            assert(after_stop(s0.thread(q[y]), prev, idle) == ThreadState::Exited);
            if y < s0.ready.len() {
                assert(s0.has(s0.ready[y]));
            }
            if id == next {
                if k < q.len() {
                    assert(after_stop(s0.thread(q[k]), prev, idle) != ThreadState::Exited);
                } else {
                    assert(s0.thread(idle).state != ThreadState::Exited);
                }
            }
        }
    }
}

/// Facts about `with_state`: ids and lookups carry over, and only thread
/// `id`'s state changes.
proof fn lemma_with_state(s: SchedView, id: ThreadId, st: ThreadState)
    requires
        s.ids_ok(),
    ensures
        s.with_state(id, st).ids_ok(),
        s.with_state(id, st).threads.len() == s.threads.len(),
        forall|i: int| 0 <= i < s.threads.len() ==> (#[trigger] s.with_state(id, st).threads[i]).id == s.threads[i].id,
        forall|x: ThreadId| #[trigger] s.with_state(id, st).has(x) <==> s.has(x),
        forall|x: ThreadId| s.has(x) ==> #[trigger] s.with_state(id, st).thread(x) == (if x == id {
            Thread { state: st, ..s.thread(x) } } else { s.thread(x) }),
{
    let s2 = s.with_state(id, st);
    lemma_same_ids(s, s2);
    assert forall|x: ThreadId| s.has(x) implies #[trigger] s2.thread(x) == (if x == id {
        Thread { state: st, ..s.thread(x) } } else { s.thread(x) }) by {
        let i = choose|i: int| has_thread(s.threads, x, i);
        lemma_thread_at(s, i);
        lemma_thread_at(s2, i);
    }
}

/// The invariant survives setting a thread's state, unless the idle thread
/// exits, the current thread becomes `Ready`, or a thread awaiting reaping
/// is revived.
proof fn lemma_with_state_wf(s: SchedView, id: ThreadId, st: ThreadState)
    requires
        s.wf(),
        s.has(id),
        id == s.idle ==> st != ThreadState::Exited,
        id == s.current ==> st != ThreadState::Ready,
        s.thread(id).state == ThreadState::Exited ==> st == ThreadState::Exited,
    ensures
        s.with_state(id, st).wf(),
{
    let s2 = s.with_state(id, st);
    lemma_with_state(s, id, st);
    assert forall|i: int| 0 <= i < s2.threads.len() implies (#[trigger] s2.threads[i]).id < s2.next_id by {
        assert(s2.threads[i].id == s.threads[i].id);
    }
    assert forall|k: int| 0 <= k < s2.ready.len() implies s2.has(#[trigger] s2.ready[k]) by {
        assert(s.has(s.ready[k]));
    }
    assert forall|k: int| 0 <= k < s2.sleeping.len() implies s2.has((#[trigger] s2.sleeping[k]).1) by {
        assert(s.has(s.sleeping[k].1));
    }
    assert forall|k: int| 0 <= k < s2.to_reap.len() implies {
        let x = #[trigger] s2.to_reap[k];
        &&& s2.has(x)
        &&& s2.thread(x).state == ThreadState::Exited
        &&& x != s2.current
    } by {
        assert(s.has(s.to_reap[k]));
    }
}

impl Scheduler {
    /// Sets the state of thread `id`, found at index `i`.
    fn set_thread_state(&mut self, i: usize, id: ThreadId, st: ThreadState)
        requires
            old(self)@.ids_ok(),
            i < old(self)@.threads.len(),
            old(self)@.threads[i as int].id == id,
        ensures
            final(self)@ == old(self)@.with_state(id, st),
    {
        let ghost s0 = self@;
        self.set_state_at(i, st);
        proof {
            assert forall|j: int| 0 <= j < s0.threads.len() && j != i implies (#[trigger] s0.threads[j]).id != id by {
                if j < i { } else { }
            }
            assert(self@.threads =~= s0.with_state(id, st).threads);
        }
    }
}

/// Gives up the CPU: the current thread, still running, goes back on the
/// ready queue and `schedule` picks what runs next.
pub fn yield_now(s: &mut Scheduler) -> (r: Switch)
    requires
        old(s).wf(),
        old(s)@.pick_queue().len() <= MAX_THREADS,
    ensures
        final(s)@.settled(),
        switch_done(old(s)@, final(s)@, r),
{
    schedule(s)
}

/// Ends the current thread (not the idle thread): it is marked `Exited`
/// and `schedule` switches away from it for good, queueing it for reaping.
/// The caller wakes the threads waiting to join it.
pub fn exit_current(s: &mut Scheduler) -> (r: Switch)
    requires
        old(s).wf(),
        old(s)@.current != old(s)@.idle,
        old(s)@.ready.len() <= MAX_THREADS,
    ensures
        final(s)@.settled(),
        switch_done(old(s)@.with_state(old(s)@.current, ThreadState::Exited), final(s)@, r),
{
    let ghost s0 = s@;
    let cur = s.current;
    let i = s.index_of(cur).unwrap();
    s.set_thread_state(i, cur, ThreadState::Exited);
    proof {
        lemma_with_state_wf(s0, cur, ThreadState::Exited);
        lemma_with_state(s0, cur, ThreadState::Exited);
    }
    schedule(s)
}

/// Blocks the current thread once the caller has registered it wherever it
/// will be woken from (`registered`): it is marked `Blocked` and `schedule`
/// switches away. Without a registration nothing changes (`None`).
pub fn block_current(s: &mut Scheduler, registered: bool) -> (r: Option<Switch>)
    requires
        old(s)@.settled(),
        old(s)@.ready.len() <= MAX_THREADS,
    ensures
        final(s)@.wf(),
        registered ==> r is Some && final(s)@.settled()
            && switch_done(old(s)@.with_state(old(s)@.current, ThreadState::Blocked), final(s)@, r->0),
        !registered ==> r is None && final(s)@ == old(s)@,
{
    if !registered {
        return None;
    }
    let ghost s0 = s@;
    let cur = s.current;
    let i = s.index_of(cur).unwrap();
    s.set_thread_state(i, cur, ThreadState::Blocked);
    proof {
        lemma_with_state_wf(s0, cur, ThreadState::Blocked);
        lemma_with_state(s0, cur, ThreadState::Blocked);
    }
    Some(schedule(s))
}

/// The state `sleep_ms` switches away from: the current thread sleeping
/// until tick `wake_at`.
pub open spec fn asleep(s: SchedView, wake_at: u64) -> SchedView {
    SchedView { sleeping: s.sleeping.push((wake_at, s.current)), ..s.with_state(s.current, ThreadState::Sleeping) }
}

/// Puts the current thread to sleep for `ms` ticks from tick `now`
/// (saturating), and switches away.
pub fn sleep_ms(s: &mut Scheduler, now: u64, ms: u64) -> (r: Switch)
    requires
        old(s)@.settled(),
        old(s)@.ready.len() <= MAX_THREADS,
    ensures
        final(s)@.settled(),
        switch_done(asleep(old(s)@, now.saturating_add(ms)), final(s)@, r),
{
    let ghost s0 = s@;
    let wake_at = now.saturating_add(ms);
    let cur = s.current;
    let i = s.index_of(cur).unwrap();
    s.set_thread_state(i, cur, ThreadState::Sleeping);
    s.sleeping.push((wake_at, cur));
    proof {
        lemma_with_state_wf(s0, cur, ThreadState::Sleeping);
        lemma_with_state(s0, cur, ThreadState::Sleeping);
        assert(s@ == asleep(s0, wake_at));
        let s1 = s0.with_state(cur, ThreadState::Sleeping);
        assert forall|k: int| 0 <= k < s@.sleeping.len() implies s@.has((#[trigger] s@.sleeping[k]).1) by {
            assert(s@.threads == s1.threads);
            if k < s1.sleeping.len() {
                assert(s1.has(s1.sleeping[k].1));
            } else {
                assert(s1.has(cur));
            }
        }
    }
    schedule(s)
}

/// The exit code of thread `id` once it has exited; `None` while it still
/// runs (the caller waits and asks again).
pub fn join(s: &Scheduler, id: ThreadId) -> (r: Option<i32>)
    requires
        s.wf(),
        s@.has(id),
    ensures
        r == (if s@.thread(id).state == ThreadState::Exited { Some(s@.thread(id).exit_code) } else { None::<i32> }),
{
    let i = s.index_of(id).unwrap();
    if s.all[i].state == ThreadState::Exited {
        Some(s.all[i].exit_code)
    } else {
        None
    }
}

/// Switches away if a reschedule was requested, clearing the request.
pub fn preempt_if_needed(s: &mut Scheduler) -> (r: Option<Switch>)
    requires
        old(s).wf(),
        old(s)@.pick_queue().len() <= MAX_THREADS,
    ensures
        final(s).wf(),
        old(s)@.need_resched ==> r is Some
            && switch_done(SchedView { need_resched: false, ..old(s)@ }, final(s)@, r->0),
        !old(s)@.need_resched ==> r is None && final(s)@ == old(s)@,
{
    if s.need_resched {
        s.need_resched = false;
        proof {
            assert(s@ == SchedView { need_resched: false, ..old(s)@ });
        }
        Some(schedule(s))
    } else {
        None
    }
}

/// A new thread's record: `Ready`, with nothing run yet.
pub open spec fn fresh_thread(id: ThreadId, name: String, stack: KernelStack, rsp: u64, space: Option<AddressSpace>) -> Thread {
    Thread {
        id,
        name,
        state: ThreadState::Ready,
        exit_code: 0,
        stack,
        ticks_run: 0,
        dispatches: 0,
        address_space: space,
        rsp,
    }
}

/// The state after spawning thread `t`: registered under the next id and
/// queued to run.
pub open spec fn spawned(s: SchedView, t: Thread) -> SchedView {
    SchedView { threads: s.threads.push(t), ready: s.ready.push(t.id), next_id: (s.next_id + 1) as u64, ..s }
}

/// Registering a thread with a fresh id keeps every other lookup.
pub proof fn lemma_spawned(s: SchedView, t: Thread)
    requires
        s.wf(),
        t.id == s.next_id,
        s.next_id + 1 < u64::MAX,
    ensures
        spawned(s, t).wf(),
        spawned(s, t).has(t.id),
        spawned(s, t).thread(t.id) == t,
        forall|x: ThreadId| s.has(x) ==> #[trigger] spawned(s, t).has(x),
        forall|x: ThreadId| s.has(x) ==> #[trigger] spawned(s, t).thread(x) == s.thread(x),
        s.settled() ==> spawned(s, t).settled(),
{
    let s2 = spawned(s, t);
    let n = s.threads.len() as int;
    assert(s2.ids_ok()) by {
        assert forall|i: int, j: int| 0 <= i < j < s2.threads.len() implies
            (#[trigger] s2.threads[i]).id != (#[trigger] s2.threads[j]).id by {
            if j == n {
                assert(s.threads[i].id < s.next_id);
            } else {
                assert(s.threads[i].id != s.threads[j].id);
            }
        }
    }
    assert forall|x: ThreadId| s.has(x) implies s2.has(x) && s2.thread(x) == s.thread(x) by {
        let i = choose|i: int| has_thread(s.threads, x, i);
        lemma_thread_at(s, i);
        assert(has_thread(s2.threads, x, i));
        lemma_thread_at(s2, i);
    }
    assert(has_thread(s2.threads, t.id, n));
    lemma_thread_at(s2, n);
    assert forall|i: int| 0 <= i < s2.threads.len() implies (#[trigger] s2.threads[i]).id < s2.next_id by {
        if i < n {
            assert(s.threads[i].id < s.next_id);
        }
    }
    assert forall|k: int| 0 <= k < s2.ready.len() implies s2.has(#[trigger] s2.ready[k]) by {
        if k < s.ready.len() {
            assert(s.has(s.ready[k]));
        }
    }
    assert forall|k: int| 0 <= k < s2.sleeping.len() implies s2.has((#[trigger] s2.sleeping[k]).1) by {
        assert(s.has(s.sleeping[k].1));
    }
    assert forall|k: int| 0 <= k < s2.to_reap.len() implies {
        let x = #[trigger] s2.to_reap[k];
        &&& s2.has(x)
        &&& s2.thread(x).state == ThreadState::Exited
        &&& x != s2.current
    } by {
        assert(s.has(s.to_reap[k]));
    }
}

impl Scheduler {
    /// Registers thread `t` under the next id and queues it.
    fn register(&mut self, t: Thread)
        requires
            old(self).wf(),
            t.id == old(self)@.next_id,
            old(self)@.next_id + 1 < u64::MAX,
        ensures
            final(self)@ == spawned(old(self)@, t),
    {
        let id = t.id;
        self.all.push(t);
        self.ready.push(id);
        self.next_id = self.next_id + 1;
    }
}

/// Creates a `Ready` kernel thread named `name` on `stack`, first switched
/// to at `rsp`, and returns its id.
pub fn spawn(s: &mut Scheduler, name: String, stack: KernelStack, rsp: u64) -> (r: ThreadId)
    requires
        old(s).wf(),
        old(s)@.ready.len() < MAX_THREADS,
        old(s)@.next_id + 1 < u64::MAX,
    ensures
        final(s).wf(),
        r == old(s)@.next_id,
        final(s)@ == spawned(old(s)@, fresh_thread(r, name, stack, rsp, None)),
        old(s)@.settled() ==> final(s)@.settled(),
{
    let id = s.next_id;
    let t = Thread {
        id, name, state: ThreadState::Ready, exit_code: 0, stack, ticks_run: 0, dispatches: 0,
        address_space: None, rsp,
    };
    proof {
        lemma_spawned(s@, t);
    }
    s.register(t);
    id
}

/// Creates a `Ready` user thread that runs in `space`, like `spawn`.
pub fn spawn_user(s: &mut Scheduler, name: String, stack: KernelStack, rsp: u64, space: AddressSpace) -> (r: ThreadId)
    requires
        old(s).wf(),
        old(s)@.ready.len() < MAX_THREADS,
        old(s)@.next_id + 1 < u64::MAX,
    ensures
        final(s).wf(),
        r == old(s)@.next_id,
        final(s)@ == spawned(old(s)@, fresh_thread(r, name, stack, rsp, Some(space))),
        old(s)@.settled() ==> final(s)@.settled(),
{
    let id = s.next_id;
    let t = Thread {
        id, name, state: ThreadState::Ready, exit_code: 0, stack, ticks_run: 0, dispatches: 0,
        address_space: Some(space), rsp,
    };
    proof {
        lemma_spawned(s@, t);
    }
    s.register(t);
    id
}

/// The state after waking thread `id`: it is `Ready` and queued, and a
/// reschedule is requested if the idle thread is running.
pub open spec fn woken(s: SchedView, id: ThreadId) -> SchedView {
    SchedView {
        ready: s.ready.push(id),
        need_resched: s.need_resched || s.current == s.idle,
        ..s.with_state(id, ThreadState::Ready)
    }
}

/// Moves a blocked or sleeping thread to the ready queue; any other thread
/// is left as it is.
pub fn wake(s: &mut Scheduler, id: ThreadId)
    requires
        old(s)@.settled(),
        old(s)@.has(id),
        old(s)@.ready.len() < MAX_THREADS,
    ensures
        final(s)@.settled(),
        ({
            let st = old(s)@.thread(id).state;
            if st == ThreadState::Blocked || st == ThreadState::Sleeping {
                final(s)@ == woken(old(s)@, id)
            } else {
                final(s)@ == old(s)@
            }
        }),
{
    let ghost s0 = s@;
    let i = s.index_of(id).unwrap();
    let st = s.all[i].state;
    if st == ThreadState::Blocked || st == ThreadState::Sleeping {
        s.set_thread_state(i, id, ThreadState::Ready);
        s.ready.push(id);
        if s.current == s.idle {
            s.need_resched = true;
        }
        proof {
            lemma_with_state_wf(s0, id, ThreadState::Ready);
            lemma_with_state(s0, id, ThreadState::Ready);
            let s1 = s0.with_state(id, ThreadState::Ready);
            assert(s@ == woken(s0, id));
            assert(s@.threads == s1.threads);
            assert forall|k: int| 0 <= k < s@.ready.len() implies s@.has(#[trigger] s@.ready[k]) by {
                if k < s1.ready.len() {
                    assert(s1.has(s1.ready[k]));
                } else {
                    assert(s1.has(id));
                }
            }
            assert(s1.thread(s0.current) == s0.thread(s0.current));
            assert(s@.thread(s@.current) == s1.thread(s0.current));
        }
    }
}

/// Ending a thread other than the current and idle ones keeps the
/// invariant, and changes only that thread's record and the sleep list.
proof fn lemma_ended(s: SchedView, id: ThreadId, code: i32)
    requires
        s.wf(),
        s.has(id),
        id != s.current,
        id != s.idle,
    ensures
        s.ended(id, code).wf(),
        s.settled() ==> s.ended(id, code).settled(),
        forall|x: ThreadId| #[trigger] s.ended(id, code).has(x) <==> s.has(x),
        s.ended(id, code).thread(id) == (Thread { state: ThreadState::Exited, exit_code: code, ..s.thread(id) }),
{
    let s2 = s.ended(id, code);
    lemma_same_ids(s, s2);
    assert forall|x: ThreadId| s.has(x) implies s2.thread(x) == (if x == id {
        Thread { state: ThreadState::Exited, exit_code: code, ..s.thread(x) } } else { s.thread(x) }) by {
        let i = choose|i: int| has_thread(s.threads, x, i);
        lemma_thread_at(s, i);
        lemma_thread_at(s2, i);
    }
    assert forall|i: int| 0 <= i < s2.threads.len() implies (#[trigger] s2.threads[i]).id < s2.next_id by {
        assert(s2.threads[i].id == s.threads[i].id);
    }
    assert forall|k: int| 0 <= k < s2.ready.len() implies s2.has(#[trigger] s2.ready[k]) by {
        assert(s.has(s.ready[k]));
    }
    assert forall|k: int| 0 <= k < s2.sleeping.len() implies s2.has((#[trigger] s2.sleeping[k]).1) by {
        if s.thread(id).state == ThreadState::Sleeping {
            let p = other_than(id);
            assert(s.sleeping.filter(p).contains(s2.sleeping[k]));
            s.sleeping.lemma_filter_contains_rev(p, s2.sleeping[k]);
            let j = choose|j: int| 0 <= j < s.sleeping.len() && s.sleeping[j] == s2.sleeping[k];
            assert(s.has(s.sleeping[j].1));
        } else {
            assert(s.has(s.sleeping[k].1));
        }
    }
    assert forall|k: int| 0 <= k < s2.to_reap.len() implies {
        let x = #[trigger] s2.to_reap[k];
        &&& s2.has(x)
        &&& s2.thread(x).state == ThreadState::Exited
        &&& x != s2.current
    } by {
        assert(s.has(s.to_reap[k]));
    }
}

impl Scheduler {
    /// Takes thread `id` off the sleep list.
    fn remove_sleeper(&mut self, id: ThreadId)
        ensures
            final(self)@ == (SchedView { sleeping: old(self)@.sleeping.filter(other_than(id)), ..old(self)@ }),
    {
        let ghost p = other_than(id);
        let mut kept: Vec<(u64, ThreadId)> = Vec::new();
        let mut i: usize = 0;
        while i < self.sleeping.len()
            invariant
                i <= self.sleeping@.len(),
                self.sleeping@ == old(self)@.sleeping,
                p == other_than(id),
                kept@ == self.sleeping@.take(i as int).filter(p),
            decreases self.sleeping.len() - i,
        {
            let e = self.sleeping[i];
            proof {
                assert(self.sleeping@.take(i + 1) =~= self.sleeping@.take(i as int).push(e));
                self.sleeping@.take(i as int).lemma_filter_push(e, p);
                assert(p(e) == (e.1 != id));
            }
            if e.1 != id {
                kept.push(e);
            }
            i = i + 1;
        }
        proof {
            assert(self.sleeping@.take(i as int) =~= self.sleeping@);
        }
        self.sleeping = kept;
    }
}

/// Ends thread `id`, which must not be the current or the idle thread,
/// with exit code `code`. `(false, None)` if there is no such thread; a
/// thread that has already exited is left as it is (`(true, None)`).
/// Otherwise it is marked `Exited` with `code` and taken off the sleep
/// list, and the stack of a blocked or sleeping thread comes back for the
/// caller to free (nothing would reap it); a ready one is reaped by
/// `schedule` when it reaches the front of the ready queue. The caller
/// wakes the threads waiting to join it.
pub fn force_exit(s: &mut Scheduler, id: ThreadId, code: i32) -> (r: (bool, Option<KernelStack>))
    requires
        old(s).wf(),
        id != old(s)@.current,
        id != old(s)@.idle,
    ensures
        final(s).wf(),
        old(s)@.settled() ==> final(s)@.settled(),
        !old(s)@.has(id) ==> r == (false, None::<KernelStack>) && final(s)@ == old(s)@,
        old(s)@.has(id) && old(s)@.thread(id).state == ThreadState::Exited ==> r == (true, None::<KernelStack>)
            && final(s)@ == old(s)@,
        old(s)@.has(id) && old(s)@.thread(id).state != ThreadState::Exited ==> {
            let st = old(s)@.thread(id).state;
            &&& r.0
            &&& r.1 == (if st == ThreadState::Blocked || st == ThreadState::Sleeping {
                Some(old(s)@.thread(id).stack) } else { None })
            &&& final(s)@ == old(s)@.ended(id, code)
        },
{
    let ghost s0 = s@;
    let i = match s.index_of(id) {
        Some(i) => i,
        None => {
            return (false, None);
        },
    };
    let prior = s.all[i].state;
    if prior == ThreadState::Exited {
        return (true, None);
    }
    let mut t = s.all.remove(i);
    t.state = ThreadState::Exited;
    t.exit_code = code;
    let stack = t.stack;
    s.all.insert(i, t);
    proof {
        assert forall|j: int| 0 <= j < s0.threads.len() && j != i implies (#[trigger] s0.threads[j]).id != id by {
            if j < i { } else { }
        }
        assert(s@.threads =~= s0.ended(id, code).threads);
    }
    if prior == ThreadState::Sleeping {
        s.remove_sleeper(id);
    }
    proof {
        assert(s@ == s0.ended(id, code));
        lemma_ended(s0, id, code);
    }
    if prior == ThreadState::Blocked || prior == ThreadState::Sleeping {
        (true, Some(stack))
    } else {
        (true, None)
    }
}

/// Removing element `i` by moving the last one into its place keeps the
/// other elements, as a multiset.
proof fn lemma_swap_remove_multiset<A>(v: Seq<A>, i: int)
    requires
        0 <= i < v.len(),
    ensures
        v.update(i, v.last()).drop_last().to_multiset().insert(v[i]) == v.to_multiset(),
{
    broadcast use vstd::seq_lib::group_to_multiset_ensures, vstd::multiset::group_multiset_axioms;
    let n = v.len() - 1;
    let t = v.update(i, v.last()).drop_last();
    assert(v.remove(n) =~= v.drop_last());
    if i == n {
        assert(t =~= v.remove(n));
        assert(t.to_multiset().insert(v[i]) =~= v.to_multiset());
    } else {
        let u = v.drop_last();
        assert(t =~= u.remove(i).insert(i, v.last()));
        assert(u.to_multiset() =~= v.to_multiset().remove(v[n]));
        assert(u.remove(i).to_multiset() =~= u.to_multiset().remove(u[i]));
        assert(t.to_multiset() =~= u.to_multiset().remove(u[i]).insert(v[n]));
        assert(t.to_multiset().insert(v[i]) =~= v.to_multiset());
    }
}

/// Whether a sleep-list entry of thread `x` is due by tick `now`.
pub open spec fn entry_due(es: Seq<(u64, ThreadId)>, now: u64, x: ThreadId) -> bool {
    exists|k: int| 0 <= k < es.len() && (#[trigger] es[k]).1 == x && es[k].0 <= now
}

/// Thread `x` sleeps with an entry due by tick `now`.
pub open spec fn due_sleeper(s: SchedView, now: u64, x: ThreadId) -> bool {
    &&& s.has(x)
    &&& s.thread(x).state == ThreadState::Sleeping
    &&& entry_due(s.sleeping, now, x)
}

/// `threads` with the threads `w` made `Ready`.
pub open spec fn made_ready(threads: Seq<Thread>, w: Seq<ThreadId>) -> Seq<Thread> {
    threads.map_values(|t: Thread| if w.contains(t.id) { Thread { state: ThreadState::Ready, ..t } } else { t })
}

/// What `wake_due` does from state `s0` to state `s` at tick `now`,
/// returning `r`: the due sleepers, each once, are appended to the ready
/// queue and made `Ready`; the due entries leave the sleep list (the
/// others stay, in some order); `r` says whether any thread woke.
pub open spec fn woke_due(s0: SchedView, s: SchedView, now: u64, r: bool) -> bool {
    let w = s.ready.skip(s0.ready.len() as int);
    &&& s.ready.len() >= s0.ready.len()
    &&& s.ready.take(s0.ready.len() as int) == s0.ready
    &&& w.no_duplicates()
    &&& forall|x: ThreadId| #[trigger] w.contains(x) <==> due_sleeper(s0, now, x)
    &&& s.threads == made_ready(s0.threads, w)
    &&& r == (w.len() > 0)
    &&& forall|e: (u64, ThreadId)| #[trigger] s.sleeping.to_multiset().count(e)
        == (if e.0 <= now { 0 } else { s0.sleeping.to_multiset().count(e) })
    &&& s.current == s0.current
    &&& s.idle == s0.idle
    &&& s.to_reap == s0.to_reap
    &&& s.next_id == s0.next_id
    &&& s.need_resched == s0.need_resched
    &&& s.timeslice == s0.timeslice
}

/// Moves every thread whose sleep has run out by tick `now` to the ready
/// queue (each once; a thread ended meanwhile stays as it is), dropping the
/// due entries from the sleep list. Returns whether it woke any.
#[verifier::rlimit(60)]
pub fn wake_due(s: &mut Scheduler, now: u64) -> (r: bool)
    requires
        old(s)@.settled(),
        old(s)@.ready.len() + old(s)@.sleeping.len() <= MAX_THREADS,
    ensures
        final(s)@.settled(),
        woke_due(old(s)@, final(s)@, now, r),
{
    broadcast use vstd::seq_lib::group_to_multiset_ensures, vstd::multiset::group_multiset_axioms;
    let ghost s0 = s@;
    let ghost mut removed: Seq<(u64, ThreadId)> = Seq::empty();
    let ghost mut w: Seq<ThreadId> = Seq::empty();
    let mut woke_any = false;
    let mut i: usize = 0;
    proof {
        assert(s0.ready + w =~= s0.ready);
        assert(made_ready(s0.threads, w) =~= s0.threads);
        assert(s.sleeping@.to_multiset().add(removed.to_multiset()) =~= s0.sleeping.to_multiset());
    }
    while i < s.sleeping.len()
        invariant
            s0.settled(),
            s0.ready.len() + s0.sleeping.len() <= MAX_THREADS,
            i <= s.sleeping@.len(),
            forall|k: int| 0 <= k < i ==> (#[trigger] s.sleeping@[k]).0 > now,
            forall|k: int| 0 <= k < s.sleeping@.len() ==> s0.has((#[trigger] s.sleeping@[k]).1),
            s.sleeping@.to_multiset().add(removed.to_multiset()) == s0.sleeping.to_multiset(),
            removed.len() + s.sleeping@.len() == s0.sleeping.len(),
            forall|k: int| 0 <= k < removed.len() ==> (#[trigger] removed[k]).0 <= now,
            s.ready@ == s0.ready + w,
            w.len() <= removed.len(),
            w.no_duplicates(),
            forall|x: ThreadId| #[trigger] w.contains(x) <==>
                (s0.has(x) && s0.thread(x).state == ThreadState::Sleeping && entry_due(removed, now, x)),
            s.all@ == made_ready(s0.threads, w),
            s.current == s0.current,
            s.idle == s0.idle,
            s.to_reap@ == s0.to_reap,
            s.next_id == s0.next_id,
            s.need_resched == s0.need_resched,
            s.timeslice_remaining == s0.timeslice,
            woke_any == (w.len() > 0),
        decreases s.sleeping.len() - i,
    {
        if s.sleeping[i].0 <= now {
            let ghost before = s.sleeping@;
            let entry = s.sleeping.swap_remove(i);
            let x = entry.1;
            proof {
                lemma_swap_remove_multiset(before, i as int);
                assert(s0.has(before[i as int].1));
                let r2 = removed.push(entry);
                vstd::seq_lib::to_multiset_build(removed, entry);
                assert(s.sleeping@.to_multiset().insert(entry) == before.to_multiset());
                assert(before.to_multiset().add(removed.to_multiset()) == s0.sleeping.to_multiset());
                assert(s.sleeping@.to_multiset().add(r2.to_multiset()) =~= s0.sleeping.to_multiset());
                assert forall|y: ThreadId| #[trigger] entry_due(r2, now, y) <==> entry_due(removed, now, y) || y == x by {
                    if entry_due(r2, now, y) {
                        let k = choose|k: int| 0 <= k < r2.len() && (#[trigger] r2[k]).1 == y && r2[k].0 <= now;
                        if k < removed.len() {
                            assert(removed[k] == r2[k]);
                        }
                    }
                    if entry_due(removed, now, y) {
                        let k = choose|k: int| 0 <= k < removed.len() && (#[trigger] removed[k]).1 == y && removed[k].0 <= now;
                        assert(r2[k] == removed[k]);
                    }
                    if y == x {
                        assert(r2[removed.len() as int] == entry);
                    }
                }
                removed = r2;
                lemma_same_ids(s0, s@);
            }
            let j = s.index_of(x).unwrap();
            proof {
                lemma_thread_at(s0, j as int);
            }
            if s.all[j].state == ThreadState::Sleeping {
                s.set_state_at(j, ThreadState::Ready);
                s.ready.push(x);
                woke_any = true;
                proof {
                    assert(!w.contains(x));
                    let w2 = w.push(x);
                    assert forall|a: int, b: int| 0 <= a < b < w2.len() implies w2[a] != w2[b] by {
                        if b == w.len() {
                            assert(w.contains(w2[a]));
                        }
                    }
                    assert forall|t: int| 0 <= t < s0.threads.len() && t != j implies (#[trigger] s0.threads[t]).id != x by {
                        if t < j { } else { }
                    }
                    assert forall|y: ThreadId| #[trigger] w2.contains(y) <==> w.contains(y) || y == x by {
                        if w2.contains(y) {
                            let k = choose|k: int| 0 <= k < w2.len() && w2[k] == y;
                            if k < w.len() {
                                assert(w.contains(w[k]));
                            }
                        }
                        if w.contains(y) {
                            let k = choose|k: int| 0 <= k < w.len() && w[k] == y;
                            assert(w2[k] == y);
                        }
                        assert(w2[w.len() as int] == x);
                    }
                    assert(s.all@ =~= made_ready(s0.threads, w2));
                    assert(s.ready@ =~= s0.ready + w2);
                    w = w2;
                }
            } else {
                proof {
                    assert forall|y: ThreadId| #[trigger] w.contains(y) <==>
                        (s0.has(y) && s0.thread(y).state == ThreadState::Sleeping && entry_due(removed, now, y)) by {
                        if y == x && !w.contains(y) {
                            assert(s0.thread(x) == s0.threads[j as int]);
                        }
                    }
                }
            }
        } else {
            i = i + 1;
        }
    }
    proof {
        let fin = s@;
        assert forall|e: (u64, ThreadId)| #[trigger] fin.sleeping.to_multiset().count(e)
            == (if e.0 <= now { 0 } else { s0.sleeping.to_multiset().count(e) }) by {
            if e.0 <= now {
                if fin.sleeping.contains(e) {
                    let k = choose|k: int| 0 <= k < fin.sleeping.len() && fin.sleeping[k] == e;
                    assert(fin.sleeping[k].0 > now);
                }
            } else {
                if removed.contains(e) {
                    let k = choose|k: int| 0 <= k < removed.len() && removed[k] == e;
                    assert(removed[k].0 <= now);
                }
            }
        }
        assert forall|x: ThreadId| entry_due(removed, now, x) <==> entry_due(s0.sleeping, now, x) by {
            if entry_due(removed, now, x) {
                let k = choose|k: int| 0 <= k < removed.len() && (#[trigger] removed[k]).1 == x && removed[k].0 <= now;
                assert(removed.contains(removed[k]));
                assert(s0.sleeping.to_multiset().count(removed[k]) > 0);
                assert(s0.sleeping.contains(removed[k]));
                let j = choose|j: int| 0 <= j < s0.sleeping.len() && s0.sleeping[j] == removed[k];
                assert(s0.sleeping[j].1 == x);
            }
            if entry_due(s0.sleeping, now, x) {
                let k = choose|k: int| 0 <= k < s0.sleeping.len() && (#[trigger] s0.sleeping[k]).1 == x && s0.sleeping[k].0 <= now;
                let e = s0.sleeping[k];
                assert(s0.sleeping.contains(e));
                if fin.sleeping.contains(e) {
                    let m = choose|m: int| 0 <= m < fin.sleeping.len() && fin.sleeping[m] == e;
                    assert(fin.sleeping[m].0 > now);
                }
                assert(fin.sleeping.to_multiset().count(e) == 0);
                assert(s0.sleeping.to_multiset().count(e) > 0);
                assert(removed.to_multiset().count(e) > 0);
                assert(removed.contains(e));
                let j = choose|j: int| 0 <= j < removed.len() && removed[j] == e;
                assert(removed[j].1 == x);
            }
        }
        let n0 = s0.ready.len() as int;
        assert(fin.ready.take(n0) =~= s0.ready);
        assert(fin.ready.skip(n0) =~= w);
        lemma_same_ids(s0, fin);
        lemma_sched_wake_due_wf(s0, fin, w, now);
    }
    woke_any
}

/// The invariant after `wake_due`.
proof fn lemma_sched_wake_due_wf(s0: SchedView, s: SchedView, w: Seq<ThreadId>, now: u64)
    requires
        s0.settled(),
        forall|x: ThreadId| #[trigger] w.contains(x) ==> due_sleeper(s0, now, x),
        s.threads == made_ready(s0.threads, w),
        s.ready == s0.ready + w,
        forall|k: int| 0 <= k < s.sleeping.len() ==> s0.has((#[trigger] s.sleeping[k]).1),
        s.current == s0.current,
        s.idle == s0.idle,
        s.to_reap == s0.to_reap,
        s.next_id == s0.next_id,
    ensures
        s.settled(),
{
    lemma_same_ids(s0, s);
    assert forall|x: ThreadId| s0.has(x) implies s.thread(x) == (if w.contains(x) {
        Thread { state: ThreadState::Ready, ..s0.thread(x) } } else { s0.thread(x) }) by {
        let i = choose|i: int| has_thread(s0.threads, x, i);
        lemma_thread_at(s0, i);
        lemma_thread_at(s, i);
    }
    assert forall|i: int| 0 <= i < s.threads.len() implies (#[trigger] s.threads[i]).id < s.next_id by {
        assert(s.threads[i].id == s0.threads[i].id);
    }
    assert forall|k: int| 0 <= k < s.ready.len() implies s.has(#[trigger] s.ready[k]) by {
        if k < s0.ready.len() {
            assert(s0.has(s0.ready[k]));
        } else {
            assert(w.contains(w[k - s0.ready.len()]));
        }
    }
    assert forall|k: int| 0 <= k < s.to_reap.len() implies {
        let x = #[trigger] s.to_reap[k];
        &&& s.has(x)
        &&& s.thread(x).state == ThreadState::Exited
        &&& x != s.current
    } by {
        let x = s.to_reap[k];
        assert(s0.has(x));
        if w.contains(x) {
            assert(due_sleeper(s0, now, x));
        }
    }
    if w.contains(s0.current) {
        assert(due_sleeper(s0, now, s0.current));
    }
    if w.contains(s0.idle) {
        assert(due_sleeper(s0, now, s0.idle));
    }
}

/// This state with a timer tick counted against the current thread.
pub open spec fn ticked(s: SchedView) -> SchedView {
    SchedView {
        threads: s.threads.map_values(
            |t: Thread| if t.id == s.current { Thread { ticks_run: counter_inc(t.ticks_run), ..t } } else { t },
        ),
        ..s
    }
}

/// Counting a tick keeps the scheduler settled.
proof fn lemma_ticked(s: SchedView)
    requires
        s.settled(),
    ensures
        ticked(s).settled(),
{
    let s2 = ticked(s);
    lemma_same_ids(s, s2);
    assert forall|x: ThreadId| s.has(x) implies s2.thread(x).state == s.thread(x).state by {
        let i = choose|i: int| has_thread(s.threads, x, i);
        lemma_thread_at(s, i);
        lemma_thread_at(s2, i);
    }
    assert forall|i: int| 0 <= i < s2.threads.len() implies (#[trigger] s2.threads[i]).id < s2.next_id by {
        assert(s2.threads[i].id == s.threads[i].id);
    }
    assert forall|k: int| 0 <= k < s2.ready.len() implies s2.has(#[trigger] s2.ready[k]) by {
        assert(s.has(s.ready[k]));
    }
    assert forall|k: int| 0 <= k < s2.sleeping.len() implies s2.has((#[trigger] s2.sleeping[k]).1) by {
        assert(s.has(s.sleeping[k].1));
    }
    assert forall|k: int| 0 <= k < s2.to_reap.len() implies {
        let x = #[trigger] s2.to_reap[k];
        &&& s2.has(x)
        &&& s2.thread(x).state == ThreadState::Exited
        &&& x != s2.current
    } by {
        assert(s.has(s.to_reap[k]));
    }
}

/// The reschedule request and the timeslice have no part in the invariant.
proof fn lemma_flags_settled(a: SchedView, b: SchedView)
    requires
        a.settled(),
        b == (SchedView { need_resched: b.need_resched, timeslice: b.timeslice, ..a }),
    ensures
        b.settled(),
{
    assert forall|k: int| 0 <= k < b.ready.len() implies b.has(#[trigger] b.ready[k]) by {
        assert(a.has(a.ready[k]));
    }
    assert forall|k: int| 0 <= k < b.sleeping.len() implies b.has((#[trigger] b.sleeping[k]).1) by {
        assert(a.has(a.sleeping[k].1));
    }
    assert forall|k: int| 0 <= k < b.to_reap.len() implies {
        let x = #[trigger] b.to_reap[k];
        &&& b.has(x)
        &&& b.thread(x).state == ThreadState::Exited
        &&& x != b.current
    } by {
        assert(a.has(a.to_reap[k]));
    }
}

/// The bookkeeping of one timer tick at tick `now`: the tick is counted
/// against the current thread, the due sleepers wake (see `woke_due`; a
/// reschedule is requested if the idle thread was running and any woke),
/// and the timeslice counts down, requesting a reschedule and starting
/// over when it runs out.
pub fn on_timer_tick(s: &mut Scheduler, now: u64)
    requires
        old(s)@.settled(),
        old(s)@.ready.len() + old(s)@.sleeping.len() <= MAX_THREADS,
    ensures
        final(s)@.settled(),
        ({
            let woke = final(s)@.ready.len() > old(s)@.ready.len();
            &&& woke_due(ticked(old(s)@),
                SchedView { need_resched: old(s)@.need_resched, timeslice: old(s)@.timeslice, ..final(s)@ }, now, woke)
            &&& final(s)@.timeslice == (if old(s)@.timeslice <= 1 { TIMESLICE_TICKS } else { (old(s)@.timeslice - 1) as u64 })
            &&& final(s)@.need_resched == (old(s)@.need_resched || (woke && old(s)@.current == old(s)@.idle)
                || old(s)@.timeslice <= 1)
        }),
{
    let ghost s0 = s@;
    let cur = s.current;
    let i = s.index_of(cur).unwrap();
    let mut t = s.all.remove(i);
    t.ticks_run = t.ticks_run.wrapping_add(1);
    s.all.insert(i, t);
    proof {
        assert forall|j: int| 0 <= j < s0.threads.len() && j != i implies (#[trigger] s0.threads[j]).id != cur by {
            if j < i { } else { }
        }
        assert(s@.threads =~= ticked(s0).threads);
        assert(s@ == ticked(s0));
        lemma_ticked(s0);
    }
    let woke = wake_due(s, now);
    let ghost s1 = s@;
    if woke && s.current == s.idle {
        s.need_resched = true;
    }
    if s.timeslice_remaining <= 1 {
        s.timeslice_remaining = TIMESLICE_TICKS;
        s.need_resched = true;
    } else {
        s.timeslice_remaining = s.timeslice_remaining - 1;
    }
    proof {
        lemma_flags_settled(s1, s@);
    }
}

/// This state with the current thread's exit code set to `code`.
pub open spec fn with_current_code(s: SchedView, code: i32) -> SchedView {
    SchedView {
        threads: s.threads.map_values(|t: Thread| if t.id == s.current { Thread { exit_code: code, ..t } } else { t }),
        ..s
    }
}

/// Records `code` as the current thread's exit code.
pub fn set_current_exit_code(s: &mut Scheduler, code: i32)
    requires
        old(s).wf(),
    ensures
        final(s).wf(),
        final(s)@ == with_current_code(old(s)@, code),
        forall|x: ThreadId| old(s)@.has(x) ==> #[trigger] final(s)@.thread(x) == (if x == old(s)@.current {
            Thread { exit_code: code, ..old(s)@.thread(x) } } else { old(s)@.thread(x) }),
{
    let ghost s0 = s@;
    let cur = s.current;
    let i = s.index_of(cur).unwrap();
    let mut t = s.all.remove(i);
    t.exit_code = code;
    s.all.insert(i, t);
    proof {
        assert forall|j: int| 0 <= j < s0.threads.len() && j != i implies (#[trigger] s0.threads[j]).id != cur by {
            if j < i { } else { }
        }
        assert(s@.threads =~= with_current_code(s0, code).threads);
        let s2 = s@;
        lemma_same_ids(s0, s2);
        assert forall|x: ThreadId| s0.has(x) implies #[trigger] s2.thread(x) == (if x == cur {
            Thread { exit_code: code, ..s0.thread(x) } } else { s0.thread(x) }) by {
            let k = choose|k: int| has_thread(s0.threads, x, k);
            lemma_thread_at(s0, k);
            lemma_thread_at(s2, k);
        }
        assert forall|q: int| 0 <= q < s2.threads.len() implies (#[trigger] s2.threads[q]).id < s2.next_id by {
            assert(s2.threads[q].id == s0.threads[q].id);
        }
        assert forall|k: int| 0 <= k < s2.ready.len() implies s2.has(#[trigger] s2.ready[k]) by {
            assert(s0.has(s0.ready[k]));
        }
        assert forall|k: int| 0 <= k < s2.sleeping.len() implies s2.has((#[trigger] s2.sleeping[k]).1) by {
            assert(s0.has(s0.sleeping[k].1));
        }
        assert forall|k: int| 0 <= k < s2.to_reap.len() implies {
            let x = #[trigger] s2.to_reap[k];
            &&& s2.has(x)
            &&& s2.thread(x).state == ThreadState::Exited
            &&& x != s2.current
        } by {
            assert(s0.has(s0.to_reap[k]));
        }
    }
}

/// Waking is idempotent: a woken thread is `Ready`, so waking it again
/// changes nothing.
pub proof fn law_wake_idempotent(s: SchedView, id: ThreadId)
    requires
        s.settled(),
        s.has(id),
        s.thread(id).state == ThreadState::Blocked || s.thread(id).state == ThreadState::Sleeping,
    ensures
        woken(s, id).has(id),
        woken(s, id).thread(id).state == ThreadState::Ready,
{
    lemma_with_state(s, id, ThreadState::Ready);
    let s1 = s.with_state(id, ThreadState::Ready);
    assert(woken(s, id).threads == s1.threads);
    assert(s1.has(id));
}

/// Ending a thread is idempotent: an ended thread has exited (with the
/// given code), so ending it again changes nothing.
pub proof fn law_force_exit_idempotent(s: SchedView, id: ThreadId, code: i32)
    requires
        s.wf(),
        s.has(id),
        id != s.current,
        id != s.idle,
    ensures
        s.ended(id, code).has(id),
        s.ended(id, code).thread(id).state == ThreadState::Exited,
        s.ended(id, code).thread(id).exit_code == code,
{
    lemma_ended(s, id, code);
}

/// A thread never frees its own stack: when the current thread has exited,
/// the switch away from it queues it for reaping by the next switch, and
/// the stacks this switch hands back are those of other threads.
pub proof fn law_exited_thread_reaped_later(s0: SchedView, s: SchedView, r: Switch)
    requires
        s0.wf(),
        s0.current != s0.idle,
        s0.thread(s0.current).state == ThreadState::Exited,
        switch_done(s0, s, r),
    ensures
        s.to_reap.len() > 0,
        s.to_reap[0] == s0.current,
        forall|j: int| 0 <= j < s0.to_reap.len() ==> #[trigger] s0.to_reap[j] != s0.current,
        r.reaped@.len() == s0.to_reap.len(),
{
    assert forall|j: int| 0 <= j < s0.to_reap.len() implies #[trigger] s0.to_reap[j] != s0.current by {}
}

/// Round robin: a yielding thread goes to the back of the ready queue and
/// the front of the queue runs, when that thread hasn't exited.
pub proof fn law_yield_round_robin(s0: SchedView, s: SchedView, r: Switch)
    requires
        s0.wf(),
        s0.current != s0.idle,
        s0.thread(s0.current).state == ThreadState::Running,
        s0.ready.len() > 0,
        s0.thread(s0.ready[0]).state != ThreadState::Exited,
        s0.ready[0] != s0.current,
        switch_done(s0, s, r),
    ensures
        r.next == s0.ready[0],
        s.current == s0.ready[0],
        s.ready == s0.ready.skip(1).push(s0.current),
{
    let q = s0.pick_queue();
    assert(q == s0.ready.push(s0.current));
    assert(q[0] == s0.ready[0]);
    assert(after_stop(s0.thread(q[0]), s0.current, s0.idle) == s0.thread(q[0]).state);
    assert(s0.first_live(0));
    lemma_first_live_unique(s0, 0);
    assert(q.skip(1) =~= s0.ready.skip(1).push(s0.current));
}

} // verus!
