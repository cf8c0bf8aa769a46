//! A user process: its id, name, address space and main thread, and the
//! parts of its address space it grows on demand: anonymous mappings and
//! the stack.
use vstd::prelude::*;
use crate::mm::addr::{PhysAddr, VirtAddr};
use crate::mm::paging::{va_index, PageFlags, FLAG_USER, FLAG_WRITABLE, FLAG_NO_EXECUTE, FLAG_PRESENT, FLAG_HUGE, FLAGS_MASK};
use crate::mm::pmm::{Pmm, alloc_frame, free_frame, frame_of, freeable};
use crate::mm::bitmap::free_count;
use crate::mm::vmm::{PhysMem, AddressSpace, PageSize, walk, t3, owns_tables, lemma_all_used_no_free, lemma_free_count_decrements};
use crate::mm::vmm::tree::{tree_ok, unmapped_4k, other_page, lemma_frame, lemma_mapped_one_facts, lemma_clear_leaf};
use crate::mm::vmm::range::lemma_pages_differ;
use crate::proc::exec::INITIAL_STACK_MAPPED;
use crate::proc::usermem::USER_SPACE_CEILING;
use crate::sched::ThreadId;

verus! {

/// A process's identity.
pub type Pid = u64;

/// Where a process's anonymous mappings start; each `map_anon` bumps the
/// cursor upward.
pub const ANON_BASE: u64 = 0x1000_0000;
/// How much address space below the stack top is reserved for the stack;
/// only its top slice is mapped at first, the rest grows on demand.
pub const STACK_RESERVED: u64 = 0x100_0000;
/// The lowest address a user page may be unmapped at: the link base of
/// user programs.
pub const USER_BASE: u64 = 0x40_0000;
/// The most one `map_anon` call maps.
pub const MAX_MAP_ANON_LEN: usize = 0x4000_0000;

/// Why `map_anon` refused a request.
#[derive(Debug, Clone, Copy, PartialEq, Eq, Structural)]
pub enum MapAnonError {
    /// A zero or too large length, or a range that would reach the stack
    /// reservation or the top of user space.
    Invalid,
    /// Too few free frames to map the range.
    OutOfMemory,
}

/// One user process.
pub struct Process {
    pid: Pid,
    name: String,
    address_space: AddressSpace,
    main_thread: ThreadId,
    parent: Option<Pid>,
    exiting: bool,
    anon_cursor: u64,
    stack_top: u64,
    stack_low: u64,
}

/// An `unmap(addr, len)` request is well formed: a non-empty, page-aligned
/// range inside the user half, from the user link base up.
pub open spec fn unmap_request_ok(addr: u64, len: u64) -> bool {
    &&& len != 0
    &&& addr % 4096 == 0
    &&& len % 4096 == 0
    &&& addr + len <= u64::MAX
    &&& USER_BASE <= addr
    &&& addr + len <= USER_SPACE_CEILING
}

/// Every page of `[addr, addr + len)` is mapped.
pub open spec fn range_mapped(m: Map<u64, Seq<u64>>, root: u64, addr: u64, len: int) -> bool {
    forall|v: u64| v % 4096 == 0 && addr <= v < addr + len ==> (#[trigger] walk(m, root, v)) is Some
}

/// The frame behind mapped page `v`.
pub open spec fn frame_at(m: Map<u64, Seq<u64>>, root: u64, v: u64) -> u64 {
    walk(m, root, v).unwrap().0
}

/// The frames behind the mapped pages of `[addr, addr + len)` can each be
/// handed back to the PMM: every such page is a 4 KiB mapping of a frame
/// of its own, a used frame of the general pool that holds no page table.
pub open spec fn frames_releasable(m: Map<u64, Seq<u64>>, root: u64, pmm: &Pmm, addr: u64, len: int) -> bool {
    &&& forall|v: u64| #![trigger walk(m, root, v)] v % 4096 == 0 && addr <= v < addr + len && walk(m, root, v) is Some ==> {
        &&& walk(m, root, v).unwrap().2 == PageSize::Normal
        &&& freeable(pmm, frame_at(m, root, v))
        &&& pmm.low().len() <= frame_of(frame_at(m, root, v)) < pmm.general().len()
        &&& !m.contains_key(frame_at(m, root, v))
    }
    &&& forall|v1: u64, v2: u64| #![trigger walk(m, root, v1), walk(m, root, v2)]
        v1 % 4096 == 0 && v2 % 4096 == 0 && addr <= v1 < addr + len && addr <= v2 < addr + len && v1 != v2
        && walk(m, root, v1) is Some && walk(m, root, v2) is Some
        ==> frame_at(m, root, v1) != frame_at(m, root, v2)
}

/// Frame `f` is behind none of the pages of `[addr, addr + len)`.
pub open spec fn frame_unused_by(m: Map<u64, Seq<u64>>, root: u64, addr: u64, len: int, f: int) -> bool {
    forall|v: u64| v % 4096 == 0 && addr <= v < addr + len ==> frame_of(#[trigger] frame_at(m, root, v)) != f
}

/// After unmapping the pages of `[addr, a)` one by one: those pages are
/// unmapped, and every other page translates as in `m0`.
pub open spec fn walks_cleared(m: Map<u64, Seq<u64>>, m0: Map<u64, Seq<u64>>, root: u64, addr: u64, len: int, a: u64) -> bool {
    &&& forall|v: u64| v % 4096 == 0 && addr <= v < a ==> (#[trigger] walk(m, root, v)) is None
    &&& forall|v: u64| v % 4096 == 0 && a <= v < addr + len ==> #[trigger] walk(m, root, v) == walk(m0, root, v)
    &&& forall|v: u64| #[trigger] page_outside(v, addr, len) ==> walk(m, root, v) == walk(m0, root, v)
}

/// After freeing the frames behind the pages of `[addr, a)`: those frames
/// are free, and every other frame is as in `g0`.
pub open spec fn frames_freed(g: Seq<bool>, g0: Seq<bool>, m0: Map<u64, Seq<u64>>, root: u64, addr: u64, a: u64) -> bool {
    &&& forall|v: u64| v % 4096 == 0 && addr <= v < a ==> !g[frame_of(#[trigger] frame_at(m0, root, v))]
    &&& forall|f: int| 0 <= f < g0.len() && frame_unused_by(m0, root, addr, a - addr, f) ==> #[trigger] g[f] == g0[f]
}

/// The next page to unmap is still mapped as in `m0`, through a PT.
proof fn lemma_walk_before_unmap(m0: Map<u64, Seq<u64>>, mk: Map<u64, Seq<u64>>, root: u64, addr: u64, len: int, a: u64)
    requires
        walks_cleared(mk, m0, root, addr, len, a),
        range_mapped(m0, root, addr, len),
        a % 4096 == 0,
        addr <= a < addr + len,
        forall|v: u64| #![trigger walk(m0, root, v)] v % 4096 == 0 && addr <= v < addr + len && walk(m0, root, v) is Some
            ==> walk(m0, root, v).unwrap().2 == PageSize::Normal,
    ensures
        walk(mk, root, a) == walk(m0, root, a),
        walk(mk, root, a) is Some,
        walk(mk, root, a).unwrap().2 == PageSize::Normal,
        t3(mk, root, a) is Some,
{
    assert(walk(mk, root, a) == walk(m0, root, a));
    assert(walk(m0, root, a) is Some);
    reveal(walk);
}

/// The frame behind the next page is still used, so it can be freed.
proof fn lemma_frame_still_used(m0: Map<u64, Seq<u64>>, root: u64, p0: &Pmm, pk: &Pmm, addr: u64, len: int, a: u64)
    requires
        frames_freed(pk.general(), p0.general(), m0, root, addr, a),
        frames_releasable(m0, root, p0, addr, len),
        range_mapped(m0, root, addr, len),
        a % 4096 == 0,
        addr <= a < addr + len,
        pk.general().len() == p0.general().len(),
        pk.low() == p0.low(),
        pk.regions() == p0.regions(),
        pk.store() == p0.store(),
    ensures
        freeable(pk, frame_at(m0, root, a)),
        pk.low().len() <= frame_of(frame_at(m0, root, a)) < pk.general().len(),
        !m0.contains_key(frame_at(m0, root, a)),
{
    let fa = frame_at(m0, root, a);
    assert(walk(m0, root, a) is Some);
    assert forall|v: u64| v % 4096 == 0 && addr <= v < addr + (a - addr) implies frame_of(#[trigger] frame_at(m0, root, v)) != frame_of(fa) by {
        assert(walk(m0, root, v) is Some);
        assert(frame_at(m0, root, v) != fa);
        assert(freeable(p0, frame_at(m0, root, v)));
    }
    assert(frame_unused_by(m0, root, addr, a - addr, frame_of(fa)));
    assert(freeable(p0, fa));
    assert(pk.general()[frame_of(fa)] == p0.general()[frame_of(fa)]);
}

/// Unmapping page `a` extends `walks_cleared` past it.
proof fn lemma_unmap_walks(m0: Map<u64, Seq<u64>>, lv: Map<u64, nat>, root: u64, mk: Map<u64, Seq<u64>>, m1: Map<u64, Seq<u64>>,
    addr: u64, len: int, a: u64)
    requires
        tree_ok(mk, lv, root),
        t3(mk, root, a) is Some,
        m1 == mk.insert(t3(mk, root, a).unwrap(), mk[t3(mk, root, a).unwrap()].update(va_index(a, 3), 0u64)),
        walks_cleared(mk, m0, root, addr, len, a),
        a % 4096 == 0,
        addr % 4096 == 0,
        len % 4096 == 0,
        addr <= a < addr + len,
        addr + len <= USER_SPACE_CEILING,
    ensures
        tree_ok(m1, lv, root),
        m1.dom() == mk.dom(),
        walks_cleared(m1, m0, root, addr, len, (a + 4096) as u64),
{
    lemma_clear_leaf(mk, lv, root, a, m1);
    assert forall|v: u64| v % 4096 == 0 && addr <= v < a + 4096 implies (#[trigger] walk(m1, root, v)) is None by {
        if v < a {
            lemma_pages_differ(v, a);
        }
    }
    assert forall|v: u64| v % 4096 == 0 && a + 4096 <= v < addr + len implies #[trigger] walk(m1, root, v) == walk(m0, root, v) by {
        lemma_pages_differ(a, v);
        assert(walk(mk, root, v) == walk(m0, root, v));
    }
    assert forall|v: u64| #[trigger] page_outside(v, addr, len) implies walk(m1, root, v) == walk(m0, root, v) by {
        if v < a {
            lemma_pages_differ(v, a);
        } else {
            lemma_pages_differ(a, v);
        }
        assert(walk(mk, root, v) == walk(m0, root, v));
    }
}

/// Freeing the frame behind page `a` extends `frames_freed` past it.
proof fn lemma_unmap_frames(m0: Map<u64, Seq<u64>>, root: u64, p0: &Pmm, gk: Seq<bool>, g1: Seq<bool>, addr: u64, len: int, a: u64)
    requires
        frames_freed(gk, p0.general(), m0, root, addr, a),
        frames_releasable(m0, root, p0, addr, len),
        range_mapped(m0, root, addr, len),
        a % 4096 == 0,
        addr <= a < addr + len,
        gk.len() == p0.general().len(),
        a + 4096 <= addr + len <= USER_SPACE_CEILING,
        0 <= frame_of(frame_at(m0, root, a)) < gk.len(),
        g1 == gk.update(frame_of(frame_at(m0, root, a)), false),
    ensures
        frames_freed(g1, p0.general(), m0, root, addr, (a + 4096) as u64),
{
    let fa = frame_at(m0, root, a);
    assert(walk(m0, root, a) is Some);
    assert(freeable(p0, fa));
    assert forall|v: u64| v % 4096 == 0 && addr <= v < a + 4096 implies !g1[frame_of(#[trigger] frame_at(m0, root, v))] by {
        if v < a {
            assert(walk(m0, root, v) is Some);
            assert(freeable(p0, frame_at(m0, root, v)));
            assert(frame_at(m0, root, v) != fa);
            assert(!gk[frame_of(frame_at(m0, root, v))]);
        }
    }
    assert forall|f: int| 0 <= f < p0.general().len() && frame_unused_by(m0, root, addr, a + 4096 - addr, f)
        implies #[trigger] g1[f] == p0.general()[f] by {
        assert(frame_of(frame_at(m0, root, a)) != f);
        assert forall|v: u64| v % 4096 == 0 && addr <= v < addr + (a - addr) implies frame_of(#[trigger] frame_at(m0, root, v)) != f by {
            assert(frame_of(frame_at(m0, root, v)) != f);
        }
        assert(frame_unused_by(m0, root, addr, a - addr, f));
    }
}

/// What `map_anon(len)` does to process `p0` (becoming `p1`), the tables
/// `m0` (becoming `m1`) and the PMM `pm0` (becoming `pm1`), and returns:
/// see `Process::map_anon`.
pub open spec fn anon_mapped(p0: Process, p1: Process, m0: Map<u64, Seq<u64>>, m1: Map<u64, Seq<u64>>,
    pm0: Pmm, pm1: Pmm, len: int, r: Result<VirtAddr, MapAnonError>) -> bool {
    &&& p1.wf()
    &&& p1.anon_free(m1)
    &&& p0.stack_free(m0) ==> p1.stack_free(m1)
    &&& p1.pid_spec() == p0.pid_spec()
    &&& p1.name_spec() == p0.name_spec()
    &&& p1.space_spec() == p0.space_spec()
    &&& p1.main_thread_spec() == p0.main_thread_spec()
    &&& p1.parent_spec() == p0.parent_spec()
    &&& p1.exiting_spec() == p0.exiting_spec()
    &&& p1.stack_top_spec() == p0.stack_top_spec()
    &&& p1.stack_low_spec() == p0.stack_low_spec()
    &&& match Process::anon_span(p0.anon_cursor_spec(), len, p0.stack_bottom()) {
        None => {
            &&& r == Err::<VirtAddr, MapAnonError>(MapAnonError::Invalid)
            &&& p1.anon_cursor_spec() == p0.anon_cursor_spec()
            &&& m1 == m0
            &&& pm1 == pm0
        },
        Some((pages, end)) => if free_count(pm0.general()) < 4 * pages {
            &&& r == Err::<VirtAddr, MapAnonError>(MapAnonError::OutOfMemory)
            &&& p1.anon_cursor_spec() == p0.anon_cursor_spec()
            &&& m1 == m0
            &&& pm1 == pm0
        } else {
            let root = p0.space_spec().pml4.0;
            let base = p0.anon_cursor_spec();
            &&& r == Ok::<VirtAddr, MapAnonError>(VirtAddr(base))
            &&& p1.anon_cursor_spec() == end
            &&& forall|k: int| 0 <= k < pages ==> #[trigger] user_page_mapped(m1, root, (base + k * 4096) as u64)
            &&& forall|v: u64| #[trigger] page_outside(v, base, pages * 4096) ==> walk(m1, root, v) == walk(m0, root, v)
        },
    }
}

/// Whether the stack of `p` can grow over `fault_addr`: its page lies in
/// the stack reservation below the mapped stack, and four free frames per
/// page to map are left in `pm`.
pub open spec fn can_grow_stack(p: Process, pm: Pmm, fault_addr: u64) -> bool {
    let target = fault_addr - fault_addr % 4096;
    let pages = (p.stack_low_spec() - target) / 4096;
    &&& p.stack_bottom() <= target < p.stack_low_spec()
    &&& free_count(pm.general()) >= 4 * pages
}

/// What `try_grow_stack(fault_addr)` does to process `p0` (becoming `p1`),
/// the tables and the PMM, and returns: see `Process::try_grow_stack`.
pub open spec fn stack_grown(p0: Process, p1: Process, m0: Map<u64, Seq<u64>>, m1: Map<u64, Seq<u64>>,
    pm0: Pmm, pm1: Pmm, fault_addr: u64, r: bool) -> bool {
    let target = fault_addr - fault_addr % 4096;
    let old_low = p0.stack_low_spec();
    let pages = (old_low - target) / 4096;
    let root = p0.space_spec().pml4.0;
    &&& p1.wf()
    &&& p1.stack_free(m1)
    &&& p0.anon_free(m0) ==> p1.anon_free(m1)
    &&& p1.pid_spec() == p0.pid_spec()
    &&& p1.name_spec() == p0.name_spec()
    &&& p1.space_spec() == p0.space_spec()
    &&& p1.main_thread_spec() == p0.main_thread_spec()
    &&& p1.parent_spec() == p0.parent_spec()
    &&& p1.exiting_spec() == p0.exiting_spec()
    &&& p1.stack_top_spec() == p0.stack_top_spec()
    &&& p1.anon_cursor_spec() == p0.anon_cursor_spec()
    &&& if !can_grow_stack(p0, pm0, fault_addr) {
        &&& !r
        &&& p1.stack_low_spec() == old_low
        &&& m1 == m0
        &&& pm1 == pm0
    } else {
        &&& r
        &&& p1.stack_low_spec() == target
        &&& forall|k: int| 0 <= k < pages ==> #[trigger] user_page_mapped(m1, root, (target + k * 4096) as u64)
        &&& forall|v: u64| #[trigger] page_outside(v, target as u64, old_low - target) ==> walk(m1, root, v) == walk(m0, root, v)
    }
}

impl Process {
    pub closed spec fn pid_spec(&self) -> Pid {
        self.pid
    }

    pub closed spec fn name_spec(&self) -> Seq<char> {
        self.name@
    }

    pub closed spec fn space_spec(&self) -> AddressSpace {
        self.address_space
    }

    pub closed spec fn main_thread_spec(&self) -> ThreadId {
        self.main_thread
    }

    pub closed spec fn parent_spec(&self) -> Option<Pid> {
        self.parent
    }

    /// Whether the process has begun exiting (its user space is being or
    /// was torn down).
    pub closed spec fn exiting_spec(&self) -> bool {
        self.exiting
    }

    /// Where the next anonymous mapping goes.
    pub closed spec fn anon_cursor_spec(&self) -> u64 {
        self.anon_cursor
    }

    /// The top of the stack reservation.
    pub closed spec fn stack_top_spec(&self) -> u64 {
        self.stack_top
    }

    /// The lowest mapped stack address.
    pub closed spec fn stack_low_spec(&self) -> u64 {
        self.stack_low
    }

    /// The bottom of the stack reservation.
    pub open spec fn stack_bottom(&self) -> int {
        self.stack_top_spec() - STACK_RESERVED
    }

    /// The process's own bookkeeping is consistent: the cursor and the
    /// stack bounds are page aligned, and the mapped stack lies inside the
    /// reservation, which lies inside user space.
    pub open spec fn wf(&self) -> bool {
        &&& self.anon_cursor_spec() % 4096 == 0
        &&& self.stack_top_spec() % 4096 == 0
        &&& self.stack_low_spec() % 4096 == 0
        &&& STACK_RESERVED <= self.stack_top_spec() <= USER_SPACE_CEILING
        &&& self.stack_bottom() <= self.stack_low_spec() <= self.stack_top_spec()
    }

    /// Nothing is mapped between the anonymous cursor and the stack
    /// reservation.
    pub open spec fn anon_free(&self, m: Map<u64, Seq<u64>>) -> bool {
        forall|v: u64| v % 4096 == 0 && self.anon_cursor_spec() <= v < self.stack_bottom()
            ==> #[trigger] unmapped_4k(m, self.space_spec().pml4.0, v)
    }

    /// Nothing is mapped in the stack reservation below the mapped stack.
    pub open spec fn stack_free(&self, m: Map<u64, Seq<u64>>) -> bool {
        forall|v: u64| v % 4096 == 0 && self.stack_bottom() <= v < self.stack_low_spec()
            ==> #[trigger] unmapped_4k(m, self.space_spec().pml4.0, v)
    }

    /// A process `pid` named `name`, running `main_thread` in
    /// `address_space`, not exiting, with its stack reservation ending at
    /// `stack_top` and the top slice of it mapped, and no anonymous
    /// mapping yet.
    pub fn new(pid: Pid, name: String, address_space: AddressSpace, main_thread: ThreadId, stack_top: u64) -> (r: Self)
        requires
            stack_top % 4096 == 0,
            STACK_RESERVED <= stack_top <= USER_SPACE_CEILING,
        ensures
            r.pid_spec() == pid,
            r.name_spec() == name@,
            r.space_spec() == address_space,
            r.main_thread_spec() == main_thread,
            r.parent_spec() == None::<Pid>,
            !r.exiting_spec(),
            r.anon_cursor_spec() == ANON_BASE,
            r.stack_top_spec() == stack_top,
            r.stack_low_spec() == stack_top - INITIAL_STACK_MAPPED,
            r.wf(),
    {
        Process {
            pid, name, address_space, main_thread, parent: None, exiting: false,
            anon_cursor: ANON_BASE, stack_top, stack_low: stack_top - INITIAL_STACK_MAPPED,
        }
    }

    /// The process id.
    pub fn pid(&self) -> (r: Pid)
        ensures
            r == self.pid_spec(),
    {
        self.pid
    }

    /// The process name.
    pub fn name(&self) -> (r: &str)
        ensures
            r@ == self.name_spec(),
    {
        self.name.as_str()
    }

    /// The address space the process runs in.
    pub fn address_space(&self) -> (r: AddressSpace)
        ensures
            r == self.space_spec(),
    {
        self.address_space
    }

    /// The id of the process's main thread.
    pub fn main_thread_id(&self) -> (r: ThreadId)
        ensures
            r == self.main_thread_spec(),
    {
        self.main_thread
    }

    /// The pages and the new cursor of a `map_anon(len)` from cursor
    /// `cursor`, with the stack reservation starting at `bottom`: `len`
    /// rounded up to whole pages, placed at the cursor; `None` for a zero
    /// or too large length, or a range that would reach the stack
    /// reservation or the top of user space.
    pub open spec fn anon_span(cursor: u64, len: int, bottom: int) -> Option<(u64, u64)> {
        if len == 0 || len > MAX_MAP_ANON_LEN {
            None
        } else {
            let pages = (len + 4095) / 4096;
            let end = cursor + pages * 4096;
            if end > u64::MAX || end > bottom || end > USER_SPACE_CEILING {
                None
            } else {
                Some((pages as u64, end as u64))
            }
        }
    }

    /// Maps `len` bytes, rounded up to whole pages, of fresh writable,
    /// user, non-executable memory at the anonymous cursor, and moves the
    /// cursor past it. Returns where the mapping starts. `Invalid` (with
    /// nothing changed) for a request `anon_span` refuses; `OutOfMemory`
    /// (with nothing changed) if fewer than four free frames per page are
    /// left, one for the page and up to three for page tables, so that a
    /// mapping never fails partway.
    pub fn map_anon(&mut self, mem: &mut PhysMem, pmm: &mut Pmm, len: usize) -> (r: Result<VirtAddr, MapAnonError>)
        requires
            old(self).wf(),
            old(self).anon_free(old(mem)@),
            old(mem).wf(),
            old(pmm).wf(),
            owns_tables(old(pmm), old(mem)@),
            tree_ok(old(mem)@, old(mem).levels(), old(self).space_spec().pml4.0),
        ensures
            final(mem).wf(),
            final(pmm).wf(),
            owns_tables(final(pmm), final(mem)@),
            tree_ok(final(mem)@, final(mem).levels(), old(self).space_spec().pml4.0),
            anon_mapped(*old(self), *final(self), old(mem)@, final(mem)@, *old(pmm), *final(pmm), len as int, r),
    {
        if len == 0 || len > MAX_MAP_ANON_LEN {
            return Err(MapAnonError::Invalid);
        }
        let pages: u64 = ((len as u64) + 4095) / 4096;
        let mapped: u64 = pages * 4096;
        let base = self.anon_cursor;
        let end = match base.checked_add(mapped) {
            Some(e) => e,
            None => return Err(MapAnonError::Invalid),
        };
        if end > self.stack_top - STACK_RESERVED || end > USER_SPACE_CEILING {
            return Err(MapAnonError::Invalid);
        }
        let free = crate::mm::pmm::stats(pmm).free;
        if (free as u64) < 4 * pages {
            return Err(MapAnonError::OutOfMemory);
        }
        let ghost m0 = mem@;
        let root = self.address_space.pml4.as_u64();
        proof {
            assert forall|k: int| 0 <= k < pages implies #[trigger] unmapped_4k(m0, root, (base + k * 4096) as u64) by {
                let x = (base + k * 4096) as u64;
                assert(x % 4096 == 0 && base <= x < self.stack_bottom());
            }
        }
        map_user_pages(self.address_space, mem, pmm, base, pages);
        self.anon_cursor = end;
        proof {
            if old(self).stack_free(m0) {
                assert forall|v: u64| v % 4096 == 0 && self.stack_bottom() <= v < self.stack_low_spec()
                    implies #[trigger] unmapped_4k(mem@, root, v) by {
                    assert(page_outside(v, base, pages * 4096));
                    assert(unmapped_4k(m0, root, v));
                }
            }
            assert forall|v: u64| v % 4096 == 0 && self.anon_cursor_spec() <= v < self.stack_bottom()
                implies #[trigger] unmapped_4k(mem@, root, v) by {
                assert(page_outside(v, base, pages * 4096));
                assert(unmapped_4k(m0, root, v));
            }
        }
        Ok(VirtAddr::new(base))
    }

    /// Grows the stack down to the page of `fault_addr` when that page lies
    /// in the stack reservation below the mapped stack: maps every page
    /// from there up to the old bottom of the mapped stack, and returns
    /// `true`. `false`, with nothing changed, for an address outside that
    /// window (already mapped, or below the reservation), or if fewer
    /// than four free frames per page are left.
    pub fn try_grow_stack(&mut self, mem: &mut PhysMem, pmm: &mut Pmm, fault_addr: u64) -> (r: bool)
        requires
            old(self).wf(),
            old(self).stack_free(old(mem)@),
            old(mem).wf(),
            old(pmm).wf(),
            owns_tables(old(pmm), old(mem)@),
            tree_ok(old(mem)@, old(mem).levels(), old(self).space_spec().pml4.0),
        ensures
            final(mem).wf(),
            final(pmm).wf(),
            owns_tables(final(pmm), final(mem)@),
            tree_ok(final(mem)@, final(mem).levels(), old(self).space_spec().pml4.0),
            stack_grown(*old(self), *final(self), old(mem)@, final(mem)@, *old(pmm), *final(pmm), fault_addr, r),
    {
        let target = fault_addr & !0xfffu64;
        proof {
            assert(fault_addr & !0xfffu64 == fault_addr - fault_addr % 4096) by (bit_vector);
        }
        let old_low = self.stack_low;
        if target < self.stack_top - STACK_RESERVED || target >= old_low {
            return false;
        }
        let pages = (old_low - target) / 4096;
        let free = crate::mm::pmm::stats(pmm).free;
        if (free as u64) < 4 * pages {
            return false;
        }
        let ghost m0 = mem@;
        let root = self.address_space.pml4.as_u64();
        proof {
            assert(pages * 4096 == old_low - target);
            assert forall|k: int| 0 <= k < pages implies #[trigger] unmapped_4k(m0, root, (target + k * 4096) as u64) by {
                let x = (target + k * 4096) as u64;
                assert(x % 4096 == 0 && self.stack_bottom() <= x < old_low);
            }
        }
        map_user_pages(self.address_space, mem, pmm, target, pages);
        self.stack_low = target;
        proof {
            if old(self).anon_free(m0) {
                assert forall|v: u64| v % 4096 == 0 && self.anon_cursor_spec() <= v < self.stack_bottom()
                    implies #[trigger] unmapped_4k(mem@, root, v) by {
                    assert(page_outside(v, target, pages * 4096));
                    assert(unmapped_4k(m0, root, v));
                }
            }
            assert forall|v: u64| v % 4096 == 0 && self.stack_bottom() <= v < self.stack_low_spec()
                implies #[trigger] unmapped_4k(mem@, root, v) by {
                assert(page_outside(v, target, pages * 4096));
                assert(unmapped_4k(m0, root, v));
            }
        }
        true
    }

    /// Unmaps `[addr, addr + len)` and frees the frame behind each page.
    /// `Err(())`, touching nothing, unless the request is well formed
    /// (`unmap_request_ok`) and every page of the range is mapped. Every
    /// other user page keeps its translation.
    #[verifier::rlimit(100)]
    #[verifier::spinoff_prover]
    pub fn unmap(&self, mem: &mut PhysMem, pmm: &mut Pmm, addr: u64, len: u64) -> (r: Result<(), ()>)
        requires
            old(mem).wf(),
            old(pmm).wf(),
            owns_tables(old(pmm), old(mem)@),
            tree_ok(old(mem)@, old(mem).levels(), self.space_spec().pml4.0),
            frames_releasable(old(mem)@, self.space_spec().pml4.0, old(pmm), addr, len as int),
        ensures
            final(mem).wf(),
            final(pmm).wf(),
            owns_tables(final(pmm), final(mem)@),
            tree_ok(final(mem)@, final(mem).levels(), self.space_spec().pml4.0),
            r is Ok <==> unmap_request_ok(addr, len) && range_mapped(old(mem)@, self.space_spec().pml4.0, addr, len as int),
            r is Err ==> final(mem)@ == old(mem)@ && *final(pmm) == *old(pmm),
            r is Ok ==> {
                let root = self.space_spec().pml4.0;
                &&& forall|v: u64| v % 4096 == 0 && addr <= v < addr + len ==> (#[trigger] walk(final(mem)@, root, v)) is None
                &&& forall|v: u64| #[trigger] page_outside(v, addr, len as int)
                    ==> walk(final(mem)@, root, v) == walk(old(mem)@, root, v)
                &&& forall|v: u64| v % 4096 == 0 && addr <= v < addr + len
                    ==> !final(pmm).general()[frame_of(#[trigger] frame_at(old(mem)@, root, v))]
                &&& forall|f: int| 0 <= f < old(pmm).general().len() && frame_unused_by(old(mem)@, root, addr, len as int, f)
                    ==> #[trigger] final(pmm).general()[f] == old(pmm).general()[f]
                &&& final(pmm).general().len() == old(pmm).general().len()
                &&& final(pmm).low() == old(pmm).low()
            },
    {
        if len == 0 || addr % 4096 != 0 || len % 4096 != 0 {
            return Err(());
        }
        let end = match addr.checked_add(len) {
            Some(e) => e,
            None => return Err(()),
        };
        if addr < USER_BASE || end > USER_SPACE_CEILING {
            return Err(());
        }
        let root = self.address_space.pml4.as_u64();
        let ghost m0 = mem@;
        let ghost lv0 = mem.levels();
        let ghost p0 = *pmm;
        let mut a = addr;
        while a < end
            invariant
                mem.wf(),
                pmm.wf(),
                mem@ == m0,
                *pmm == p0,
                owns_tables(pmm, mem@),
                tree_ok(mem@, mem.levels(), root),
                root == self.space_spec().pml4.0,
                addr <= a <= end,
                a % 4096 == 0,
                end % 4096 == 0,
                end == addr + len,
                end <= USER_SPACE_CEILING,
                forall|v: u64| v % 4096 == 0 && addr <= v < a ==> (#[trigger] walk(m0, root, v)) is Some,
            decreases end - a,
        {
            if self.address_space.translate(mem, VirtAddr::new(a)).is_none() {
                proof {
                    assert(walk(m0, root, a) is None);
                    assert(!range_mapped(m0, root, addr, len as int));
                }
                return Err(());
            }
            a = a + 4096;
        }
        a = addr;
        while a < end
            invariant
                mem.wf(),
                pmm.wf(),
                owns_tables(pmm, mem@),
                tree_ok(mem@, mem.levels(), root),
                mem.levels() == lv0,
                tree_ok(m0, lv0, root),
                mem@.dom() == m0.dom(),
                root == self.space_spec().pml4.0,
                addr <= a <= end,
                a % 4096 == 0,
                addr % 4096 == 0,
                len % 4096 == 0,
                end % 4096 == 0,
                end == addr + len,
                end <= USER_SPACE_CEILING,
                range_mapped(m0, root, addr, len as int),
                frames_releasable(m0, root, &p0, addr, len as int),
                pmm.general().len() == p0.general().len(),
                pmm.low() == p0.low(),
                pmm.regions() == p0.regions(),
                pmm.store() == p0.store(),
                walks_cleared(mem@, m0, root, addr, len as int, a),
                frames_freed(pmm.general(), p0.general(), m0, root, addr, a),
            decreases end - a,
        {
            let ghost mk = mem@;
            let ghost pk = *pmm;
            proof {
                lemma_walk_before_unmap(m0, mk, root, addr, len as int, a);
                lemma_frame_still_used(m0, root, &p0, &pk, addr, len as int, a);
            }
            let phys = self.address_space.unmap(mem, VirtAddr::new(a));
            proof {
                assert(phys == Some(PhysAddr(frame_at(m0, root, a))));
                lemma_unmap_walks(m0, lv0, root, mk, mem@, addr, len as int, a);
            }
            free_frame(pmm, phys.unwrap());
            proof {
                let fa = frame_at(m0, root, a);
                assert forall|k: u64| #[trigger] mem@.contains_key(k) implies {
                    &&& k % 4096 == 0
                    &&& pmm.low().len() <= k / 4096 < pmm.general().len()
                    &&& pmm.general()[(k / 4096) as int]
                } by {
                    assert(mk.contains_key(k));
                    assert(m0.contains_key(k));
                    assert(k != fa);
                    assert(fa % 4096 == 0);
                    assert(k / 4096 != frame_of(fa));
                }
                lemma_unmap_frames(m0, root, &p0, pk.general(), pmm.general(), addr, len as int, a);
            }
            a = a + 4096;
        }
        Ok(())
    }

    /// Marks the process as exiting: `true` for the first call only, so
    /// that exactly one caller tears its user space down.
    pub fn begin_exit(&mut self) -> (r: bool)
        ensures
            r == !old(self).exiting_spec(),
            final(self).exiting_spec(),
            final(self).pid_spec() == old(self).pid_spec(),
            final(self).name_spec() == old(self).name_spec(),
            final(self).space_spec() == old(self).space_spec(),
            final(self).main_thread_spec() == old(self).main_thread_spec(),
            final(self).parent_spec() == old(self).parent_spec(),
            final(self).anon_cursor_spec() == old(self).anon_cursor_spec(),
            final(self).stack_top_spec() == old(self).stack_top_spec(),
            final(self).stack_low_spec() == old(self).stack_low_spec(),
    {
        let first = !self.exiting;
        self.exiting = true;
        first
    }
}

/// The leaf flags of anonymous and stack pages: writable, user, never
/// executable.
pub open spec fn user_rw_flags() -> u64 {
    FLAG_WRITABLE | FLAG_USER | FLAG_NO_EXECUTE
}

/// `v` is mapped as a 4 KiB anonymous or stack page.
pub open spec fn user_page_mapped(m: Map<u64, Seq<u64>>, root: u64, v: u64) -> bool {
    walk(m, root, v) matches Some((p, f, s))
        && f == (user_rw_flags() | FLAG_PRESENT) & FLAGS_MASK && s == PageSize::Normal
}

/// Page-aligned user address `v` lies outside `[low, low + len)`.
pub open spec fn page_outside(v: u64, low: u64, len: int) -> bool {
    &&& v % 4096 == 0
    &&& v < USER_SPACE_CEILING
    &&& !(low <= v < low + len)
}

/// Maps `pages` fresh frames at `low`, `low + 4096`, ... as anonymous
/// pages. Every other user page keeps its translation, and stays unmapped
/// if it was.
pub fn map_user_pages(space: AddressSpace, mem: &mut PhysMem, pmm: &mut Pmm, low: u64, pages: u64)
    requires
        old(mem).wf(),
        old(pmm).wf(),
        owns_tables(old(pmm), old(mem)@),
        tree_ok(old(mem)@, old(mem).levels(), space.pml4.0),
        low % 4096 == 0,
        low + pages * 4096 <= USER_SPACE_CEILING,
        forall|k: int| 0 <= k < pages ==> #[trigger] unmapped_4k(old(mem)@, space.pml4.0, (low + k * 4096) as u64),
        free_count(old(pmm).general()) >= 4 * pages,
    ensures
        final(mem).wf(),
        final(pmm).wf(),
        owns_tables(final(pmm), final(mem)@),
        tree_ok(final(mem)@, final(mem).levels(), space.pml4.0),
        final(pmm).low() == old(pmm).low(),
        final(pmm).regions() == old(pmm).regions(),
        final(pmm).store() == old(pmm).store(),
        final(pmm).spec_low_reserved() == old(pmm).spec_low_reserved(),
        final(pmm).general().len() == old(pmm).general().len(),
        forall|k: int| 0 <= k < pages ==> #[trigger] user_page_mapped(final(mem)@, space.pml4.0, (low + k * 4096) as u64),
        forall|v: u64| #[trigger] page_outside(v, low, pages * 4096) ==> {
            &&& walk(final(mem)@, space.pml4.0, v) == walk(old(mem)@, space.pml4.0, v)
            &&& unmapped_4k(old(mem)@, space.pml4.0, v) ==> unmapped_4k(final(mem)@, space.pml4.0, v)
        },
{
    let root = space.pml4.as_u64();
    let flags = PageFlags(FLAG_WRITABLE).union(PageFlags(FLAG_USER)).union(PageFlags(FLAG_NO_EXECUTE));
    let ghost m0 = mem@;
    proof {
        assert((0x2u64 | 0x4u64 | 0x8000_0000_0000_0000u64) & 0x80 == 0) by (bit_vector);
    }
    let mut i: u64 = 0;
    while i < pages
        invariant
            i <= pages,
            root == space.pml4.0,
            low % 4096 == 0,
            low + pages * 4096 <= USER_SPACE_CEILING,
            flags.0 == user_rw_flags(),
            flags.0 & FLAG_HUGE == 0,
            mem.wf(),
            pmm.wf(),
            owns_tables(pmm, mem@),
            tree_ok(mem@, mem.levels(), root),
            pmm.low() == old(pmm).low(),
            pmm.regions() == old(pmm).regions(),
            pmm.store() == old(pmm).store(),
            pmm.spec_low_reserved() == old(pmm).spec_low_reserved(),
            pmm.general().len() == old(pmm).general().len(),
            free_count(pmm.general()) >= 4 * (pages - i),
            forall|k: int| 0 <= k < i ==> #[trigger] user_page_mapped(mem@, root, (low + k * 4096) as u64),
            forall|k: int| i <= k < pages ==> #[trigger] unmapped_4k(mem@, root, (low + k * 4096) as u64),
            forall|v: u64| #[trigger] page_outside(v, low, pages * 4096) ==> {
                &&& walk(mem@, root, v) == walk(m0, root, v)
                &&& unmapped_4k(m0, root, v) ==> unmapped_4k(mem@, root, v)
            },
        decreases pages - i,
    {
        let ghost mk = mem@;
        let ghost lvk = mem.levels();
        let ghost g0 = pmm.general();
        proof {
            pmm.lemma_wf_facts();
        }
        let frame = match alloc_frame(pmm) {
            Some(p) => p,
            None => {
                proof {
                    lemma_all_used_no_free(g0);
                }
                return;
            },
        };
        proof {
            let f = frame_of(frame.0);
            lemma_free_count_decrements(g0, f);
            assert(frame.0 < 0x10_0000_0000_0000) by (nonlinear_arith)
                requires f < g0.len(), g0.len() * 4096 <= 0x10_0000_0000_0000, frame.0 == f * 4096;
            assert forall|kk: u64| #[trigger] mem@.contains_key(kk) implies {
                &&& kk % 4096 == 0
                &&& pmm.low().len() <= kk / 4096 < pmm.general().len()
                &&& pmm.general()[(kk / 4096) as int]
            } by {
                assert(g0[(kk / 4096) as int]);
            }
        }
        let v = low + i * 4096;
        proof {
            assert(unmapped_4k(mk, root, (low + i * 4096) as u64));
        }
        space.map_4k(mem, pmm, VirtAddr::new(v), frame, flags);
        proof {
            lemma_mapped_one_facts(mk, lvk, mem@, mem.levels(), root, v);
            assert forall|k: int| 0 <= k < i + 1 implies #[trigger] user_page_mapped(mem@, root, (low + k * 4096) as u64) by {
                if k < i {
                    let x = (low + k * 4096) as u64;
                    assert(user_page_mapped(mk, root, x));
                    lemma_pages_differ(x, v);
                    lemma_frame(mk, lvk, mem@, mem.levels(), root, v, x);
                }
            }
            assert forall|k: int| i + 1 <= k < pages implies #[trigger] unmapped_4k(mem@, root, (low + k * 4096) as u64) by {
                let x = (low + k * 4096) as u64;
                assert(unmapped_4k(mk, root, x));
                lemma_pages_differ(v, x);
                lemma_frame(mk, lvk, mem@, mem.levels(), root, v, x);
            }
            assert forall|x: u64| #[trigger] page_outside(x, low, pages * 4096) implies {
                &&& walk(mem@, root, x) == walk(m0, root, x)
                &&& unmapped_4k(m0, root, x) ==> unmapped_4k(mem@, root, x)
            } by {
                if x < v {
                    lemma_pages_differ(x, v);
                } else {
                    lemma_pages_differ(v, x);
                }
                lemma_frame(mk, lvk, mem@, mem.levels(), root, v, x);
            }
        }
        i = i + 1;
    }
}

} // verus!
