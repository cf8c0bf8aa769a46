//! A split virtqueue's driver-side bookkeeping: descriptor allocation,
//! descriptor chains, the available ring's index, and reading the used
//! ring. The rings live in memory shared with the device at the recorded
//! physical addresses; the functions here say what to write there and
//! decode what was read.
use vstd::prelude::*;

verus! {

/// This descriptor continues in the one named by `next`.
pub const DESC_F_NEXT: u16 = 1;
/// The device writes this buffer (else it reads it).
pub const DESC_F_WRITE: u16 = 2;

/// One descriptor-table entry.
#[derive(Clone, Copy, Debug, PartialEq, Eq, Structural)]
pub struct Descriptor {
    pub addr: u64,
    pub len: u32,
    pub flags: u16,
    pub next: u16,
}

/// Descriptor-table write `w` lays out buffer `b` (address, length,
/// device writes) in slot `k` mod `size`; `more` says a descriptor follows
/// in the next slot.
pub open spec fn desc_written(w: (u16, Descriptor), b: (u64, u32, bool), k: int, size: int, more: bool) -> bool {
    let idx = w.0;
    let d = w.1;
    &&& idx == k % size
    &&& d.addr == b.0
    &&& d.len == b.1
    &&& d.flags == (if b.2 { DESC_F_WRITE } else { 0u16 }) | (if more { DESC_F_NEXT } else { 0u16 })
    &&& d.next == (if more { idx + 1 } else { 0 })
}

/// A split virtqueue of `size` descriptors.
pub struct VirtQueue {
    size: u16,
    desc_addr: u64,
    avail_addr: u64,
    used_addr: u64,
    free_list: u16,
    /// Descriptors handed out since the queue was made or reset.
    in_use: u16,
    used_idx_cached: u16,
    avail_idx: u16,
}

impl VirtQueue {
    pub closed spec fn size_spec(&self) -> u16 {
        self.size
    }

    pub closed spec fn addrs(&self) -> (u64, u64, u64) {
        (self.desc_addr, self.avail_addr, self.used_addr)
    }

    /// The next descriptor index to hand out.
    pub closed spec fn free_spec(&self) -> u16 {
        self.free_list
    }

    /// How many descriptors were handed out since the queue was made or
    /// reset.
    pub closed spec fn in_use_spec(&self) -> u16 {
        self.in_use
    }

    /// The used-ring index up to which completions were taken.
    pub closed spec fn used_cached_spec(&self) -> u16 {
        self.used_idx_cached
    }

    /// The available ring's index (entries published so far, mod 2^16).
    pub closed spec fn avail_idx_spec(&self) -> u16 {
        self.avail_idx
    }

    /// The queue's invariant: a size in 1..=32768, the next descriptor to
    /// hand out is one of them, and no more than all of them are out.
    pub open spec fn wf(&self) -> bool {
        &&& 0 < self.size_spec() <= 32768
        &&& self.free_spec() < self.size_spec()
        &&& self.in_use_spec() <= self.size_spec()
    }

    /// The bytes the descriptor table, the available ring and the used
    /// ring of a queue of `size` take.
    pub fn ring_sizes(size: u16) -> (r: (usize, usize, usize))
        ensures
            r.0 == 16 * size,
            r.1 == 2 * (3 + size),
            r.2 == 4 + 8 * size + 2,
    {
        (16 * size as usize, 2 * (3 + size as usize), 4 + 8 * size as usize + 2)
    }

    /// A queue of `size` descriptors whose table and rings are at the given
    /// physical addresses, all zeroed; `None` for a size of 0 or above
    /// 32768.
    pub fn new(size: u16, desc_addr: u64, avail_addr: u64, used_addr: u64) -> (r: Option<VirtQueue>)
        ensures
            (size == 0 || size > 32768) <==> r is None,
            r matches Some(q) ==> q.wf() && q.size_spec() == size && q.addrs() == (desc_addr, avail_addr, used_addr)
                && q.free_spec() == 0 && q.in_use_spec() == 0 && q.used_cached_spec() == 0 && q.avail_idx_spec() == 0,
    {
        if size == 0 || size > 32768 {
            return None;
        }
        Some(VirtQueue { size, desc_addr, avail_addr, used_addr, free_list: 0, in_use: 0, used_idx_cached: 0, avail_idx: 0 })
    }

    /// The descriptor table's physical address.
    pub fn desc_phys_addr(&self) -> (r: u64)
        ensures
            r == self.addrs().0,
    {
        self.desc_addr
    }

    /// The available ring's physical address.
    pub fn avail_phys_addr(&self) -> (r: u64)
        ensures
            r == self.addrs().1,
    {
        self.avail_addr
    }

    /// The used ring's physical address.
    pub fn used_phys_addr(&self) -> (r: u64)
        ensures
            r == self.addrs().2,
    {
        self.used_addr
    }

    /// The number of descriptors.
    pub fn size(&self) -> (r: u16)
        ensures
            r == self.size_spec(),
    {
        self.size
    }

    /// Hands out the next descriptor index, cycling through the table;
    /// `None` (and nothing changes) once every descriptor is out.
    pub fn alloc_descriptor(&mut self) -> (r: Option<u16>)
        requires
            old(self).wf(),
        ensures
            final(self).wf(),
            old(self).in_use_spec() == old(self).size_spec() ==> r is None && final(self).free_spec() == old(self).free_spec()
                && final(self).in_use_spec() == old(self).in_use_spec(),
            old(self).in_use_spec() < old(self).size_spec() ==> r == Some(old(self).free_spec())
                && final(self).free_spec() == (old(self).free_spec() + 1) % (old(self).size_spec() as int)
                && final(self).in_use_spec() == old(self).in_use_spec() + 1,
            final(self).size_spec() == old(self).size_spec(),
            final(self).addrs() == old(self).addrs(),
            final(self).used_cached_spec() == old(self).used_cached_spec(),
            final(self).avail_idx_spec() == old(self).avail_idx_spec(),
    {
        if self.in_use >= self.size {
            return None;
        }
        let idx = self.free_list;
        let next = (idx + 1) % self.size;
        self.free_list = next;
        self.in_use = self.in_use + 1;
        Some(idx)
    }

    /// Lays out a chain of buffers `(address, length, device writes)`:
    /// the first descriptor's index and the descriptor-table entries to
    /// write, in order. Each but the last continues in the index after its
    /// own. `None` for an empty list (nothing changes), or when fewer
    /// descriptors are left than buffers (the ones left are used up).
    pub fn chain_descriptors(&mut self, buffers: &[(u64, u32, bool)]) -> (r: Option<(u16, Vec<(u16, Descriptor)>)>)
        requires
            old(self).wf(),
        ensures
            final(self).wf(),
            buffers@.len() == 0 || old(self).in_use_spec() + buffers@.len() > old(self).size_spec() <==> r is None,
            buffers@.len() == 0 ==> final(self).free_spec() == old(self).free_spec()
                && final(self).in_use_spec() == old(self).in_use_spec(),
            buffers@.len() > 0 && old(self).in_use_spec() + buffers@.len() > old(self).size_spec() ==> {
                &&& final(self).in_use_spec() == old(self).size_spec()
                &&& final(self).free_spec() == (old(self).free_spec() + (old(self).size_spec() - old(self).in_use_spec()))
                    % (old(self).size_spec() as int)
            },
            r matches Some((first, writes)) ==> {
                let n = buffers@.len();
                &&& first == old(self).free_spec()
                &&& writes@.len() == n
                &&& final(self).in_use_spec() == old(self).in_use_spec() + n
                &&& final(self).free_spec() == (old(self).free_spec() + n) % (old(self).size_spec() as int)
                &&& forall|i: int| #![trigger writes@[i]] 0 <= i < n
                    ==> desc_written(writes@[i], buffers@[i], old(self).free_spec() + i, old(self).size_spec() as int, i < n - 1)
            },
            final(self).size_spec() == old(self).size_spec(),
            final(self).addrs() == old(self).addrs(),
            final(self).used_cached_spec() == old(self).used_cached_spec(),
            final(self).avail_idx_spec() == old(self).avail_idx_spec(),
    {
        if buffers.len() == 0 {
            return None;
        }
        let ghost f0 = self.free_list as int;
        let ghost sz = self.size as int;
        let ghost u0 = self.in_use as int;
        let n = buffers.len();
        proof {
            vstd::arithmetic::div_mod::lemma_small_mod(f0 as nat, sz as nat);
        }
        let mut writes: Vec<(u16, Descriptor)> = Vec::new();
        let mut first: u16 = 0;
        let mut i: usize = 0;
        while i < n
            invariant
                self.wf(),
                n == buffers@.len(),
                n > 0,
                i <= n,
                sz == self.size_spec(),
                0 <= f0 < sz,
                self.free_spec() == (f0 + i) % sz,
                self.in_use_spec() == u0 + i,
                u0 == old(self).in_use_spec(),
                sz == old(self).size_spec(),
                f0 == old(self).free_spec(),
                i > 0 ==> first == f0,
                writes@.len() == i,
                self.addrs() == old(self).addrs(),
                self.used_cached_spec() == old(self).used_cached_spec(),
                self.avail_idx_spec() == old(self).avail_idx_spec(),
                forall|j: int| #![trigger writes@[j]] 0 <= j < i ==> desc_written(writes@[j], buffers@[j], f0 + j, sz, j < n - 1),
            decreases n - i,
        {
            let idx = match self.alloc_descriptor() {
                Some(idx) => idx,
                None => {
                    proof {
                        assert(i == sz - u0);
                    }
                    return None;
                },
            };
            proof {
                vstd::arithmetic::div_mod::lemma_add_mod_noop(f0 + i, 1, sz);
                if sz > 1 {
                    vstd::arithmetic::div_mod::lemma_small_mod(1, sz as nat);
                } else {
                    vstd::arithmetic::div_mod::lemma_small_mod(0, 1);
                    vstd::arithmetic::div_mod::lemma_mod_bound(f0 + i + 1, 1);
                    vstd::arithmetic::div_mod::lemma_mod_bound(f0 + i, 1);
                }
            }
            if i == 0 {
                first = idx;
                proof {
                    vstd::arithmetic::div_mod::lemma_small_mod(f0 as nat, sz as nat);
                }
            }
            let (addr, len, write) = buffers[i];
            let mut flags: u16 = 0;
            if write {
                flags = flags | DESC_F_WRITE;
            }
            if i < n - 1 {
                flags = flags | DESC_F_NEXT;
            }
            let next: u16 = if i < n - 1 { idx + 1 } else { 0 };
            proof {
                assert((if write { DESC_F_WRITE } else { 0u16 }) | (if i < n - 1 { DESC_F_NEXT } else { 0u16 }) == flags) by {
                    assert(0u16 | DESC_F_WRITE == DESC_F_WRITE && 0u16 | DESC_F_NEXT == DESC_F_NEXT
                        && 0u16 | 0u16 == 0u16 && DESC_F_WRITE | 0u16 == DESC_F_WRITE) by (bit_vector);
                }
            }
            let ghost w0 = writes@;
            writes.push((idx, Descriptor { addr, len, flags, next }));
            proof {
                assert(idx == (f0 + i) % sz);
                assert(writes@[i as int].1.flags == (if buffers@[i as int].2 { DESC_F_WRITE } else { 0u16 })
                    | (if i < n - 1 { DESC_F_NEXT } else { 0u16 }));
                assert(writes@[i as int].1.next == (if i < n - 1 { idx + 1 } else { 0 }));
                assert forall|j: int| 0 <= j < i implies #[trigger] writes@[j] == w0[j] by {}
                assert(writes@[i as int].1.addr == buffers@[i as int].0);
                assert(writes@[i as int].1.len == buffers@[i as int].1);
                assert(writes@[i as int].0 == (f0 + i) % sz);
            }
            i = i + 1;
        }
        Some((first, writes))
    }

    /// Publishes descriptor chain `desc_idx` in the available ring: the
    /// ring slot to write it to and the ring's new index.
    pub fn submit(&mut self, desc_idx: u16) -> (r: (u16, u16))
        requires
            old(self).wf(),
        ensures
            final(self).wf(),
            r.0 == old(self).avail_idx_spec() % old(self).size_spec(),
            r.1 == final(self).avail_idx_spec(),
            final(self).avail_idx_spec() == (old(self).avail_idx_spec() + 1) % 0x1_0000,
            final(self).size_spec() == old(self).size_spec(),
            final(self).addrs() == old(self).addrs(),
            final(self).free_spec() == old(self).free_spec(),
            final(self).in_use_spec() == old(self).in_use_spec(),
            final(self).used_cached_spec() == old(self).used_cached_spec(),
    {
        let slot = self.avail_idx % self.size;
        self.avail_idx = self.avail_idx.wrapping_add(1);
        (slot, self.avail_idx)
    }

    /// The used-ring slot the next completion is read from.
    pub fn completion_slot(&self) -> (r: u16)
        requires
            self.wf(),
        ensures
            r == self.used_cached_spec() % self.size_spec(),
    {
        self.used_idx_cached % self.size
    }

    /// Takes the next completion given the used ring's index as the device
    /// last wrote it and the entry `(id, len)` read at `completion_slot`:
    /// `None` when there is nothing new.
    pub fn get_completion(&mut self, used_idx: u16, entry: (u32, u32)) -> (r: Option<(u32, u32)>)
        requires
            old(self).wf(),
        ensures
            final(self).wf(),
            used_idx == old(self).used_cached_spec() ==> r is None && final(self).used_cached_spec() == old(self).used_cached_spec(),
            used_idx != old(self).used_cached_spec() ==> r == Some(entry)
                && final(self).used_cached_spec() == (old(self).used_cached_spec() + 1) % 0x1_0000,
            final(self).size_spec() == old(self).size_spec(),
            final(self).addrs() == old(self).addrs(),
            final(self).free_spec() == old(self).free_spec(),
            final(self).in_use_spec() == old(self).in_use_spec(),
            final(self).avail_idx_spec() == old(self).avail_idx_spec(),
    {
        if used_idx == self.used_idx_cached {
            return None;
        }
        self.used_idx_cached = self.used_idx_cached.wrapping_add(1);
        Some(entry)
    }

    /// Starts over: descriptor allocation and both ring indices from 0
    /// (the caller zeroes both ring indices in memory).
    pub fn reset(&mut self)
        requires
            old(self).wf(),
        ensures
            final(self).wf(),
            final(self).free_spec() == 0,
            final(self).in_use_spec() == 0,
            final(self).used_cached_spec() == 0,
            final(self).avail_idx_spec() == 0,
            final(self).size_spec() == old(self).size_spec(),
            final(self).addrs() == old(self).addrs(),
    {
        self.free_list = 0;
        self.in_use = 0;
        self.used_idx_cached = 0;
        self.avail_idx = 0;
    }
}

/// The split-virtqueue descriptor flag bits: NEXT is bit 0, WRITE (the
/// device writes the buffer) bit 1.
pub proof fn law_descriptor_flag_bits()
    ensures
        DESC_F_NEXT == 1 && DESC_F_WRITE == 2,
{
}

} // verus!
