//! Creating address spaces: the kernel's, as recorded once it is built,
//! and fresh user address spaces that share the kernel's upper half.
use vstd::prelude::*;
use super::{PhysMem, AddressSpace, walk, t1, owns_tables, pmm_grew_tables, lemma_all_used_no_free};
use super::tree::{tree_ok, layered, links_distinct, in_space, is_link, grows};
use crate::mm::addr::{PhysAddr, VirtAddr};
use crate::mm::paging::{va_index, entry_addr};
use crate::mm::pmm::{Pmm, alloc_frame, lowest_free, frame_of};
use crate::mm::bitmap::free_count;

verus! {

/// The value the kernel's PML4 record holds before the kernel's page
/// tables are built: frame 0 is never handed out, so it is never a PML4.
pub const UNSET: u64 = 0;

/// PML4 entries from this index up map the kernel half, shared by every
/// address space.
pub const KERNEL_HALF_START: usize = 256;

/// The PML4 of a new user address space: the kernel's upper-half entries,
/// everything below clear.
pub open spec fn user_pml4(kernel: Seq<u64>) -> Seq<u64> {
    Seq::new(512, |i: int| if i >= 256 { kernel[i] } else { 0u64 })
}

/// The current kernel address space, given the kernel's PML4 record.
/// `kernel_pml4` must have been recorded (is not `UNSET`).
pub fn kernel_address_space(kernel_pml4: u64) -> (r: AddressSpace)
    requires
        kernel_pml4 != UNSET,
    ensures
        r.pml4.0 == kernel_pml4,
{
    AddressSpace { pml4: PhysAddr::new(kernel_pml4) }
}

/// The kernel image's link-time virtual base and load-time physical base,
/// `(virtual_base, physical_base)`, from the boot loader's
/// executable-address answer `(physical_base, virtual_base)`, which must
/// be present.
pub fn kernel_image_bounds(executable_address: Option<(u64, u64)>) -> (r: (VirtAddr, PhysAddr))
    requires
        executable_address.is_some(),
    ensures
        r.0.0 == executable_address.unwrap().1,
        r.1.0 == executable_address.unwrap().0,
{
    let (physical_base, virtual_base) = executable_address.unwrap();
    (VirtAddr::new(virtual_base), PhysAddr::new(physical_base))
}

impl AddressSpace {
    /// A fresh address space for a user process: a new PML4 whose entries
    /// 256..511 are copied verbatim from `kernel`'s (so every address space
    /// shares the very same kernel tables) and whose entries 0..255 are
    /// clear. Takes one frame from the PMM.
    pub fn new_user(mem: &mut PhysMem, pmm: &mut Pmm, kernel: AddressSpace) -> (r: AddressSpace)
        requires
            old(mem).wf(),
            old(pmm).wf(),
            owns_tables(old(pmm), old(mem)@),
            tree_ok(old(mem)@, old(mem).levels(), kernel.pml4.0),
            free_count(old(pmm).general()) > 0,
        ensures
            final(mem).wf(),
            owns_tables(final(pmm), final(mem)@),
            pmm_grew_tables(old(pmm), final(pmm), old(mem)@, final(mem)@),
            free_count(final(pmm).general()) + 1 == free_count(old(pmm).general()),
            !old(mem)@.contains_key(r.pml4.0),
            final(mem)@ == old(mem)@.insert(r.pml4.0, user_pml4(old(mem)@[kernel.pml4.0])),
            final(mem).levels() == old(mem).levels().insert(r.pml4.0, 0),
            tree_ok(final(mem)@, final(mem).levels(), r.pml4.0),
            forall|r2: u64| r2 != r.pml4.0 && links_distinct(old(mem)@, old(mem).levels(), r2)
                ==> #[trigger] links_distinct(final(mem)@, final(mem).levels(), r2),
            tree_ok(final(mem)@, final(mem).levels(), kernel.pml4.0),
    {
        let ghost m0 = mem@;
        let ghost lv0 = mem.levels();
        let ghost old_general = pmm.general();
        let k = kernel.pml4.as_u64();
        proof {
            pmm.lemma_wf_facts();
        }
        let frame = alloc_frame(pmm);
        let phys = match frame {
            Some(p) => p,
            None => {
                proof {
                    lemma_all_used_no_free(old_general);
                }
                return kernel;
            },
        };
        let f = phys.as_u64();
        proof {
            pmm.lemma_wf_facts();
            let fi = f as int / 4096;
            assert(lowest_free(old_general, fi));
            assert(!m0.contains_key(f)) by {
                if m0.contains_key(f) {
                    assert(f / 4096 == fi);
                }
            }
            super::lemma_free_count_decrements(old_general, fi);
        }
        mem.install(f, 0);
        proof {
            assert(Seq::new(512, |j: int| 0u64) =~= Seq::new(512, |j: int| if 256 <= j < 256 { m0[k][j] } else { 0u64 }));
        }
        let mut i: usize = KERNEL_HALF_START;
        while i < 512
            invariant
                KERNEL_HALF_START <= i <= 512,
                mem.wf(),
                f != k,
                m0.contains_key(k),
                m0[k].len() == 512,
                mem@ == m0.insert(f, Seq::new(512, |j: int| if 256 <= j < i { m0[k][j] } else { 0u64 })),
                mem.levels() == lv0.insert(f, 0),
            decreases 512 - i,
        {
            let e = mem.read(k, i);
            mem.write(f, i, e);
            proof {
                assert(mem@[f] =~= Seq::new(512, |j: int| if 256 <= j < i + 1 { m0[k][j] } else { 0u64 }));
            }
            i = i + 1;
        }
        proof {
            assert(mem@[f] =~= user_pml4(m0[k]));
            assert(mem@ == m0.insert(f, user_pml4(m0[k])));
            assert forall|kk: u64| #[trigger] mem@.contains_key(kk) implies {
                &&& kk % 4096 == 0
                &&& pmm.low().len() <= kk / 4096 < pmm.general().len()
                &&& pmm.general()[(kk / 4096) as int]
            } by {
                if kk != f {
                    assert(m0.contains_key(kk));
                } else {
                    assert(!old_general[(f / 4096) as int]);
                }
            }
            assert forall|g: int| 0 <= g < old_general.len() && pmm.general()[g] && !old_general[g]
                implies mem@.contains_key((g * 4096) as u64) && !m0.contains_key((g * 4096) as u64) by {
                assert(g == f / 4096);
            }
            lemma_user_root_shape(m0, lv0, mem@, mem.levels(), k, f);
        }
        AddressSpace { pml4: phys }
    }
}

/// Adding a PML4 that copies `k`'s upper half keeps every table layered,
/// gives the new root a tree of its own, and leaves every other address
/// space's links as they were.
proof fn lemma_user_root_shape(m: Map<u64, Seq<u64>>, lv: Map<u64, nat>, m2: Map<u64, Seq<u64>>, lv2: Map<u64, nat>, k: u64, f: u64)
    requires
        tree_ok(m, lv, k),
        !m.contains_key(f),
        m2 == m.insert(f, user_pml4(m[k])),
        lv2 == lv.insert(f, 0),
    ensures
        tree_ok(m2, lv2, f),
        tree_ok(m2, lv2, k),
        forall|r2: u64| r2 != f && links_distinct(m, lv, r2) ==> #[trigger] links_distinct(m2, lv2, r2),
{
    assert(lv2.dom() =~= m2.dom());
    assert(f != k);
    crate::mm::paging::lemma_zero_entry();
    assert forall|t: u64, i: int| #![trigger m2[t][i]]
        m2.contains_key(t) && 0 <= i < 512 && is_link(lv2[t], m2[t][i])
        implies m2.contains_key(entry_addr(m2[t][i])) && lv2[entry_addr(m2[t][i])] == lv2[t] + 1 by {
        if t == f {
            if i >= 256 {
                assert(m2[t][i] == m[k][i]);
                assert(is_link(lv[k], m[k][i]));
            } else {
                assert(m2[t][i] == 0);
            }
        } else {
            assert(m2[t][i] == m[t][i]);
        }
    }
    assert(layered(m2, lv2));
    assert forall|ta: u64, ia: int, tb: u64, ib: int| #![trigger m2[ta][ia], m2[tb][ib]]
        m2.contains_key(ta) && m2.contains_key(tb) && 0 <= ia < 512 && 0 <= ib < 512
        && in_space(lv2, f, ta) && in_space(lv2, f, tb)
        && is_link(lv2[ta], m2[ta][ia]) && is_link(lv2[tb], m2[tb][ib]) && (ta != tb || ia != ib)
        implies entry_addr(m2[ta][ia]) != entry_addr(m2[tb][ib]) by {
        if ta == f && ia < 256 {
            assert(m2[ta][ia] == 0);
        } else if tb == f && ib < 256 {
            assert(m2[tb][ib] == 0);
        } else if ta == f && tb == f {
            assert(m2[ta][ia] == m[k][ia]);
            assert(m2[tb][ib] == m[k][ib]);
            assert(is_link(lv[k], m[k][ia]));
            assert(is_link(lv[k], m[k][ib]));
        } else if ta == f {
            assert(m2[tb][ib] == m[tb][ib]);
            assert(is_link(lv[k], m[k][ia]));
            assert(is_link(lv[tb], m[tb][ib]));
        } else if tb == f {
            assert(m2[ta][ia] == m[ta][ia]);
            assert(is_link(lv[k], m[k][ib]));
            assert(is_link(lv[ta], m[ta][ia]));
        } else {
            assert(m2[ta][ia] == m[ta][ia]);
            assert(m2[tb][ib] == m[tb][ib]);
            assert(is_link(lv[ta], m[ta][ia]));
            assert(is_link(lv[tb], m[tb][ib]));
        }
    }
    assert forall|r2: u64| r2 != f && links_distinct(m, lv, r2) implies #[trigger] links_distinct(m2, lv2, r2) by {
        assert forall|ta: u64, ia: int, tb: u64, ib: int| #![trigger m2[ta][ia], m2[tb][ib]]
            m2.contains_key(ta) && m2.contains_key(tb) && 0 <= ia < 512 && 0 <= ib < 512
            && in_space(lv2, r2, ta) && in_space(lv2, r2, tb)
            && is_link(lv2[ta], m2[ta][ia]) && is_link(lv2[tb], m2[tb][ib]) && (ta != tb || ia != ib)
            implies entry_addr(m2[ta][ia]) != entry_addr(m2[tb][ib]) by {
            assert(ta != f && tb != f);
            assert(m2[ta][ia] == m[ta][ia]);
            assert(m2[tb][ib] == m[tb][ib]);
        }
    }
}

/// A user address space and the kernel's translate every upper-half
/// address alike: they share the kernel's tables, not copies of them.
pub proof fn law_user_space_shares_kernel_half(m: Map<u64, Seq<u64>>, lv: Map<u64, nat>, k: u64, u: u64, v: u64)
    requires
        tree_ok(m, lv, k),
        m.contains_key(u),
        u != k,
        lv[u] == 0,
        m[u] == user_pml4(m[k]),
        va_index(v, 0) >= 256,
    ensures
        walk(m, u, v) == walk(m, k, v),
{
    reveal(walk);
    assert(0 <= va_index(v, 0) < 512);
    assert(m[u][va_index(v, 0)] == m[k][va_index(v, 0)]);
    assert(t1(m, u, v) == t1(m, k, v));
}

} // verus!
