//! Checks on user pointers against a process's page tables: every page of
//! a range must be present and user-accessible (and writable, for a
//! destination), below the top of user space. The copies themselves are
//! done by fault-safe routines outside this library.
use vstd::prelude::*;
use vstd::utf8::valid_utf8;
use vstd::string::StringSliceAdditionalSpecFns;
use vstd::slice::slice_subrange;
use crate::mm::addr::VirtAddr;
use crate::mm::paging::{PageFlags, FLAG_USER, FLAG_WRITABLE};
use crate::mm::vmm::{AddressSpace, PhysMem, walk};
use crate::syscall::errno::EFAULT;
use crate::fs::initramfs::str_from_utf8;

verus! {

/// No user pointer reaches this address.
pub const USER_SPACE_CEILING: u64 = 0x0000_8000_0000_0000;

/// Whether a range is only read (a source) or also written (a destination).
#[derive(Clone, Copy, PartialEq, Eq, Structural)]
enum Access {
    Read,
    Write,
}

/// Page `page` is mapped user-accessible in `root`'s tables (and writable,
/// if `write`).
pub open spec fn page_ok(m: Map<u64, Seq<u64>>, root: u64, page: u64, write: bool) -> bool {
    match walk(m, root, page) {
        Some((_, f, _)) => f & FLAG_USER == FLAG_USER && (!write || f & FLAG_WRITABLE == FLAG_WRITABLE),
        None => false,
    }
}

/// `[ptr, ptr + len)` is a valid user range: empty, or below the ceiling
/// with every page it touches `page_ok`.
pub open spec fn range_ok(m: Map<u64, Seq<u64>>, root: u64, ptr: u64, len: int, write: bool) -> bool {
    len == 0 || (ptr + len <= USER_SPACE_CEILING && forall|p: u64|
        ptr - ptr % 4096 <= p < ptr + len && p % 4096 == 0 ==> #[trigger] page_ok(m, root, p, write))
}

/// `Ok` exactly for a valid range, else `-EFAULT`.
fn validate_range(space: &AddressSpace, mem: &PhysMem, ptr: u64, len: usize, access: Access) -> (r: Result<(), i64>)
    requires
        mem.wf(),
    ensures
        r is Ok <==> range_ok(mem@, space.pml4.0, ptr, len as int, access == Access::Write),
        r is Err ==> r == Err::<(), i64>(-(EFAULT as int) as i64),
{
    if len == 0 {
        return Ok(());
    }
    let end = match ptr.checked_add(len as u64) {
        Some(e) => e,
        None => return Err(-(EFAULT as i64)),
    };
    if end > USER_SPACE_CEILING {
        return Err(-(EFAULT as i64));
    }
    let mut page = ptr & !0xfffu64;
    proof {
        assert(ptr & !0xfffu64 == ptr - ptr % 4096 && (ptr - ptr % 4096) % 4096 == 0) by (bit_vector);
    }
    let write = access == Access::Write;
    while page < end
        invariant
            mem.wf(),
            write == (access == Access::Write),
            len > 0,
            end == ptr + len,
            end <= USER_SPACE_CEILING,
            ptr - ptr % 4096 <= page,
            page % 4096 == 0,
            page <= end + 4096,
            forall|p: u64| ptr - ptr % 4096 <= p < page && p % 4096 == 0
                ==> #[trigger] page_ok(mem@, space.pml4.0, p, write),
        decreases end + 4096 - page,
    {
        match space.translate(mem, VirtAddr::new(page)) {
            Some((_, flags, _)) => {
                if !(flags.contains(PageFlags(FLAG_USER)) && (!write || flags.contains(PageFlags(FLAG_WRITABLE)))) {
                    proof {
                        assert(!page_ok(mem@, space.pml4.0, page, access == Access::Write));
                        assert(!range_ok(mem@, space.pml4.0, ptr, len as int, access == Access::Write));
                    }
                    return Err(-(EFAULT as i64));
                }
            },
            None => {
                proof {
                    assert(!page_ok(mem@, space.pml4.0, page, access == Access::Write));
                        assert(!range_ok(mem@, space.pml4.0, ptr, len as int, access == Access::Write));
                }
                return Err(-(EFAULT as i64));
            },
        }
        proof {
            assert forall|p: u64| ptr - ptr % 4096 <= p < page + 4096 && p % 4096 == 0
                implies #[trigger] page_ok(mem@, space.pml4.0, p, write) by {
                if p >= page {
                    assert(p == page);
                }
            }
        }
        page = page + 4096;
    }
    Ok(())
}

/// Whether `[ptr, ptr + len)` is present and user-accessible in `space`,
/// as a copy from user memory requires before it starts: `Ok` exactly for
/// such a range, else `-EFAULT`.
pub fn validate_readable(space: &AddressSpace, mem: &PhysMem, ptr: u64, len: usize) -> (r: Result<(), i64>)
    requires
        mem.wf(),
    ensures
        r is Ok <==> range_ok(mem@, space.pml4.0, ptr, len as int, false),
        r is Err ==> r == Err::<(), i64>(-(EFAULT as int) as i64),
{
    validate_range(space, mem, ptr, len, Access::Read)
}

/// Whether `[ptr, ptr + len)` is present, user-accessible and writable in
/// `space`, without touching it: `Ok` exactly for such a range, else
/// `-EFAULT`.
pub fn validate_writable(space: &AddressSpace, mem: &PhysMem, ptr: u64, len: usize) -> (r: Result<(), i64>)
    requires
        mem.wf(),
    ensures
        r is Ok <==> range_ok(mem@, space.pml4.0, ptr, len as int, true),
        r is Err ==> r == Err::<(), i64>(-(EFAULT as int) as i64),
{
    validate_range(space, mem, ptr, len, Access::Write)
}

/// The byte at offset `j` of a user string at `ptr` could be read: its
/// address doesn't overflow, its page is user-readable, and the copy got
/// that far (`bytes` is what the copy read from `ptr` on).
pub open spec fn byte_readable(m: Map<u64, Seq<u64>>, root: u64, ptr: u64, bytes: Seq<u8>, j: int) -> bool {
    &&& ptr + j <= u64::MAX
    &&& range_ok(m, root, (ptr + j) as u64, 1, false)
    &&& j < bytes.len()
}

/// The user string at `ptr` ends at offset `k` (its NUL), within `max`
/// bytes, with every byte up to it readable.
pub open spec fn str_ends_at(m: Map<u64, Seq<u64>>, root: u64, ptr: u64, max: int, bytes: Seq<u8>, k: int) -> bool {
    &&& 0 <= k < max
    &&& forall|j: int| 0 <= j <= k ==> #[trigger] byte_readable(m, root, ptr, bytes, j)
    &&& forall|j: int| 0 <= j < k ==> bytes[j] != 0
    &&& bytes[k] == 0
}

/// Reads the NUL-terminated string of at most `max` bytes at `ptr` in
/// `space`, checking each byte's page as the scan reaches it; `bytes` is
/// what the fault-safe copy read from `ptr` on (it stops early where the
/// copy faulted). The string, if it ends within `max` readable bytes and
/// is valid UTF-8; else `-EFAULT`.
pub fn user_str(space: &AddressSpace, mem: &PhysMem, ptr: u64, max: usize, bytes: &[u8]) -> (r: Result<String, i64>)
    requires
        mem.wf(),
    ensures
        match r {
            Ok(st) => exists|k: int| str_ends_at(mem@, space.pml4.0, ptr, max as int, bytes@, k)
                && vstd::utf8::encode_utf8(st@) == bytes@.take(k),
            Err(e) => e == -(EFAULT as int) && !(exists|k: int| str_ends_at(mem@, space.pml4.0, ptr, max as int, bytes@, k)
                && valid_utf8(bytes@.take(k))),
        },
{
    let mut offset: usize = 0;
    while offset < max
        invariant
            mem.wf(),
            offset <= max,
            forall|j: int| 0 <= j < offset ==> #[trigger] byte_readable(mem@, space.pml4.0, ptr, bytes@, j),
            forall|j: int| 0 <= j < offset ==> bytes@[j] != 0,
        decreases max - offset,
    {
        let addr = match ptr.checked_add(offset as u64) {
            Some(a) => a,
            None => {
                proof {
                    assert forall|k: int| !str_ends_at(mem@, space.pml4.0, ptr, max as int, bytes@, k) by {
                        if str_ends_at(mem@, space.pml4.0, ptr, max as int, bytes@, k) {
                            if k >= offset {
                                assert(byte_readable(mem@, space.pml4.0, ptr, bytes@, offset as int));
                            }
                        }
                    }
                }
                return Err(-(EFAULT as i64));
            },
        };
        let ok = validate_range(space, mem, addr, 1, Access::Read);
        if ok.is_err() || offset >= bytes.len() {
            proof {
                assert forall|k: int| !str_ends_at(mem@, space.pml4.0, ptr, max as int, bytes@, k) by {
                    if str_ends_at(mem@, space.pml4.0, ptr, max as int, bytes@, k) {
                        if k >= offset {
                            assert(byte_readable(mem@, space.pml4.0, ptr, bytes@, offset as int));
                        }
                    }
                }
            }
            return Err(-(EFAULT as i64));
        }
        proof {
            assert(byte_readable(mem@, space.pml4.0, ptr, bytes@, offset as int));
        }
        if bytes[offset] == 0 {
            proof {
                assert(str_ends_at(mem@, space.pml4.0, ptr, max as int, bytes@, offset as int));
                assert forall|k: int| str_ends_at(mem@, space.pml4.0, ptr, max as int, bytes@, k) implies k == offset by {
                    if k < offset {
                        assert(bytes@[k] != 0);
                    }
                    if k > offset {
                        assert(bytes@[offset as int] != 0);
                    }
                }
            }
            let head = slice_subrange(bytes, 0, offset);
            proof {
                assert(head@ =~= bytes@.take(offset as int));
            }
            return match str_from_utf8(head) {
                Some(t) => Ok(t.to_owned()),
                None => Err(-(EFAULT as i64)),
            };
        }
        offset = offset + 1;
    }
    proof {
        assert forall|k: int| !str_ends_at(mem@, space.pml4.0, ptr, max as int, bytes@, k) by {
            if str_ends_at(mem@, space.pml4.0, ptr, max as int, bytes@, k) {
                assert(bytes@[k] != 0);
            }
        }
    }
    Err(-(EFAULT as i64))
}

/// A range valid as a destination is valid as a source too.
pub proof fn law_writable_is_readable(m: Map<u64, Seq<u64>>, root: u64, ptr: u64, len: int)
    requires
        range_ok(m, root, ptr, len, true),
    ensures
        range_ok(m, root, ptr, len, false),
{
    if len != 0 {
        assert forall|p: u64| ptr - ptr % 4096 <= p < ptr + len && p % 4096 == 0 implies #[trigger] page_ok(m, root, p, false) by {
            assert(page_ok(m, root, p, true));
        }
    }
}

} // verus!
