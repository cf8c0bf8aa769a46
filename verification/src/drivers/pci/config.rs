//! Decoding a PCI function's configuration space: the type-0 header, the
//! base address registers, the capability list and BAR sizing. Each
//! function takes the bytes read from the function's configuration space
//! (at least its first 256 bytes; byte `k` at offset `k`).
use vstd::prelude::*;
use crate::proc::elf::{le16, le32, u16_at, u32_at};

verus! {

/// A function's configuration header.
pub struct ConfigHeader {
    pub vendor_id: u16,
    pub device_id: u16,
    pub command: u16,
    pub status: u16,
    pub revision_id: u8,
    pub prog_if: u8,
    pub subclass_code: u8,
    pub class_code: u8,
    pub cache_line_size: u8,
    pub latency_timer: u8,
    pub header_type: u8,
    pub bist: u8,
    pub bars: [Option<u64>; 6],
    pub bar_is_io: [bool; 6],
    pub interrupt_line: u8,
    pub interrupt_pin: u8,
}

/// Base address register `i` (of six) as read, little-endian.
pub open spec fn bar_reg(cfg: Seq<u8>, i: int) -> u32 {
    le32(cfg, 0x10 + 4 * i)
}

/// The BARs from register `i` on, each as (address, is an I/O BAR): a zero
/// register is unused; bit 0 marks an I/O BAR (address in bits 2..); a
/// memory BAR of type 0 is 32-bit (address in bits 4..); one of type 2 is
/// 64-bit and takes the next register as its upper half (which then reads
/// as unused); any other type is skipped.
pub open spec fn bar_walk(cfg: Seq<u8>, i: int) -> Seq<(Option<u64>, bool)>
    decreases 6 - i,
{
    if i >= 6 || i < 0 {
        Seq::empty()
    } else {
        let v = bar_reg(cfg, i);
        if v == 0 {
            seq![(None, false)] + bar_walk(cfg, i + 1)
        } else if v & 1 != 0 {
            seq![(Some((v & 0xffff_fffc) as u64), true)] + bar_walk(cfg, i + 1)
        } else if (v >> 1) & 3 == 0 {
            seq![(Some((v & 0xffff_fff0) as u64), false)] + bar_walk(cfg, i + 1)
        } else if (v >> 1) & 3 == 2 && i + 1 < 6 {
            seq![(Some(((bar_reg(cfg, i + 1) as u64) << 32u64) | ((v & 0xffff_fff0) as u64)), false), (None, false)]
                + bar_walk(cfg, i + 2)
        } else {
            seq![(None, false)] + bar_walk(cfg, i + 1)
        }
    }
}

/// Decoded BAR addresses carry none of the flag bits: an I/O BAR's
/// address is a multiple of 4 below 2^32, a memory BAR's a multiple of 16;
/// and the first entry of a walk is unused exactly when its register reads
/// zero.
pub proof fn law_bar_addresses_aligned(cfg: Seq<u8>, i: int)
    requires
        0 <= i <= 6,
    ensures
        forall|k: int| 0 <= k < bar_walk(cfg, i).len() ==> match #[trigger] bar_walk(cfg, i)[k] {
            (Some(a), true) => a % 4 == 0 && a < 0x1_0000_0000,
            (Some(a), false) => a % 16 == 0,
            (None, io) => !io,
        },
        i < 6 && bar_reg(cfg, i) == 0 ==> bar_walk(cfg, i)[0] == (None::<u64>, false),
    decreases 6 - i,
{
    if i < 6 {
        let v = bar_reg(cfg, i);
        let w = bar_walk(cfg, i);
        if v == 0 {
            law_bar_addresses_aligned(cfg, i + 1);
            assert forall|k: int| 0 <= k < w.len() implies match #[trigger] w[k] {
                (Some(a), true) => a % 4 == 0 && a < 0x1_0000_0000,
                (Some(a), false) => a % 16 == 0,
                (None, io) => !io,
            } by {
                if k > 0 { assert(w[k] == bar_walk(cfg, i + 1)[k - 1]); }
            }
        } else if v & 1 != 0 {
            law_bar_addresses_aligned(cfg, i + 1);
            assert(((v & 0xffff_fffc) as u64) % 4 == 0 && ((v & 0xffff_fffc) as u64) < 0x1_0000_0000) by (bit_vector);
            assert forall|k: int| 0 <= k < w.len() implies match #[trigger] w[k] {
                (Some(a), true) => a % 4 == 0 && a < 0x1_0000_0000,
                (Some(a), false) => a % 16 == 0,
                (None, io) => !io,
            } by {
                if k > 0 { assert(w[k] == bar_walk(cfg, i + 1)[k - 1]); }
            }
        } else if (v >> 1) & 3 == 0 {
            law_bar_addresses_aligned(cfg, i + 1);
            assert(((v & 0xffff_fff0) as u64) % 16 == 0) by (bit_vector);
            assert forall|k: int| 0 <= k < w.len() implies match #[trigger] w[k] {
                (Some(a), true) => a % 4 == 0 && a < 0x1_0000_0000,
                (Some(a), false) => a % 16 == 0,
                (None, io) => !io,
            } by {
                if k > 0 { assert(w[k] == bar_walk(cfg, i + 1)[k - 1]); }
            }
        } else if (v >> 1) & 3 == 2 && i + 1 < 6 {
            law_bar_addresses_aligned(cfg, i + 2);
            let hi = bar_reg(cfg, i + 1);
            assert((((hi as u64) << 32u64) | ((v & 0xffff_fff0) as u64)) % 16 == 0) by (bit_vector);
            assert forall|k: int| 0 <= k < w.len() implies match #[trigger] w[k] {
                (Some(a), true) => a % 4 == 0 && a < 0x1_0000_0000,
                (Some(a), false) => a % 16 == 0,
                (None, io) => !io,
            } by {
                if k > 1 { assert(w[k] == bar_walk(cfg, i + 2)[k - 2]); }
            }
        } else {
            law_bar_addresses_aligned(cfg, i + 1);
            assert forall|k: int| 0 <= k < w.len() implies match #[trigger] w[k] {
                (Some(a), true) => a % 4 == 0 && a < 0x1_0000_0000,
                (Some(a), false) => a % 16 == 0,
                (None, io) => !io,
            } by {
                if k > 0 { assert(w[k] == bar_walk(cfg, i + 1)[k - 1]); }
            }
        }
    }
}

proof fn lemma_bar_walk_len(cfg: Seq<u8>, i: int)
    requires
        0 <= i <= 6,
    ensures
        bar_walk(cfg, i).len() == 6 - i,
    decreases 6 - i,
{
    if i < 6 {
        let v = bar_reg(cfg, i);
        if v != 0 && v & 1 == 0 && (v >> 1) & 3 != 0 && (v >> 1) & 3 == 2 && i + 1 < 6 {
            lemma_bar_walk_len(cfg, i + 2);
        } else {
            lemma_bar_walk_len(cfg, i + 1);
        }
    }
}

/// Decodes the configuration header from the function's configuration
/// bytes `cfg`.
pub fn read_header(cfg: &[u8]) -> (r: ConfigHeader)
    requires
        cfg@.len() >= 64,
    ensures
        r.vendor_id == le16(cfg@, 0),
        r.device_id == le16(cfg@, 2),
        r.command == le16(cfg@, 4),
        r.status == le16(cfg@, 6),
        r.revision_id == cfg@[8],
        r.prog_if == cfg@[9],
        r.subclass_code == cfg@[10],
        r.class_code == cfg@[11],
        r.cache_line_size == cfg@[12],
        r.latency_timer == cfg@[13],
        r.header_type == cfg@[14],
        r.bist == cfg@[15],
        r.bars@ == bar_walk(cfg@, 0).map_values(|b: (Option<u64>, bool)| b.0),
        r.bar_is_io@ == bar_walk(cfg@, 0).map_values(|b: (Option<u64>, bool)| b.1),
        r.interrupt_line == cfg@[0x3c],
        r.interrupt_pin == cfg@[0x3d],
{
    let mut acc: Vec<(Option<u64>, bool)> = Vec::new();
    let mut i: usize = 0;
    proof {
        assert(acc@ + bar_walk(cfg@, 0) =~= bar_walk(cfg@, 0));
    }
    while i < 6
        invariant
            cfg@.len() >= 64,
            i <= 6,
            acc@ + bar_walk(cfg@, i as int) == bar_walk(cfg@, 0),
        decreases 6 - i,
    {
        let v = u32_at(cfg, 0x10 + i * 4).unwrap();
        let ghost rest = bar_walk(cfg@, i as int);
        if v == 0 {
            acc.push((None, false));
            i = i + 1;
        } else if v & 1 != 0 {
            acc.push((Some((v & 0xffff_fffc) as u64), true));
            i = i + 1;
        } else {
            let bar_type = (v >> 1) & 0x3;
            if bar_type == 0 {
                acc.push((Some((v & 0xffff_fff0) as u64), false));
                i = i + 1;
            } else if bar_type == 2 && i + 1 < 6 {
                let hi = u32_at(cfg, 0x10 + (i + 1) * 4).unwrap();
                acc.push((Some(((hi as u64) << 32u64) | ((v & 0xffff_fff0) as u64)), false));
                acc.push((None, false));
                i = i + 2;
            } else {
                acc.push((None, false));
                i = i + 1;
            }
        }
        proof {
            assert(acc@ + bar_walk(cfg@, i as int) =~= bar_walk(cfg@, 0));
        }
    }
    proof {
        lemma_bar_walk_len(cfg@, 0);
        assert(acc@ =~= bar_walk(cfg@, 0));
    }
    let bars = [acc[0].0, acc[1].0, acc[2].0, acc[3].0, acc[4].0, acc[5].0];
    let bar_is_io = [acc[0].1, acc[1].1, acc[2].1, acc[3].1, acc[4].1, acc[5].1];
    proof {
        assert(bars@ =~= bar_walk(cfg@, 0).map_values(|b: (Option<u64>, bool)| b.0));
        assert(bar_is_io@ =~= bar_walk(cfg@, 0).map_values(|b: (Option<u64>, bool)| b.1));
    }
    ConfigHeader {
        vendor_id: u16_at(cfg, 0).unwrap(),
        device_id: u16_at(cfg, 2).unwrap(),
        command: u16_at(cfg, 4).unwrap(),
        status: u16_at(cfg, 6).unwrap(),
        revision_id: cfg[8],
        prog_if: cfg[9],
        subclass_code: cfg[10],
        class_code: cfg[11],
        cache_line_size: cfg[12],
        latency_timer: cfg[13],
        header_type: cfg[14],
        bist: cfg[15],
        bars,
        bar_is_io,
        interrupt_line: cfg[0x3c],
        interrupt_pin: cfg[0x3d],
    }
}

/// The `k`-th pointer of the capability list: the first comes from offset
/// 0x34, each next one from the byte after the capability it points at.
pub open spec fn cap_ptr_at(cfg: Seq<u8>, k: nat) -> u8
    decreases k,
{
    if k == 0 {
        cfg[0x34]
    } else {
        let p = cap_ptr_at(cfg, (k - 1) as nat);
        cfg[p + 1]
    }
}

/// The walk goes on at step `k`: the pointer lies in 0x40..0xff and was not
/// met before (a corrupt list that loops is cut off).
pub open spec fn cap_step_ok(cfg: Seq<u8>, k: nat) -> bool {
    let p = cap_ptr_at(cfg, k);
    &&& 0x40 <= p < 0xff
    &&& forall|j: nat| j < k ==> #[trigger] cap_ptr_at(cfg, j) != p
}

/// The number of unset flags.
pub open spec fn unseen(s: Seq<bool>) -> nat
    decreases s.len(),
{
    if s.len() == 0 {
        0
    } else {
        unseen(s.drop_last()) + if s.last() { 0nat } else { 1nat }
    }
}

proof fn lemma_unseen_set(s: Seq<bool>, i: int)
    requires
        0 <= i < s.len(),
        !s[i],
    ensures
        unseen(s.update(i, true)) + 1 == unseen(s),
    decreases s.len(),
{
    if i < s.len() - 1 {
        assert(s.update(i, true).drop_last() =~= s.drop_last().update(i, true));
        lemma_unseen_set(s.drop_last(), i);
    } else {
        assert(s.update(i, true).drop_last() =~= s.drop_last());
    }
}

/// Walks the capability list: each capability as (id, offset), in list
/// order, for as long as `cap_step_ok` holds.
pub fn scan_capabilities(cfg: &[u8]) -> (r: Vec<(u8, u8)>)
    requires
        cfg@.len() >= 256,
    ensures
        forall|k: nat| k < r@.len() ==> #[trigger] cap_step_ok(cfg@, k),
        forall|k: nat| k < r@.len() ==> #[trigger] r@[k as int] == (cfg@[cap_ptr_at(cfg@, k) as int], cap_ptr_at(cfg@, k)),
        !cap_step_ok(cfg@, r@.len()),
{
    let mut caps: Vec<(u8, u8)> = Vec::new();
    let mut seen: Vec<bool> = Vec::new();
    let mut n: usize = 0;
    while n < 256
        invariant
            n <= 256,
            seen@.len() == n,
            forall|x: int| 0 <= x < n ==> !seen@[x],
        decreases 256 - n,
    {
        seen.push(false);
        n = n + 1;
    }
    let mut cap_ptr = cfg[0x34];
    proof {
        assert(unseen(seen@) <= 256) by {
            lemma_unseen_bound(seen@);
        }
    }
    loop
        invariant
            cfg@.len() >= 256,
            seen@.len() == 256,
            cap_ptr == cap_ptr_at(cfg@, caps@.len()),
            forall|x: int| 0 <= x < 256 ==> (seen@[x] <==> exists|j: nat| j < caps@.len() && cap_ptr_at(cfg@, j) == x),
            forall|k: nat| k < caps@.len() ==> #[trigger] cap_step_ok(cfg@, k),
            forall|k: nat| k < caps@.len() ==> #[trigger] caps@[k as int] == (cfg@[cap_ptr_at(cfg@, k) as int], cap_ptr_at(cfg@, k)),
        ensures
            forall|k: nat| k < caps@.len() ==> #[trigger] cap_step_ok(cfg@, k),
            forall|k: nat| k < caps@.len() ==> #[trigger] caps@[k as int] == (cfg@[cap_ptr_at(cfg@, k) as int], cap_ptr_at(cfg@, k)),
            !cap_step_ok(cfg@, caps@.len()),
        decreases unseen(seen@),
    {
        if !(0x40 <= cap_ptr && cap_ptr < 0xff) {
            break;
        }
        if seen[cap_ptr as usize] {
            proof {
                let j = choose|j: nat| j < caps@.len() && cap_ptr_at(cfg@, j) == cap_ptr;
                assert(cap_ptr_at(cfg@, j) == cap_ptr_at(cfg@, caps@.len()));
            }
            break;
        }
        proof {
            assert forall|j: nat| j < caps@.len() implies #[trigger] cap_ptr_at(cfg@, j) != cap_ptr by {
                if cap_ptr_at(cfg@, j) == cap_ptr {
                    assert(seen@[cap_ptr as int]);
                }
            }
            assert(cap_step_ok(cfg@, caps@.len()));
            lemma_unseen_set(seen@, cap_ptr as int);
        }
        let ghost k0 = caps@.len();
        seen.set(cap_ptr as usize, true);
        let cap_id = cfg[cap_ptr as usize];
        let next_ptr = cfg[cap_ptr as usize + 1];
        caps.push((cap_id, cap_ptr));
        proof {
            assert(cap_ptr_at(cfg@, (k0 + 1) as nat) == next_ptr);
            assert forall|x: int| 0 <= x < 256 implies (seen@[x] <==> exists|j: nat| j < caps@.len() && cap_ptr_at(cfg@, j) == x) by {
                if x == cap_ptr {
                    assert(cap_ptr_at(cfg@, k0) == x);
                } else if seen@[x] {
                    let j = choose|j: nat| j < k0 && cap_ptr_at(cfg@, j) == x;
                    assert(j < caps@.len());
                } else {
                    if exists|j: nat| j < caps@.len() && cap_ptr_at(cfg@, j) == x {
                        let j = choose|j: nat| j < caps@.len() && cap_ptr_at(cfg@, j) == x;
                        assert(j != k0);
                    }
                }
            }
        }
        cap_ptr = next_ptr;
    }
    caps
}

proof fn lemma_unseen_bound(s: Seq<bool>)
    ensures
        unseen(s) <= s.len(),
    decreases s.len(),
{
    if s.len() > 0 {
        lemma_unseen_bound(s.drop_last());
    }
}

/// A bridge's secondary bus number (offset 0x19).
pub fn read_bridge_secondary_bus(cfg: &[u8]) -> (r: u8)
    requires
        cfg@.len() >= 256,
    ensures
        r == cfg@[0x19],
{
    cfg[0x19]
}

/// The size of a BAR from what it reads back after all ones were written
/// to it (`size_bits`): the two's complement of its address bits (bits 2..
/// for an I/O BAR, 4.. for a memory BAR); 0 for a BAR that reads back 0
/// (none there).
pub open spec fn bar_size_spec(size_bits: u32) -> u64 {
    if size_bits == 0 {
        0
    } else if size_bits & 1 != 0 {
        (!(if size_bits & 0xffff_fffc == 0 { 0u32 } else { ((size_bits & 0xffff_fffc) - 1) as u32 })) as u64
    } else {
        (!(if size_bits & 0xffff_fff0 == 0 { 0u32 } else { ((size_bits & 0xffff_fff0) - 1) as u32 })) as u64
    }
}

/// A memory BAR's size depends on its address bits (4..31) alone: bits 1
/// to 3 (its type and prefetchable flags) change nothing.
pub proof fn law_memory_bar_flags_ignored(x: u32, y: u32)
    requires
        x & 1 == 0,
        y & 0xffff_fff1 == x & 0xffff_fff1,
        x & 0xffff_fff0 != 0,
    ensures
        bar_size_spec(x) == bar_size_spec(y),
{
    assert(y & 0xffff_fff0 == x & 0xffff_fff0 && y & 1 == 0 && y != 0 && x != 0) by (bit_vector)
        requires
            x & 1 == 0,
            y & 0xffff_fff1 == x & 0xffff_fff1,
            x & 0xffff_fff0 != 0;
}

/// A memory BAR that decodes `2^k` bytes (`k` from 4 up) reads back ones
/// in exactly its address bits from `k` on; its size is then `2^k`.
pub proof fn law_memory_bar_size_power(x: u32, k: u32)
    requires
        x & 1 == 0,
        4 <= k < 32,
        x & 0xffff_fff0 == 0xffff_ffffu32 << k,
    ensures
        bar_size_spec(x) == 1u64 << k,
{
    assert(x != 0 && x & 0xffff_fff0 != 0) by (bit_vector)
        requires
            4 <= k < 32,
            x & 0xffff_fff0 == 0xffff_ffffu32 << k;
    let m = x & 0xffff_fff0;
    assert((!((m - 1) as u32)) as u64 == 1u64 << k) by (bit_vector)
        requires
            4 <= k < 32,
            m == 0xffff_ffffu32 << k;
}

/// An I/O BAR's size depends on its address bits (2..31) alone: bit 1
/// changes nothing.
pub proof fn law_io_bar_flag_ignored(x: u32, y: u32)
    requires
        x & 1 == 1,
        y & 0xffff_fffd == x & 0xffff_fffd,
    ensures
        bar_size_spec(x) == bar_size_spec(y),
{
    assert(y & 0xffff_fffc == x & 0xffff_fffc && y & 1 == 1 && y != 0 && x != 0) by (bit_vector)
        requires
            x & 1 == 1,
            y & 0xffff_fffd == x & 0xffff_fffd;
}

/// Computes a BAR's size from the value it reads back after all ones were
/// written to it (see `bar_size_spec`).
pub fn bar_size_from_probe(size_bits: u32) -> (r: u64)
    ensures
        r == bar_size_spec(size_bits),
{
    if size_bits == 0 {
        0
    } else if (size_bits & 1) != 0 {
        (!((size_bits & 0xffff_fffc).saturating_sub(1))) as u64
    } else {
        (!((size_bits & 0xffff_fff0).saturating_sub(1))) as u64
    }
}

} // verus!
