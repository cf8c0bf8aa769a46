//! Physical ranges of the memory map, as the direct map is built from
//! them: entries rounded outward to whole pages and merged into a sorted
//! set of disjoint ranges, and one such set taken out of another.
use vstd::prelude::*;
use crate::mm::pmm::{MemmapEntry, MEMMAP_BAD_MEMORY};

verus! {

/// Which memory-map entries a merge takes.
#[derive(Debug, Clone, Copy, PartialEq, Eq, Structural)]
pub enum EntryFilter {
    /// Every entry but bad memory.
    Mappable,
    /// Only bad memory.
    Bad,
    /// Every entry.
    Any,
}

/// Whether `f` takes an entry of type `t`.
pub open spec fn kept(f: EntryFilter, t: u64) -> bool {
    match f {
        EntryFilter::Mappable => t != MEMMAP_BAD_MEMORY,
        EntryFilter::Bad => t == MEMMAP_BAD_MEMORY,
        EntryFilter::Any => true,
    }
}

/// `x` rounded down to a page boundary.
pub open spec fn round_down(x: int) -> int {
    x - x % 4096
}

/// `x` rounded up to a page boundary.
pub open spec fn round_up(x: int) -> int {
    if x % 4096 == 0 { x } else { x - x % 4096 + 4096 }
}

/// The extent of entry `e` clipped to `ceiling` and rounded outward to
/// whole pages, if anything of it lies below `ceiling`.
pub open spec fn entry_range(e: MemmapEntry, ceiling: u64) -> Option<(int, int)> {
    let s = if e.base <= ceiling { e.base as int } else { ceiling as int };
    let t = if e.base + e.length <= ceiling { e.base + e.length } else { ceiling as int };
    if t <= s { None } else { Some((round_down(s), round_up(t))) }
}

/// Entry `e` is one `f` takes and covers `x`, once clipped and rounded.
pub open spec fn entry_covers(e: MemmapEntry, f: EntryFilter, ceiling: u64, x: int) -> bool {
    kept(f, e.type_) && match entry_range(e, ceiling) {
        Some((s, t)) => s <= x < t,
        None => false,
    }
}

/// Some entry of `es` that `f` takes covers `x`, once clipped and rounded.
pub open spec fn entries_cover(es: Seq<MemmapEntry>, f: EntryFilter, ceiling: u64, x: int) -> bool {
    exists|i: int| 0 <= i < es.len() && #[trigger] entry_covers(es[i], f, ceiling, x)
}

/// Some range of `rs` covers `x`.
pub open spec fn covers(rs: Seq<(u64, u64)>, x: int) -> bool {
    exists|i: int| 0 <= i < rs.len() && (#[trigger] rs[i]).0 <= x < rs[i].1
}

/// Every range of `rs` is non-empty.
pub open spec fn proper_ranges(rs: Seq<(u64, u64)>) -> bool {
    forall|i: int| 0 <= i < rs.len() ==> (#[trigger] rs[i]).0 < rs[i].1
}

/// Every range of `rs` is non-empty and page aligned.
pub open spec fn page_ranges(rs: Seq<(u64, u64)>) -> bool {
    forall|i: int| 0 <= i < rs.len() ==> (#[trigger] rs[i]).0 < rs[i].1 && rs[i].0 % 4096 == 0 && rs[i].1 % 4096 == 0
}

/// `rs` is sorted and every range ends before the next one starts, with
/// at least one address between them.
pub open spec fn spread(rs: Seq<(u64, u64)>) -> bool {
    forall|i: int, j: int| 0 <= i < j < rs.len() ==> (#[trigger] rs[i]).1 < (#[trigger] rs[j]).0
}

/// `rs` is sorted by start.
pub open spec fn sorted_by_start(rs: Seq<(u64, u64)>) -> bool {
    forall|i: int, j: int| 0 <= i < j < rs.len() ==> (#[trigger] rs[i]).0 <= (#[trigger] rs[j]).0
}

/// Every entry's end fits with room for rounding up.
pub open spec fn entries_fit(es: Seq<MemmapEntry>) -> bool {
    forall|i: int| 0 <= i < es.len() ==> (#[trigger] es[i]).base + es[i].length + 4096 <= u64::MAX
}

/// Builds the sorted set of disjoint, page-aligned ranges covering every
/// entry `f` takes, each clipped to `ceiling` and rounded outward to whole
/// pages; ranges that overlap or touch are merged.
#[verifier::spinoff_prover]
#[verifier::rlimit(30)]
pub fn merge_ranges(entries: &[MemmapEntry], f: EntryFilter, ceiling: u64) -> (r: Vec<(u64, u64)>)
    requires
        entries_fit(entries@),
    ensures
        page_ranges(r@),
        spread(r@),
        forall|x: int| covers(r@, x) <==> entries_cover(entries@, f, ceiling, x),
{
    // The rounded ranges of the entries taken.
    let mut raw: Vec<(u64, u64)> = Vec::new();
    let mut i: usize = 0;
    while i < entries.len()
        invariant
            0 <= i <= entries@.len(),
            entries_fit(entries@),
            page_ranges(raw@),
            forall|x: int| covers(raw@, x) <==> entries_cover(entries@.take(i as int), f, ceiling, x),
        decreases entries@.len() - i,
    {
        let e = entries[i];
        let take = match f {
            EntryFilter::Mappable => e.type_ != MEMMAP_BAD_MEMORY,
            EntryFilter::Bad => e.type_ == MEMMAP_BAD_MEMORY,
            EntryFilter::Any => true,
        };
        let ghost before = raw@;
        proof {
            assert(entries@.take(i as int + 1) =~= entries@.take(i as int).push(e));
            assert(e.base + e.length + 4096 <= u64::MAX);
        }
        if take {
            let s = if e.base <= ceiling { e.base } else { ceiling };
            let t = if e.base + e.length <= ceiling { e.base + e.length } else { ceiling };
            if t > s {
                let lo = s - s % 4096;
                let hi = if t % 4096 == 0 { t } else { t - t % 4096 + 4096 };
                raw.push((lo, hi));
                proof {
                    assert(entry_range(e, ceiling) == Some((lo as int, hi as int)));
                    assert forall|x: int| covers(raw@, x) <==> entries_cover(entries@.take(i as int + 1), f, ceiling, x) by {
                        let es1 = entries@.take(i as int + 1);
                        let es0 = entries@.take(i as int);
                        lemma_cover_push(before, (lo, hi), x);
                        assert(raw@ == before.push((lo, hi)));
                        if entries_cover(es1, f, ceiling, x) {
                            let j = choose|j: int| 0 <= j < es1.len() && #[trigger] entry_covers(es1[j], f, ceiling, x);
                            if j < i {
                                assert(es0[j] == es1[j]);
                                assert(entry_covers(es0[j], f, ceiling, x));
                            } else {
                                assert(es1[j] == e);
                            }
                        }
                        if entries_cover(es0, f, ceiling, x) {
                            let j = choose|j: int| 0 <= j < es0.len() && #[trigger] entry_covers(es0[j], f, ceiling, x);
                            assert(es1[j] == es0[j]);
                            assert(entry_covers(es1[j], f, ceiling, x));
                        }
                        if lo <= x < hi {
                            assert(es1[i as int] == e);
                            assert(entry_covers(es1[i as int], f, ceiling, x));
                        }
                    }
                }
            } else {
                proof {
                    lemma_cover_unchanged(entries@, i as int, f, ceiling, raw@);
                }
            }
        } else {
            proof {
                lemma_cover_unchanged(entries@, i as int, f, ceiling, raw@);
            }
        }
        i = i + 1;
    }
    proof {
        assert(entries@.take(entries@.len() as int) =~= entries@);
    }
    let sorted = sort_by_start(&raw);
    // Merge neighbours that overlap or touch.
    let mut out: Vec<(u64, u64)> = Vec::new();
    let mut k: usize = 0;
    while k < sorted.len()
        invariant
            0 <= k <= sorted@.len(),
            page_ranges(sorted@),
            sorted_by_start(sorted@),
            page_ranges(out@),
            spread(out@),
            out@.len() == 0 <==> k == 0,
            out@.len() > 0 ==> forall|q: int| k <= q < sorted@.len() ==> out@.last().0 <= (#[trigger] sorted@[q]).0,
            forall|x: int| covers(out@, x) <==> covers(sorted@.take(k as int), x),
        decreases sorted@.len() - k,
    {
        let cur = sorted[k];
        let ghost before = out@;
        proof {
            assert(sorted@.take(k as int + 1) =~= sorted@.take(k as int).push(cur));
            assert(cur.0 < cur.1 && cur.0 % 4096 == 0 && cur.1 % 4096 == 0);
        }
        if out.len() > 0 && cur.0 <= out[out.len() - 1].1 {
            let w = out.len() - 1;
            let last = out[w];
            let end = if cur.1 > last.1 { cur.1 } else { last.1 };
            out.set(w, (last.0, end));
            proof {
                assert(last.0 <= cur.0);
                assert forall|a: int, b: int| 0 <= a < b < out@.len() implies (#[trigger] out@[a]).1 < (#[trigger] out@[b]).0 by {
                    assert(before[a].1 < before[b].0);
                }
                assert forall|q: int| k + 1 <= q < sorted@.len() implies out@.last().0 <= (#[trigger] sorted@[q]).0 by {
                    assert(before.last().0 <= sorted@[q].0);
                }
                assert forall|x: int| covers(out@, x) <==> covers(sorted@.take(k as int + 1), x) by {
                    lemma_cover_push(sorted@.take(k as int), cur, x);
                    if covers(out@, x) {
                        let c = choose|c: int| 0 <= c < out@.len() && (#[trigger] out@[c]).0 <= x < out@[c].1;
                        if c < w {
                            assert(out@[c] == before[c]);
                            assert(covers(before, x));
                        } else if x < last.1 {
                            assert(covers(before, x));
                        }
                    }
                    if covers(before, x) {
                        let c = choose|c: int| 0 <= c < before.len() && (#[trigger] before[c]).0 <= x < before[c].1;
                        if c < w {
                            assert(out@[c] == before[c]);
                        } else {
                            assert(out@[w as int].0 <= x < out@[w as int].1);
                        }
                    }
                    if cur.0 <= x < cur.1 {
                        assert(out@[w as int].0 <= x < out@[w as int].1);
                    }
                }
            }
        } else {
            out.push(cur);
            proof {
                assert forall|a: int, b: int| 0 <= a < b < out@.len() implies (#[trigger] out@[a]).1 < (#[trigger] out@[b]).0 by {
                    if b == out@.len() - 1 && a < b {
                        assert(before.last().1 < cur.0);
                        if a < before.len() - 1 {
                            assert(before[a].1 < before[before.len() - 1].0);
                        }
                    }
                }
                assert forall|x: int| covers(out@, x) <==> covers(sorted@.take(k as int + 1), x) by {
                    lemma_cover_push(sorted@.take(k as int), cur, x);
                    lemma_cover_push(before, cur, x);
                    assert(out@ == before.push(cur));
                }
            }
        }
        k = k + 1;
    }
    proof {
        assert(sorted@.take(sorted@.len() as int) =~= sorted@);
        assert forall|x: int| covers(out@, x) <==> entries_cover(entries@, f, ceiling, x) by {
            assert(covers(sorted@, x) == covers(raw@, x));
        }
    }
    out
}

/// An entry that adds no range leaves the cover as it was.
proof fn lemma_cover_unchanged(es: Seq<MemmapEntry>, i: int, f: EntryFilter, ceiling: u64, raw: Seq<(u64, u64)>)
    requires
        0 <= i < es.len(),
        !kept(f, es[i].type_) || entry_range(es[i], ceiling) is None,
        forall|x: int| covers(raw, x) <==> entries_cover(es.take(i), f, ceiling, x),
    ensures
        forall|x: int| covers(raw, x) <==> entries_cover(es.take(i + 1), f, ceiling, x),
{
    assert forall|x: int| covers(raw, x) <==> entries_cover(es.take(i + 1), f, ceiling, x) by {
        let es1 = es.take(i + 1);
        let es0 = es.take(i);
        if entries_cover(es1, f, ceiling, x) {
            let j = choose|j: int| 0 <= j < es1.len() && #[trigger] entry_covers(es1[j], f, ceiling, x);
            assert(j != i);
            assert(es0[j] == es1[j]);
        }
        if entries_cover(es0, f, ceiling, x) {
            let j = choose|j: int| 0 <= j < es0.len() && #[trigger] entry_covers(es0[j], f, ceiling, x);
            assert(es0[j] == es1[j]);
        }
    }
}

/// Appending a range adds exactly its addresses to the cover.
proof fn lemma_cover_push(rs: Seq<(u64, u64)>, r: (u64, u64), x: int)
    ensures
        covers(rs.push(r), x) <==> (covers(rs, x) || r.0 <= x < r.1),
{
    let rs1 = rs.push(r);
    if covers(rs, x) {
        let c = choose|c: int| 0 <= c < rs.len() && (#[trigger] rs[c]).0 <= x < rs[c].1;
        assert(rs1[c] == rs[c]);
    }
    if r.0 <= x < r.1 {
        assert(rs1[rs.len() as int] == r);
    }
    if covers(rs1, x) {
        let c = choose|c: int| 0 <= c < rs1.len() && (#[trigger] rs1[c]).0 <= x < rs1[c].1;
        if c < rs.len() {
            assert(rs1[c] == rs[c]);
        }
    }
}

/// `rs` sorted by start, by insertion: the same ranges (the same cover),
/// in order.
fn sort_by_start(rs: &Vec<(u64, u64)>) -> (r: Vec<(u64, u64)>)
    requires
        page_ranges(rs@),
    ensures
        page_ranges(r@),
        sorted_by_start(r@),
        forall|x: int| covers(r@, x) <==> covers(rs@, x),
{
    let mut out: Vec<(u64, u64)> = Vec::new();
    let mut i: usize = 0;
    while i < rs.len()
        invariant
            0 <= i <= rs@.len(),
            page_ranges(rs@),
            page_ranges(out@),
            sorted_by_start(out@),
            forall|x: int| covers(out@, x) <==> covers(rs@.take(i as int), x),
        decreases rs@.len() - i,
    {
        let cur = rs[i];
        let mut p: usize = 0;
        while p < out.len() && out[p].0 <= cur.0
            invariant
                0 <= p <= out@.len(),
                forall|q: int| 0 <= q < p ==> (#[trigger] out@[q]).0 <= cur.0,
            decreases out@.len() - p,
        {
            p = p + 1;
        }
        let ghost before = out@;
        proof {
            assert(rs@.take(i as int + 1) =~= rs@.take(i as int).push(cur));
            assert(cur.0 < cur.1 && cur.0 % 4096 == 0 && cur.1 % 4096 == 0);
            if p < before.len() {
                assert forall|q: int| p <= q < before.len() implies (#[trigger] before[q]).0 > cur.0 by {
                    assert(before[p as int].0 <= before[q].0);
                }
            }
        }
        out.insert(p, cur);
        proof {
            assert(out@ == before.insert(p as int, cur));
            assert forall|a: int, b: int| 0 <= a < b < out@.len() implies (#[trigger] out@[a]).0 <= (#[trigger] out@[b]).0 by {
                if b < p {
                } else if b == p {
                } else if a < p {
                    assert(out@[b] == before[b - 1]);
                } else if a == p {
                    assert(out@[b] == before[b - 1]);
                } else {
                    assert(out@[a] == before[a - 1] && out@[b] == before[b - 1]);
                }
            }
            assert forall|q: int| 0 <= q < out@.len() implies (#[trigger] out@[q]).0 < out@[q].1
                && out@[q].0 % 4096 == 0 && out@[q].1 % 4096 == 0 by {
                if q < p {
                    assert(out@[q] == before[q]);
                } else if q > p {
                    assert(out@[q] == before[q - 1]);
                }
            }
            assert forall|x: int| covers(out@, x) <==> covers(rs@.take(i as int + 1), x) by {
                lemma_cover_push(rs@.take(i as int), cur, x);
                if covers(out@, x) {
                    let c = choose|c: int| 0 <= c < out@.len() && (#[trigger] out@[c]).0 <= x < out@[c].1;
                    if c < p {
                        assert(out@[c] == before[c]);
                        assert(covers(before, x));
                    } else if c > p {
                        assert(out@[c] == before[c - 1]);
                        assert(covers(before, x));
                    }
                }
                if covers(before, x) {
                    let c = choose|c: int| 0 <= c < before.len() && (#[trigger] before[c]).0 <= x < before[c].1;
                    if c < p {
                        assert(out@[c] == before[c]);
                    } else {
                        assert(out@[c + 1] == before[c]);
                    }
                }
                if cur.0 <= x < cur.1 {
                    assert(out@[p as int] == cur);
                }
            }
        }
        i = i + 1;
    }
    proof {
        assert(rs@.take(rs@.len() as int) =~= rs@);
    }
    out
}

/// The cover of two sequences of ranges put together.
proof fn lemma_cover_concat(a: Seq<(u64, u64)>, b: Seq<(u64, u64)>, x: int)
    ensures
        covers(a + b, x) <==> (covers(a, x) || covers(b, x)),
{
    let ab = a + b;
    if covers(a, x) {
        let c = choose|c: int| 0 <= c < a.len() && (#[trigger] a[c]).0 <= x < a[c].1;
        assert(ab[c] == a[c]);
    }
    if covers(b, x) {
        let c = choose|c: int| 0 <= c < b.len() && (#[trigger] b[c]).0 <= x < b[c].1;
        assert(ab[a.len() + c] == b[c]);
    }
    if covers(ab, x) {
        let c = choose|c: int| 0 <= c < ab.len() && (#[trigger] ab[c]).0 <= x < ab[c].1;
        if c < a.len() {
            assert(ab[c] == a[c]);
        } else {
            assert(ab[c] == b[c - a.len()]);
        }
    }
}

/// Two spread sequences, the first ending before the second starts, put
/// together are spread.
proof fn lemma_spread_concat(a: Seq<(u64, u64)>, b: Seq<(u64, u64)>)
    requires
        spread(a),
        spread(b),
        proper_ranges(a),
        proper_ranges(b),
        a.len() > 0 && b.len() > 0 ==> a.last().1 < b[0].0,
    ensures
        spread(a + b),
        proper_ranges(a + b),
        page_ranges(a) && page_ranges(b) ==> page_ranges(a + b),
{
    let ab = a + b;
    assert forall|i: int, j: int| 0 <= i < j < ab.len() implies (#[trigger] ab[i]).1 < (#[trigger] ab[j]).0 by {
        if j < a.len() {
            assert(ab[i] == a[i] && ab[j] == a[j]);
        } else if i >= a.len() {
            assert(ab[i] == b[i - a.len()] && ab[j] == b[j - a.len()]);
        } else {
            assert(ab[i] == a[i] && ab[j] == b[j - a.len()]);
            if i < a.len() - 1 {
                assert(a[i].1 < a[a.len() - 1].0);
            }
            if j - a.len() > 0 {
                assert(b[0].1 < b[j - a.len()].0);
            }
        }
    }
    assert forall|i: int| 0 <= i < ab.len() implies (#[trigger] ab[i]).0 < ab[i].1 by {
        if i < a.len() {
            assert(ab[i] == a[i]);
        } else {
            assert(ab[i] == b[i - a.len()]);
        }
    }
    if page_ranges(a) && page_ranges(b) {
        assert forall|i: int| 0 <= i < ab.len() implies (#[trigger] ab[i]).0 < ab[i].1 && ab[i].0 % 4096 == 0 && ab[i].1 % 4096 == 0 by {
            if i < a.len() {
                assert(ab[i] == a[i]);
            } else {
                assert(ab[i] == b[i - a.len()]);
            }
        }
    }
}

/// Every address of `from` that no range of `subtract` covers, as a
/// sorted set of disjoint non-empty ranges (page aligned where both inputs
/// are): each range of `from` is cut around the ranges of `subtract` that
/// overlap it.
pub fn subtract_ranges(from: &Vec<(u64, u64)>, subtract: &Vec<(u64, u64)>) -> (r: Vec<(u64, u64)>)
    requires
        proper_ranges(from@),
        spread(from@),
        proper_ranges(subtract@),
        spread(subtract@),
    ensures
        proper_ranges(r@),
        page_ranges(from@) && page_ranges(subtract@) ==> page_ranges(r@),
        spread(r@),
        forall|x: int| covers(r@, x) <==> (covers(from@, x) && !covers(subtract@, x)),
{
    let mut out: Vec<(u64, u64)> = Vec::new();
    let ghost al = page_ranges(from@) && page_ranges(subtract@);
    let mut i: usize = 0;
    while i < from.len()
        invariant
            0 <= i <= from@.len(),
            proper_ranges(from@),
            spread(from@),
            proper_ranges(subtract@),
            spread(subtract@),
            al == (page_ranges(from@) && page_ranges(subtract@)),
            proper_ranges(out@),
            al ==> page_ranges(out@),
            spread(out@),
            forall|x: int| covers(out@, x) <==> (covers(from@.take(i as int), x) && !covers(subtract@, x)),
            out@.len() > 0 ==> forall|q: int| i <= q < from@.len() ==> out@.last().1 < (#[trigger] from@[q]).0,
        decreases from@.len() - i,
    {
        let (fs, fe) = from[i];
        let ghost out0 = out@;
        let ghost mut pieces: Seq<(u64, u64)> = Seq::empty();
        proof {
            assert(from@[i as int].0 < from@[i as int].1);
            assert(out@ =~= out0 + pieces);
        }
        let mut cursor = fs;
        let mut j: usize = 0;
        while j < subtract.len() && cursor < fe
            invariant
                0 <= i < from@.len(),
                (fs, fe) == from@[i as int],
                fs < fe,
                al ==> fs % 4096 == 0 && fe % 4096 == 0,
                al == (page_ranges(from@) && page_ranges(subtract@)),
                proper_ranges(subtract@),
                spread(subtract@),
                fs <= cursor,
                al ==> cursor % 4096 == 0,
                0 <= j <= subtract@.len(),
                out@ == out0 + pieces,
                proper_ranges(out0),
                al ==> page_ranges(out0),
                spread(out0),
                out0.len() > 0 ==> out0.last().1 < fs,
                proper_ranges(pieces),
                al ==> page_ranges(pieces),
                spread(pieces),
                forall|k: int| 0 <= k < pieces.len() ==> fs <= (#[trigger] pieces[k]).0 && pieces[k].1 <= fe,
                pieces.len() > 0 ==> pieces.last().1 < cursor,
                forall|x: int| fs <= x < cursor && x < fe ==> (covers(pieces, x) <==> !covers(subtract@, x)),
                forall|x: int| cursor <= x < fe ==> !covers(subtract@.take(j as int), x),
            decreases subtract@.len() - j,
        {
            let (bs, be) = subtract[j];
            let ghost old_cursor = cursor;
            let ghost old_pieces = pieces;
            proof {
                assert(subtract@.take(j as int + 1) =~= subtract@.take(j as int).push((bs, be)));
                assert(bs < be);
                assert(al ==> bs % 4096 == 0 && be % 4096 == 0);
                assert forall|jj: int| j < jj < subtract@.len() implies be < (#[trigger] subtract@[jj]).0 by {
                    assert(subtract@[j as int].1 < subtract@[jj].0);
                }
            }
            if be <= cursor || bs >= fe {
                proof {
                    let tj1 = subtract@.take(j as int + 1);
                    assert forall|x: int| cursor <= x < fe implies !#[trigger] covers(tj1, x) by {
                        lemma_cover_push(subtract@.take(j as int), (bs, be), x);
                    }
                }
            } else {
                if bs > cursor {
                    out.push((cursor, bs));
                    proof {
                        pieces = pieces.push((cursor, bs));
                        assert(out@ =~= out0 + pieces);
                        assert forall|a: int, b: int| 0 <= a < b < pieces.len() implies (#[trigger] pieces[a]).1 < (#[trigger] pieces[b]).0 by {
                            if b == pieces.len() - 1 {
                                assert(old_pieces[a].1 <= old_pieces.last().1);
                                if a < old_pieces.len() - 1 {
                                    assert(old_pieces[a].1 < old_pieces[old_pieces.len() - 1].0);
                                }
                            } else {
                                assert(pieces[a] == old_pieces[a] && pieces[b] == old_pieces[b]);
                            }
                        }
                        assert forall|k: int| 0 <= k < pieces.len() implies (#[trigger] pieces[k]).0 < pieces[k].1 by {
                            if k < old_pieces.len() {
                                assert(pieces[k] == old_pieces[k]);
                            }
                        }
                        if al {
                            assert forall|k: int| 0 <= k < pieces.len() implies (#[trigger] pieces[k]).0 < pieces[k].1
                                && pieces[k].0 % 4096 == 0 && pieces[k].1 % 4096 == 0 by {
                                if k < old_pieces.len() {
                                    assert(pieces[k] == old_pieces[k]);
                                }
                            }
                        }
                        assert forall|k: int| 0 <= k < pieces.len() implies fs <= (#[trigger] pieces[k]).0 && pieces[k].1 <= fe by {
                            if k < old_pieces.len() {
                                assert(pieces[k] == old_pieces[k]);
                            }
                        }
                    }
                }
                cursor = if be > cursor { be } else { cursor };
                proof {
                    assert forall|x: int| fs <= x < cursor && x < fe implies (covers(pieces, x) <==> !covers(subtract@, x)) by {
                        lemma_cover_push(old_pieces, (old_cursor, bs), x);
                        if x >= old_cursor {
                            assert(!covers(subtract@.take(j as int), x));
                            if x < bs {
                                // Only the new piece covers it, and no range of `subtract` does.
                                assert(covers(pieces, x));
                                if covers(subtract@, x) {
                                    let c = choose|c: int| 0 <= c < subtract@.len() && (#[trigger] subtract@[c]).0 <= x < subtract@[c].1;
                                    if c < j {
                                        assert(subtract@.take(j as int)[c] == subtract@[c]);
                                        assert(covers(subtract@.take(j as int), x));
                                    } else if c > j {
                                        assert(be < subtract@[c].0);
                                    }
                                }
                            } else {
                                assert(subtract@[j as int].0 <= x < subtract@[j as int].1);
                                assert(covers(subtract@, x));
                                if covers(pieces, x) {
                                    let c = choose|c: int| 0 <= c < pieces.len() && (#[trigger] pieces[c]).0 <= x < pieces[c].1;
                                    if c < old_pieces.len() {
                                        assert(pieces[c] == old_pieces[c]);
                                        assert(old_pieces[c].1 <= old_pieces.last().1);
                                        if c < old_pieces.len() - 1 {
                                            assert(old_pieces[c].1 < old_pieces[old_pieces.len() - 1].0);
                                        }
                                    }
                                }
                            }
                        } else {
                            if covers(pieces, x) && !covers(old_pieces, x) {
                                assert(bs > old_cursor);
                            }
                            if bs > old_cursor {
                                assert(pieces == old_pieces.push((old_cursor, bs)));
                            } else {
                                assert(pieces == old_pieces);
                            }
                        }
                    }
                    let tj1 = subtract@.take(j as int + 1);
                    assert forall|x: int| cursor <= x < fe implies !#[trigger] covers(tj1, x) by {
                        lemma_cover_push(subtract@.take(j as int), (bs, be), x);
                    }
                }
            }
            j = j + 1;
        }
        if cursor < fe {
            let ghost old_pieces = pieces;
            out.push((cursor, fe));
            proof {
                assert(j == subtract@.len());
                assert(subtract@.take(j as int) =~= subtract@);
                pieces = pieces.push((cursor, fe));
                assert(out@ =~= out0 + pieces);
                assert forall|a: int, b: int| 0 <= a < b < pieces.len() implies (#[trigger] pieces[a]).1 < (#[trigger] pieces[b]).0 by {
                    if b == pieces.len() - 1 {
                        assert(old_pieces[a].1 <= old_pieces.last().1);
                        if a < old_pieces.len() - 1 {
                            assert(old_pieces[a].1 < old_pieces[old_pieces.len() - 1].0);
                        }
                    } else {
                        assert(pieces[a] == old_pieces[a] && pieces[b] == old_pieces[b]);
                    }
                }
                assert forall|k: int| 0 <= k < pieces.len() implies (#[trigger] pieces[k]).0 < pieces[k].1 by {
                    if k < old_pieces.len() {
                        assert(pieces[k] == old_pieces[k]);
                    }
                }
                if al {
                    assert forall|k: int| 0 <= k < pieces.len() implies (#[trigger] pieces[k]).0 < pieces[k].1
                        && pieces[k].0 % 4096 == 0 && pieces[k].1 % 4096 == 0 by {
                        if k < old_pieces.len() {
                            assert(pieces[k] == old_pieces[k]);
                        }
                    }
                }
                assert forall|k: int| 0 <= k < pieces.len() implies fs <= (#[trigger] pieces[k]).0 && pieces[k].1 <= fe by {
                    if k < old_pieces.len() {
                        assert(pieces[k] == old_pieces[k]);
                    }
                }
                assert forall|x: int| fs <= x < fe implies (covers(pieces, x) <==> !covers(subtract@, x)) by {
                    lemma_cover_push(old_pieces, (cursor, fe), x);
                    if x >= cursor && covers(old_pieces, x) {
                        let c = choose|c: int| 0 <= c < old_pieces.len() && (#[trigger] old_pieces[c]).0 <= x < old_pieces[c].1;
                        assert(old_pieces[c].1 <= old_pieces.last().1);
                        if c < old_pieces.len() - 1 {
                            assert(old_pieces[c].1 < old_pieces[old_pieces.len() - 1].0);
                        }
                    }
                }
            }
        }
        proof {
            assert(from@.take(i as int + 1) =~= from@.take(i as int).push((fs, fe)));
            lemma_spread_concat(out0, pieces);
            assert forall|x: int| covers(out@, x) <==> (covers(from@.take(i as int + 1), x) && !covers(subtract@, x)) by {
                lemma_cover_concat(out0, pieces, x);
                lemma_cover_push(from@.take(i as int), (fs, fe), x);
                if covers(pieces, x) {
                    let c = choose|c: int| 0 <= c < pieces.len() && (#[trigger] pieces[c]).0 <= x < pieces[c].1;
                    assert(fs <= x < fe);
                }
                if fs <= x < fe && covers(from@.take(i as int), x) {
                    let c = choose|c: int| 0 <= c < from@.take(i as int).len() && (#[trigger] from@.take(i as int)[c]).0 <= x < from@.take(i as int)[c].1;
                    assert(from@[c].1 < from@[i as int].0);
                }
                if fs <= x < fe && covers(out0, x) {
                    let c = choose|c: int| 0 <= c < out0.len() && (#[trigger] out0[c]).0 <= x < out0[c].1;
                    assert(out0[c].1 <= out0.last().1);
                    if c < out0.len() - 1 {
                        assert(out0[c].1 < out0[out0.len() - 1].0);
                    }
                }
            }
            if out@.len() > 0 {
                assert forall|q: int| i + 1 <= q < from@.len() implies out@.last().1 < (#[trigger] from@[q]).0 by {
                    assert(from@[i as int].1 < from@[q].0);
                    if pieces.len() > 0 {
                        assert(out@.last() == pieces.last());
                    } else {
                        assert(out@.last() == out0.last());
                    }
                }
            }
        }
        i = i + 1;
    }
    proof {
        assert(from@.take(from@.len() as int) =~= from@);
    }
    out
}

/// Below this, every physical address the memory map leaves out is mapped
/// too.
pub const LOW_CEILING: u64 = 0x1_0000_0000;

/// The physical addresses the direct map maps: those of every entry but
/// bad memory, minus every page bad memory touches, and every address
/// below `LOW_CEILING` that no entry (of any type) mentions.
pub open spec fn hhdm_covers(es: Seq<MemmapEntry>, x: int) -> bool {
    ||| entries_cover(es, EntryFilter::Mappable, u64::MAX, x) && !entries_cover(es, EntryFilter::Bad, u64::MAX, x)
    ||| 0 <= x < LOW_CEILING && !entries_cover(es, EntryFilter::Any, LOW_CEILING, x)
}

/// The physical ranges the direct map is built from (see `hhdm_covers`):
/// the mappable entries with bad memory cut out, then the gaps below
/// `LOW_CEILING`, every range non-empty and page aligned.
pub fn hhdm_ranges(entries: &[MemmapEntry]) -> (r: Vec<(u64, u64)>)
    requires
        entries_fit(entries@),
    ensures
        page_ranges(r@),
        forall|x: int| covers(r@, x) <==> hhdm_covers(entries@, x),
{
    let mappable = merge_ranges(entries, EntryFilter::Mappable, u64::MAX);
    let bad = merge_ranges(entries, EntryFilter::Bad, u64::MAX);
    let mut out = subtract_ranges(&mappable, &bad);
    let ghost good = out@;
    let known = merge_ranges(entries, EntryFilter::Any, LOW_CEILING);
    proof {
        assert forall|k: int| 0 <= k < known@.len() implies (#[trigger] known@[k]).1 <= LOW_CEILING by {
            let x = known@[k].1 - 1;
            assert(covers(known@, x));
            let j = choose|j: int| 0 <= j < entries@.len() && #[trigger] entry_covers(entries@[j], EntryFilter::Any, LOW_CEILING, x);
            assert(known@[k].1 % 4096 == 0);
        }
    }
    let ghost mut gaps: Seq<(u64, u64)> = Seq::empty();
    let mut next_free: u64 = 0;
    let mut k: usize = 0;
    while k < known.len()
        invariant
            0 <= k <= known@.len(),
            page_ranges(known@),
            spread(known@),
            forall|q: int| 0 <= q < known@.len() ==> (#[trigger] known@[q]).1 <= LOW_CEILING,
            next_free % 4096 == 0,
            next_free <= LOW_CEILING,
            k > 0 ==> next_free == known@[k - 1].1,
            k == 0 ==> next_free == 0,
            out@ == good + gaps,
            page_ranges(good),
            page_ranges(gaps),
            forall|x: int| covers(gaps, x) <==> (0 <= x < next_free && !covers(known@.take(k as int), x)),
        decreases known@.len() - k,
    {
        let (ks, ke) = known[k];
        let ghost old_gaps = gaps;
        proof {
            assert(known@.take(k as int + 1) =~= known@.take(k as int).push((ks, ke)));
            assert(ks < ke && ks % 4096 == 0 && ke % 4096 == 0);
            if k > 0 {
                assert(known@[k - 1].1 < known@[k as int].0);
            }
        }
        if next_free < ks {
            out.push((next_free, ks));
            proof {
                gaps = gaps.push((next_free, ks));
                assert(out@ =~= good + gaps);
            }
        }
        proof {
            assert forall|x: int| covers(gaps, x) <==> (0 <= x < ke && !covers(known@.take(k as int + 1), x)) by {
                lemma_cover_push(known@.take(k as int), (ks, ke), x);
                if next_free < ks {
                    lemma_cover_push(old_gaps, (next_free, ks), x);
                }
                if next_free <= x && covers(known@.take(k as int), x) {
                    let c = choose|c: int| 0 <= c < known@.take(k as int).len() && (#[trigger] known@.take(k as int)[c]).0 <= x < known@.take(k as int)[c].1;
                    assert(known@[c].1 <= known@[k - 1].1);
                    if c < k - 1 {
                        assert(known@[c].1 < known@[k - 1].0);
                    }
                }
            }
        }
        next_free = ke;
        k = k + 1;
    }
    proof {
        assert(known@.take(known@.len() as int) =~= known@);
    }
    if next_free < LOW_CEILING {
        let ghost old_gaps = gaps;
        out.push((next_free, LOW_CEILING));
        proof {
            gaps = gaps.push((next_free, LOW_CEILING));
            assert(out@ =~= good + gaps);
            assert forall|x: int| covers(gaps, x) <==> (0 <= x < LOW_CEILING && !covers(known@, x)) by {
                lemma_cover_push(old_gaps, (next_free, LOW_CEILING), x);
                if next_free <= x && covers(known@, x) {
                    let c = choose|c: int| 0 <= c < known@.len() && (#[trigger] known@[c]).0 <= x < known@[c].1;
                    assert(known@[c].1 <= known@[known@.len() - 1].1);
                    if c < known@.len() - 1 {
                        assert(known@[c].1 < known@[known@.len() - 1].0);
                    }
                }
            }
        }
    }
    proof {
        lemma_page_ranges_concat(good, gaps);
        assert forall|x: int| covers(out@, x) <==> hhdm_covers(entries@, x) by {
            lemma_cover_concat(good, gaps, x);
        }
    }
    out
}

/// Two sequences of page ranges put together are page ranges.
proof fn lemma_page_ranges_concat(a: Seq<(u64, u64)>, b: Seq<(u64, u64)>)
    requires
        page_ranges(a),
        page_ranges(b),
    ensures
        page_ranges(a + b),
{
    let ab = a + b;
    assert forall|i: int| 0 <= i < ab.len() implies (#[trigger] ab[i]).0 < ab[i].1 && ab[i].0 % 4096 == 0 && ab[i].1 % 4096 == 0 by {
        if i < a.len() {
            assert(ab[i] == a[i]);
        } else {
            assert(ab[i] == b[i - a.len()]);
        }
    }
}

} // verus!
