//! The shape every address space's page tables keep: each table has a
//! fixed paging level, every present non-leaf entry points at an existing
//! table one level down, and within one address space no two entries
//! point at the same table. Under that shape, mapping one page leaves the
//! translation of every other page as it was.
use vstd::prelude::*;
use super::{child, t1, t2, t3, pd_entry, walk, on_path, only_path_changed, path_ok};
use crate::mm::paging::{entry_present, entry_huge, entry_addr, va_index};

verus! {

/// Whether raw entry `e` of a table at level `l` points at a table one
/// level down: a present PML4 or PDPT entry, or a present non-huge PD
/// entry.
pub open spec fn is_link(l: nat, e: u64) -> bool {
    entry_present(e) && (l < 2 || (l == 2 && !entry_huge(e)))
}

/// Every table has a level in `lv`, at most 3, and every link points at
/// an existing table exactly one level down.
pub open spec fn layered(m: Map<u64, Seq<u64>>, lv: Map<u64, nat>) -> bool {
    &&& lv.dom() == m.dom()
    &&& forall|t: u64| #[trigger] m.contains_key(t) ==> lv[t] <= 3 && m[t].len() == 512
    &&& forall|t: u64, i: int| #![trigger m[t][i]]
        m.contains_key(t) && 0 <= i < 512 && is_link(lv[t], m[t][i])
        ==> m.contains_key(entry_addr(m[t][i])) && lv[entry_addr(m[t][i])] == lv[t] + 1
}

/// The tables whose entries belong to the address space rooted at `root`
/// as seen from the top: its own PML4 and every PDPT and PD.
pub open spec fn in_space(lv: Map<u64, nat>, root: u64, t: u64) -> bool {
    t == root || lv[t] == 1 || lv[t] == 2
}

/// No two links of `root`'s address space point at the same table.
pub open spec fn links_distinct(m: Map<u64, Seq<u64>>, lv: Map<u64, nat>, root: u64) -> bool {
    forall|ta: u64, ia: int, tb: u64, ib: int| #![trigger m[ta][ia], m[tb][ib]]
        m.contains_key(ta) && m.contains_key(tb) && 0 <= ia < 512 && 0 <= ib < 512
        && in_space(lv, root, ta) && in_space(lv, root, tb)
        && is_link(lv[ta], m[ta][ia]) && is_link(lv[tb], m[tb][ib]) && (ta != tb || ia != ib)
        ==> entry_addr(m[ta][ia]) != entry_addr(m[tb][ib])
}

/// The page tables of the address space rooted at `root` form a tree.
pub open spec fn tree_ok(m: Map<u64, Seq<u64>>, lv: Map<u64, nat>, root: u64) -> bool {
    &&& layered(m, lv)
    &&& m.contains_key(root)
    &&& lv[root] == 0
    &&& links_distinct(m, lv, root)
}

/// Every entry that was changed was not present before.
pub open spec fn changed_only_absent(m: Map<u64, Seq<u64>>, m2: Map<u64, Seq<u64>>) -> bool {
    forall|t: u64, i: int| #![trigger m2[t][i]]
        m.contains_key(t) && 0 <= i < 512 && m2[t][i] != m[t][i] ==> !entry_present(m[t][i])
}

/// Every link that is new (in a new table, or in a changed entry) points
/// at a new table.
pub open spec fn new_links_fresh(m: Map<u64, Seq<u64>>, m2: Map<u64, Seq<u64>>, lv2: Map<u64, nat>) -> bool {
    forall|t: u64, i: int| #![trigger m2[t][i]]
        m2.contains_key(t) && 0 <= i < 512 && is_link(lv2[t], m2[t][i])
        && (!m.contains_key(t) || m2[t][i] != m[t][i])
        ==> !m.contains_key(entry_addr(m2[t][i]))
}

/// `m2` keeps every table of `m`, at the same level.
pub open spec fn grows(m: Map<u64, Seq<u64>>, lv: Map<u64, nat>, m2: Map<u64, Seq<u64>>, lv2: Map<u64, nat>) -> bool {
    &&& forall|t: u64| #[trigger] m.contains_key(t) ==> m2.contains_key(t)
    &&& forall|t: u64| #[trigger] m.contains_key(t) ==> lv2[t] == lv[t]
}

/// `v` lies in a different 4 KiB page than `w` (as far as the walk sees).
pub open spec fn other_page(v: u64, w: u64) -> bool {
    va_index(v, 0) != va_index(w, 0) || va_index(v, 1) != va_index(w, 1)
    || va_index(v, 2) != va_index(w, 2) || va_index(v, 3) != va_index(w, 3)
}

/// `v` lies in a different 2 MiB block than `w` (as far as the walk sees).
pub open spec fn other_block(v: u64, w: u64) -> bool {
    va_index(v, 0) != va_index(w, 0) || va_index(v, 1) != va_index(w, 1) || va_index(v, 2) != va_index(w, 2)
}

/// Nothing maps `v`'s 4 KiB page, and `map_4k` could map it: no 2 MiB
/// entry covers it and its PT entry (if its PT exists) is not present.
pub open spec fn unmapped_4k(m: Map<u64, Seq<u64>>, root: u64, v: u64) -> bool {
    &&& pd_entry(m, root, v) matches Some(e) ==> !entry_huge(e)
    &&& t3(m, root, v) matches Some(c) ==> !entry_present(m[c][va_index(v, 3)])
}

/// Nothing maps `v`'s 2 MiB block through its PD entry: `map_2m` could
/// map it.
pub open spec fn unmapped_2m(m: Map<u64, Seq<u64>>, root: u64, v: u64) -> bool {
    pd_entry(m, root, v) matches Some(e) ==> !entry_present(e)
}

/// The levels of the tables along a walk.
pub proof fn lemma_walk_levels(m: Map<u64, Seq<u64>>, lv: Map<u64, nat>, root: u64, v: u64)
    requires
        layered(m, lv),
        m.contains_key(root),
        lv[root] == 0,
    ensures
        t1(m, root, v) matches Some(a) ==> m.contains_key(a) && lv[a] == 1 && is_link(0, m[root][va_index(v, 0)]),
        t2(m, root, v) matches Some(b) ==> m.contains_key(b) && lv[b] == 2
            && is_link(1, m[t1(m, root, v).unwrap()][va_index(v, 1)]),
        t3(m, root, v) matches Some(c) ==> m.contains_key(c) && lv[c] == 3
            && is_link(2, m[t2(m, root, v).unwrap()][va_index(v, 2)]),
        entry_present(m[root][va_index(v, 0)]) ==> t1(m, root, v).is_some(),
        t1(m, root, v) matches Some(a) ==> (entry_present(m[a][va_index(v, 1)]) ==> t2(m, root, v).is_some()),
        t2(m, root, v) matches Some(b) ==> (is_link(2, m[b][va_index(v, 2)]) ==> t3(m, root, v).is_some()),
{
    let i0 = va_index(v, 0);
    let i1 = va_index(v, 1);
    let i2 = va_index(v, 2);
    assert(0 <= i0 < 512 && 0 <= i1 < 512 && 0 <= i2 < 512);
    if entry_present(m[root][i0]) {
        assert(is_link(lv[root], m[root][i0]));
    }
    if let Some(a) = t1(m, root, v) {
        assert(is_link(lv[root], m[root][i0]));
        if entry_present(m[a][i1]) {
            assert(is_link(lv[a], m[a][i1]));
        }
        if let Some(b) = t2(m, root, v) {
            assert(is_link(lv[a], m[a][i1]));
            if is_link(2, m[b][i2]) {
                assert(is_link(lv[b], m[b][i2]));
            }
            if let Some(c) = t3(m, root, v) {
                assert(is_link(lv[b], m[b][i2]));
            }
        }
    }
}

/// A layered address space's walks are sound.
pub proof fn lemma_tree_path_ok(m: Map<u64, Seq<u64>>, lv: Map<u64, nat>, root: u64, v: u64)
    requires
        layered(m, lv),
        m.contains_key(root),
        lv[root] == 0,
    ensures
        path_ok(m, root, v),
{
    lemma_walk_levels(m, lv, root, v);
}

/// The walk of `v` reads the same entry, at every level, in `m2` as in
/// `m`: the facts that let `lemma_frame` go one level down.
pub open spec fn same_slot(m: Map<u64, Seq<u64>>, m2: Map<u64, Seq<u64>>, t: u64, i: int) -> bool {
    m.contains_key(t) && m2.contains_key(t) && m2[t][i] == m[t][i]
}

/// Following an unchanged entry of an old table gives the same child in
/// both maps, provided the entry is a link or not present.
proof fn lemma_same_child(m: Map<u64, Seq<u64>>, lv: Map<u64, nat>, m2: Map<u64, Seq<u64>>, lv2: Map<u64, nat>, t: u64, i: int)
    requires
        layered(m, lv),
        grows(m, lv, m2, lv2),
        0 <= i < 512,
        same_slot(m, m2, t, i),
        is_link(lv[t], m[t][i]) || !entry_present(m[t][i]),
    ensures
        child(m2, m2[t][i]) == child(m, m[t][i]),
        child(m, m[t][i]) matches Some(c) ==> m.contains_key(c),
{
}

/// Two successive changes compose: tables kept, changed entries were
/// absent at the start, new links point at tables new since the start.
pub proof fn lemma_chain(
    a: Map<u64, Seq<u64>>, lva: Map<u64, nat>, b: Map<u64, Seq<u64>>, lvb: Map<u64, nat>,
    c: Map<u64, Seq<u64>>, lvc: Map<u64, nat>,
)
    requires
        grows(a, lva, b, lvb),
        grows(b, lvb, c, lvc),
        changed_only_absent(a, b),
        changed_only_absent(b, c),
        new_links_fresh(a, b, lvb),
        new_links_fresh(b, c, lvc),
    ensures
        grows(a, lva, c, lvc),
        changed_only_absent(a, c),
        new_links_fresh(a, c, lvc),
{
    assert forall|t: u64, i: int| #![trigger c[t][i]]
        a.contains_key(t) && 0 <= i < 512 && c[t][i] != a[t][i] implies !entry_present(a[t][i]) by {
        if b[t][i] != a[t][i] {
        } else {
            assert(c[t][i] != b[t][i]);
        }
    }
    assert forall|t: u64, i: int| #![trigger c[t][i]]
        c.contains_key(t) && 0 <= i < 512 && is_link(lvc[t], c[t][i])
        && (!a.contains_key(t) || c[t][i] != a[t][i])
        implies !a.contains_key(entry_addr(c[t][i])) by {
        if b.contains_key(t) && c[t][i] == b[t][i] {
            assert(lvc[t] == lvb[t]);
            assert(is_link(lvb[t], b[t][i]));
        } else {
            assert(!b.contains_key(entry_addr(c[t][i])));
        }
    }
}

/// Writing a non-link value over an absent entry keeps the shape.
pub proof fn lemma_leaf_write(m: Map<u64, Seq<u64>>, lv: Map<u64, nat>, m2: Map<u64, Seq<u64>>, t: u64, i: int, val: u64)
    requires
        layered(m, lv),
        m.contains_key(t),
        0 <= i < 512,
        !entry_present(m[t][i]),
        !is_link(lv[t], val),
        m2 == m.insert(t, m[t].update(i, val)),
    ensures
        layered(m2, lv),
        grows(m, lv, m2, lv),
        changed_only_absent(m, m2),
        new_links_fresh(m, m2, lv),
        forall|root: u64| links_distinct(m, lv, root) ==> #[trigger] links_distinct(m2, lv, root),
{
    assert(lv.dom() =~= m2.dom());
    assert forall|t2: u64, i2: int| #![trigger m2[t2][i2]]
        m2.contains_key(t2) && 0 <= i2 < 512 && is_link(lv[t2], m2[t2][i2])
        implies m2.contains_key(entry_addr(m2[t2][i2])) && lv[entry_addr(m2[t2][i2])] == lv[t2] + 1 by {
        assert(m2[t2][i2] == m[t2][i2]);
    }
    assert forall|root: u64| links_distinct(m, lv, root) implies #[trigger] links_distinct(m2, lv, root) by {
        assert forall|ta: u64, ia: int, tb: u64, ib: int| #![trigger m2[ta][ia], m2[tb][ib]]
            m2.contains_key(ta) && m2.contains_key(tb) && 0 <= ia < 512 && 0 <= ib < 512
            && in_space(lv, root, ta) && in_space(lv, root, tb)
            && is_link(lv[ta], m2[ta][ia]) && is_link(lv[tb], m2[tb][ib]) && (ta != tb || ia != ib)
            implies entry_addr(m2[ta][ia]) != entry_addr(m2[tb][ib]) by {
            assert(m2[ta][ia] == m[ta][ia]);
            assert(m2[tb][ib] == m[tb][ib]);
        }
    }
    assert forall|t2: u64, i2: int| #![trigger m2[t2][i2]]
        m2.contains_key(t2) && 0 <= i2 < 512 && is_link(lv[t2], m2[t2][i2])
        && (!m.contains_key(t2) || m2[t2][i2] != m[t2][i2])
        implies !m.contains_key(entry_addr(m2[t2][i2])) by {
        assert(m2[t2][i2] == m[t2][i2]);
    }
}

/// The facts every frame lemma below starts from: `m2` is `m` after
/// mapping the page (or block) of `w` in `root`'s address space.
#[verifier::opaque]
pub open spec fn mapped_one(
    m: Map<u64, Seq<u64>>, lv: Map<u64, nat>, m2: Map<u64, Seq<u64>>, lv2: Map<u64, nat>, root: u64, w: u64,
) -> bool {
    &&& layered(m, lv)
    &&& m.contains_key(root)
    &&& lv[root] == 0
    &&& tree_ok(m2, lv2, root)
    &&& grows(m, lv, m2, lv2)
    &&& only_path_changed(m, m2, root, w)
    &&& changed_only_absent(m, m2)
    &&& new_links_fresh(m, m2, lv2)
}

/// What mapping one page keeps: the tree shape, and every old table.
pub proof fn lemma_mapped_one_facts(
    m: Map<u64, Seq<u64>>, lv: Map<u64, nat>, m2: Map<u64, Seq<u64>>, lv2: Map<u64, nat>, root: u64, w: u64,
)
    requires
        mapped_one(m, lv, m2, lv2, root, w),
    ensures
        tree_ok(m2, lv2, root),
        grows(m, lv, m2, lv2),
{
    reveal(mapped_one);
}

/// What `lemma_frame` concludes for `v`.
pub open spec fn frame_holds(m: Map<u64, Seq<u64>>, m2: Map<u64, Seq<u64>>, root: u64, w: u64, v: u64) -> bool {
    &&& walk(m2, root, v) == walk(m, root, v)
    &&& unmapped_4k(m, root, v) ==> unmapped_4k(m2, root, v)
    &&& other_block(v, w) && unmapped_2m(m, root, v) ==> unmapped_2m(m2, root, v)
}

/// `v`'s walk reaches, at PD level, an old table off `w`'s path: from
/// there on nothing changed.
proof fn lemma_tail_pd(
    m: Map<u64, Seq<u64>>, lv: Map<u64, nat>, m2: Map<u64, Seq<u64>>, lv2: Map<u64, nat>,
    root: u64, w: u64, v: u64, y: u64,
)
    requires
        mapped_one(m, lv, m2, lv2, root, w),
        m.contains_key(y),
        lv[y] == 2,
        t2(m, root, v) == Some(y),
        t2(m2, root, v) == Some(y),
        t2(m2, root, w) != Some(y),
    ensures
        frame_holds(m, m2, root, w, v),
{
    reveal(walk);
    reveal(mapped_one);
    lemma_walk_levels(m, lv, root, v);
    lemma_walk_levels(m2, lv2, root, w);
    let i2 = va_index(v, 2);
    let i3 = va_index(v, 3);
    assert(0 <= i2 < 512 && 0 <= i3 < 512);
    assert(!on_path(m2, root, w, y, i2));
    assert(m2[y][i2] == m[y][i2]);
    assert(pd_entry(m2, root, v) == pd_entry(m, root, v));
    let e = m[y][i2];
    if is_link(2, e) {
        let z = entry_addr(e);
        assert(m.contains_key(z) && lv[z] == 3);
        assert(t3(m, root, v) == Some(z));
        assert(t3(m2, root, v) == Some(z));
        if t3(m2, root, w) == Some(z) {
            let wb = t2(m2, root, w).unwrap();
            let j2 = va_index(w, 2);
            assert(is_link(lv2[wb], m2[wb][j2]));
            assert(is_link(lv2[y], m2[y][i2]));
            assert(false);
        }
        assert(!on_path(m2, root, w, z, i3));
        assert(m2[z][i3] == m[z][i3]);
    } else {
        assert(t3(m, root, v).is_none());
        assert(t3(m2, root, v).is_none());
    }
}

/// `v`'s walk reaches, at PDPT level, an old table off `w`'s path.
proof fn lemma_tail_pdpt(
    m: Map<u64, Seq<u64>>, lv: Map<u64, nat>, m2: Map<u64, Seq<u64>>, lv2: Map<u64, nat>,
    root: u64, w: u64, v: u64, x: u64,
)
    requires
        mapped_one(m, lv, m2, lv2, root, w),
        m.contains_key(x),
        lv[x] == 1,
        t1(m, root, v) == Some(x),
        t1(m2, root, v) == Some(x),
        t1(m2, root, w) != Some(x),
    ensures
        frame_holds(m, m2, root, w, v),
{
    reveal(walk);
    reveal(mapped_one);
    lemma_walk_levels(m, lv, root, v);
    lemma_walk_levels(m2, lv2, root, w);
    let i1 = va_index(v, 1);
    assert(0 <= i1 < 512);
    assert(!on_path(m2, root, w, x, i1));
    assert(m2[x][i1] == m[x][i1]);
    let e = m[x][i1];
    lemma_same_child(m, lv, m2, lv2, x, i1);
    assert(t2(m2, root, v) == t2(m, root, v));
    if let Some(y) = t2(m, root, v) {
        if t2(m2, root, w) == Some(y) {
            let wa = t1(m2, root, w).unwrap();
            let j1 = va_index(w, 1);
            assert(is_link(lv2[wa], m2[wa][j1]));
            assert(is_link(lv2[x], m2[x][i1]));
            assert(false);
        }
        lemma_tail_pd(m, lv, m2, lv2, root, w, v, y);
    }
}

/// `v`'s walk reaches, at PD level, a table created for `w`'s walk.
proof fn lemma_fresh_pd(
    m: Map<u64, Seq<u64>>, lv: Map<u64, nat>, m2: Map<u64, Seq<u64>>, lv2: Map<u64, nat>,
    root: u64, w: u64, v: u64, b: u64,
)
    requires
        mapped_one(m, lv, m2, lv2, root, w),
        other_page(v, w),
        !other_block(v, w) ==> (pd_entry(m2, root, w) matches Some(e) && is_link(2, e)),
        !m.contains_key(b),
        t2(m2, root, v) == Some(b),
        t2(m2, root, w) == Some(b),
        walk(m, root, v).is_none(),
    ensures
        frame_holds(m, m2, root, w, v),
{
    reveal(walk);
    reveal(mapped_one);
    lemma_walk_levels(m2, lv2, root, v);
    lemma_walk_levels(m2, lv2, root, w);
    let i2 = va_index(v, 2);
    let i3 = va_index(v, 3);
    let j2 = va_index(w, 2);
    let j3 = va_index(w, 3);
    assert(0 <= i2 < 512 && 0 <= i3 < 512);
    crate::mm::paging::lemma_zero_entry();
    if i2 != j2 {
        assert(!on_path(m2, root, w, b, i2));
        assert(m2[b][i2] == 0);
    } else {
        let e = m2[b][j2];
        assert(is_link(2, e));
        let c = entry_addr(e);
        assert(m2[b][j2] != m[b][j2] || !m.contains_key(b));
        assert(!m.contains_key(c));
        assert(t3(m2, root, v) == Some(c));
        assert(i3 != j3);
        assert(!on_path(m2, root, w, c, i3));
        assert(m2[c][i3] == 0);
    }
}

/// `v`'s walk reaches, at PDPT level, a table created for `w`'s walk.
proof fn lemma_fresh_pdpt(
    m: Map<u64, Seq<u64>>, lv: Map<u64, nat>, m2: Map<u64, Seq<u64>>, lv2: Map<u64, nat>,
    root: u64, w: u64, v: u64, a: u64,
)
    requires
        mapped_one(m, lv, m2, lv2, root, w),
        other_page(v, w),
        !other_block(v, w) ==> (pd_entry(m2, root, w) matches Some(e) && is_link(2, e)),
        !m.contains_key(a),
        t1(m2, root, v) == Some(a),
        t1(m2, root, w) == Some(a),
        walk(m, root, v).is_none(),
        pd_entry(m, root, v).is_none(),
    ensures
        frame_holds(m, m2, root, w, v),
{
    reveal(walk);
    reveal(mapped_one);
    lemma_walk_levels(m2, lv2, root, v);
    lemma_walk_levels(m2, lv2, root, w);
    let i1 = va_index(v, 1);
    let j1 = va_index(w, 1);
    assert(0 <= i1 < 512);
    crate::mm::paging::lemma_zero_entry();
    if i1 != j1 {
        assert(!on_path(m2, root, w, a, i1));
        assert(m2[a][i1] == 0);
    } else if let Some(b) = t2(m2, root, v) {
        assert(is_link(1, m2[a][j1]));
        assert(!m.contains_key(b));
        lemma_fresh_pd(m, lv, m2, lv2, root, w, v, b);
    }
}

/// Mapping one page or block (the changes `map_4k`/`map_2m` make for `w`)
/// leaves the walk of every address in another page as it was, and
/// whatever could be mapped there still can be. When `w`'s PD entry is a
/// 2 MiB leaf, "another page" means another 2 MiB block.
pub proof fn lemma_frame(
    m: Map<u64, Seq<u64>>, lv: Map<u64, nat>, m2: Map<u64, Seq<u64>>, lv2: Map<u64, nat>,
    root: u64, w: u64, v: u64,
)
    requires
        mapped_one(m, lv, m2, lv2, root, w),
        other_page(v, w),
        !other_block(v, w) ==> (pd_entry(m2, root, w) matches Some(e) && is_link(2, e)),
    ensures
        frame_holds(m, m2, root, w, v),
{
    reveal(walk);
    reveal(mapped_one);
    lemma_walk_levels(m, lv, root, v);
    lemma_walk_levels(m2, lv2, root, v);
    lemma_walk_levels(m2, lv2, root, w);
    let i0 = va_index(v, 0);
    let i1 = va_index(v, 1);
    let i2 = va_index(v, 2);
    let i3 = va_index(v, 3);
    let j0 = va_index(w, 0);
    let j1 = va_index(w, 1);
    let j2 = va_index(w, 2);
    let j3 = va_index(w, 3);
    assert(0 <= i0 < 512 && 0 <= i1 < 512 && 0 <= i2 < 512 && 0 <= i3 < 512);
    assert(0 <= j0 < 512 && 0 <= j1 < 512 && 0 <= j2 < 512 && 0 <= j3 < 512);
    if i0 != j0 || m2[root][i0] == m[root][i0] {
        if i0 != j0 {
            assert(!on_path(m2, root, w, root, i0));
        }
        assert(m2[root][i0] == m[root][i0]);
        lemma_same_child(m, lv, m2, lv2, root, i0);
        if let Some(x) = t1(m, root, v) {
            if i0 != j0 && t1(m2, root, w) == Some(x) {
                assert(is_link(lv2[root], m2[root][j0]));
                assert(is_link(lv2[root], m2[root][i0]));
                assert(false);
            }
            if i0 != j0 || i1 != j1 {
                if t1(m2, root, w) == Some(x) {
                    // Same PDPT as w, another slot in it.
                    assert(!on_path(m2, root, w, x, i1));
                    assert(m2[x][i1] == m[x][i1]);
                    lemma_same_child(m, lv, m2, lv2, x, i1);
                    if let Some(y) = t2(m, root, v) {
                        if t2(m2, root, w) == Some(y) {
                            assert(is_link(lv2[x], m2[x][j1]));
                            assert(is_link(lv2[x], m2[x][i1]));
                            assert(false);
                        }
                        lemma_tail_pd(m, lv, m2, lv2, root, w, v, y);
                    }
                } else {
                    lemma_tail_pdpt(m, lv, m2, lv2, root, w, v, x);
                }
            } else if m2[x][i1] != m[x][i1] {
                assert(!entry_present(m[x][i1]));
                if let Some(b) = t2(m2, root, v) {
                    assert(is_link(1, m2[x][i1]));
                    lemma_fresh_pd(m, lv, m2, lv2, root, w, v, b);
                }
            } else {
                lemma_same_child(m, lv, m2, lv2, x, i1);
                if let Some(y) = t2(m, root, v) {
                    if i2 != j2 {
                        assert(!on_path(m2, root, w, y, i2));
                        assert(m2[y][i2] == m[y][i2]);
                        let e = m[y][i2];
                        if is_link(2, e) {
                            let z = entry_addr(e);
                            if t3(m2, root, w) == Some(z) {
                                assert(is_link(lv2[y], m2[y][j2]));
                                assert(is_link(lv2[y], m2[y][i2]));
                                assert(false);
                            }
                            assert(!on_path(m2, root, w, z, i3));
                            assert(m2[z][i3] == m[z][i3]);
                        }
                    } else if m2[y][i2] != m[y][i2] {
                        assert(!entry_present(m[y][i2]));
                        crate::mm::paging::lemma_zero_entry();
                        let e = m2[y][j2];
                        assert(is_link(2, e));
                        let c = entry_addr(e);
                        assert(!m.contains_key(c));
                        assert(!on_path(m2, root, w, c, i3));
                        assert(m2[c][i3] == 0);
                    } else {
                        let e = m[y][i2];
                        if is_link(2, e) {
                            let z = entry_addr(e);
                            assert(t3(m2, root, v) == Some(z));
                            assert(!on_path(m2, root, w, z, i3));
                            assert(m2[z][i3] == m[z][i3]);
                        }
                    }
                }
            }
        }
    } else {
        assert(!entry_present(m[root][i0]));
        if let Some(a) = t1(m2, root, v) {
            assert(is_link(0, m2[root][i0]));
            assert(!m.contains_key(a));
            lemma_fresh_pdpt(m, lv, m2, lv2, root, w, v, a);
        }
    }
}

/// Clearing the PT entry of `w`'s page removes that page's translation,
/// keeps every other page's, and keeps the shape.
pub proof fn lemma_clear_leaf(m: Map<u64, Seq<u64>>, lv: Map<u64, nat>, root: u64, w: u64, m2: Map<u64, Seq<u64>>)
    requires
        tree_ok(m, lv, root),
        t3(m, root, w) is Some,
        m2 == m.insert(t3(m, root, w).unwrap(), m[t3(m, root, w).unwrap()].update(va_index(w, 3), 0u64)),
    ensures
        tree_ok(m2, lv, root),
        m2.dom() == m.dom(),
        walk(m2, root, w) is None,
        forall|v: u64| other_page(v, w) ==> #[trigger] walk(m2, root, v) == walk(m, root, v),
{
    reveal(walk);
    crate::mm::paging::lemma_zero_entry();
    let tt = t3(m, root, w).unwrap();
    let iw = va_index(w, 3);
    lemma_walk_levels(m, lv, root, w);
    assert(lv[tt] == 3);
    assert(0 <= iw < 512);
    assert(m2.dom() =~= m.dom());
    // Only the slot (tt, iw) changed, to a value that is no link.
    assert forall|t: u64, i: int| #![trigger m2[t][i]] m.contains_key(t) && 0 <= i < 512 && !(t == tt && i == iw)
        implies m2[t][i] == m[t][i] by {
    }
    assert forall|t: u64, i: int| #![trigger m2[t][i]]
        m2.contains_key(t) && 0 <= i < 512 && is_link(lv[t], m2[t][i])
        implies m2.contains_key(entry_addr(m2[t][i])) && lv[entry_addr(m2[t][i])] == lv[t] + 1 by {
        if t == tt && i == iw {
            assert(m2[t][i] == 0u64);
        } else {
            assert(m2[t][i] == m[t][i]);
        }
    }
    assert forall|t: u64| #[trigger] m2.contains_key(t) implies lv[t] <= 3 && m2[t].len() == 512 by {
    }
    assert(layered(m2, lv));
    assert forall|ta: u64, ia: int, tb: u64, ib: int| #![trigger m2[ta][ia], m2[tb][ib]]
        m2.contains_key(ta) && m2.contains_key(tb) && 0 <= ia < 512 && 0 <= ib < 512
        && in_space(lv, root, ta) && in_space(lv, root, tb)
        && is_link(lv[ta], m2[ta][ia]) && is_link(lv[tb], m2[tb][ib]) && (ta != tb || ia != ib)
        implies entry_addr(m2[ta][ia]) != entry_addr(m2[tb][ib]) by {
        if ta == tt && ia == iw {
            assert(m2[ta][ia] == 0u64);
        } else if tb == tt && ib == iw {
            assert(m2[tb][ib] == 0u64);
        } else {
            assert(m2[ta][ia] == m[ta][ia]);
            assert(m2[tb][ib] == m[tb][ib]);
        }
    }
    assert(tree_ok(m2, lv, root));
    // The tables a walk passes through above the PT level are not `tt`.
    assert forall|v: u64| other_page(v, w) implies #[trigger] walk(m2, root, v) == walk(m, root, v) by {
        lemma_walk_levels(m, lv, root, v);
        let i0 = va_index(v, 0);
        let i1 = va_index(v, 1);
        let i2 = va_index(v, 2);
        let i3 = va_index(v, 3);
        assert(0 <= i0 < 512 && 0 <= i1 < 512 && 0 <= i2 < 512 && 0 <= i3 < 512);
        assert(m2[root][i0] == m[root][i0]);
        assert(t1(m2, root, v) == t1(m, root, v));
        if let Some(a) = t1(m, root, v) {
            assert(m2[a][i1] == m[a][i1]);
            assert(t2(m2, root, v) == t2(m, root, v));
            if let Some(b) = t2(m, root, v) {
                assert(m2[b][i2] == m[b][i2]);
                assert(pd_entry(m2, root, v) == pd_entry(m, root, v));
                assert(t3(m2, root, v) == t3(m, root, v));
                if let Some(c) = t3(m, root, v) {
                    if c == tt && i3 == iw {
                        let a2 = t1(m, root, w).unwrap();
                        let b2 = t2(m, root, w).unwrap();
                        assert(entry_addr(m[b][i2]) == c);
                        assert(entry_addr(m[b2][va_index(w, 2)]) == c);
                        assert(b == b2 && i2 == va_index(w, 2));
                        assert(entry_addr(m[a][i1]) == b);
                        assert(entry_addr(m[a2][va_index(w, 1)]) == b2);
                        assert(a == a2 && i1 == va_index(w, 1));
                        assert(entry_addr(m[root][i0]) == a);
                        assert(entry_addr(m[root][va_index(w, 0)]) == a2);
                        assert(i0 == va_index(w, 0));
                        assert(false);
                    }
                    assert(m2[c][i3] == m[c][i3]);
                }
            }
        }
    }
    let a = t1(m, root, w).unwrap();
    let b = t2(m, root, w).unwrap();
    assert(m2[root][va_index(w, 0)] == m[root][va_index(w, 0)]);
    assert(m2[a][va_index(w, 1)] == m[a][va_index(w, 1)]);
    assert(m2[b][va_index(w, 2)] == m[b][va_index(w, 2)]);
    assert(t3(m2, root, w) == Some(tt));
    assert(m2[tt][iw] == 0u64);
}

} // verus!
