//! MorionFS: a collection leaves in use what can be reached, and nothing else.
use vstd::prelude::*;

use crate::bytes;
use crate::mfs;
use crate::mfs::{
    MfsView, MFS_MAGIC_DIDX, MFS_MAGIC_DIR, MFS_MAGIC_FILE, MFS_MAGIC_IND, MFS_MAGIC_IND2,
    MFS_MAGIC_IND3, MFS_MAGIC_ITABX, MFS_ROOT_INO,
};
use crate::mfs_cow;
use crate::mfs_dir;
use crate::mfs_gc::GcView;
use crate::mfs_gc_laws;
use crate::mfs_gc_laws::{dir_names, index_of, is_root, names, names_data, path_ok};

verus! {

/// A way through the tree of the table with index block `itab` ends at block `c`.
pub open spec fn way_to(s: MfsView, itab: u32, c: u32) -> bool {
    exists|p: Seq<u32>| #[trigger] path_ok(s, itab, p) && p.last() == c
}

/// The last block of a way through the tree names the data block `c`.
pub open spec fn data_of(s: MfsView, itab: u32, c: u32) -> bool {
    exists|k: u32| #[trigger] way_to(s, itab, k) && names_data(s, k, c)
}

/// The index in block `itab` names the table block `c`.
pub open spec fn table_of(s: MfsView, itab: u32, c: u32) -> bool {
    c != 0 && mfs_gc_laws::slot_is(index_of(s, itab), c)
}

/// Block `c` belongs to the tree of the table with index block `itab`: it is the index, a
/// block of the table, on a way through the tree or a data block at the end of one.
pub open spec fn belongs(s: MfsView, itab: u32, c: u32) -> bool {
    c == itab || table_of(s, itab, c) || way_to(s, itab, c) || data_of(s, itab, c)
}

/// Block `c` is one of those before the data area, or belongs to the present tree or to
/// that of a snapshot.
pub open spec fn reachable(s: MfsView, c: u32) -> bool {
    c < mfs::data_start(s.total) || exists|itab: u32| is_root(s, itab) && #[trigger] belongs(
        s,
        itab,
        c,
    )
}

/// Only what can be reached is marked.
pub open spec fn honest(s: MfsView, marks: Seq<bool>) -> bool {
    &&& marks.len() == s.total
    &&& forall|b: u32| b < s.total && #[trigger] marks[b as int] ==> reachable(s, b)
}

/// Only what can be reached is marked, and only what is on a way was seen or waits.
pub open spec fn fine(s: MfsView, itab: u32, g: GcView) -> bool {
    &&& is_root(s, itab)
    &&& honest(s, g.marks)
    &&& g.seen.len() == s.total
    &&& forall|b: u32| b < s.total && #[trigger] g.seen[b as int] ==> way_to(s, itab, b)
    &&& forall|i: int| 0 <= i < g.stack.len() ==> way_to(s, itab, #[trigger] g.stack[i])
}

/// What belongs to a root can be reached.
proof fn lemma_belongs(s: MfsView, itab: u32, c: u32)
    requires
        is_root(s, itab),
        belongs(s, itab, c),
    ensures
        reachable(s, c),
{
}

/// A block marked.
proof fn lemma_mark(s: MfsView, itab: u32, g: GcView, c: u32)
    requires
        fine(s, itab, g),
        c < s.total ==> reachable(s, c),
    ensures
        fine(s, itab, g.mark(c)),
{
}

/// A block pushed.
proof fn lemma_push(s: MfsView, itab: u32, g: GcView, c: u32)
    requires
        fine(s, itab, g),
        0 < c < s.total ==> way_to(s, itab, c),
    ensures
        fine(s, itab, g.push(c).0),
{
    if 0 < c < s.total {
        lemma_belongs(s, itab, c);
    }
}

/// The blocks in slots pushed.
proof fn lemma_push_slots(s: MfsView, itab: u32, g: GcView, b: Seq<u8>, i: int)
    requires
        fine(s, itab, g),
        0 <= i,
        forall|j: int|
            0 <= j < 1022 && 0 < #[trigger] mfs::slot(b, j) < s.total ==> way_to(
                s,
                itab,
                mfs::slot(b, j),
            ),
    ensures
        fine(s, itab, g.push_slots(b, i).0),
    decreases 1022 - i,
{
    if i < 1022 {
        lemma_push(s, itab, g, mfs::slot(b, i));
        let (h, ok) = g.push(mfs::slot(b, i));
        if ok {
            lemma_push_slots(s, itab, h, b, i + 1);
        }
    }
}

/// Numbers marked.
proof fn lemma_mark_from(s: MfsView, itab: u32, g: GcView, b: Seq<u8>, off: int, i: int, n: int)
    requires
        fine(s, itab, g),
        0 <= i,
        forall|j: int|
            0 <= j < n && 0 < #[trigger] bytes::le32(b, off + 4 * j) < s.total ==> reachable(
                s,
                bytes::le32(b, off + 4 * j),
            ),
    ensures
        fine(s, itab, g.mark_from(b, off, i, n)),
    decreases n - i,
{
    if i < n {
        let c = bytes::le32(b, off + 4 * i);
        if c != 0 {
            lemma_mark(s, itab, g, c);
            lemma_mark_from(s, itab, g.mark(c), b, off, i + 1, n);
        } else {
            lemma_mark_from(s, itab, g, b, off, i + 1, n);
        }
    }
}

/// The objects of a directory block pushed.
proof fn lemma_gc_dir(s: MfsView, itab: u32, g: GcView, b: Seq<u8>, off: int)
    requires
        fine(s, itab, g),
        forall|c: u32| #[trigger]
            dir_names(s, index_of(s, itab), b, off, c) && 0 < c < s.total ==> way_to(s, itab, c),
    ensures
        fine(s, itab, s.gc_dir(index_of(s, itab), g, b, off).0),
    decreases 4096 - off,
{
    let x = index_of(s, itab);
    if off + 8 <= 4096 {
        let child = s.gc_ino_block(x, mfs_dir::ent_ino(b, off));
        let (h, ok) = if mfs_dir::ent_nlen(b, off) != 0 {
            match child {
                None => (g, false),
                Some(c) => g.push(c),
            }
        } else {
            (g, true)
        };
        if mfs_dir::ent_nlen(b, off) != 0 && child is Some {
            let c = child->Some_0;
            assert(dir_names(s, x, b, off, c));
            lemma_push(s, itab, g, c);
        }
        if ok && !mfs_dir::ent_bad(b, off) {
            let next = off + mfs_dir::ent_rec(b, off);
            assert forall|c: u32| #[trigger] dir_names(s, x, b, next, c) && 0 < c
                < s.total implies way_to(s, itab, c) by {
                assert(dir_names(s, x, b, off, c));
            }
            lemma_gc_dir(s, itab, h, b, next);
        }
    }
}

/// What a block on a way names is on a way too.
proof fn lemma_onward(s: MfsView, itab: u32, k: u32)
    requires
        is_root(s, itab),
        way_to(s, itab, k),
    ensures
        forall|c: u32| #[trigger]
            names(s, index_of(s, itab), k, c) && 0 < c < s.total ==> way_to(s, itab, c),
        forall|c: u32| #[trigger] names_data(s, k, c) ==> reachable(s, c),
{
    let p = choose|p: Seq<u32>| #[trigger] path_ok(s, itab, p) && p.last() == k;
    assert forall|c: u32| #[trigger] names(s, index_of(s, itab), k, c) && 0 < c
        < s.total implies way_to(s, itab, c) by {
        mfs_gc_laws::lemma_step(s, itab, p, c);
        assert(p.push(c).last() == c);
    }
    assert forall|c: u32| #[trigger] names_data(s, k, c) implies reachable(s, c) by {
        assert(data_of(s, itab, c));
        lemma_belongs(s, itab, c);
    }
}

/// A block expanded.
proof fn lemma_expand(s: MfsView, itab: u32, g: GcView, k: u32)
    requires
        fine(s, itab, g),
        way_to(s, itab, k),
    ensures
        fine(s, itab, s.gc_expand(index_of(s, itab), g, k).0),
{
    reveal(MfsView::gc_expand);
    lemma_onward(s, itab, k);
    let x = index_of(s, itab);
    match s.rd(k) {
        None => {},
        Some(b) => {
            if mfs::block_ok(b, MFS_MAGIC_DIR) {
                assert forall|c: u32| #[trigger] dir_names(s, x, b, 56, c) && 0 < c
                    < s.total implies way_to(s, itab, c) by {
                    assert(names(s, x, k, c));
                }
                lemma_gc_dir(s, itab, g, b, 56);
                let (h, ok) = s.gc_dir(x, g, b, 56);
                if ok {
                    assert(names(s, x, k, mfs_dir::dir_ext(b)));
                    lemma_push(s, itab, h, mfs_dir::dir_ext(b));
                }
            } else if mfs::block_ok(b, MFS_MAGIC_DIDX) {
                lemma_expand_slots(s, itab, g, k, b);
            } else if mfs::block_ok(b, MFS_MAGIC_FILE) {
                lemma_push_file(s, itab, g, k, b);
            } else if mfs::block_ok(b, MFS_MAGIC_IND) {
                assert forall|j: int|
                    0 <= j < 1022 && 0 < #[trigger] bytes::le32(b, 8 + 4 * j)
                        < s.total implies reachable(s, bytes::le32(b, 8 + 4 * j)) by {
                    let c = mfs::slot(b, j);
                    assert(mfs_gc_laws::slot_is(b, c));
                    assert(names_data(s, k, c));
                }
                lemma_mark_from(s, itab, g, b, 8, 0, 1022);
            } else if mfs::block_ok(b, MFS_MAGIC_IND2) || mfs::block_ok(b, MFS_MAGIC_IND3) {
                lemma_expand_slots(s, itab, g, k, b);
            }
        },
    }
}

/// A block expanded all of whose slots name others.
proof fn lemma_expand_slots(s: MfsView, itab: u32, g: GcView, k: u32, b: Seq<u8>)
    requires
        fine(s, itab, g),
        way_to(s, itab, k),
        s.rd(k) == Some(b),
        forall|c: u32| #[trigger]
            mfs_gc_laws::slot_is(b, c) ==> names(s, index_of(s, itab), k, c),
    ensures
        fine(s, itab, g.push_slots(b, 0).0),
{
    lemma_onward(s, itab, k);
    assert forall|j: int| 0 <= j < 1022 && 0 < #[trigger] mfs::slot(b, j) < s.total implies way_to(
        s,
        itab,
        mfs::slot(b, j),
    ) by {
        let c = mfs::slot(b, j);
        assert(mfs_gc_laws::slot_is(b, c));
        assert(names(s, index_of(s, itab), k, c));
    }
    lemma_push_slots(s, itab, g, b, 0);
}

/// The blocks of a file node.
proof fn lemma_push_file(s: MfsView, itab: u32, g: GcView, k: u32, b: Seq<u8>)
    requires
        fine(s, itab, g),
        way_to(s, itab, k),
        s.rd(k) == Some(b),
        mfs::block_ok(b, MFS_MAGIC_FILE),
        !mfs::block_ok(b, MFS_MAGIC_DIR),
        !mfs::block_ok(b, MFS_MAGIC_DIDX),
    ensures
        fine(s, itab, g.push_file(b).0),
{
    lemma_onward(s, itab, k);
    let x = index_of(s, itab);
    assert forall|j: int|
        0 <= j < 1005 && 0 < #[trigger] bytes::le32(b, 24 + 4 * j) < s.total implies reachable(
        s,
        bytes::le32(b, 24 + 4 * j),
    ) by {
        assert(mfs_gc_laws::direct_is(b, bytes::le32(b, 24 + 4 * j)));
        assert(names_data(s, k, bytes::le32(b, 24 + 4 * j)));
    }
    lemma_mark_from(s, itab, g, b, 24, 0, 1005);
    let g0 = g.mark_from(b, 24, 0, 1005);
    assert(names(s, x, k, bytes::le32(b, 4044)));
    assert(names(s, x, k, bytes::le32(b, 4048)));
    assert(names(s, x, k, bytes::le32(b, 4052)));
    lemma_push(s, itab, g0, bytes::le32(b, 4044));
    let (g1, ok1) = g0.push(bytes::le32(b, 4044));
    lemma_push(s, itab, g1, bytes::le32(b, 4048));
    let (g2, ok2) = g1.push(bytes::le32(b, 4048));
    lemma_push(s, itab, g2, bytes::le32(b, 4052));
}

/// Waiting blocks expanded until none is left.
proof fn lemma_drain(s: MfsView, itab: u32, g: GcView, fuel: nat)
    requires
        fine(s, itab, g),
    ensures
        fine(s, itab, s.gc_drain(index_of(s, itab), g, fuel).0),
        s.gc_drain(index_of(s, itab), g, fuel).1 ==> s.gc_drain(
            index_of(s, itab),
            g,
            fuel,
        ).0.stack.len() == 0,
    decreases fuel,
{
    if g.stack.len() != 0 && fuel != 0 {
        let g0 = GcView { stack: g.stack.drop_last(), ..g };
        assert(way_to(s, itab, g.stack[g.stack.len() - 1]));
        assert(fine(s, itab, g0)) by {
            assert forall|i: int| 0 <= i < g0.stack.len() implies way_to(
                s,
                itab,
                #[trigger] g0.stack[i],
            ) by {
                assert(g0.stack[i] == g.stack[i]);
            }
        }
        lemma_expand(s, itab, g0, g.stack.last());
        let (h, ok) = s.gc_expand(index_of(s, itab), g0, g.stack.last());
        if ok {
            lemma_drain(s, itab, h, (fuel - 1) as nat);
        }
    }
}

/// The blocks of the table marked.
proof fn lemma_mark_tables(s: MfsView, itab: u32, g: GcView, k: int)
    requires
        is_root(s, itab),
        honest(s, g.marks),
        0 <= k,
    ensures
        honest(s, g.mark_tables(index_of(s, itab), k).0.marks),
        g.mark_tables(index_of(s, itab), k).0.stack == g.stack,
    decreases 1022 - k,
{
    if k < 1022 {
        let x = index_of(s, itab);
        let t = mfs::slot(x, k);
        if t == 0 {
            lemma_mark_tables(s, itab, g, k + 1);
        } else if t < g.marks.len() {
            assert(table_of(s, itab, t));
            lemma_belongs(s, itab, t);
            lemma_mark_tables(s, itab, g.mark(t), k + 1);
        }
    }
}

/// All that one root reaches marked.
proof fn lemma_gc_root(s: MfsView, g: GcView, itab: u32)
    requires
        is_root(s, itab),
        honest(s, g.marks),
        g.stack.len() == 0,
    ensures
        s.gc_root(g, itab).1 ==> honest(s, s.gc_root(g, itab).0.marks) && s.gc_root(
            g,
            itab,
        ).0.stack.len() == 0,
{
    reveal(MfsView::gc_root);
    if itab != 0 && itab < g.marks.len() && s.load(itab, MFS_MAGIC_ITABX) is Some {
        let x = index_of(s, itab);
        lemma_belongs(s, itab, itab);
        let g1 = g.mark(itab);
        lemma_mark_tables(s, itab, g1, 0);
        let (g2, ok2) = g1.mark_tables(x, 0);
        let g3 = GcView { seen: Seq::new(g2.marks.len(), |i: int| false), ..g2 };
        match s.gc_ino_block(x, MFS_ROOT_INO) {
            None => {},
            Some(rb) => {
                if rb != 0 {
                    assert(fine(s, itab, g3));
                    if rb < s.total {
                        let p = seq![rb];
                        assert(path_ok(s, itab, p));
                        assert(p.last() == rb);
                    }
                    lemma_push(s, itab, g3, rb);
                    let g4 = g3.push(rb).0;
                    lemma_drain(s, itab, g4, (g4.stack.len() + g4.marks.len()) as nat);
                }
            },
        }
    }
}

/// All that the snapshots from `i` on reach marked.
proof fn lemma_gc_snaps(s: MfsView, g: GcView, i: int)
    requires
        honest(s, g.marks),
        g.stack.len() == 0,
        0 <= i,
    ensures
        s.gc_snaps(g, i).1 ==> honest(s, s.gc_snaps(g, i).0.marks),
    decreases s.snaps.len() - i,
{
    if i < s.snaps.len() {
        assert(is_root(s, s.snaps[i].itab));
        lemma_gc_root(s, g, s.snaps[i].itab);
        let (h, ok) = s.gc_root(g, s.snaps[i].itab);
        if ok {
            lemma_gc_snaps(s, h, i + 1);
        }
    }
}

/// Only what can be reached is marked.
proof fn lemma_honest(s: MfsView)
    requires
        s.gc_mark().1,
    ensures
        honest(s, s.gc_mark().0.marks),
{
    reveal(MfsView::gc_mark);
    let n = s.total as nat;
    let g = GcView {
        marks: Seq::new(n, |i: int| i < mfs::data_start(s.total)),
        seen: Seq::new(n, |i: int| false),
        stack: Seq::empty(),
    };
    lemma_gc_root(s, g, s.itab);
    lemma_gc_snaps(s, s.gc_root(g, s.itab).0, 0);
}

/// Law: after a collection a block is in use if and only if it can be reached: it stands
/// before the data area, or belongs to the present tree or to that of a snapshot.
pub proof fn law_collection_keeps_only(s: MfsView, c: u32)
    requires
        mfs_cow::sound(s),
        s.gc().1 is Some,
        c < s.total,
    ensures
        s.gc().0.bmp[c as int] <==> reachable(s, c),
{
    mfs_gc_laws::lemma_gc(s);
    lemma_honest(s);
    let u = s.gc().0;
    let marks = u.bmp.subrange(0, s.total as int);
    assert(marks[c as int] == u.bmp[c as int]);
    if reachable(s, c) && c >= mfs::data_start(s.total) {
        let itab = choose|itab: u32| is_root(s, itab) && #[trigger] belongs(s, itab, c);
        lemma_kept(s, itab, c);
    }
}

/// What belongs to a root is in use after a collection.
proof fn lemma_kept(s: MfsView, itab: u32, c: u32)
    requires
        mfs_cow::sound(s),
        s.gc().1 is Some,
        c < s.total,
        c >= mfs::data_start(s.total),
        is_root(s, itab),
        belongs(s, itab, c),
    ensures
        s.gc().0.bmp[c as int],
{
    mfs_gc_laws::lemma_gc(s);
    let u = s.gc().0;
    let marks = u.bmp.subrange(0, s.total as int);
    assert(marks[c as int] == u.bmp[c as int]);
    assert(mfs_gc_laws::root_kept(s, itab, marks)) by {
        if itab != s.itab {
            let j = choose|j: int| 0 <= j < s.snaps.len() && (#[trigger] s.snaps[j]).itab == itab;
            assert(mfs_gc_laws::root_kept(s, s.snaps[j].itab, marks));
        }
    }
    if c == itab {
    } else if table_of(s, itab, c) {
        let x = index_of(s, itab);
        let i = choose|i: int| 0 <= i < 1022 && #[trigger] mfs::slot(x, i) == c;
        assert(mfs::slot(x, i) == c);
    } else if way_to(s, itab, c) {
        let p = choose|p: Seq<u32>| #[trigger] path_ok(s, itab, p) && p.last() == c;
        mfs_gc_laws::law_collection_keeps(s, itab, p, c);
    } else {
        let k = choose|k: u32| #[trigger] way_to(s, itab, k) && names_data(s, k, c);
        let p = choose|p: Seq<u32>| #[trigger] path_ok(s, itab, p) && p.last() == k;
        mfs_gc_laws::law_collection_keeps(s, itab, p, c);
    }
}

/// Law: a collection that succeeds changes no block of the data area that can be reached, nor
/// the list of snapshots. The free blocks are those that are not in use, and the result is
/// by how many they became more.
pub proof fn law_collection_counts(s: MfsView)
    requires
        mfs_cow::sound(s),
        s.gc().1 is Some,
    ensures
        s.gc().0.itab == s.itab,
        s.gc().0.snaps == s.snaps,
        forall|c: u32|
            mfs::data_start(s.total) <= c < s.total && reachable(s, c) ==> #[trigger] s.gc().0.rd(c)
                == s.rd(c),
        s.gc().0.free == mfs::count_free(s.gc().0.bmp, s.total as int),
        s.gc().1 == Some(
            if s.gc().0.free >= s.free {
                (s.gc().0.free - s.free) as u64
            } else {
                0
            },
        ),
{
    mfs_gc_laws::lemma_gc(s);
    let u = s.gc().0;
    assert forall|c: u32|
        mfs::data_start(s.total) <= c < s.total && reachable(s, c) implies #[trigger] u.rd(c) == s.rd(
        c,
    ) by {
        law_collection_keeps_only(s, c);
    }
    lemma_count_same(u.bmp, u.bmp.subrange(0, s.total as int), s.total as int);
    reveal(MfsView::gc);
    let g = s.gc_mark().0;
    let t = MfsView {
        free: mfs::count_free(g.marks, s.total as int) as u32,
        alloc_next: mfs::data_start(s.total) as u32,
        ..s.apply_marks(g.marks, 0)
    };
    assert(u == t.flush().0);
    assert(u.free == mfs::count_free(g.marks, s.total as int) as u32);
}

/// The free blocks among the first `n` by two bitmaps that agree on them.
proof fn lemma_count_same(a: Seq<bool>, b: Seq<bool>, n: int)
    requires
        forall|i: int| 0 <= i < n ==> a[i] == #[trigger] b[i],
    ensures
        mfs::count_free(a, n) == mfs::count_free(b, n),
    decreases n,
{
    if n > 0 {
        lemma_count_same(a, b, n - 1);
        assert(a[n - 1] == b[n - 1]);
    }
}

} // verus!
