//! MorionFS: a collection frees nothing that can be reached.
use vstd::prelude::*;

use crate::bytes;
use crate::mfs;
use crate::mfs::{
    MfsView, MFS_MAGIC_DATA, MFS_MAGIC_DIDX, MFS_MAGIC_DIR, MFS_MAGIC_FILE, MFS_MAGIC_IND,
    MFS_MAGIC_IND2, MFS_MAGIC_IND3, MFS_MAGIC_ITAB, MFS_MAGIC_ITABX, MFS_ROOT_INO,
};
use crate::mfs_cow;
use crate::mfs_dir;
use crate::mfs_gc::GcView;
use crate::mfs_laws;
use crate::mfs_snap;

verus! {

/// Whether a directory block names the object in block `c`, from the entry at `off` on.
pub open spec fn dir_names(s: MfsView, x: Seq<u8>, b: Seq<u8>, off: int, c: u32) -> bool
    decreases 4096 - off,
{
    if off + 8 > 4096 {
        false
    } else if mfs_dir::ent_nlen(b, off) != 0 && s.gc_ino_block(x, mfs_dir::ent_ino(b, off)) == Some(
        c,
    ) {
        true
    } else if mfs_dir::ent_bad(b, off) {
        false
    } else {
        dir_names(s, x, b, off + mfs_dir::ent_rec(b, off), c)
    }
}

/// One of the slots of a block is `c`.
pub open spec fn slot_is(b: Seq<u8>, c: u32) -> bool {
    exists|i: int| 0 <= i < 1022 && #[trigger] mfs::slot(b, i) == c
}

/// Block `k` names block `c`, which may name others: an object in a directory, its further
/// blocks, an indirect block.
pub open spec fn names(s: MfsView, x: Seq<u8>, k: u32, c: u32) -> bool {
    s.rd(k) matches Some(b) && if mfs::block_ok(b, MFS_MAGIC_DIR) {
        dir_names(s, x, b, 56, c) || mfs_dir::dir_ext(b) == c
    } else if mfs::block_ok(b, MFS_MAGIC_DIDX) {
        slot_is(b, c)
    } else if mfs::block_ok(b, MFS_MAGIC_FILE) {
        bytes::le32(b, 4044) == c || bytes::le32(b, 4048) == c || bytes::le32(b, 4052) == c
    } else if mfs::block_ok(b, MFS_MAGIC_IND) {
        false
    } else if mfs::block_ok(b, MFS_MAGIC_IND2) {
        slot_is(b, c)
    } else if mfs::block_ok(b, MFS_MAGIC_IND3) {
        slot_is(b, c)
    } else {
        false
    }
}

/// One of the direct numbers of a file node is `c`.
pub open spec fn direct_is(b: Seq<u8>, c: u32) -> bool {
    exists|i: int| 0 <= i < 1005 && #[trigger] bytes::le32(b, 24 + 4 * i) == c
}

/// Block `k` names the data block `c`.
pub open spec fn names_data(s: MfsView, k: u32, c: u32) -> bool {
    s.rd(k) matches Some(b) && if mfs::block_ok(b, MFS_MAGIC_DIR) || mfs::block_ok(b, MFS_MAGIC_DIDX) {
        false
    } else if mfs::block_ok(b, MFS_MAGIC_FILE) {
        direct_is(b, c)
    } else if mfs::block_ok(b, MFS_MAGIC_IND) {
        slot_is(b, c)
    } else {
        false
    }
}

/// A step of a collection: what was reached stays reached, and what is new still waits.
pub open spec fn grows(g: GcView, h: GcView) -> bool {
    &&& h.marks.len() == g.marks.len()
    &&& h.seen.len() == g.seen.len()
    &&& forall|b: int| 0 <= b < g.marks.len() && g.marks[b] ==> #[trigger] h.marks[b]
    &&& forall|b: int| 0 <= b < g.seen.len() && g.seen[b] ==> #[trigger] h.seen[b]
    &&& forall|b: u32|
        b < g.seen.len() && #[trigger] h.seen[b as int] && !g.seen[b as int] ==> h.stack.contains(b)
    &&& forall|b: u32| g.stack.contains(b) ==> #[trigger] h.stack.contains(b)
}

/// Steps one after the other.
proof fn lemma_grows(g: GcView, h: GcView, k: GcView)
    requires
        grows(g, h),
        grows(h, k),
    ensures
        grows(g, k),
{
    assert forall|b: int| 0 <= b < g.marks.len() && g.marks[b] implies #[trigger] k.marks[b] by {
        assert(h.marks[b]);
    }
    assert forall|b: int| 0 <= b < g.seen.len() && g.seen[b] implies #[trigger] k.seen[b] by {
        assert(h.seen[b]);
    }
    assert forall|b: u32|
        b < g.seen.len() && #[trigger] k.seen[b as int] && !g.seen[b as int] implies k.stack.contains(
        b,
    ) by {
        if h.seen[b as int] {
            assert(h.stack.contains(b));
        }
    }
    assert forall|b: u32| g.stack.contains(b) implies #[trigger] k.stack.contains(b) by {
        assert(h.stack.contains(b));
    }
}

/// What was expanded is marked, and there are as many flags of either kind.
pub open spec fn tidy(g: GcView) -> bool {
    &&& g.seen.len() == g.marks.len()
    &&& forall|b: int| 0 <= b < g.seen.len() && g.seen[b] ==> #[trigger] g.marks[b]
}

/// Block `c` was reached: it is no block, or beyond the file system, or marked and seen.
pub open spec fn reached(g: GcView, c: u32) -> bool {
    c == 0 || c >= g.seen.len() || g.seen[c as int]
}

/// Data block `c` was marked.
pub open spec fn marked(g: GcView, c: u32) -> bool {
    c == 0 || c >= g.marks.len() || g.marks[c as int]
}

/// One block pushed.
proof fn lemma_push(g: GcView, c: u32)
    requires
        tidy(g),
    ensures
        grows(g, g.push(c).0),
        tidy(g.push(c).0),
        g.push(c).1 ==> reached(g.push(c).0, c),
{
    let h = g.push(c).0;
    if !(c == 0 || c >= g.marks.len() || g.seen[c as int]) && g.stack.len()
        < crate::mfs_gc::MFS_GC_STACK_MAX {
        assert(h.stack[g.stack.len() as int] == c);
        assert forall|b: u32| g.stack.contains(b) implies #[trigger] h.stack.contains(b) by {
            let i = choose|i: int| 0 <= i < g.stack.len() && g.stack[i] == b;
            assert(h.stack[i] == b);
        }
    }
}

/// The slots of a block pushed.
proof fn lemma_push_slots(g: GcView, b: Seq<u8>, i: int)
    requires
        tidy(g),
        0 <= i,
    ensures
        grows(g, g.push_slots(b, i).0),
        tidy(g.push_slots(b, i).0),
        g.push_slots(b, i).1 ==> forall|j: int|
            i <= j < 1022 ==> reached(g.push_slots(b, i).0, #[trigger] mfs::slot(b, j)),
    decreases 1022 - i,
{
    if i < 1022 {
        lemma_push(g, mfs::slot(b, i));
        let (h, ok) = g.push(mfs::slot(b, i));
        if ok {
            lemma_push_slots(h, b, i + 1);
            let k = h.push_slots(b, i + 1).0;
            lemma_grows(g, h, k);
            assert(reached(k, mfs::slot(b, i)));
        }
    }
}

/// Numbers marked.
proof fn lemma_mark_from(g: GcView, b: Seq<u8>, off: int, i: int, n: int)
    requires
        tidy(g),
        0 <= i,
    ensures
        grows(g, g.mark_from(b, off, i, n)),
        tidy(g.mark_from(b, off, i, n)),
        g.mark_from(b, off, i, n).stack == g.stack,
        g.mark_from(b, off, i, n).seen == g.seen,
        forall|j: int|
            i <= j < n ==> marked(g.mark_from(b, off, i, n), #[trigger] bytes::le32(b, off + 4 * j)),
    decreases n - i,
{
    if i < n {
        let c = bytes::le32(b, off + 4 * i);
        let h = if c != 0 {
            g.mark(c)
        } else {
            g
        };
        assert(grows(g, h));
        lemma_mark_from(h, b, off, i + 1, n);
        let k = h.mark_from(b, off, i + 1, n);
        lemma_grows(g, h, k);
        assert(marked(h, c));
        assert(marked(k, c));
    }
}

/// The table blocks of an index marked.
proof fn lemma_mark_tables(g: GcView, x: Seq<u8>, k: int)
    requires
        tidy(g),
        0 <= k,
    ensures
        grows(g, g.mark_tables(x, k).0),
        tidy(g.mark_tables(x, k).0),
        g.mark_tables(x, k).0.stack == g.stack,
        g.mark_tables(x, k).1 ==> forall|j: int|
            k <= j < 1022 ==> (#[trigger] mfs::slot(x, j) == 0 || (mfs::slot(x, j)
                < g.marks.len() && g.mark_tables(x, k).0.marks[mfs::slot(x, j) as int])),
    decreases 1022 - k,
{
    if k < 1022 {
        let t = mfs::slot(x, k);
        if t == 0 {
            lemma_mark_tables(g, x, k + 1);
        } else if t < g.marks.len() {
            let h = g.mark(t);
            assert(grows(g, h));
            lemma_mark_tables(h, x, k + 1);
            lemma_grows(g, h, h.mark_tables(x, k + 1).0);
            assert(h.marks[t as int]);
        }
    }
}

/// The objects of a directory block pushed.
proof fn lemma_gc_dir(s: MfsView, x: Seq<u8>, g: GcView, b: Seq<u8>, off: int)
    requires
        tidy(g),
    ensures
        grows(g, s.gc_dir(x, g, b, off).0),
        tidy(s.gc_dir(x, g, b, off).0),
        s.gc_dir(x, g, b, off).1 ==> forall|c: u32| #[trigger]
            dir_names(s, x, b, off, c) ==> reached(s.gc_dir(x, g, b, off).0, c),
    decreases 4096 - off,
{
    if off + 8 <= 4096 {
        let (h, ok) = if mfs_dir::ent_nlen(b, off) != 0 {
            match s.gc_ino_block(x, mfs_dir::ent_ino(b, off)) {
                None => (g, false),
                Some(child) => g.push(child),
            }
        } else {
            (g, true)
        };
        if mfs_dir::ent_nlen(b, off) != 0 {
            match s.gc_ino_block(x, mfs_dir::ent_ino(b, off)) {
                None => {},
                Some(child) => {
                    lemma_push(g, child);
                },
            }
        }
        if ok && !mfs_dir::ent_bad(b, off) {
            let next = off + mfs_dir::ent_rec(b, off);
            lemma_gc_dir(s, x, h, b, next);
            let k = s.gc_dir(x, h, b, next).0;
            lemma_grows(g, h, k);
            if s.gc_dir(x, g, b, off).1 {
                assert forall|c: u32| #[trigger] dir_names(s, x, b, off, c) implies reached(
                    k,
                    c,
                ) by {
                    if mfs_dir::ent_nlen(b, off) != 0 && s.gc_ino_block(
                        x,
                        mfs_dir::ent_ino(b, off),
                    ) == Some(c) {
                        assert(reached(h, c));
                    } else {
                        assert(dir_names(s, x, b, next, c));
                    }
                }
            }
        }
    }
}

/// All that block `k` names was reached.
pub open spec fn done(s: MfsView, x: Seq<u8>, g: GcView, k: u32) -> bool {
    &&& forall|c: u32| #[trigger] names(s, x, k, c) ==> reached(g, c)
    &&& forall|c: u32| #[trigger] names_data(s, k, c) ==> marked(g, c)
}

/// What was done stays done.
proof fn lemma_done(s: MfsView, x: Seq<u8>, g: GcView, h: GcView, k: u32)
    requires
        grows(g, h),
        done(s, x, g, k),
    ensures
        done(s, x, h, k),
{
    assert forall|c: u32| #[trigger] names(s, x, k, c) implies reached(h, c) by {
        assert(reached(g, c));
    }
    assert forall|c: u32| #[trigger] names_data(s, k, c) implies marked(h, c) by {
        assert(marked(g, c));
    }
}

/// A block expanded.
proof fn lemma_expand(s: MfsView, x: Seq<u8>, g: GcView, k: u32)
    requires
        tidy(g),
    ensures
        grows(g, s.gc_expand(x, g, k).0),
        tidy(s.gc_expand(x, g, k).0),
        s.gc_expand(x, g, k).1 ==> done(s, x, s.gc_expand(x, g, k).0, k),
{
    reveal(MfsView::gc_expand);
    match s.rd(k) {
        None => {},
        Some(b) => {
            if mfs::block_ok(b, MFS_MAGIC_DIR) {
                lemma_gc_dir(s, x, g, b, 56);
                let (h, ok) = s.gc_dir(x, g, b, 56);
                if ok {
                    lemma_push(h, mfs_dir::dir_ext(b));
                    let f = h.push(mfs_dir::dir_ext(b)).0;
                    lemma_grows(g, h, f);
                    if h.push(mfs_dir::dir_ext(b)).1 {
                        assert forall|c: u32| #[trigger] names(s, x, k, c) implies reached(
                            f,
                            c,
                        ) by {
                            if dir_names(s, x, b, 56, c) {
                                assert(reached(h, c));
                            }
                        }
                    }
                }
            } else if mfs::block_ok(b, MFS_MAGIC_DIDX) {
                lemma_push_slots(g, b, 0);
            } else if mfs::block_ok(b, MFS_MAGIC_FILE) {
                lemma_push_file(g, b);
            } else if mfs::block_ok(b, MFS_MAGIC_IND) {
                lemma_mark_from(g, b, 8, 0, 1022);
                assert forall|c: u32| #[trigger] names_data(s, k, c) implies marked(
                    g.mark_from(b, 8, 0, 1022),
                    c,
                ) by {
                    let i = choose|i: int| 0 <= i < 1022 && #[trigger] mfs::slot(b, i) == c;
                    assert(bytes::le32(b, 8 + 4 * i) == c);
                }
            } else if mfs::block_ok(b, MFS_MAGIC_IND2) {
                lemma_push_slots(g, b, 0);
            } else if mfs::block_ok(b, MFS_MAGIC_IND3) {
                lemma_push_slots(g, b, 0);
            }
        },
    }
}

/// The blocks of a file node pushed and marked.
proof fn lemma_push_file(g: GcView, b: Seq<u8>)
    requires
        tidy(g),
    ensures
        grows(g, g.push_file(b).0),
        tidy(g.push_file(b).0),
        g.push_file(b).1 ==> reached(g.push_file(b).0, bytes::le32(b, 4044)) && reached(
            g.push_file(b).0,
            bytes::le32(b, 4048),
        ) && reached(g.push_file(b).0, bytes::le32(b, 4052)) && forall|i: int|
            0 <= i < 1005 ==> marked(g.push_file(b).0, #[trigger] bytes::le32(b, 24 + 4 * i)),
{
    lemma_mark_from(g, b, 24, 0, 1005);
    let g0 = g.mark_from(b, 24, 0, 1005);
    lemma_push(g0, bytes::le32(b, 4044));
    let (g1, ok1) = g0.push(bytes::le32(b, 4044));
    lemma_grows(g, g0, g1);
    if ok1 {
        lemma_push(g1, bytes::le32(b, 4048));
        let (g2, ok2) = g1.push(bytes::le32(b, 4048));
        lemma_grows(g, g1, g2);
        lemma_grows(g0, g1, g2);
        if ok2 {
            lemma_push(g2, bytes::le32(b, 4052));
            let (g3, ok3) = g2.push(bytes::le32(b, 4052));
            lemma_grows(g, g2, g3);
            lemma_grows(g0, g2, g3);
            lemma_grows(g1, g2, g3);
            if ok3 {
                assert forall|i: int| 0 <= i < 1005 implies marked(
                    g3,
                    #[trigger] bytes::le32(b, 24 + 4 * i),
                ) by {
                    assert(marked(g0, bytes::le32(b, 24 + 4 * i)));
                }
            }
        }
    }
}

/// Every block that was seen and does not wait is done.
pub open spec fn half_done(s: MfsView, x: Seq<u8>, g: GcView) -> bool {
    forall|b: u32|
        b < g.seen.len() && #[trigger] g.seen[b as int] && !g.stack.contains(b) ==> done(s, x, g, b)
}

/// Waiting blocks expanded until none is left: every block that was seen is done.
proof fn lemma_drain(s: MfsView, x: Seq<u8>, g: GcView, fuel: nat)
    requires
        tidy(g),
        half_done(s, x, g),
    ensures
        ({
            let (h, ok) = s.gc_drain(x, g, fuel);
            &&& h.marks.len() == g.marks.len()
            &&& tidy(h)
            &&& forall|b: int| 0 <= b < g.marks.len() && g.marks[b] ==> #[trigger] h.marks[b]
            &&& forall|b: int| 0 <= b < g.seen.len() && g.seen[b] ==> #[trigger] h.seen[b]
            &&& ok ==> half_done(s, x, h) && h.stack.len() == 0
        }),
    decreases fuel,
{
    if g.stack.len() != 0 && fuel != 0 {
        let top = g.stack.last();
        let g0 = GcView { stack: g.stack.drop_last(), ..g };
        lemma_expand(s, x, g0, top);
        let (h, ok) = s.gc_expand(x, g0, top);
        if ok {
            assert(half_done(s, x, h)) by {
                assert forall|b: u32|
                    b < h.seen.len() && #[trigger] h.seen[b as int] && !h.stack.contains(
                        b,
                    ) implies done(s, x, h, b) by {
                    if b != top {
                        assert(g0.seen[b as int]);
                        assert(!g0.stack.contains(b));
                        assert(!g.stack.contains(b)) by {
                            if g.stack.contains(b) {
                                let i = choose|i: int| 0 <= i < g.stack.len() && g.stack[i] == b;
                                assert(g0.stack[i] == b);
                            }
                        }
                        assert(done(s, x, g, b));
                        assert(done(s, x, g0, b)) by {
                            assert forall|c: u32| #[trigger] names(s, x, b, c) implies reached(
                                g0,
                                c,
                            ) by {
                                assert(reached(g, c));
                            }
                            assert forall|c: u32| #[trigger] names_data(s, b, c) implies marked(
                                g0,
                                c,
                            ) by {
                                assert(marked(g, c));
                            }
                        }
                        lemma_done(s, x, g0, h, b);
                    }
                }
            }
            lemma_drain(s, x, h, (fuel - 1) as nat);
            let f = s.gc_drain(x, h, (fuel - 1) as nat).0;
            assert forall|b: int| 0 <= b < g.marks.len() && g.marks[b] implies #[trigger] f.marks[b] by {
                assert(h.marks[b]);
            }
            assert forall|b: int| 0 <= b < g.seen.len() && g.seen[b] implies #[trigger] f.seen[b] by {
                assert(h.seen[b]);
            }
        } else {
            assert forall|b: int| 0 <= b < g.marks.len() && g.marks[b] implies #[trigger] h.marks[b] by {
                assert(g0.marks[b]);
            }
        }
    }
}

/// The blocks in `seen` are marked and hold the root, and all that one of them names is in
/// `seen`, or marked where it holds data.
pub open spec fn closed(s: MfsView, x: Seq<u8>, seen: Seq<bool>, marks: Seq<bool>, root: u32) -> bool {
    let g = GcView { marks, seen, stack: Seq::empty() };
    &&& tidy(g)
    &&& root < seen.len()
    &&& seen[root as int]
    &&& forall|b: u32| b < seen.len() && #[trigger] seen[b as int] ==> done(s, x, g, b)
}

/// All that the inode table with index block `itab` reaches is marked.
pub open spec fn root_kept(s: MfsView, itab: u32, marks: Seq<bool>) -> bool {
    &&& itab != 0
    &&& itab < marks.len()
    &&& marks[itab as int]
    &&& s.load(itab, MFS_MAGIC_ITABX) is Some
    &&& forall|j: int|
        0 <= j < 1022 ==> (#[trigger] mfs::slot(index_of(s, itab), j) == 0 || (mfs::slot(
            index_of(s, itab),
            j,
        ) < marks.len() && marks[mfs::slot(index_of(s, itab), j) as int]))
    &&& root_of(s, itab) < marks.len() ==> exists|seen: Seq<bool>| #[trigger]
        closed(s, index_of(s, itab), seen, marks, root_of(s, itab))
}

/// The index in block `itab`.
pub open spec fn index_of(s: MfsView, itab: u32) -> Seq<u8> {
    s.load(itab, MFS_MAGIC_ITABX)->Some_0
}

/// The block of the root directory by the index in block `itab`.
pub open spec fn root_of(s: MfsView, itab: u32) -> u32 {
    s.gc_ino_block(index_of(s, itab), MFS_ROOT_INO)->Some_0
}

/// More marks keep a root.
proof fn lemma_root_kept(s: MfsView, itab: u32, marks: Seq<bool>, more: Seq<bool>)
    requires
        root_kept(s, itab, marks),
        more.len() == marks.len(),
        forall|b: int| 0 <= b < marks.len() && marks[b] ==> #[trigger] more[b],
    ensures
        root_kept(s, itab, more),
{
    let x = index_of(s, itab);
    let rb = root_of(s, itab);
    if rb < marks.len() {
        let seen = choose|seen: Seq<bool>| #[trigger] closed(s, x, seen, marks, rb);
        lemma_closed(s, x, seen, marks, more, rb);
    }
    assert forall|j: int| 0 <= j < 1022 implies (#[trigger] mfs::slot(x, j) == 0 || (mfs::slot(
        x,
        j,
    ) < more.len() && more[mfs::slot(x, j) as int])) by {
        assert(mfs::slot(x, j) == 0 || marks[mfs::slot(x, j) as int]);
    }
}

/// More marks keep what is closed.
proof fn lemma_closed(
    s: MfsView,
    x: Seq<u8>,
    seen: Seq<bool>,
    marks: Seq<bool>,
    more: Seq<bool>,
    rb: u32,
)
    requires
        closed(s, x, seen, marks, rb),
        more.len() == marks.len(),
        forall|b: int| 0 <= b < marks.len() && marks[b] ==> #[trigger] more[b],
    ensures
        closed(s, x, seen, more, rb),
{
    let g = GcView { marks, seen, stack: Seq::empty() };
    let h = GcView { marks: more, seen, stack: Seq::empty() };
    assert(closed(s, x, seen, more, rb)) by {
        assert forall|b: u32| b < seen.len() && #[trigger] seen[b as int] implies done(
            s,
            x,
            h,
            b,
        ) by {
            assert(done(s, x, g, b));
            assert forall|c: u32| #[trigger] names(s, x, b, c) implies reached(h, c) by {
                assert(reached(g, c));
            }
            assert forall|c: u32| #[trigger] names_data(s, b, c) implies marked(h, c) by {
                assert(marked(g, c));
            }
        }
    }
}

/// All that one root reaches marked.
proof fn lemma_gc_root(s: MfsView, g: GcView, itab: u32)
    requires
        g.seen.len() == g.marks.len(),
        tidy(g),
    ensures
        ({
            let (h, ok) = s.gc_root(g, itab);
            &&& h.marks.len() == g.marks.len()
            &&& tidy(h)
            &&& forall|b: int| 0 <= b < g.marks.len() && g.marks[b] ==> #[trigger] h.marks[b]
            &&& ok ==> root_kept(s, itab, h.marks)
        }),
{
    reveal(MfsView::gc_root);
    if itab != 0 && itab < g.marks.len() {
        let g1 = g.mark(itab);
        match s.load(itab, MFS_MAGIC_ITABX) {
            None => {},
            Some(x) => {
                lemma_mark_tables(g1, x, 0);
                let (g2, ok2) = g1.mark_tables(x, 0);
                if ok2 {
                    let g3 = GcView { seen: Seq::new(g2.marks.len(), |i: int| false), ..g2 };
                    match s.gc_ino_block(x, MFS_ROOT_INO) {
                        None => {},
                        Some(rb) => {
                            if rb != 0 {
                                lemma_push(g3, rb);
                                let (g4, ok4) = g3.push(rb);
                                if ok4 {
                                    lemma_root_drain(s, x, g3, g4, rb, itab, g);
                                }
                            }
                        },
                    }
                }
            },
        }
    }
}

/// The last part of marking one root.
proof fn lemma_root_drain(
    s: MfsView,
    x: Seq<u8>,
    g3: GcView,
    g4: GcView,
    rb: u32,
    itab: u32,
    g: GcView,
)
    requires
        tidy(g3),
        grows(g3, g4),
        tidy(g4),
        g4 == g3.push(rb).0,
        g3.push(rb).1,
        rb != 0,
        forall|b: int| 0 <= b < g3.seen.len() ==> !#[trigger] g3.seen[b],
        g3.marks.len() == g.marks.len(),
        forall|b: int| 0 <= b < g.marks.len() && g.marks[b] ==> #[trigger] g3.marks[b],
        itab != 0,
        itab < g.marks.len(),
        g3.marks[itab as int],
        s.load(itab, MFS_MAGIC_ITABX) == Some(x),
        s.gc_ino_block(x, MFS_ROOT_INO) == Some(rb),
        forall|j: int|
            0 <= j < 1022 ==> (#[trigger] mfs::slot(x, j) == 0 || (mfs::slot(x, j) < g3.marks.len()
                && g3.marks[mfs::slot(x, j) as int])),
    ensures
        ({
            let (h, ok) = s.gc_drain(x, g4, (g4.stack.len() + g4.marks.len()) as nat);
            &&& h.marks.len() == g.marks.len()
            &&& tidy(h)
            &&& forall|b: int| 0 <= b < g.marks.len() && g.marks[b] ==> #[trigger] h.marks[b]
            &&& ok ==> root_kept(s, itab, h.marks)
        }),
{
    let fuel = (g4.stack.len() + g4.marks.len()) as nat;
    assert(half_done(s, x, g4)) by {
        assert forall|b: u32|
            b < g4.seen.len() && #[trigger] g4.seen[b as int] && !g4.stack.contains(b) implies done(
            s,
            x,
            g4,
            b,
        ) by {
            assert(!g3.seen[b as int]);
        }
    }
    lemma_drain(s, x, g4, fuel);
    let (h, ok) = s.gc_drain(x, g4, fuel);
    assert forall|b: int| 0 <= b < g.marks.len() && g.marks[b] implies #[trigger] h.marks[b] by {
        assert(g3.marks[b]);
        assert(g4.marks[b]);
    }
    if ok {
        if rb < g.marks.len() {
            assert(g4.seen[rb as int]);
            assert(h.seen[rb as int]);
            let k = GcView { marks: h.marks, seen: h.seen, stack: Seq::empty() };
            assert(h == k) by {
                assert(h.stack =~= Seq::empty());
            }
            assert(closed(s, x, h.seen, h.marks, rb)) by {
                assert forall|b: u32| b < h.seen.len() && #[trigger] h.seen[b as int] implies done(
                    s,
                    x,
                    k,
                    b,
                ) by {
                    assert(!h.stack.contains(b));
                }
            }
        }
        assert forall|j: int| 0 <= j < 1022 implies (#[trigger] mfs::slot(x, j) == 0 || (mfs::slot(
            x,
            j,
        ) < h.marks.len() && h.marks[mfs::slot(x, j) as int])) by {
            if mfs::slot(x, j) != 0 {
                assert(g3.marks[mfs::slot(x, j) as int]);
                assert(g4.marks[mfs::slot(x, j) as int]);
            }
        }
        assert(g4.marks[itab as int]);
        assert(h.marks[itab as int]);
    }
}

/// All that the snapshots from `i` on reach marked.
proof fn lemma_gc_snaps(s: MfsView, g: GcView, i: int)
    requires
        tidy(g),
        0 <= i,
    ensures
        ({
            let (h, ok) = s.gc_snaps(g, i);
            &&& h.marks.len() == g.marks.len()
            &&& forall|b: int| 0 <= b < g.marks.len() && g.marks[b] ==> #[trigger] h.marks[b]
            &&& ok ==> forall|j: int|
                i <= j < s.snaps.len() ==> root_kept(s, (#[trigger] s.snaps[j]).itab, h.marks)
        }),
    decreases s.snaps.len() - i,
{
    if i < s.snaps.len() {
        lemma_gc_root(s, g, s.snaps[i].itab);
        let (h, ok) = s.gc_root(g, s.snaps[i].itab);
        if ok {
            lemma_gc_snaps(s, h, i + 1);
            let k = s.gc_snaps(h, i + 1).0;
            assert forall|b: int| 0 <= b < g.marks.len() && g.marks[b] implies #[trigger] k.marks[b] by {
                assert(h.marks[b]);
            }
            lemma_root_kept(s, s.snaps[i].itab, h.marks, k.marks);
        }
    }
}

/// The bitmap set to the marks.
proof fn lemma_apply(s: MfsView, marks: Seq<bool>, b: int)
    requires
        mfs_cow::sound(s),
        marks.len() == s.total,
        0 <= b,
        s.bmp.len() >= s.total,
    ensures
        ({
            let t = s.apply_marks(marks, b);
            &&& mfs_cow::sound(t)
            &&& t == (MfsView { bmp: t.bmp, free: t.free, dirty: t.dirty, ..s })
            &&& forall|c: int|
                0 <= c < s.total ==> #[trigger] t.bmp[c] == if c < b {
                    s.bmp[c]
                } else {
                    marks[c]
                }
        }),
    decreases marks.len() - b,
{
    if b < marks.len() {
        let t = if marks[b] {
            s.bmp_set(b as u32)
        } else {
            s.bmp_clear(b as u32)
        };
        lemma_apply(t, marks, b + 1);
        let u = t.apply_marks(marks, b + 1);
        assert forall|c: int| 0 <= c < s.total implies #[trigger] u.bmp[c] == if c < b {
            s.bmp[c]
        } else {
            marks[c]
        } by {
            if c <= b {
                assert(u.bmp[c] == t.bmp[c]);
            }
        }
    }
}

/// A way through a tree: it starts at the root directory, and each block names the next.
pub open spec fn path_ok(s: MfsView, itab: u32, p: Seq<u32>) -> bool {
    &&& p.len() > 0
    &&& p[0] == root_of(s, itab)
    &&& forall|i: int| 0 <= i < p.len() ==> 0 < #[trigger] p[i] < s.total
    &&& forall|i: int|
        0 <= i < p.len() - 1 ==> names(s, index_of(s, itab), #[trigger] p[i], p[i + 1])
}

/// The blocks on a way are seen.
proof fn lemma_path(s: MfsView, itab: u32, seen: Seq<bool>, marks: Seq<bool>, p: Seq<u32>, i: int)
    requires
        closed(s, index_of(s, itab), seen, marks, root_of(s, itab)),
        marks.len() == s.total,
        path_ok(s, itab, p),
        0 <= i < p.len(),
    ensures
        p[i] < seen.len(),
        seen[p[i] as int],
    decreases i,
{
    if i > 0 {
        lemma_path(s, itab, seen, marks, p, i - 1);
        assert(seen[p[i - 1] as int]);
        let g = GcView { marks, seen, stack: Seq::empty() };
        assert(done(s, index_of(s, itab), g, p[i - 1]));
        assert(names(s, index_of(s, itab), p[i - 1], p[i - 1 + 1]));
        assert(reached(g, p[i]));
        assert(0 < p[i] < s.total);
    }
}

/// There are no more free blocks than blocks.
proof fn lemma_count(m: Seq<bool>, n: int)
    requires
        0 <= n,
    ensures
        0 <= mfs::count_free(m, n) <= n,
    decreases n,
{
    if n > 0 {
        lemma_count(m, n - 1);
    }
}

/// What a collection that succeeds leaves.
pub proof fn lemma_gc(s: MfsView)
    requires
        mfs_cow::sound(s),
        s.gc().1 is Some,
    ensures
        ({
            let u = s.gc().0;
            &&& mfs_cow::sound(u)
            &&& u.vol == s.vol
            &&& u.total == s.total
            &&& u.itab_mem == s.itab_mem
            &&& u.tab_idx == s.tab_idx
            &&& u.tab_buf == s.tab_buf
            &&& u.itab == s.itab
            &&& u.snaps == s.snaps
            &&& s.gc_mark().1
            &&& s.gc_mark().0.marks.len() == s.total
            &&& u.bmp.subrange(0, s.total as int) == s.gc_mark().0.marks
            &&& u.free == mfs::count_free(s.gc_mark().0.marks, s.total as int)
            &&& forall|b: int| 0 <= b < mfs::data_start(s.total) && b < s.total ==> #[trigger] u.bmp[b]
            &&& forall|b: u32|
                mfs::data_start(s.total) <= b < s.total ==> #[trigger] u.rd(b) == s.rd(b)
                    || !u.bmp[b as int]
            &&& root_kept(s, s.itab, u.bmp.subrange(0, s.total as int))
            &&& forall|j: int|
                0 <= j < s.snaps.len() ==> root_kept(
                    s,
                    (#[trigger] s.snaps[j]).itab,
                    u.bmp.subrange(0, s.total as int),
                )
        }),
{
    reveal(MfsView::gc);
    let (g, ok) = s.gc_mark();
    let n = s.total as nat;
    reveal(MfsView::gc_mark);
    let g0 = GcView {
        marks: Seq::new(n, |i: int| i < mfs::data_start(s.total)),
        seen: Seq::new(n, |i: int| false),
        stack: Seq::empty(),
    };
    lemma_gc_root(s, g0, s.itab);
    let (g1, ok1) = s.gc_root(g0, s.itab);
    lemma_gc_snaps(s, g1, 0);
    lemma_root_kept(s, s.itab, g1.marks, g.marks);
    lemma_apply(s, g.marks, 0);
    let s2 = s.apply_marks(g.marks, 0);
    let t = MfsView {
        free: mfs::count_free(g.marks, s.total as int) as u32,
        alloc_next: mfs::data_start(s.total) as u32,
        ..s2
    };
    mfs_cow::lemma_flush(t);
    let u = s.gc().0;
    assert(u == t.flush().0);
    assert(u.bmp.subrange(0, s.total as int) =~= g.marks);
    lemma_count(g.marks, s.total as int);
    assert forall|b: int| 0 <= b < mfs::data_start(s.total) && b < s.total implies #[trigger] u.bmp[b] by {
        assert(g0.marks[b]);
        assert(g1.marks[b]);
        assert(g.marks[b]);
    }
    assert forall|b: u32| mfs::data_start(s.total) <= b < s.total implies #[trigger] u.rd(b)
        == s.rd(b) || !u.bmp[b as int] by {
        if u.bmp[b as int] {
            assert(mfs_cow::held(t, b));
            assert(mfs_cow::held(u, b));
            assert(u.rd(b) == t.rd(b));
            assert(t.rd(b) == s.rd(b));
        }
    }
}

/// A table whose blocks a collection keeps: the present one, or that of a snapshot.
pub open spec fn is_root(s: MfsView, itab: u32) -> bool {
    itab == s.itab || exists|j: int| 0 <= j < s.snaps.len() && (#[trigger] s.snaps[j]).itab == itab
}

/// Law: a collection frees nothing that can be reached. Every block of the data area on a way
/// through the present tree, or through that of a snapshot, is in use afterwards and holds
/// what it held; so is every data block that the last block of the way names.
pub proof fn law_collection_keeps(s: MfsView, itab: u32, p: Seq<u32>, c: u32)
    requires
        mfs_cow::sound(s),
        s.gc().1 is Some,
        is_root(s, itab),
        path_ok(s, itab, p),
        c == p.last() || (names_data(s, p.last(), c) && 0 < c < s.total),
    ensures
        s.gc().0.bmp[c as int],
        mfs::data_start(s.total) <= c ==> mfs_cow::held(s.gc().0, c) && s.gc().0.rd(c) == s.rd(c),
{
    lemma_gc(s);
    let u = s.gc().0;
    let marks = u.bmp.subrange(0, s.total as int);
    assert(root_kept(s, itab, marks)) by {
        if itab != s.itab {
            let j = choose|j: int| 0 <= j < s.snaps.len() && (#[trigger] s.snaps[j]).itab == itab;
            assert(root_kept(s, s.snaps[j].itab, marks));
        }
    }
    assert(p[0] < s.total);
    let seen = choose|seen: Seq<bool>| #[trigger]
        closed(s, index_of(s, itab), seen, marks, root_of(s, itab));
    let last = p.last();
    lemma_path(s, itab, seen, marks, p, p.len() - 1);
    let g = GcView { marks, seen, stack: Seq::empty() };
    assert(seen[last as int]);
    assert(done(s, index_of(s, itab), g, last));
    if c == last {
        assert(marks[c as int]);
    } else {
        assert(marked(g, c));
        assert(marks[c as int]);
    }
    assert(u.bmp[c as int]);
    if mfs::data_start(s.total) <= c {
        assert(u.rd(c) == s.rd(c) || !u.bmp[c as int]);
    }
}

/// One more block on a way.
pub proof fn lemma_step(s: MfsView, itab: u32, p: Seq<u32>, c: u32)
    requires
        path_ok(s, itab, p),
        names(s, index_of(s, itab), p.last(), c),
        0 < c < s.total,
    ensures
        path_ok(s, itab, p.push(c)),
{
    let q = p.push(c);
    assert forall|i: int| 0 <= i < q.len() - 1 implies names(
        s,
        index_of(s, itab),
        #[trigger] q[i],
        q[i + 1],
    ) by {
        if i < p.len() - 1 {
            assert(p[i] == q[i]);
            assert(names(s, index_of(s, itab), p[i], p[i + 1]));
        }
    }
    assert forall|i: int| 0 <= i < q.len() implies 0 < #[trigger] q[i] < s.total by {
        if i < p.len() {
            assert(0 < p[i] < s.total);
        }
    }
}

/// The state before a collection with only the blocks in use that are so after it.
pub open spec fn trimmed(s: MfsView) -> MfsView {
    MfsView { bmp: s.gc().0.bmp, ..s }
}

/// A block on a way, or a data block at its end, is in use in the trimmed state.
proof fn lemma_kept(s: MfsView, itab: u32, p: Seq<u32>, c: u32)
    requires
        mfs_cow::sound(s),
        s.gc().1 is Some,
        is_root(s, itab),
        path_ok(s, itab, p),
        c == p.last() || names_data(s, p.last(), c),
        mfs_cow::held(s, c),
        c != 0,
    ensures
        mfs_cow::held(trimmed(s), c),
        forall|m: u32| #[trigger] trimmed(s).load(c, m) == s.load(c, m),
{
    law_collection_keeps(s, itab, p, c);
    lemma_gc(s);
    assert(trimmed(s).rd(c) == s.rd(c));
}

/// A single indirect block on a way.
proof fn lemma_ind1_kept(s: MfsView, itab: u32, p: Seq<u32>, b: u32)
    requires
        mfs_cow::sound(s),
        s.gc().1 is Some,
        is_root(s, itab),
        b != 0 ==> path_ok(s, itab, p) && p.last() == b,
        mfs_laws::ind1_ok(s, b),
    ensures
        mfs_laws::ind1_ok(trimmed(s), b),
{
    if b != 0 {
        let t = trimmed(s);
        lemma_kept(s, itab, p, b);
        let d = s.load(b, MFS_MAGIC_IND)->Some_0;
        assert(t.load(b, MFS_MAGIC_IND) == s.load(b, MFS_MAGIC_IND));
        lemma_one_kind(d, MFS_MAGIC_IND);
        assert forall|i: int| 0 <= i < 1022 implies mfs_laws::leaf_ok(
            t,
            #[trigger] mfs::slot(d, i),
        ) by {
            let c = mfs::slot(d, i);
            assert(mfs_laws::leaf_ok(s, c));
            if c != 0 {
                assert(slot_is(d, c));
                assert(names_data(s, b, c));
                lemma_kept(s, itab, p, c);
                assert(t.load(c, MFS_MAGIC_DATA) == s.load(c, MFS_MAGIC_DATA));
            }
        }
    }
}

/// A block is of one kind.
proof fn lemma_one_kind(b: Seq<u8>, magic: u32)
    requires
        mfs::block_ok(b, magic),
    ensures
        forall|m: u32| m != magic ==> !#[trigger] mfs::block_ok(b, m),
{
    assert forall|m: u32| m != magic implies !#[trigger] mfs::block_ok(b, m) by {
        if mfs::block_ok(b, m) {
            mfs::law_one_kind(b, magic, m);
        }
    }
}

/// A double indirect block on a way.
proof fn lemma_ind2_kept(s: MfsView, itab: u32, p: Seq<u32>, b: u32)
    requires
        mfs_cow::sound(s),
        s.gc().1 is Some,
        is_root(s, itab),
        b != 0 ==> path_ok(s, itab, p) && p.last() == b,
        mfs_laws::ind2_ok(s, b),
    ensures
        mfs_laws::ind2_ok(trimmed(s), b),
{
    if b != 0 {
        let t = trimmed(s);
        lemma_kept(s, itab, p, b);
        let d = s.load(b, MFS_MAGIC_IND2)->Some_0;
        assert(t.load(b, MFS_MAGIC_IND2) == s.load(b, MFS_MAGIC_IND2));
        lemma_one_kind(d, MFS_MAGIC_IND2);
        assert forall|i: int| 0 <= i < 1022 implies mfs_laws::ind1_ok(
            t,
            #[trigger] mfs::slot(d, i),
        ) by {
            let c = mfs::slot(d, i);
            assert(mfs_laws::ind1_ok(s, c));
            if c != 0 {
                assert(slot_is(d, c));
                assert(names(s, index_of(s, itab), b, c));
                lemma_step(s, itab, p, c);
                lemma_ind1_kept(s, itab, p.push(c), c);
            }
        }
    }
}

/// A triple indirect block on a way.
proof fn lemma_ind3_kept(s: MfsView, itab: u32, p: Seq<u32>, b: u32)
    requires
        mfs_cow::sound(s),
        s.gc().1 is Some,
        is_root(s, itab),
        b != 0 ==> path_ok(s, itab, p) && p.last() == b,
        mfs_laws::ind3_ok(s, b),
    ensures
        mfs_laws::ind3_ok(trimmed(s), b),
{
    if b != 0 {
        let t = trimmed(s);
        lemma_kept(s, itab, p, b);
        let d = s.load(b, MFS_MAGIC_IND3)->Some_0;
        assert(t.load(b, MFS_MAGIC_IND3) == s.load(b, MFS_MAGIC_IND3));
        lemma_one_kind(d, MFS_MAGIC_IND3);
        assert forall|i: int| 0 <= i < 1022 implies mfs_laws::ind2_ok(
            t,
            #[trigger] mfs::slot(d, i),
        ) by {
            let c = mfs::slot(d, i);
            assert(mfs_laws::ind2_ok(s, c));
            if c != 0 {
                assert(slot_is(d, c));
                assert(names(s, index_of(s, itab), b, c));
                lemma_step(s, itab, p, c);
                lemma_ind2_kept(s, itab, p.push(c), c);
            }
        }
    }
}

/// A file node on a way.
proof fn lemma_node_kept(s: MfsView, p: Seq<u32>, blk: u32, a: Seq<u8>)
    requires
        mfs_cow::sound(s),
        s.gc().1 is Some,
        path_ok(s, s.itab, p),
        p.last() == blk,
        mfs_cow::held(s, blk),
        s.load(blk, MFS_MAGIC_FILE) == Some(a),
        mfs_laws::node_ok(s, a),
    ensures
        mfs_laws::node_ok(trimmed(s), a),
{
    let t = trimmed(s);
    lemma_one_kind(a, MFS_MAGIC_FILE);
    assert forall|i: int| 0 <= i < 1005 implies mfs_laws::leaf_ok(
        t,
        #[trigger] bytes::le32(a, 24 + 4 * i),
    ) by {
        let c = bytes::le32(a, 24 + 4 * i);
        assert(mfs_laws::leaf_ok(s, c));
        if c != 0 {
            assert(direct_is(a, c));
            assert(names_data(s, blk, c));
            lemma_kept(s, s.itab, p, c);
            assert(t.load(c, MFS_MAGIC_DATA) == s.load(c, MFS_MAGIC_DATA));
        }
    }
    let l1 = bytes::le32(a, 4044);
    let l2 = bytes::le32(a, 4048);
    let l3 = bytes::le32(a, 4052);
    if l1 != 0 {
        assert(names(s, index_of(s, s.itab), blk, l1));
        lemma_step(s, s.itab, p, l1);
    }
    lemma_ind1_kept(s, s.itab, p.push(l1), l1);
    if l2 != 0 {
        assert(names(s, index_of(s, s.itab), blk, l2));
        lemma_step(s, s.itab, p, l2);
    }
    lemma_ind2_kept(s, s.itab, p.push(l2), l2);
    if l3 != 0 {
        assert(names(s, index_of(s, s.itab), blk, l3));
        lemma_step(s, s.itab, p, l3);
    }
    lemma_ind3_kept(s, s.itab, p.push(l3), l3);
}

/// Law: a file that can be reached through the present tree keeps its bytes in a collection.
pub proof fn law_collection_keeps_file(s: MfsView, ino: u32, a: Seq<u8>, p: Seq<u32>)
    requires
        mfs_laws::file_ok(s, ino, a),
        mfs_snap::index_ok(s),
        s.gc().1 is Some,
        path_ok(s, s.itab, p),
        p.last() == mfs_cow::obj(s, ino),
    ensures
        mfs_laws::file_ok(s.gc().0, ino, a),
        mfs_laws::content(s.gc().0, a) == mfs_laws::content(s, a),
{
    let t = trimmed(s);
    let u = s.gc().0;
    let blk = mfs_cow::obj(s, ino);
    lemma_gc(s);
    lemma_kept(s, s.itab, p, blk);
    lemma_node_kept(s, p, blk, a);
    assert(mfs_cow::sound(t));
    assert(mfs_cow::stable(t, u)) by {
        assert forall|b: u32| mfs_cow::held(t, b) implies #[trigger] mfs_cow::held(u, b) && u.rd(b)
            == t.rd(b) by {
            assert(u.rd(b) == s.rd(b) || !u.bmp[b as int]);
            assert(t.rd(b) == s.rd(b));
        }
    }
    lemma_trimmed_table(s);
    assert(mfs_cow::obj(t, ino) == blk);
    assert forall|b: u32, m: u32| #[trigger] t.load(b, m) == s.load(b, m) by {
        assert(t.rd(b) == s.rd(b));
    }
    lemma_trimmed_file(s, ino, a);
    mfs_cow::lemma_obj_stable(t, u);
    mfs_laws::lemma_file_elsewhere(t, u, ino, a);
}

/// The inode table in the trimmed state.
proof fn lemma_trimmed_table(s: MfsView)
    requires
        mfs_snap::index_ok(s),
        s.gc().1 is Some,
    ensures
        mfs_cow::table_ok(trimmed(s)),
        forall|i: u32| #[trigger] mfs_cow::obj(trimmed(s), i) == mfs_cow::obj(s, i),
{
    let t = trimmed(s);
    lemma_gc(s);
    let marks = t.bmp.subrange(0, s.total as int);
    assert forall|b: u32, m: u32| #[trigger] t.load(b, m) == s.load(b, m) by {
        assert(t.rd(b) == s.rd(b));
    }
    assert forall|k: int| 0 <= k < 1022 && #[trigger] t.itab_mem[k] != 0 implies mfs_cow::held(
        t,
        t.itab_mem[k],
    ) && t.load(t.itab_mem[k], MFS_MAGIC_ITAB) is Some by {
        let x = index_of(s, s.itab);
        assert(mfs::slot(x, k) == s.itab_mem[k]);
        assert(mfs_cow::held(s, s.itab_mem[k]));
        assert(marks[mfs::slot(x, k) as int]);
    }
}

/// A file in the trimmed state.
proof fn lemma_trimmed_file(s: MfsView, ino: u32, a: Seq<u8>)
    requires
        mfs_laws::file_ok(s, ino, a),
        mfs_cow::table_ok(trimmed(s)),
        mfs_cow::obj(trimmed(s), ino) == mfs_cow::obj(s, ino),
        mfs_cow::held(trimmed(s), mfs_cow::obj(s, ino)),
        mfs_laws::node_ok(trimmed(s), a),
        forall|b: u32, m: u32| #[trigger] trimmed(s).load(b, m) == s.load(b, m),
    ensures
        mfs_laws::file_ok(trimmed(s), ino, a),
        mfs_laws::content(trimmed(s), a) == mfs_laws::content(s, a),
{
    let t = trimmed(s);
    assert forall|m: u32, b: u32, i: int| #[trigger] mfs_laws::val(t, m, b, i) == mfs_laws::val(
        s,
        m,
        b,
        i,
    ) by {
        assert(t.load(b, m) == s.load(b, m));
    }
    assert forall|p: crate::mfs_file::MfsMapPlan| #[trigger] mfs_laws::mapv(t, a, p)
        == mfs_laws::mapv(s, a, p) by {}
    assert forall|b: u32| #[trigger] mfs_laws::bytes_at(t, b) == mfs_laws::bytes_at(s, b) by {
        assert(t.load(b, MFS_MAGIC_DATA) == s.load(b, MFS_MAGIC_DATA));
    }
    assert forall|bj: int, k: int|
        0 <= bj < crate::mfs_file::MFS_FILE_MAX_BLOCKS && 0 <= k < 4088 && bj * 4088 + k
            >= crate::mfs_file::file_size(a) implies #[trigger] mfs_laws::bytes_at(
        t,
        mfs_laws::mapv(t, a, mfs_laws::at(bj)),
    )[k] == 0 by {
        assert(mfs_laws::bytes_at(s, mfs_laws::mapv(s, a, mfs_laws::at(bj)))[k] == 0);
    }
    assert(mfs_laws::content(t, a) =~= mfs_laws::content(s, a));
}

} // verus!
