//! MorionFS: what a snapshot brings back.
use vstd::prelude::*;

use crate::mfs;
use crate::mfs::{MfsSnap, MfsView, MFS_MAGIC_ITAB, MFS_MAGIC_ITABX};
use crate::mfs_cow;
use crate::mfs_laws;

verus! {

/// The index of the inode table is in use, on the volume, and says what the one in memory
/// does.
pub open spec fn index_ok(s: MfsView) -> bool {
    &&& mfs_cow::table_ok(s)
    &&& s.itab != 0
    &&& mfs_cow::held(s, s.itab)
    &&& s.load(s.itab, MFS_MAGIC_ITABX) matches Some(x) && forall|k: int|
        0 <= k < 1022 ==> #[trigger] mfs::slot(x, k) == s.itab_mem[k]
}

/// A snapshot taken: nothing in use changes, and the record names the present inode table.
proof fn lemma_snapshot(s: MfsView)
    requires
        index_ok(s),
    ensures
        mfs_cow::stable(s, s.snapshot().0),
        s.snapshot().1 matches Some(i) ==> i < s.snapshot().0.snaps.len()
            && s.snapshot().0.snaps[i as int] == (MfsSnap {
            gen: s.gen,
            itab: s.itab,
            ino_hint: s.ino_hint,
            alloc_next: s.alloc_next,
        }) && s.snapshot().0.snaps == s.with_snapshot(),
{
    reveal(MfsView::snapshot);
    let s1 = MfsView { snaps: s.with_snapshot(), ..s };
    mfs_cow::lemma_flush(s1);
    let t = s1.flush().0;
    assert forall|b: u32| mfs_cow::held(s, b) implies #[trigger] mfs_cow::held(t, b) && t.rd(b)
        == s.rd(b) by {
        assert(mfs_cow::held(s1, b));
        assert(mfs_cow::held(t, b));
        assert(t.rd(b) == s1.rd(b));
    }
}

/// Law: a snapshot is the state that it was taken of. Whatever is done between, as long as
/// what was in use is kept and the record stays, restoring it brings back every object at
/// the place where it was, and nothing of it has changed.
pub proof fn law_snapshot_restores(s: MfsView, u: MfsView)
    requires
        index_ok(s),
        s.snapshot().1 is Some,
        mfs_cow::stable(s.snapshot().0, u),
        s.snapshot().1->Some_0 < u.snaps.len(),
        u.snaps[s.snapshot().1->Some_0 as int] == s.snapshot().0.snaps[s.snapshot().1->Some_0 as int],
        u.restore(s.snapshot().1->Some_0 as u32).1,
    ensures
        ({
            let v = u.restore(s.snapshot().1->Some_0 as u32).0;
            &&& mfs_cow::stable(s, v)
            &&& mfs_cow::table_ok(v)
            &&& forall|i: u32|
                mfs_cow::good_ino(i) ==> #[trigger] mfs_cow::obj(v, i) == mfs_cow::obj(s, i)
            &&& forall|i: u32, a: Seq<u8>| #[trigger]
                mfs_laws::file_ok(s, i, a) ==> mfs_laws::file_ok(v, i, a) && mfs_laws::content(v, a)
                    == mfs_laws::content(s, a)
        }),
{
    lemma_snapshot(s);
    let t = s.snapshot().0;
    let i = s.snapshot().1->Some_0;
    mfs_cow::lemma_stable_trans(s, t, u);
    reveal(MfsView::restore);
    let p = u.snaps[i as int];
    let u1 = MfsView {
        itab: p.itab,
        ino_hint: p.ino_hint,
        alloc_next: p.alloc_next,
        gen: p.gen,
        ..u
    };
    reveal(MfsView::itab_reload);
    let u2 = u1.itab_reload().0;
    mfs_laws::lemma_load(s, u, s.itab, MFS_MAGIC_ITABX);
    assert(u1.load(s.itab, MFS_MAGIC_ITABX) == u.load(s.itab, MFS_MAGIC_ITABX));
    assert(u2.itab_mem =~= s.itab_mem);
    assert(mfs_cow::stable(s, u2)) by {
        assert forall|b: u32| mfs_cow::held(s, b) implies #[trigger] mfs_cow::held(u2, b) && u2.rd(
            b,
        ) == s.rd(b) by {
            assert(mfs_cow::held(u, b));
            assert(u.rd(b) == s.rd(b));
        }
    }
    mfs_cow::lemma_flush(u2);
    let v = u2.flush().0;
    mfs_cow::lemma_stable_trans(s, u2, v);
    lemma_same_table(s, v);
    assert forall|i: u32, a: Seq<u8>| #[trigger] mfs_laws::file_ok(s, i, a) implies mfs_laws::file_ok(
        v,
        i,
        a,
    ) && mfs_laws::content(v, a) == mfs_laws::content(s, a) by {
        assert(mfs_cow::obj(v, i) == mfs_cow::obj(s, i));
        mfs_laws::lemma_file_elsewhere(s, v, i, a);
    }
}

/// The same index over blocks that are kept names the same objects.
proof fn lemma_same_table(s: MfsView, v: MfsView)
    requires
        mfs_cow::table_ok(s),
        mfs_cow::stable(s, v),
        v.itab_mem == s.itab_mem,
        v.tab_idx == u32::MAX,
    ensures
        mfs_cow::table_ok(v),
        forall|i: u32|
            mfs_cow::good_ino(i) ==> #[trigger] mfs_cow::obj(v, i) == mfs_cow::obj(s, i),
{
    assert forall|k: int| 0 <= k < 1022 && #[trigger] v.itab_mem[k] != 0 implies mfs_cow::held(
        v,
        v.itab_mem[k],
    ) && v.load(v.itab_mem[k], MFS_MAGIC_ITAB) == s.load(s.itab_mem[k], MFS_MAGIC_ITAB) by {
        assert(s.itab_mem[k] != 0);
        mfs_laws::lemma_load(s, v, s.itab_mem[k], MFS_MAGIC_ITAB);
    }
    assert forall|i: u32| mfs_cow::good_ino(i) implies #[trigger] mfs_cow::obj(v, i)
        == mfs_cow::obj(s, i) by {
        assert(0 <= i as int / 1022 < 1022);
        assert(v.itab_mem[i as int / 1022] == s.itab_mem[i as int / 1022]);
    }
}

} // verus!
