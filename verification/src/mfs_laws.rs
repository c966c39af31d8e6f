//! MorionFS: what a write to a file leaves, and what a read gives back.
use vstd::prelude::*;

use crate::bytes;
use crate::mfs;
use crate::mfs::{
    MfsView, MFS_MAGIC_DATA, MFS_MAGIC_FILE, MFS_MAGIC_IND, MFS_MAGIC_IND2, MFS_MAGIC_IND3,
};
use crate::mfs_cow;
use crate::mfs_dir;
use crate::mfs_file;
use crate::mfs_file::{MfsMapPlan, WriterView, MFS_FILE_MAX_BLOCKS, MFS_FILE_MAX_BYTES};
use crate::tmpfs;

verus! {

/// A number of a data block: a hole, or a block in use that holds data.
pub open spec fn leaf_ok(s: MfsView, b: u32) -> bool {
    b == 0 || (mfs_cow::held(s, b) && s.load(b, MFS_MAGIC_DATA) is Some)
}

/// All slots of a block name data blocks.
pub open spec fn leaves_ok(s: MfsView, b: Seq<u8>) -> bool {
    forall|i: int| 0 <= i < 1022 ==> leaf_ok(s, #[trigger] mfs::slot(b, i))
}

/// A single indirect block in good order.
pub open spec fn ind1_ok(s: MfsView, b: u32) -> bool {
    b == 0 || (mfs_cow::held(s, b) && s.load(b, MFS_MAGIC_IND) is Some && leaves_ok(
        s,
        s.load(b, MFS_MAGIC_IND)->Some_0,
    ))
}

/// All slots of a block name single indirect blocks.
pub open spec fn ind1s_ok(s: MfsView, b: Seq<u8>) -> bool {
    forall|i: int| 0 <= i < 1022 ==> ind1_ok(s, #[trigger] mfs::slot(b, i))
}

/// A double indirect block in good order.
pub open spec fn ind2_ok(s: MfsView, b: u32) -> bool {
    b == 0 || (mfs_cow::held(s, b) && s.load(b, MFS_MAGIC_IND2) is Some && ind1s_ok(
        s,
        s.load(b, MFS_MAGIC_IND2)->Some_0,
    ))
}

/// All slots of a block name double indirect blocks.
pub open spec fn ind2s_ok(s: MfsView, b: Seq<u8>) -> bool {
    forall|i: int| 0 <= i < 1022 ==> ind2_ok(s, #[trigger] mfs::slot(b, i))
}

/// A triple indirect block in good order.
pub open spec fn ind3_ok(s: MfsView, b: u32) -> bool {
    b == 0 || (mfs_cow::held(s, b) && s.load(b, MFS_MAGIC_IND3) is Some && ind2s_ok(
        s,
        s.load(b, MFS_MAGIC_IND3)->Some_0,
    ))
}

/// The direct numbers of a file node.
pub open spec fn direct_ok(s: MfsView, a: Seq<u8>) -> bool {
    forall|i: int| 0 <= i < 1005 ==> leaf_ok(s, #[trigger] bytes::le32(a, 24 + 4 * i))
}

/// A file node all of whose blocks are in use and readable.
pub open spec fn node_ok(s: MfsView, a: Seq<u8>) -> bool {
    &&& a.len() == 4096
    &&& direct_ok(s, a)
    &&& ind1_ok(s, bytes::le32(a, 4044))
    &&& ind2_ok(s, bytes::le32(a, 4048))
    &&& ind3_ok(s, bytes::le32(a, 4052))
}

/// Slot `i` of indirect block `b`.
pub open spec fn val(s: MfsView, magic: u32, b: u32, i: int) -> u32 {
    if b == 0 {
        0
    } else {
        mfs::slot(s.load(b, magic)->Some_0, i)
    }
}

/// A place within the slots there are.
pub open spec fn good_plan(p: MfsMapPlan) -> bool {
    &&& p.kind <= 3
    &&& p.slot1 < 1022 && p.slot2 < 1022 && p.slot3 < 1022
    &&& p.kind == 0 ==> p.slot1 < 1005
    &&& p.kind <= 1 ==> p.slot2 == 0
    &&& p.kind <= 2 ==> p.slot3 == 0
}

/// The place of a block of a file.
#[verifier::opaque]
pub open spec fn at(bi: int) -> MfsMapPlan {
    mfs_file::plan(bi)->Some_0
}

/// Places are good, and different blocks have different places.
pub proof fn lemma_at(bi: int, bj: int)
    requires
        0 <= bi < MFS_FILE_MAX_BLOCKS,
        0 <= bj < MFS_FILE_MAX_BLOCKS,
    ensures
        mfs_file::plan(bi) == Some(at(bi)),
        good_plan(at(bi)),
        bi != bj ==> at(bi) != at(bj),
{
    reveal(at);
    mfs_file::law_plan_is_exact(bi);
    mfs_file::law_plan_is_exact(bj);
}

/// The disk block behind a place.
pub open spec fn mapv(s: MfsView, a: Seq<u8>, p: MfsMapPlan) -> u32 {
    if p.kind == 0 {
        bytes::le32(a, 24 + 4 * p.slot1)
    } else if p.kind == 1 {
        val(s, MFS_MAGIC_IND, bytes::le32(a, 4044), p.slot1 as int)
    } else if p.kind == 2 {
        val(
            s,
            MFS_MAGIC_IND,
            val(s, MFS_MAGIC_IND2, bytes::le32(a, 4048), p.slot2 as int),
            p.slot1 as int,
        )
    } else {
        val(
            s,
            MFS_MAGIC_IND,
            val(
                s,
                MFS_MAGIC_IND2,
                val(s, MFS_MAGIC_IND3, bytes::le32(a, 4052), p.slot3 as int),
                p.slot2 as int,
            ),
            p.slot1 as int,
        )
    }
}

/// The map of a file in good order can be followed.
pub proof fn lemma_map_at(s: MfsView, a: Seq<u8>, p: MfsMapPlan)
    requires
        node_ok(s, a),
        good_plan(p),
    ensures
        s.map_at(a, p) == Some(mapv(s, a, p)),
        leaf_ok(s, mapv(s, a, p)),
{
    if p.kind == 1 {
        lemma_val1(s, bytes::le32(a, 4044), p.slot1 as int);
    } else if p.kind == 2 {
        lemma_val2(s, bytes::le32(a, 4048), p.slot2 as int);
        lemma_val1(
            s,
            val(s, MFS_MAGIC_IND2, bytes::le32(a, 4048), p.slot2 as int),
            p.slot1 as int,
        );
    } else if p.kind == 3 {
        lemma_val3(s, bytes::le32(a, 4052), p.slot3 as int);
        let l2 = val(s, MFS_MAGIC_IND3, bytes::le32(a, 4052), p.slot3 as int);
        lemma_val2(s, l2, p.slot2 as int);
        lemma_val1(s, val(s, MFS_MAGIC_IND2, l2, p.slot2 as int), p.slot1 as int);
    }
}

/// What a single indirect block leads to.
pub proof fn lemma_val1(s: MfsView, b: u32, i: int)
    requires
        ind1_ok(s, b),
        0 <= i < 1022,
    ensures
        s.through(b, MFS_MAGIC_IND, i as usize) == Some(val(s, MFS_MAGIC_IND, b, i)),
        leaf_ok(s, val(s, MFS_MAGIC_IND, b, i)),
{
}

/// What a double indirect block leads to.
pub proof fn lemma_val2(s: MfsView, b: u32, i: int)
    requires
        ind2_ok(s, b),
        0 <= i < 1022,
    ensures
        s.through(b, MFS_MAGIC_IND2, i as usize) == Some(val(s, MFS_MAGIC_IND2, b, i)),
        ind1_ok(s, val(s, MFS_MAGIC_IND2, b, i)),
{
}

/// What a triple indirect block leads to.
pub proof fn lemma_val3(s: MfsView, b: u32, i: int)
    requires
        ind3_ok(s, b),
        0 <= i < 1022,
    ensures
        s.through(b, MFS_MAGIC_IND3, i as usize) == Some(val(s, MFS_MAGIC_IND3, b, i)),
        ind2_ok(s, val(s, MFS_MAGIC_IND3, b, i)),
{
}

/// A block in use loads as before.
pub proof fn lemma_load(s: MfsView, t: MfsView, b: u32, m: u32)
    requires
        mfs_cow::stable(s, t),
        mfs_cow::held(s, b),
    ensures
        t.load(b, m) == s.load(b, m),
        mfs_cow::held(t, b),
{
    assert(mfs_cow::held(t, b));
    assert(t.rd(b) == s.rd(b));
}

/// Data blocks stay in good order.
pub proof fn lemma_leaf(s: MfsView, t: MfsView, b: u32)
    requires
        mfs_cow::stable(s, t),
        leaf_ok(s, b),
    ensures
        leaf_ok(t, b),
        b != 0 ==> t.load(b, MFS_MAGIC_DATA) == s.load(b, MFS_MAGIC_DATA),
{
    if b != 0 {
        lemma_load(s, t, b, MFS_MAGIC_DATA);
    }
}

/// The slots of a block stay in good order.
pub proof fn lemma_leaves(s: MfsView, t: MfsView, b: Seq<u8>)
    requires
        mfs_cow::stable(s, t),
        leaves_ok(s, b),
    ensures
        leaves_ok(t, b),
{
    assert forall|i: int| 0 <= i < 1022 implies leaf_ok(t, #[trigger] mfs::slot(b, i)) by {
        lemma_leaf(s, t, mfs::slot(b, i));
    }
}

/// Single indirect blocks stay in good order.
pub proof fn lemma_ind1(s: MfsView, t: MfsView, b: u32)
    requires
        mfs_cow::stable(s, t),
        ind1_ok(s, b),
    ensures
        ind1_ok(t, b),
        forall|i: int| #[trigger] val(t, MFS_MAGIC_IND, b, i) == val(s, MFS_MAGIC_IND, b, i),
{
    if b != 0 {
        lemma_load(s, t, b, MFS_MAGIC_IND);
        lemma_leaves(s, t, s.load(b, MFS_MAGIC_IND)->Some_0);
    }
}

/// The slots of a double indirect block stay in good order.
pub proof fn lemma_ind1s(s: MfsView, t: MfsView, b: Seq<u8>)
    requires
        mfs_cow::stable(s, t),
        ind1s_ok(s, b),
    ensures
        ind1s_ok(t, b),
{
    assert forall|i: int| 0 <= i < 1022 implies ind1_ok(t, #[trigger] mfs::slot(b, i)) by {
        lemma_ind1(s, t, mfs::slot(b, i));
    }
}

/// Double indirect blocks stay in good order.
pub proof fn lemma_ind2(s: MfsView, t: MfsView, b: u32)
    requires
        mfs_cow::stable(s, t),
        ind2_ok(s, b),
    ensures
        ind2_ok(t, b),
        forall|i: int| #[trigger] val(t, MFS_MAGIC_IND2, b, i) == val(s, MFS_MAGIC_IND2, b, i),
{
    if b != 0 {
        lemma_load(s, t, b, MFS_MAGIC_IND2);
        lemma_ind1s(s, t, s.load(b, MFS_MAGIC_IND2)->Some_0);
    }
}

/// The slots of a triple indirect block stay in good order.
pub proof fn lemma_ind2s(s: MfsView, t: MfsView, b: Seq<u8>)
    requires
        mfs_cow::stable(s, t),
        ind2s_ok(s, b),
    ensures
        ind2s_ok(t, b),
{
    assert forall|i: int| 0 <= i < 1022 implies ind2_ok(t, #[trigger] mfs::slot(b, i)) by {
        lemma_ind2(s, t, mfs::slot(b, i));
    }
}

/// Triple indirect blocks stay in good order.
pub proof fn lemma_ind3(s: MfsView, t: MfsView, b: u32)
    requires
        mfs_cow::stable(s, t),
        ind3_ok(s, b),
    ensures
        ind3_ok(t, b),
        forall|i: int| #[trigger] val(t, MFS_MAGIC_IND3, b, i) == val(s, MFS_MAGIC_IND3, b, i),
{
    if b != 0 {
        lemma_load(s, t, b, MFS_MAGIC_IND3);
        lemma_ind2s(s, t, s.load(b, MFS_MAGIC_IND3)->Some_0);
    }
}

/// A node stays in good order, and its map stays.
pub proof fn lemma_node(s: MfsView, t: MfsView, a: Seq<u8>)
    requires
        mfs_cow::stable(s, t),
        node_ok(s, a),
    ensures
        node_ok(t, a),
        forall|p: MfsMapPlan| good_plan(p) ==> #[trigger] mapv(t, a, p) == mapv(s, a, p),
{
    lemma_ind1(s, t, bytes::le32(a, 4044));
    lemma_ind2(s, t, bytes::le32(a, 4048));
    lemma_ind3(s, t, bytes::le32(a, 4052));
    assert forall|i: int| 0 <= i < 1005 implies leaf_ok(
        t,
        #[trigger] bytes::le32(a, 24 + 4 * i),
    ) by {
        lemma_leaf(s, t, bytes::le32(a, 24 + 4 * i));
    }
    assert forall|p: MfsMapPlan| good_plan(p) implies #[trigger] mapv(t, a, p) == mapv(s, a, p) by {
        if p.kind == 2 {
            lemma_val2(s, bytes::le32(a, 4048), p.slot2 as int);
            lemma_ind1(s, t, val(s, MFS_MAGIC_IND2, bytes::le32(a, 4048), p.slot2 as int));
        } else if p.kind == 3 {
            let l3 = bytes::le32(a, 4052);
            lemma_val3(s, l3, p.slot3 as int);
            let l2 = val(s, MFS_MAGIC_IND3, l3, p.slot3 as int);
            lemma_ind2(s, t, l2);
            lemma_val2(s, l2, p.slot2 as int);
            lemma_ind1(s, t, val(s, MFS_MAGIC_IND2, l2, p.slot2 as int));
        }
    }
}

/// A number in a node does not touch the others.
pub proof fn lemma_ptr(a: Seq<u8>, off: int, v: u32)
    requires
        a.len() == 4096,
        0 <= off <= 4092,
    ensures
        bytes::put32(a, off, v).len() == 4096,
        bytes::le32(bytes::put32(a, off, v), off) == v,
        forall|o: int|
            0 <= o <= 4092 && (o + 4 <= off || off + 4 <= o) ==> #[trigger] bytes::le32(
                bytes::put32(a, off, v),
                o,
            ) == bytes::le32(a, o),
        forall|k: int|
            0 <= k < 4096 && (k < off || off + 4 <= k) ==> #[trigger] bytes::put32(a, off, v)[k]
                == a[k],
{
    bytes::law_put32_reads_back(a, off, v);
}

/// A file node opened for writing in good order.
pub open spec fn wok(s: MfsView, w: WriterView) -> bool {
    &&& mfs_cow::sound(s)
    &&& node_ok(s, w.a)
    &&& w.b.len() == 4096
    &&& w.kind <= 2
    &&& w.kind != 0 ==> leaves_ok(s, w.b)
    &&& w.kind == 1 ==> w.slot2 == 0
    &&& w.kind == 2 ==> w.slot2 < 1022 && bytes::le32(w.a, 4048) != 0
    &&& w.kind == 1 && !w.dirty ==> forall|i: int|
        0 <= i < 1022 ==> #[trigger] mfs::slot(w.b, i) == val(
            s,
            MFS_MAGIC_IND,
            bytes::le32(w.a, 4044),
            i,
        )
    &&& w.kind == 2 && !w.dirty ==> forall|i: int|
        0 <= i < 1022 ==> #[trigger] mfs::slot(w.b, i) == val(
            s,
            MFS_MAGIC_IND,
            val(s, MFS_MAGIC_IND2, bytes::le32(w.a, 4048), w.slot2 as int),
            i,
        )
}

/// Whether the indirect block in memory is the one that a place needs.
pub open spec fn cached(w: WriterView, p: MfsMapPlan) -> bool {
    (p.kind == 1 || p.kind == 2) && w.kind == p.kind && w.slot2 == p.slot2
}

/// The disk block behind a place of a file opened for writing.
pub open spec fn amap(s: MfsView, w: WriterView, p: MfsMapPlan) -> u32 {
    if cached(w, p) {
        mfs::slot(w.b, p.slot1 as int)
    } else {
        mapv(s, w.a, p)
    }
}

/// With nothing pending the map is the node's.
pub proof fn lemma_clean(s: MfsView, w: WriterView, p: MfsMapPlan)
    requires
        wok(s, w),
        good_plan(p),
        w.kind == 0 || !w.dirty,
    ensures
        amap(s, w, p) == mapv(s, w.a, p),
{
}

/// Every place leads to a data block.
pub proof fn lemma_amap_ok(s: MfsView, w: WriterView, p: MfsMapPlan)
    requires
        wok(s, w),
        good_plan(p),
    ensures
        leaf_ok(s, amap(s, w, p)),
{
    if !cached(w, p) {
        lemma_map_at(s, w.a, p);
    }
}

/// The same map.
pub open spec fn same_map(s: MfsView, w: WriterView, t: MfsView, v: WriterView) -> bool {
    forall|p: MfsMapPlan| good_plan(p) ==> #[trigger] amap(t, v, p) == amap(s, w, p)
}

/// The bytes of a node that a write to the file does not touch: all but the numbers.
pub open spec fn same_head(a: Seq<u8>, b: Seq<u8>) -> bool {
    a.len() == b.len() && forall|k: int|
        0 <= k < 24 || 4056 <= k < 4096 ==> #[trigger] b[k] == a[k]
}

/// Only what a commit changes differs.
pub open spec fn committed(s: MfsView, t: MfsView) -> bool {
    &&& mfs_cow::stable(s, t)
    &&& t == (MfsView {
        store: t.store,
        bmp: t.bmp,
        free: t.free,
        dirty: t.dirty,
        alloc_next: t.alloc_next,
        ..s
    })
    &&& mfs_cow::in_sync(s) ==> mfs_cow::in_sync(t)
}

/// Commits one after the other.
pub proof fn lemma_committed_trans(s: MfsView, t: MfsView, u: MfsView)
    requires
        committed(s, t),
        committed(t, u),
    ensures
        committed(s, u),
{
    mfs_cow::lemma_stable_trans(s, t, u);
}

/// The node of a writer stays in good order.
pub proof fn lemma_wok_stable(s: MfsView, t: MfsView, w: WriterView)
    requires
        wok(s, w),
        committed(s, t),
    ensures
        wok(t, w),
        same_map(s, w, t, w),
{
    lemma_node(s, t, w.a);
    if w.kind != 0 {
        lemma_leaves(s, t, w.b);
    }
    lemma_ind1(s, t, bytes::le32(w.a, 4044));
    lemma_ind2(s, t, bytes::le32(w.a, 4048));
    if w.kind == 2 {
        lemma_val2(s, bytes::le32(w.a, 4048), w.slot2 as int);
        lemma_ind1(s, t, val(s, MFS_MAGIC_IND2, bytes::le32(w.a, 4048), w.slot2 as int));
    }
}

/// A new single indirect block with given slots.
pub proof fn lemma_new_ind1(s: MfsView, b: Seq<u8>)
    requires
        mfs_cow::sound(s),
        b.len() == 4096,
        leaves_ok(s, b),
    ensures
        committed(s, s.commit(b, MFS_MAGIC_IND).0),
        s.commit(b, MFS_MAGIC_IND).1 matches Some(n) ==> n != 0 && ind1_ok(
            s.commit(b, MFS_MAGIC_IND).0,
            n,
        ) && forall|i: int|
            0 <= i < 1022 ==> #[trigger] val(s.commit(b, MFS_MAGIC_IND).0, MFS_MAGIC_IND, n, i)
                == mfs::slot(b, i),
{
    mfs_cow::lemma_commit(s, b, MFS_MAGIC_IND);
    mfs_cow::lemma_sealed_slots(b, MFS_MAGIC_IND);
    let (t, r) = s.commit(b, MFS_MAGIC_IND);
    if r is Some {
        let d = mfs::sealed(b, MFS_MAGIC_IND);
        assert forall|i: int| 0 <= i < 1022 implies leaf_ok(t, #[trigger] mfs::slot(d, i)) by {
            assert(mfs::slot(d, i) == mfs::slot(b, i));
            lemma_leaf(s, t, mfs::slot(b, i));
        }
    }
}

/// A new double indirect block with given slots.
pub proof fn lemma_new_ind2(s: MfsView, b: Seq<u8>)
    requires
        mfs_cow::sound(s),
        b.len() == 4096,
        ind1s_ok(s, b),
    ensures
        committed(s, s.commit(b, MFS_MAGIC_IND2).0),
        s.commit(b, MFS_MAGIC_IND2).1 matches Some(n) ==> n != 0 && ind2_ok(
            s.commit(b, MFS_MAGIC_IND2).0,
            n,
        ) && forall|i: int|
            0 <= i < 1022 ==> #[trigger] val(s.commit(b, MFS_MAGIC_IND2).0, MFS_MAGIC_IND2, n, i)
                == mfs::slot(b, i),
{
    mfs_cow::lemma_commit(s, b, MFS_MAGIC_IND2);
    mfs_cow::lemma_sealed_slots(b, MFS_MAGIC_IND2);
    let (t, r) = s.commit(b, MFS_MAGIC_IND2);
    if r is Some {
        let d = mfs::sealed(b, MFS_MAGIC_IND2);
        assert forall|i: int| 0 <= i < 1022 implies ind1_ok(t, #[trigger] mfs::slot(d, i)) by {
            assert(mfs::slot(d, i) == mfs::slot(b, i));
            lemma_ind1(s, t, mfs::slot(b, i));
        }
    }
}

/// A new triple indirect block with given slots.
pub proof fn lemma_new_ind3(s: MfsView, b: Seq<u8>)
    requires
        mfs_cow::sound(s),
        b.len() == 4096,
        ind2s_ok(s, b),
    ensures
        committed(s, s.commit(b, MFS_MAGIC_IND3).0),
        s.commit(b, MFS_MAGIC_IND3).1 matches Some(n) ==> n != 0 && ind3_ok(
            s.commit(b, MFS_MAGIC_IND3).0,
            n,
        ) && forall|i: int|
            0 <= i < 1022 ==> #[trigger] val(s.commit(b, MFS_MAGIC_IND3).0, MFS_MAGIC_IND3, n, i)
                == mfs::slot(b, i),
{
    mfs_cow::lemma_commit(s, b, MFS_MAGIC_IND3);
    mfs_cow::lemma_sealed_slots(b, MFS_MAGIC_IND3);
    let (t, r) = s.commit(b, MFS_MAGIC_IND3);
    if r is Some {
        let d = mfs::sealed(b, MFS_MAGIC_IND3);
        assert forall|i: int| 0 <= i < 1022 implies ind2_ok(t, #[trigger] mfs::slot(d, i)) by {
            assert(mfs::slot(d, i) == mfs::slot(b, i));
            lemma_ind2(s, t, mfs::slot(b, i));
        }
    }
}

/// What is behind one number of a node put anew.
pub proof fn lemma_node_ptr(s: MfsView, a: Seq<u8>, off: int, v: u32)
    requires
        node_ok(s, a),
        off == 4044 || off == 4048 || off == 4052,
        off == 4044 ==> ind1_ok(s, v),
        off == 4048 ==> ind2_ok(s, v),
        off == 4052 ==> ind3_ok(s, v),
    ensures
        node_ok(s, bytes::put32(a, off, v)),
        same_head(a, bytes::put32(a, off, v)),
        forall|p: MfsMapPlan|
            good_plan(p) && !(p.kind == 1 && off == 4044) && !(p.kind == 2 && off == 4048) && !(
            p.kind == 3 && off == 4052) ==> #[trigger] mapv(s, bytes::put32(a, off, v), p) == mapv(
                s,
                a,
                p,
            ),
{
    lemma_ptr(a, off, v);
    let c = bytes::put32(a, off, v);
    assert forall|i: int| 0 <= i < 1005 implies leaf_ok(
        s,
        #[trigger] bytes::le32(c, 24 + 4 * i),
    ) by {
        assert(bytes::le32(c, 24 + 4 * i) == bytes::le32(a, 24 + 4 * i));
    }
}

/// The block in memory written.
pub proof fn lemma_ind_flush(s: MfsView, w: WriterView)
    requires
        wok(s, w),
    ensures
        committed(s, s.ind_flush(w).0),
        s.ind_flush(w).1 matches Some(v) ==> wok(s.ind_flush(w).0, v) && (v.kind == 0 || !v.dirty)
            && same_map(s, w, s.ind_flush(w).0, v) && same_head(w.a, v.a),
{
    reveal(MfsView::ind_flush);
    if w.kind == 0 || !w.dirty {
        mfs_cow::lemma_stable_refl(s);
    } else {
        lemma_new_ind1(s, w.b);
        let (t, r) = s.commit(w.b, MFS_MAGIC_IND);
        if r is Some {
            let l1 = r->Some_0;
            lemma_wok_stable(s, t, w);
            if w.kind == 1 {
                lemma_flush1(s, t, w, l1);
            } else {
                lemma_flush2(s, t, w, l1);
            }
        }
    }
}

/// The single indirect block of the node written.
pub proof fn lemma_flush1(s: MfsView, t: MfsView, w: WriterView, l1: u32)
    requires
        wok(s, w),
        wok(t, w),
        w.kind == 1,
        same_map(s, w, t, w),
        l1 != 0,
        ind1_ok(t, l1),
        forall|i: int|
            0 <= i < 1022 ==> #[trigger] val(t, MFS_MAGIC_IND, l1, i) == mfs::slot(w.b, i),
    ensures
        ({
            let v = WriterView {
                a: mfs_file::with_ptr(w.a, 4044, l1),
                b: mfs::sealed(w.b, MFS_MAGIC_IND),
                dirty: false,
                ..w
            };
            wok(t, v) && same_map(s, w, t, v) && same_head(w.a, v.a)
        }),
{
    let v = WriterView {
        a: mfs_file::with_ptr(w.a, 4044, l1),
        b: mfs::sealed(w.b, MFS_MAGIC_IND),
        dirty: false,
        ..w
    };
    lemma_node_ptr(t, w.a, 4044, l1);
    lemma_ptr(w.a, 4044, l1);
    mfs_cow::lemma_sealed_slots(w.b, MFS_MAGIC_IND);
    assert forall|i: int| 0 <= i < 1022 implies leaf_ok(t, #[trigger] mfs::slot(v.b, i))
        && mfs::slot(v.b, i) == val(t, MFS_MAGIC_IND, bytes::le32(v.a, 4044), i) by {
        assert(mfs::slot(v.b, i) == mfs::slot(w.b, i));
        assert(val(t, MFS_MAGIC_IND, l1, i) == mfs::slot(w.b, i));
    }
    assert forall|p: MfsMapPlan| good_plan(p) implies #[trigger] amap(t, v, p) == amap(s, w, p) by {
        assert(amap(t, w, p) == amap(s, w, p));
        if p.kind == 1 {
            assert(mfs::slot(v.b, p.slot1 as int) == mfs::slot(w.b, p.slot1 as int));
        } else {
            assert(mapv(t, v.a, p) == mapv(t, w.a, p));
        }
    }
}

/// A single indirect block behind the double one written, and the double one.
pub proof fn lemma_flush2(s: MfsView, t: MfsView, w: WriterView, l1: u32)
    requires
        wok(s, w),
        wok(t, w),
        committed(s, t),
        w.kind == 2,
        same_map(s, w, t, w),
        l1 != 0,
        ind1_ok(t, l1),
        forall|i: int|
            0 <= i < 1022 ==> #[trigger] val(t, MFS_MAGIC_IND, l1, i) == mfs::slot(w.b, i),
    ensures
        ({
            let l2 = bytes::le32(w.a, 4048);
            let b2 = t.load(l2, MFS_MAGIC_IND2)->Some_0;
            let c2 = mfs::with_slot(b2, w.slot2 as int, l1);
            let u = t.commit(c2, MFS_MAGIC_IND2).0;
            &&& t.load(l2, MFS_MAGIC_IND2) is Some
            &&& committed(s, u)
            &&& t.commit(c2, MFS_MAGIC_IND2).1 matches Some(n2) ==> ({
                let v = WriterView {
                    a: mfs_file::with_ptr(w.a, 4048, n2),
                    b: mfs::sealed(c2, MFS_MAGIC_IND2),
                    kind: 0,
                    dirty: false,
                    ..w
                };
                wok(u, v) && same_map(s, w, u, v) && same_head(w.a, v.a)
            })
        }),
{
    let l2 = bytes::le32(w.a, 4048);
    let b2 = t.load(l2, MFS_MAGIC_IND2)->Some_0;
    mfs_cow::lemma_block_len(t, l2);
    let c2 = mfs::with_slot(b2, w.slot2 as int, l1);
    mfs_cow::lemma_slots(b2, w.slot2 as int, l1);
    assert forall|i: int| 0 <= i < 1022 implies ind1_ok(t, #[trigger] mfs::slot(c2, i)) by {
        if i != w.slot2 {
            assert(mfs::slot(c2, i) == mfs::slot(b2, i));
        }
    }
    lemma_new_ind2(t, c2);
    let (u, r) = t.commit(c2, MFS_MAGIC_IND2);
    lemma_committed_trans(s, t, u);
    if r is Some {
        let n2 = r->Some_0;
        let v = WriterView {
            a: mfs_file::with_ptr(w.a, 4048, n2),
            b: mfs::sealed(c2, MFS_MAGIC_IND2),
            kind: 0,
            dirty: false,
            ..w
        };
        lemma_wok_stable(t, u, w);
        lemma_node_ptr(u, w.a, 4048, n2);
        lemma_ptr(w.a, 4048, n2);
        mfs_cow::lemma_sealed_slots(c2, MFS_MAGIC_IND2);
        lemma_ind1(t, u, l1);
        lemma_ind2(t, u, l2);
        assert forall|p: MfsMapPlan| good_plan(p) implies #[trigger] amap(u, v, p) == amap(
            s,
            w,
            p,
        ) by {
            assert(amap(u, w, p) == amap(t, w, p));
            assert(amap(t, w, p) == amap(s, w, p));
            if p.kind == 2 {
                let x = p.slot2 as int;
                assert(val(u, MFS_MAGIC_IND2, n2, x) == mfs::slot(c2, x));
                if p.slot2 == w.slot2 {
                    assert(val(u, MFS_MAGIC_IND, l1, p.slot1 as int) == val(
                        t,
                        MFS_MAGIC_IND,
                        l1,
                        p.slot1 as int,
                    ));
                } else {
                    assert(mfs::slot(c2, x) == mfs::slot(b2, x));
                    assert(val(u, MFS_MAGIC_IND2, l2, x) == val(t, MFS_MAGIC_IND2, l2, x));
                }
            } else {
                assert(mapv(u, v.a, p) == mapv(u, w.a, p));
            }
        }
    }
}

/// The single indirect block of a place fetched.
pub proof fn lemma_ind_fetch(s: MfsView, w: WriterView, p: MfsMapPlan)
    requires
        wok(s, w),
        w.kind == 0 || !w.dirty,
        good_plan(p),
        p.kind == 1 || p.kind == 2,
    ensures
        committed(s, s.ind_fetch(w, p).0),
        s.ind_fetch(w, p).1 matches Some(v) ==> wok(s.ind_fetch(w, p).0, v) && same_map(
            s,
            w,
            s.ind_fetch(w, p).0,
            v,
        ) && same_head(w.a, v.a) && cached(v, p),
{
    reveal(MfsView::ind_fetch);
    mfs_cow::lemma_stable_refl(s);
    mfs_cow::lemma_zero_slots();
    assert forall|q: MfsMapPlan| good_plan(q) implies #[trigger] amap(s, w, q) == mapv(
        s,
        w.a,
        q,
    ) by {
        lemma_clean(s, w, q);
    }
    if p.kind == 1 {
        let l1 = bytes::le32(w.a, 4044);
        if l1 != 0 {
            mfs_cow::lemma_block_len(s, l1);
        }
        if s.fresh(l1, MFS_MAGIC_IND) is Some {
            let b = s.fresh(l1, MFS_MAGIC_IND)->Some_0;
            let v = WriterView { b, kind: p.kind, slot2: p.slot2, dirty: false, ..w };
            assert forall|i: int| 0 <= i < 1022 implies leaf_ok(s, #[trigger] mfs::slot(v.b, i))
                && mfs::slot(v.b, i) == val(s, MFS_MAGIC_IND, l1, i) by {
                lemma_val1(s, l1, i);
            }
            assert forall|q: MfsMapPlan| good_plan(q) implies #[trigger] amap(s, v, q) == amap(
                s,
                w,
                q,
            ) by {
                if cached(v, q) {
                    assert(mfs::slot(v.b, q.slot1 as int) == val(
                        s,
                        MFS_MAGIC_IND,
                        l1,
                        q.slot1 as int,
                    ));
                }
            }
        }
    } else if bytes::le32(w.a, 4048) == 0 {
        assert forall|i: int| 0 <= i < 1022 implies ind1_ok(
            s,
            #[trigger] mfs::slot(bytes::zeros(4096), i),
        ) by {}
        lemma_new_ind2(s, bytes::zeros(4096));
        let (t, r) = s.commit(bytes::zeros(4096), MFS_MAGIC_IND2);
        if r is Some {
            let l2 = r->Some_0;
            let v = WriterView {
                a: mfs_file::with_ptr(w.a, 4048, l2),
                b: bytes::zeros(4096),
                kind: p.kind,
                slot2: p.slot2,
                dirty: false,
            };
            lemma_wok_stable(s, t, w);
            lemma_node_ptr(t, w.a, 4048, l2);
            lemma_ptr(w.a, 4048, l2);
            assert(val(t, MFS_MAGIC_IND2, l2, p.slot2 as int) == 0);
            assert forall|q: MfsMapPlan| good_plan(q) implies #[trigger] amap(t, v, q) == amap(
                s,
                w,
                q,
            ) by {
                assert(amap(t, w, q) == amap(s, w, q));
                if q.kind == 2 {
                    assert(mapv(s, w.a, q) == 0);
                    assert(val(t, MFS_MAGIC_IND2, l2, q.slot2 as int) == 0);
                } else {
                    assert(mapv(t, v.a, q) == mapv(t, w.a, q));
                    lemma_node(s, t, w.a);
                    assert(mapv(t, w.a, q) == mapv(s, w.a, q));
                }
            }
        }
    } else {
        let l2 = bytes::le32(w.a, 4048);
        lemma_val2(s, l2, p.slot2 as int);
        let l1 = val(s, MFS_MAGIC_IND2, l2, p.slot2 as int);
        if l1 != 0 {
            mfs_cow::lemma_block_len(s, l1);
        }
        if s.fresh(l1, MFS_MAGIC_IND) is Some {
            let b = s.fresh(l1, MFS_MAGIC_IND)->Some_0;
            let v = WriterView { b, kind: p.kind, slot2: p.slot2, dirty: false, ..w };
            assert forall|i: int| 0 <= i < 1022 implies leaf_ok(s, #[trigger] mfs::slot(v.b, i))
                && mfs::slot(v.b, i) == val(s, MFS_MAGIC_IND, l1, i) by {
                lemma_val1(s, l1, i);
            }
            assert forall|q: MfsMapPlan| good_plan(q) implies #[trigger] amap(s, v, q) == amap(
                s,
                w,
                q,
            ) by {
                if cached(v, q) {
                    assert(mfs::slot(v.b, q.slot1 as int) == val(
                        s,
                        MFS_MAGIC_IND,
                        l1,
                        q.slot1 as int,
                    ));
                }
            }
        }
    }
}

/// The single indirect block of a place brought into memory.
pub proof fn lemma_ind_load(s: MfsView, w: WriterView, p: MfsMapPlan)
    requires
        wok(s, w),
        good_plan(p),
        p.kind == 1 || p.kind == 2,
    ensures
        committed(s, s.ind_load(w, p).0),
        s.ind_load(w, p).1 matches Some(v) ==> wok(s.ind_load(w, p).0, v) && same_map(
            s,
            w,
            s.ind_load(w, p).0,
            v,
        ) && same_head(w.a, v.a) && cached(v, p),
{
    reveal(MfsView::ind_load);
    if w.kind == p.kind && w.slot2 == p.slot2 {
        mfs_cow::lemma_stable_refl(s);
    } else {
        lemma_ind_flush(s, w);
        let (t, r) = s.ind_flush(w);
        if r is Some {
            let v = r->Some_0;
            lemma_ind_fetch(t, v, p);
            let (u, x) = t.ind_fetch(v, p);
            lemma_committed_trans(s, t, u);
            if x is Some {
                lemma_map_trans(s, w, t, v, u, x->Some_0);
                lemma_head_trans(w.a, v.a, x->Some_0.a);
            }
        }
    }
}

/// The same map twice.
pub proof fn lemma_map_trans(
    s: MfsView,
    w: WriterView,
    t: MfsView,
    v: WriterView,
    u: MfsView,
    x: WriterView,
)
    requires
        same_map(s, w, t, v),
        same_map(t, v, u, x),
    ensures
        same_map(s, w, u, x),
{
    assert forall|p: MfsMapPlan| good_plan(p) implies #[trigger] amap(u, x, p) == amap(s, w, p) by {
        assert(amap(t, v, p) == amap(s, w, p));
    }
}

/// The same head twice.
pub proof fn lemma_head_trans(a: Seq<u8>, b: Seq<u8>, c: Seq<u8>)
    requires
        same_head(a, b),
        same_head(b, c),
    ensures
        same_head(a, c),
{
    assert forall|k: int| 0 <= k < 24 || 4056 <= k < 4096 implies #[trigger] c[k] == a[k] by {
        assert(b[k] == a[k]);
    }
}

/// Looking for the disk block of a block.
pub proof fn lemma_ind_peek(s: MfsView, w: WriterView, bi: int)
    requires
        wok(s, w),
        0 <= bi < MFS_FILE_MAX_BLOCKS,
    ensures
        committed(s, s.ind_peek(w, bi).0),
        s.ind_peek(w, bi).1 matches Some((v, db)) ==> wok(s.ind_peek(w, bi).0, v) && same_map(
            s,
            w,
            s.ind_peek(w, bi).0,
            v,
        ) && same_head(w.a, v.a) && db == amap(s, w, at(bi)) && (at(bi).kind == 3 ==> v.kind == 0)
            && (at(bi).kind == 1 || at(bi).kind == 2 ==> cached(v, at(bi))),
{
    reveal(MfsView::ind_peek);
    lemma_at(bi, bi);
    let p = at(bi);
    mfs_cow::lemma_stable_refl(s);
    if p.kind == 3 {
        lemma_ind_flush(s, w);
        let (t, r) = s.ind_flush(w);
        if r is Some {
            let v = r->Some_0;
            lemma_map_at(t, v.a, p);
            let x = WriterView { kind: 0, slot2: 0, dirty: false, ..v };
            assert forall|q: MfsMapPlan| good_plan(q) implies #[trigger] amap(t, x, q) == amap(
                s,
                w,
                q,
            ) by {
                assert(amap(t, v, q) == amap(s, w, q));
                lemma_clean(t, v, q);
            }
            assert(amap(t, v, p) == amap(s, w, p));
        }
    } else if p.kind != 0 {
        lemma_ind_load(s, w, p);
        let (t, r) = s.ind_load(w, p);
        if r is Some {
            assert(amap(t, r->Some_0, p) == amap(s, w, p));
        }
    }
}

/// The map with one place set.
pub open spec fn map_set(
    s: MfsView,
    w: WriterView,
    t: MfsView,
    v: WriterView,
    p: MfsMapPlan,
    db: u32,
) -> bool {
    &&& amap(t, v, p) == db
    &&& forall|q: MfsMapPlan|
        good_plan(q) && q != p ==> #[trigger] amap(t, v, q) == amap(s, w, q)
}

/// One slot of an indirect block set, in a new block.
pub proof fn lemma_relink1(s: MfsView, b: u32, i: int, v: u32)
    requires
        mfs_cow::sound(s),
        ind1_ok(s, b),
        0 <= i < 1022,
        leaf_ok(s, v),
    ensures
        committed(s, s.relink(b, MFS_MAGIC_IND, i as usize, v).0),
        s.relink(b, MFS_MAGIC_IND, i as usize, v).1 matches Some(n) ==> ({
            let t = s.relink(b, MFS_MAGIC_IND, i as usize, v).0;
            &&& n != 0
            &&& ind1_ok(t, n)
            &&& val(t, MFS_MAGIC_IND, n, i) == v
            &&& forall|j: int|
                0 <= j < 1022 && j != i ==> #[trigger] val(t, MFS_MAGIC_IND, n, j) == val(
                    s,
                    MFS_MAGIC_IND,
                    b,
                    j,
                )
        }),
{
    mfs_cow::lemma_zero_slots();
    mfs_cow::lemma_stable_refl(s);
    if b != 0 {
        mfs_cow::lemma_block_len(s, b);
    }
    if s.fresh(b, MFS_MAGIC_IND) is Some {
        let d = s.fresh(b, MFS_MAGIC_IND)->Some_0;
        let e = mfs::with_slot(d, i, v);
        mfs_cow::lemma_slots(d, i, v);
        assert forall|j: int| 0 <= j < 1022 implies leaf_ok(s, #[trigger] mfs::slot(e, j)) by {
            if j != i {
                assert(mfs::slot(e, j) == mfs::slot(d, j));
                lemma_val1(s, b, j);
            }
        }
        lemma_new_ind1(s, e);
    }
}

/// One slot of a double indirect block set, in a new block.
pub proof fn lemma_relink2(s: MfsView, b: u32, i: int, v: u32)
    requires
        mfs_cow::sound(s),
        ind2_ok(s, b),
        0 <= i < 1022,
        ind1_ok(s, v),
    ensures
        committed(s, s.relink(b, MFS_MAGIC_IND2, i as usize, v).0),
        s.relink(b, MFS_MAGIC_IND2, i as usize, v).1 matches Some(n) ==> ({
            let t = s.relink(b, MFS_MAGIC_IND2, i as usize, v).0;
            &&& n != 0
            &&& ind2_ok(t, n)
            &&& val(t, MFS_MAGIC_IND2, n, i) == v
            &&& forall|j: int|
                0 <= j < 1022 && j != i ==> #[trigger] val(t, MFS_MAGIC_IND2, n, j) == val(
                    s,
                    MFS_MAGIC_IND2,
                    b,
                    j,
                )
        }),
{
    mfs_cow::lemma_zero_slots();
    mfs_cow::lemma_stable_refl(s);
    if b != 0 {
        mfs_cow::lemma_block_len(s, b);
    }
    if s.fresh(b, MFS_MAGIC_IND2) is Some {
        let d = s.fresh(b, MFS_MAGIC_IND2)->Some_0;
        let e = mfs::with_slot(d, i, v);
        mfs_cow::lemma_slots(d, i, v);
        assert forall|j: int| 0 <= j < 1022 implies ind1_ok(s, #[trigger] mfs::slot(e, j)) by {
            if j != i {
                assert(mfs::slot(e, j) == mfs::slot(d, j));
                lemma_val2(s, b, j);
            }
        }
        lemma_new_ind2(s, e);
    }
}

/// One slot of a triple indirect block set, in a new block.
pub proof fn lemma_relink3(s: MfsView, b: u32, i: int, v: u32)
    requires
        mfs_cow::sound(s),
        ind3_ok(s, b),
        0 <= i < 1022,
        ind2_ok(s, v),
    ensures
        committed(s, s.relink(b, MFS_MAGIC_IND3, i as usize, v).0),
        s.relink(b, MFS_MAGIC_IND3, i as usize, v).1 matches Some(n) ==> ({
            let t = s.relink(b, MFS_MAGIC_IND3, i as usize, v).0;
            &&& n != 0
            &&& ind3_ok(t, n)
            &&& val(t, MFS_MAGIC_IND3, n, i) == v
            &&& forall|j: int|
                0 <= j < 1022 && j != i ==> #[trigger] val(t, MFS_MAGIC_IND3, n, j) == val(
                    s,
                    MFS_MAGIC_IND3,
                    b,
                    j,
                )
        }),
{
    mfs_cow::lemma_zero_slots();
    mfs_cow::lemma_stable_refl(s);
    if b != 0 {
        mfs_cow::lemma_block_len(s, b);
    }
    if s.fresh(b, MFS_MAGIC_IND3) is Some {
        let d = s.fresh(b, MFS_MAGIC_IND3)->Some_0;
        let e = mfs::with_slot(d, i, v);
        mfs_cow::lemma_slots(d, i, v);
        assert forall|j: int| 0 <= j < 1022 implies ind2_ok(s, #[trigger] mfs::slot(e, j)) by {
            if j != i {
                assert(mfs::slot(e, j) == mfs::slot(d, j));
                lemma_val3(s, b, j);
            }
        }
        lemma_new_ind3(s, e);
    }
}

/// A place behind three indirect blocks set.
pub proof fn lemma_ind_link3(s: MfsView, w: WriterView, p: MfsMapPlan, db: u32)
    requires
        wok(s, w),
        w.kind == 0,
        good_plan(p),
        p.kind == 3,
        leaf_ok(s, db),
    ensures
        committed(s, s.ind_link3(w.a, p, db).0),
        s.ind_link3(w.a, p, db).1 matches Some(a) ==> ({
            let t = s.ind_link3(w.a, p, db).0;
            let v = WriterView { a, ..w };
            wok(t, v) && map_set(s, w, t, v, p, db) && same_head(w.a, a)
        }),
{
    reveal(MfsView::ind_link3);
    let i3 = p.slot3 as int;
    let i2 = p.slot2 as int;
    let i1 = p.slot1 as int;
    let l3 = bytes::le32(w.a, 4052);
    mfs_cow::lemma_stable_refl(s);
    lemma_val3(s, l3, i3);
    let l2 = val(s, MFS_MAGIC_IND3, l3, i3);
    lemma_val2(s, l2, i2);
    let l1 = val(s, MFS_MAGIC_IND2, l2, i2);
    lemma_relink1(s, l1, i1, db);
    let (s1, r1) = s.relink(l1, MFS_MAGIC_IND, p.slot1, db);
    if r1 is Some {
        let n1 = r1->Some_0;
        lemma_ind2(s, s1, l2);
        lemma_relink2(s1, l2, i2, n1);
        let (s2, r2) = s1.relink(l2, MFS_MAGIC_IND2, p.slot2, n1);
        lemma_committed_trans(s, s1, s2);
        if r2 is Some {
            let n2 = r2->Some_0;
            lemma_ind3(s, s2, l3);
            lemma_relink3(s2, l3, i3, n2);
            let (s3, r3) = s2.relink(l3, MFS_MAGIC_IND3, p.slot3, n2);
            lemma_committed_trans(s, s2, s3);
            if r3 is Some {
                let n3 = r3->Some_0;
                let a = mfs_file::with_ptr(w.a, 4052, n3);
                let v = WriterView { a, ..w };
                lemma_wok_stable(s, s3, w);
                lemma_node_ptr(s3, w.a, 4052, n3);
                lemma_ptr(w.a, 4052, n3);
                lemma_ind1(s1, s2, n1);
                lemma_ind1(s2, s3, n1);
                lemma_ind2(s2, s3, n2);
                assert forall|q: MfsMapPlan| good_plan(q) && q != p implies #[trigger] amap(
                    s3,
                    v,
                    q,
                ) == amap(s, w, q) by {
                    assert(amap(s3, w, q) == amap(s, w, q));
                    if q.kind == 3 {
                        let j3 = q.slot3 as int;
                        let j2 = q.slot2 as int;
                        let j1 = q.slot1 as int;
                        if j3 != i3 {
                            assert(val(s3, MFS_MAGIC_IND3, n3, j3) == val(
                                s2,
                                MFS_MAGIC_IND3,
                                l3,
                                j3,
                            ));
                            assert(val(s2, MFS_MAGIC_IND3, l3, j3) == val(
                                s,
                                MFS_MAGIC_IND3,
                                l3,
                                j3,
                            ));
                            lemma_val3(s, l3, j3);
                            let m2 = val(s, MFS_MAGIC_IND3, l3, j3);
                            lemma_ind2(s, s3, m2);
                            lemma_val2(s, m2, j2);
                            lemma_ind1(s, s3, val(s, MFS_MAGIC_IND2, m2, j2));
                        } else if j2 != i2 {
                            assert(val(s3, MFS_MAGIC_IND3, n3, j3) == n2);
                            assert(val(s3, MFS_MAGIC_IND2, n2, j2) == val(
                                s2,
                                MFS_MAGIC_IND2,
                                n2,
                                j2,
                            ));
                            assert(val(s2, MFS_MAGIC_IND2, n2, j2) == val(
                                s1,
                                MFS_MAGIC_IND2,
                                l2,
                                j2,
                            ));
                            assert(val(s1, MFS_MAGIC_IND2, l2, j2) == val(
                                s,
                                MFS_MAGIC_IND2,
                                l2,
                                j2,
                            ));
                            lemma_val2(s, l2, j2);
                            lemma_ind1(s, s3, val(s, MFS_MAGIC_IND2, l2, j2));
                        } else {
                            assert(j1 != i1);
                            assert(val(s3, MFS_MAGIC_IND, n1, j1) == val(
                                s1,
                                MFS_MAGIC_IND,
                                n1,
                                j1,
                            ));
                        }
                    } else {
                        assert(mapv(s3, v.a, q) == mapv(s3, w.a, q));
                    }
                }
                assert(amap(s3, v, p) == db) by {
                    assert(val(s3, MFS_MAGIC_IND3, n3, i3) == n2);
                    assert(val(s3, MFS_MAGIC_IND2, n2, i2) == val(s2, MFS_MAGIC_IND2, n2, i2));
                    assert(val(s3, MFS_MAGIC_IND, n1, i1) == val(s2, MFS_MAGIC_IND, n1, i1));
                    assert(val(s2, MFS_MAGIC_IND, n1, i1) == val(s1, MFS_MAGIC_IND, n1, i1));
                }
            }
        }
    }
}

/// A block of a file set to a disk block.
pub proof fn lemma_ind_link(s: MfsView, w: WriterView, bi: int, db: u32)
    requires
        wok(s, w),
        0 <= bi < MFS_FILE_MAX_BLOCKS,
        leaf_ok(s, db),
        at(bi).kind == 3 ==> w.kind == 0,
        at(bi).kind == 1 || at(bi).kind == 2 ==> cached(w, at(bi)),
    ensures
        committed(s, s.ind_link(w, bi, db).0),
        s.ind_link(w, bi, db).1 matches Some(v) ==> wok(s.ind_link(w, bi, db).0, v) && map_set(
            s,
            w,
            s.ind_link(w, bi, db).0,
            v,
            at(bi),
            db,
        ) && same_head(w.a, v.a),
{
    reveal(MfsView::ind_link);
    lemma_at(bi, bi);
    let p = at(bi);
    mfs_cow::lemma_stable_refl(s);
    if p.kind == 0 {
        let off = 24 + 4 * p.slot1;
        let c = bytes::put32(w.a, off, db);
        let v = WriterView { a: c, ..w };
        lemma_ptr(w.a, off, db);
        assert forall|i: int| 0 <= i < 1005 implies leaf_ok(
            s,
            #[trigger] bytes::le32(c, 24 + 4 * i),
        ) by {
            if i != p.slot1 {
                assert(bytes::le32(c, 24 + 4 * i) == bytes::le32(w.a, 24 + 4 * i));
            }
        }
        assert forall|q: MfsMapPlan| good_plan(q) && q != p implies #[trigger] amap(s, v, q)
            == amap(s, w, q) by {
            if q.kind == 0 {
                assert(q.slot1 != p.slot1);
                assert(bytes::le32(c, 24 + 4 * q.slot1) == bytes::le32(w.a, 24 + 4 * q.slot1));
            }
        }
    } else if p.kind == 3 {
        lemma_ind_link3(s, w, p, db);
    } else {
        mfs_cow::lemma_slots(w.b, p.slot1 as int, db);
        let v = WriterView { b: mfs::with_slot(w.b, p.slot1 as int, db), dirty: true, ..w };
        assert forall|i: int| 0 <= i < 1022 implies leaf_ok(s, #[trigger] mfs::slot(v.b, i)) by {
            if i != p.slot1 {
                assert(mfs::slot(v.b, i) == mfs::slot(w.b, i));
            }
        }
        assert forall|q: MfsMapPlan| good_plan(q) && q != p implies #[trigger] amap(s, v, q)
            == amap(s, w, q) by {
            if cached(v, q) {
                assert(q.slot1 != p.slot1);
                assert(mfs::slot(v.b, q.slot1 as int) == mfs::slot(w.b, q.slot1 as int));
            }
        }
    }
}

/// The bytes of a data block; a hole is zeros.
pub open spec fn bytes_at(s: MfsView, b: u32) -> Seq<u8> {
    if b == 0 {
        bytes::zeros(4088)
    } else {
        mfs::payload(s.load(b, MFS_MAGIC_DATA)->Some_0)
    }
}

/// The bytes of block `bi` of a file opened for writing.
pub open spec fn block_of(s: MfsView, w: WriterView, bi: int) -> Seq<u8> {
    bytes_at(s, amap(s, w, at(bi)))
}

/// The same map on a volume where what is in use is kept leads to the same bytes.
pub proof fn lemma_same_bytes(s: MfsView, t: MfsView, b: u32)
    requires
        committed(s, t),
        leaf_ok(s, b),
    ensures
        bytes_at(t, b) == bytes_at(s, b),
{
    lemma_leaf(s, t, b);
}

/// Data put into one block of a file: that block changes where the data goes, no other does.
pub proof fn lemma_write_block(s: MfsView, w: WriterView, bi: int, boff: int, data: Seq<u8>)
    requires
        wok(s, w),
        0 <= bi < MFS_FILE_MAX_BLOCKS,
        0 <= boff,
        boff + data.len() <= 4088,
    ensures
        committed(s, s.write_block(w, bi, boff, data).0),
        s.write_block(w, bi, boff, data).1 matches Some(v) ==> ({
            let t = s.write_block(w, bi, boff, data).0;
            &&& wok(t, v)
            &&& block_of(s, w, bi).len() == 4088
            &&& block_of(t, v, bi) == bytes::splice(block_of(s, w, bi), boff, data)
            &&& forall|bj: int|
                0 <= bj < MFS_FILE_MAX_BLOCKS && bj != bi ==> #[trigger] block_of(t, v, bj)
                    == block_of(s, w, bj)
            &&& forall|bj: int|
                0 <= bj < MFS_FILE_MAX_BLOCKS && bj != bi ==> #[trigger] amap(t, v, at(bj))
                    == amap(s, w, at(bj))
            &&& mfs_file::file_nblocks(v.a) == mfs_file::most(
                bi + 1,
                mfs_file::file_nblocks(w.a) as int,
            )
        }),
{
    reveal(MfsView::write_block);
    lemma_at(bi, bi);
    let p = at(bi);
    lemma_ind_peek(s, w, bi);
    let (t, r) = s.ind_peek(w, bi);
    if r is Some {
        let (w1, db) = r->Some_0;
        lemma_amap_ok(s, w, p);
        lemma_amap_ok(t, w1, p);
        assert(amap(t, w1, p) == db);
        lemma_same_bytes(s, t, db);
        if db != 0 {
            mfs_cow::lemma_block_len(t, db);
        }
        if t.fresh(db, MFS_MAGIC_DATA) is Some {
            let c = t.fresh(db, MFS_MAGIC_DATA)->Some_0;
            let d = bytes::splice(c, 8 + boff, data);
            mfs_cow::lemma_commit(t, d, MFS_MAGIC_DATA);
            mfs::law_sealed_is_ok(d, MFS_MAGIC_DATA);
            let (t1, r1) = t.commit(d, MFS_MAGIC_DATA);
            lemma_committed_trans(s, t, t1);
            if r1 is Some {
                let nb = r1->Some_0;
                lemma_wok_stable(t, t1, w1);
                lemma_ind_link(t1, w1, bi, nb);
                let (t2, r2) = t1.ind_link(w1, bi, nb);
                lemma_committed_trans(s, t1, t2);
                if r2 is Some {
                    let w2 = r2->Some_0;
                    let v = if bi >= mfs_file::file_nblocks(w2.a) {
                        WriterView { a: bytes::put32(w2.a, 16, (bi + 1) as u32), ..w2 }
                    } else {
                        w2
                    };
                    lemma_head_trans(w.a, w1.a, w2.a);
                    assert(mfs_file::file_nblocks(w2.a) == mfs_file::file_nblocks(w.a)) by {
                        assert(w2.a[16] == w.a[16] && w2.a[17] == w.a[17] && w2.a[18] == w.a[18]
                            && w2.a[19] == w.a[19]);
                    }
                    lemma_nblocks(t2, w2, (bi + 1) as u32);
                    lemma_same_bytes(t1, t2, nb);
                    let img = mfs::payload(mfs::sealed(d, MFS_MAGIC_DATA));
                    assert(bytes_at(t2, nb) == img);
                    assert(mfs::payload(c) =~= bytes_at(s, db)) by {
                        if db == 0 {
                            assert(mfs::payload(c) =~= bytes::zeros(4088));
                        }
                    }
                    assert(img =~= bytes::splice(mfs::payload(c), boff, data));
                    assert(amap(t2, v, p) == nb);
                    assert forall|bj: int| 0 <= bj < MFS_FILE_MAX_BLOCKS && bj != bi implies
                        #[trigger] amap(t2, v, at(bj)) == amap(s, w, at(bj)) by {
                        lemma_at(bj, bi);
                        let q = at(bj);
                        assert(amap(t2, v, q) == amap(t2, w2, q));
                        assert(amap(t2, w2, q) == amap(t1, w1, q));
                        assert(amap(t1, w1, q) == amap(t, w1, q));
                        assert(amap(t, w1, q) == amap(s, w, q));
                    }
                    assert forall|bj: int| 0 <= bj < MFS_FILE_MAX_BLOCKS && bj != bi implies
                        #[trigger] block_of(t2, v, bj) == block_of(s, w, bj) by {
                        lemma_at(bj, bi);
                        assert(amap(t2, v, at(bj)) == amap(s, w, at(bj)));
                        lemma_amap_ok(s, w, at(bj));
                        lemma_same_bytes(s, t2, amap(s, w, at(bj)));
                    }
                }
            }
        }
    }
}

/// The number of blocks in a node plays no part in its map.
pub proof fn lemma_nblocks(s: MfsView, w: WriterView, n: u32)
    requires
        wok(s, w),
    ensures
        wok(s, (WriterView { a: bytes::put32(w.a, 16, n), ..w })),
        same_map(s, w, s, (WriterView { a: bytes::put32(w.a, 16, n), ..w })),
        mfs_file::file_nblocks(bytes::put32(w.a, 16, n)) == n,
{
    lemma_ptr(w.a, 16, n);
    let c = bytes::put32(w.a, 16, n);
    let v = WriterView { a: c, ..w };
    assert forall|i: int| 0 <= i < 1005 implies leaf_ok(
        s,
        #[trigger] bytes::le32(c, 24 + 4 * i),
    ) by {
        assert(bytes::le32(c, 24 + 4 * i) == bytes::le32(w.a, 24 + 4 * i));
    }
    assert forall|p: MfsMapPlan| good_plan(p) implies #[trigger] amap(s, v, p) == amap(s, w, p) by {
        if p.kind == 0 {
            assert(bytes::le32(c, 24 + 4 * p.slot1) == bytes::le32(w.a, 24 + 4 * p.slot1));
        }
    }
}

/// Beyond its blocks a file has none.
pub open spec fn holes_after(s: MfsView, w: WriterView) -> bool {
    forall|bj: int|
        mfs_file::file_nblocks(w.a) <= bj < MFS_FILE_MAX_BLOCKS ==> #[trigger] amap(s, w, at(bj))
            == 0
}

/// Data put into a file from `done` on.
pub proof fn lemma_write_from(s: MfsView, w: WriterView, offset: int, data: Seq<u8>, done: int)
    requires
        wok(s, w),
        holes_after(s, w),
        0 <= offset,
        0 <= done <= data.len(),
        offset + data.len() <= MFS_FILE_MAX_BYTES,
    ensures
        committed(s, s.write_from(w, offset, data, done).0),
        s.write_from(w, offset, data, done).1 matches Some(v) ==> ({
            let t = s.write_from(w, offset, data, done).0;
            &&& wok(t, v)
            &&& holes_after(t, v)
            &&& mfs_file::file_nblocks(w.a) <= MFS_FILE_MAX_BLOCKS ==> mfs_file::file_nblocks(v.a)
                <= MFS_FILE_MAX_BLOCKS
            &&& forall|bj: int, k: int|
                0 <= bj < MFS_FILE_MAX_BLOCKS && 0 <= k < 4088 ==> #[trigger] block_of(t, v, bj)[k]
                    == if offset + done <= bj * 4088 + k < offset + data.len() {
                    data[bj * 4088 + k - offset]
                } else {
                    block_of(s, w, bj)[k]
                }
        }),
    decreases data.len() - done,
{
    mfs_cow::lemma_stable_refl(s);
    if done < data.len() {
        let pos = offset + done;
        let n = mfs_file::piece(pos, data.len() - done);
        let bi = pos / 4088;
        let boff = pos % 4088;
        let part = data.subrange(done, done + n);
        assert(0 <= bi < MFS_FILE_MAX_BLOCKS);
        lemma_write_block(s, w, bi, boff, part);
        let (t, r) = s.write_block(w, bi, boff, part);
        if r is Some {
            let v = r->Some_0;
            assert(holes_after(t, v)) by {
                assert forall|bj: int|
                    mfs_file::file_nblocks(v.a) <= bj < MFS_FILE_MAX_BLOCKS implies #[trigger] amap(
                    t,
                    v,
                    at(bj),
                ) == 0 by {
                    assert(bj != bi);
                    assert(amap(t, v, at(bj)) == amap(s, w, at(bj)));
                }
            }
            lemma_write_from(t, v, offset, data, done + n);
            let (u, r2) = t.write_from(v, offset, data, done + n);
            lemma_committed_trans(s, t, u);
            if r2 is Some {
                let x = r2->Some_0;
                assert forall|bj: int, k: int|
                    0 <= bj < MFS_FILE_MAX_BLOCKS && 0 <= k < 4088 implies #[trigger] block_of(
                    u,
                    x,
                    bj,
                )[k] == if offset + done <= bj * 4088 + k < offset + data.len() {
                    data[bj * 4088 + k - offset]
                } else {
                    block_of(s, w, bj)[k]
                } by {
                    lemma_piece(block_of(s, w, bj), block_of(t, v, bj), bj, k, offset, data, done, n);
                }
            }
        }
    }
}

/// A piece of the data in place: what is left to write goes round it.
pub proof fn lemma_piece(
    b: Seq<u8>,
    c: Seq<u8>,
    bj: int,
    k: int,
    offset: int,
    data: Seq<u8>,
    done: int,
    n: int,
)
    requires
        0 <= offset,
        0 <= done < data.len(),
        n == mfs_file::piece(offset + done, data.len() - done),
        0 <= k < 4088,
        bj == (offset + done) / 4088 ==> b.len() == 4088 && c == bytes::splice(
            b,
            (offset + done) % 4088,
            data.subrange(done, done + n),
        ),
        bj != (offset + done) / 4088 ==> c == b,
    ensures
        (if offset + done + n <= bj * 4088 + k < offset + data.len() {
            data[bj * 4088 + k - offset]
        } else {
            c[k]
        }) == (if offset + done <= bj * 4088 + k < offset + data.len() {
            data[bj * 4088 + k - offset]
        } else {
            b[k]
        }),
{
    let pos = offset + done;
    let q = bj * 4088 + k;
    let part = data.subrange(done, done + n);
    if bj == pos / 4088 {
        let boff = pos % 4088;
        assert(q - pos == k - boff);
        if boff <= k < boff + n {
            assert(part[k - boff] == data[done + (k - boff)]);
        }
    } else if bj < pos / 4088 {
        assert(q < pos);
    } else {
        assert(q >= pos + n);
    }
}

/// A file in good order: its node is found and readable, all its blocks are in use, it has no
/// more than can be mapped and none beyond its number of blocks, and every byte beyond its end is
/// zero.
pub open spec fn file_ok(s: MfsView, ino: u32, a: Seq<u8>) -> bool {
    &&& mfs_cow::table_ok(s)
    &&& mfs_cow::good_ino(ino)
    &&& mfs_cow::obj(s, ino) != 0
    &&& mfs_cow::held(s, mfs_cow::obj(s, ino))
    &&& s.load(mfs_cow::obj(s, ino), MFS_MAGIC_FILE) == Some(a)
    &&& node_ok(s, a)
    &&& mfs_file::file_nblocks(a) <= MFS_FILE_MAX_BLOCKS
    &&& forall|bj: int|
        mfs_file::file_nblocks(a) <= bj < MFS_FILE_MAX_BLOCKS ==> #[trigger] mapv(s, a, at(bj)) == 0
    &&& forall|bj: int, k: int|
        0 <= bj < MFS_FILE_MAX_BLOCKS && 0 <= k < 4088 && bj * 4088 + k >= mfs_file::file_size(a)
            ==> #[trigger] bytes_at(s, mapv(s, a, at(bj)))[k] == 0
}

/// The bytes of a file: zeros where no block can be.
pub open spec fn content(s: MfsView, a: Seq<u8>) -> Seq<u8> {
    Seq::new(
        mfs_file::file_size(a) as nat,
        |pos: int|
            if pos < MFS_FILE_MAX_BYTES {
                bytes_at(s, mapv(s, a, at(pos / 4088)))[pos % 4088]
            } else {
                0
            },
    )
}

/// A block of a file read: zeros where no block can be.
proof fn lemma_file_block(s: MfsView, ino: u32, a: Seq<u8>, bi: int)
    requires
        file_ok(s, ino, a),
        0 <= bi,
    ensures
        s.file_block(a, bi) == Some(
            if bi < MFS_FILE_MAX_BLOCKS {
                bytes_at(s, mapv(s, a, at(bi)))
            } else {
                bytes::zeros(4088)
            },
        ),
        bi < MFS_FILE_MAX_BLOCKS ==> bytes_at(s, mapv(s, a, at(bi))).len() == 4088,
{
    assert(mfs::payload(bytes::zeros(4096)) =~= bytes::zeros(4088));
    if bi < MFS_FILE_MAX_BLOCKS {
        lemma_at(bi, bi);
        lemma_map_at(s, a, at(bi));
        let db = mapv(s, a, at(bi));
        assert(s.file_map(a, bi) == Some(db)) by {
            reveal(MfsView::file_map);
        }
        if db != 0 {
            mfs_cow::lemma_block_len(s, db);
        }
        assert(s.file_block(a, bi)->Some_0 =~= bytes_at(s, db));
    }
}

/// Reading on from a position.
pub proof fn lemma_read_from(s: MfsView, ino: u32, a: Seq<u8>, pos: int, end: int)
    requires
        file_ok(s, ino, a),
        0 <= pos <= end <= mfs_file::file_size(a),
    ensures
        s.read_from(a, pos, end) == Some(content(s, a).subrange(pos, end)),
    decreases end - pos,
{
    let all = content(s, a);
    if pos < end {
        let n = mfs_file::piece(pos, end - pos);
        let bi = pos / 4088;
        let k = pos % 4088;
        let c = s.file_block(a, bi)->Some_0;
        lemma_file_block(s, ino, a, bi);
        lemma_read_from(s, ino, a, pos + n, end);
        let part = c.subrange(k, k + n);
        assert(part =~= all.subrange(pos, pos + n)) by {
            assert forall|x: int| 0 <= x < n implies part[x] == all[pos + x] by {
                assert((pos + x) / 4088 == bi && (pos + x) % 4088 == k + x);
            }
        }
        assert(part + all.subrange(pos + n, end) =~= all.subrange(pos, end));
    } else {
        assert(all.subrange(pos, end) =~= Seq::empty());
    }
}

/// Law: reading a file gives its bytes from the offset on, as many as were asked for and the
/// file has.
pub proof fn law_read_gives_content(s: MfsView, ino: u32, a: Seq<u8>, offset: u64, count: u32)
    requires
        file_ok(s, ino, a),
    ensures
        s.read_file(ino, offset, count).1 == Some(
            if offset >= content(s, a).len() {
                Seq::empty()
            } else {
                content(s, a).subrange(
                    offset as int,
                    offset + mfs_file::least(count as int, content(s, a).len() - offset),
                )
            },
        ),
{
    reveal(MfsView::read_file);
    lemma_object(s, ino);
    let t = s.object_block(ino).0;
    mfs_cow::lemma_buffer_only(s, t);
    if offset < mfs_file::file_size(a) {
        let end = offset + mfs_file::least(count as int, mfs_file::file_size(a) - offset);
        lemma_file_elsewhere(s, t, ino, a);
        lemma_read_from(t, ino, a, offset as int, end);
    }
}

/// Finding the block of an object that exists.
pub proof fn lemma_object(s: MfsView, ino: u32)
    requires
        mfs_cow::table_ok(s),
        mfs_cow::good_ino(ino),
        mfs_cow::obj(s, ino) != 0,
    ensures
        s.object_block(ino).1 == Some(mfs_cow::obj(s, ino)),
        mfs_cow::same_but_buffer(s, s.object_block(ino).0),
        mfs_cow::table_ok(s.object_block(ino).0),
        mfs_cow::stable(s, s.object_block(ino).0),
{
    reveal(MfsView::object_block);
    mfs_cow::lemma_ino_block(s, ino);
}

/// A file stays as it is where what is in use is kept and its number names the same block.
pub proof fn lemma_file_elsewhere(s: MfsView, t: MfsView, ino: u32, a: Seq<u8>)
    requires
        file_ok(s, ino, a),
        mfs_cow::stable(s, t),
        mfs_cow::table_ok(t),
        mfs_cow::obj(t, ino) == mfs_cow::obj(s, ino),
    ensures
        file_ok(t, ino, a),
        content(t, a) == content(s, a),
{
    lemma_load(s, t, mfs_cow::obj(s, ino), MFS_MAGIC_FILE);
    lemma_node(s, t, a);
    assert forall|bj: int| 0 <= bj < MFS_FILE_MAX_BLOCKS implies #[trigger] mapv(t, a, at(bj))
        == mapv(s, a, at(bj)) && bytes_at(t, mapv(t, a, at(bj))) == bytes_at(
        s,
        mapv(s, a, at(bj)),
    ) by {
        lemma_at(bj, bj);
        lemma_map_at(s, a, at(bj));
        lemma_leaf(s, t, mapv(s, a, at(bj)));
    }
    assert forall|bj: int, k: int|
        0 <= bj < MFS_FILE_MAX_BLOCKS && 0 <= k < 4088 && bj * 4088 + k >= mfs_file::file_size(a)
            implies #[trigger] bytes_at(t, mapv(t, a, at(bj)))[k] == 0 by {
        assert(mapv(t, a, at(bj)) == mapv(s, a, at(bj)));
        assert(bytes_at(s, mapv(s, a, at(bj)))[k] == 0);
    }
    assert(content(t, a) =~= content(s, a)) by {
        assert forall|pos: int| 0 <= pos < mfs_file::file_size(a) implies content(t, a)[pos]
            == content(s, a)[pos] by {
            let bj = pos / 4088;
            if pos < MFS_FILE_MAX_BYTES {
                assert(0 <= bj < MFS_FILE_MAX_BLOCKS);
                assert(mapv(t, a, at(bj)) == mapv(s, a, at(bj)));
            }
        }
    }
}

/// The node that a write puts in place of a file's.
pub open spec fn final_node(a: Seq<u8>, size: u64, nblocks: u32, now: u64) -> Seq<u8> {
    mfs::sealed(
        mfs_dir::touched(bytes::put32(bytes::put64(a, 8, size), 16, nblocks), false, now),
        MFS_MAGIC_FILE,
    )
}

/// What of a node a write changes: its size, its number of blocks, its times, its seal.
pub proof fn lemma_final_bytes(a: Seq<u8>, size: u64, nblocks: u32, now: u64)
    requires
        a.len() == 4096,
    ensures
        final_node(a, size, nblocks, now).len() == 4096,
        mfs_file::file_size(final_node(a, size, nblocks, now)) == size,
        mfs_file::file_nblocks(final_node(a, size, nblocks, now)) == nblocks,
        forall|k: int| 24 <= k < 4056 ==> #[trigger] final_node(a, size, nblocks, now)[k] == a[k],
{
    let a1 = bytes::put64(a, 8, size);
    let a2 = bytes::put32(a1, 16, nblocks);
    let a3 = mfs_dir::touched(a2, false, now);
    let c = mfs::sealed(a3, MFS_MAGIC_FILE);
    bytes::law_put64_reads_back(a, 8, size);
    bytes::law_put32_reads_back(a1, 16, nblocks);
    assert(a3.len() == 4096);
    assert(c.len() == 4096);
    assert forall|k: int| 8 <= k < 4056 implies #[trigger] c[k] == a2[k] by {
        assert(a3[k] == a2[k]);
    }
    assert forall|k: int| 24 <= k < 4056 implies #[trigger] c[k] == a[k] by {
        assert(a1[k] == a[k]);
    }
    assert forall|k: int| 8 <= k < 16 implies #[trigger] c[k] == a1[k] by {
        assert(c[k] == a2[k]);
    }
    assert(mfs_file::file_size(c) == bytes::le64(a1, 8)) by {
        assert(c[8] == a1[8] && c[9] == a1[9] && c[10] == a1[10] && c[11] == a1[11]);
        assert(c[12] == a1[12] && c[13] == a1[13] && c[14] == a1[14] && c[15] == a1[15]);
    }
    assert(mfs_file::file_nblocks(c) == bytes::le32(a2, 16)) by {
        assert(c[16] == a2[16] && c[17] == a2[17] && c[18] == a2[18] && c[19] == a2[19]);
    }
}

/// The new node has the map of the old one, and says the new size.
pub proof fn lemma_final_node(s: MfsView, a: Seq<u8>, size: u64, nblocks: u32, now: u64)
    requires
        node_ok(s, a),
    ensures
        node_ok(s, final_node(a, size, nblocks, now)),
        mfs_file::file_size(final_node(a, size, nblocks, now)) == size,
        mfs_file::file_nblocks(final_node(a, size, nblocks, now)) == nblocks,
        forall|p: MfsMapPlan|
            good_plan(p) ==> #[trigger] mapv(s, final_node(a, size, nblocks, now), p) == mapv(
                s,
                a,
                p,
            ),
{
    lemma_final_bytes(a, size, nblocks, now);
    lemma_same_numbers(s, a, final_node(a, size, nblocks, now));
}

/// The map of a node is in its numbers.
pub proof fn lemma_same_numbers(s: MfsView, a: Seq<u8>, c: Seq<u8>)
    requires
        node_ok(s, a),
        c.len() == 4096,
        forall|k: int| 24 <= k < 4056 ==> #[trigger] c[k] == a[k],
    ensures
        node_ok(s, c),
        forall|p: MfsMapPlan| good_plan(p) ==> #[trigger] mapv(s, c, p) == mapv(s, a, p),
{
    assert forall|o: int| 24 <= o <= 4052 implies #[trigger] bytes::le32(c, o) == bytes::le32(
        a,
        o,
    ) by {
        assert(c[o] == a[o] && c[o + 1] == a[o + 1] && c[o + 2] == a[o + 2] && c[o + 3] == a[o + 3]);
    }
    assert forall|i: int| 0 <= i < 1005 implies leaf_ok(
        s,
        #[trigger] bytes::le32(c, 24 + 4 * i),
    ) by {
        assert(bytes::le32(c, 24 + 4 * i) == bytes::le32(a, 24 + 4 * i));
    }
}

/// Finishing a change: the node is written, and found.
pub proof fn lemma_finish(s: MfsView, ino: u32, w: WriterView, size: u64, nblocks: u32) -> (c: Seq<u8>)
    requires
        wok(s, w),
        mfs_cow::table_ok(s),
        mfs_cow::good_ino(ino),
    ensures
        mfs_cow::stable(s, s.finish(ino, w, size, nblocks).0),
        s.finish(ino, w, size, nblocks).1 ==> ({
            let t = s.finish(ino, w, size, nblocks).0;
            &&& mfs_cow::table_ok(t)
            &&& mfs_cow::obj(t, ino) != 0
            &&& mfs_cow::held(t, mfs_cow::obj(t, ino))
            &&& t.load(mfs_cow::obj(t, ino), MFS_MAGIC_FILE) == Some(c)
            &&& node_ok(t, c)
            &&& mfs_file::file_size(c) == size
            &&& mfs_file::file_nblocks(c) == nblocks
            &&& forall|p: MfsMapPlan| good_plan(p) ==> #[trigger] mapv(t, c, p) == amap(s, w, p)
            &&& forall|i: u32|
                mfs_cow::good_ino(i) && i != ino ==> #[trigger] mfs_cow::obj(t, i) == mfs_cow::obj(
                    s,
                    i,
                )
        }),
{
    reveal(MfsView::finish);
    lemma_ind_flush(s, w);
    let (t, r) = s.ind_flush(w);
    match r {
        None => w.a,
        Some(v) => {
            let data = mfs_dir::touched(
                bytes::put32(bytes::put64(v.a, 8, size), 16, nblocks),
                false,
                t.now,
            );
            let c = final_node(v.a, size, nblocks, t.now);
            mfs_cow::lemma_obj_stable(s, t);
            mfs_cow::lemma_commit_object(t, ino, data, MFS_MAGIC_FILE);
            let u = t.commit_object(ino, data, MFS_MAGIC_FILE).0;
            mfs_cow::lemma_stable_trans(s, t, u);
            if t.commit_object(ino, data, MFS_MAGIC_FILE).1 {
                lemma_node(t, u, v.a);
                lemma_final_node(u, v.a, size, nblocks, t.now);
                assert forall|p: MfsMapPlan| good_plan(p) implies #[trigger] mapv(u, c, p) == amap(
                    s,
                    w,
                    p,
                ) by {
                    assert(mapv(u, c, p) == mapv(u, v.a, p));
                    assert(mapv(u, v.a, p) == mapv(t, v.a, p));
                    lemma_clean(t, v, p);
                    assert(amap(t, v, p) == amap(s, w, p));
                }
                assert forall|i: u32|
                    mfs_cow::good_ino(i) && i != ino implies #[trigger] mfs_cow::obj(u, i)
                    == mfs_cow::obj(s, i) by {
                    assert(mfs_cow::obj(u, i) == mfs_cow::obj(t, i));
                }
            }
            c
        },
    }
}

/// A node opened for writing.
pub proof fn lemma_writer(s: MfsView, a: Seq<u8>)
    requires
        mfs_cow::sound(s),
        node_ok(s, a),
    ensures
        wok(s, mfs_file::writer(a)),
        forall|p: MfsMapPlan|
            good_plan(p) ==> #[trigger] amap(s, mfs_file::writer(a), p) == mapv(s, a, p),
{
}

/// Law: after a write, the file holds its old bytes with the data written over them, zeros
/// between the old end and the offset, and is as long as it has to be. It is in good order
/// again, and so is every other file, unchanged. What was in use before is not overwritten.
pub proof fn law_write_reads_back(
    s: MfsView,
    ino: u32,
    a: Seq<u8>,
    offset: u64,
    data: Seq<u8>,
) -> (c: Seq<u8>)
    requires
        file_ok(s, ino, a),
        s.write_file(ino, offset, data).1,
    ensures
        file_ok(s.write_file(ino, offset, data).0, ino, c),
        content(s.write_file(ino, offset, data).0, c) == tmpfs::overwritten(
            content(s, a),
            offset as int,
            data,
        ),
        mfs_cow::stable(s, s.write_file(ino, offset, data).0),
        forall|i: u32, d: Seq<u8>|
            i != ino && #[trigger] file_ok(s, i, d) ==> file_ok(
                s.write_file(ino, offset, data).0,
                i,
                d,
            ) && content(s.write_file(ino, offset, data).0, d) == content(s, d),
{
    reveal(MfsView::write_file);
    lemma_object(s, ino);
    let t = s.object_block(ino).0;
    mfs_cow::lemma_buffer_only(s, t);
    lemma_file_elsewhere(s, t, ino, a);
    let w = mfs_file::writer(a);
    lemma_writer(t, a);
    assert(holes_after(t, w)) by {
        assert forall|bj: int|
            mfs_file::file_nblocks(w.a) <= bj < MFS_FILE_MAX_BLOCKS implies #[trigger] amap(
            t,
            w,
            at(bj),
        ) == 0 by {
            lemma_at(bj, bj);
            assert(mapv(t, a, at(bj)) == 0);
        }
    }
    let end = offset + data.len();
    lemma_write_from(t, w, offset as int, data, 0);
    let (t1, r1) = t.write_from(w, offset as int, data, 0);
    let v = r1->Some_0;
    let size = mfs_file::most(end, mfs_file::file_size(a) as int) as u64;
    let nb = mfs_file::file_nblocks(v.a);
    mfs_cow::lemma_obj_stable(t, t1);
    let c = lemma_finish(t1, ino, v, size, nb);
    let u = t1.finish(ino, v, size, nb).0;
    assert(u == s.write_file(ino, offset, data).0);
    mfs_cow::lemma_stable_trans(s, t, t1);
    mfs_cow::lemma_stable_trans(s, t1, u);
    assert forall|bj: int| 0 <= bj < MFS_FILE_MAX_BLOCKS implies #[trigger] mapv(u, c, at(bj))
        == amap(t1, v, at(bj)) && bytes_at(u, mapv(u, c, at(bj))) == block_of(t1, v, bj)
        && block_of(t, w, bj) == bytes_at(t, mapv(t, a, at(bj))) by {
        lemma_at(bj, bj);
        lemma_amap_ok(t1, v, at(bj));
        lemma_leaf(t1, u, amap(t1, v, at(bj)));
    }
    assert forall|bj: int| nb <= bj < MFS_FILE_MAX_BLOCKS implies #[trigger] mapv(u, c, at(bj))
        == 0 by {
        assert(amap(t1, v, at(bj)) == 0);
    }
    assert forall|bj: int, k: int|
        0 <= bj < MFS_FILE_MAX_BLOCKS && 0 <= k < 4088 implies #[trigger] bytes_at(
        u,
        mapv(u, c, at(bj)),
    )[k] == if offset <= bj * 4088 + k < end {
        data[bj * 4088 + k - offset]
    } else {
        bytes_at(t, mapv(t, a, at(bj)))[k]
    } by {
        assert(mapv(u, c, at(bj)) == amap(t1, v, at(bj)));
        assert(block_of(t1, v, bj)[k] == if offset <= bj * 4088 + k < end {
            data[bj * 4088 + k - offset]
        } else {
            block_of(t, w, bj)[k]
        });
    }
    assert forall|bj: int, k: int|
        0 <= bj < MFS_FILE_MAX_BLOCKS && 0 <= k < 4088 && bj * 4088 + k >= size implies
        #[trigger] bytes_at(u, mapv(u, c, at(bj)))[k] == 0 by {
        assert(bytes_at(t, mapv(t, a, at(bj)))[k] == 0);
    }
    assert(file_ok(u, ino, c));
    let want = tmpfs::overwritten(content(s, a), offset as int, data);
    assert(content(u, c) =~= want) by {
        assert forall|pos: int| 0 <= pos < size implies content(u, c)[pos] == want[pos] by {
            let bj = pos / 4088;
            let k = pos % 4088;
            if pos < MFS_FILE_MAX_BYTES {
                assert(0 <= bj < MFS_FILE_MAX_BLOCKS);
                assert(bj * 4088 + k == pos);
                assert(bytes_at(u, mapv(u, c, at(bj)))[k] == if offset <= pos < end {
                    data[pos - offset]
                } else {
                    bytes_at(t, mapv(t, a, at(bj)))[k]
                });
                if !(offset <= pos < end) {
                    if pos < mfs_file::file_size(a) {
                        assert(content(t, a)[pos] == bytes_at(t, mapv(t, a, at(bj)))[k]);
                    } else {
                        assert(bytes_at(t, mapv(t, a, at(bj)))[k] == 0);
                    }
                }
            } else {
                assert(content(s, a)[pos] == 0);
            }
        }
    }
    assert forall|i: u32, d: Seq<u8>| i != ino && #[trigger] file_ok(s, i, d) implies file_ok(
        u,
        i,
        d,
    ) && content(u, d) == content(s, d) by {
        assert(mfs_cow::obj(t, i) == mfs_cow::obj(s, i));
        assert(mfs_cow::obj(t1, i) == mfs_cow::obj(t, i));
        assert(mfs_cow::obj(u, i) == mfs_cow::obj(t1, i));
        lemma_file_elsewhere(s, u, i, d);
    }
    c
}

} // verus!
