//! MorionFS: what cutting and extending a file leaves.
use vstd::prelude::*;

use crate::bytes;
use crate::mfs;
use crate::mfs::{MfsView, MFS_MAGIC_DATA, MFS_MAGIC_FILE};
use crate::mfs_cow;
use crate::mfs_dir;
use crate::mfs_file;
use crate::mfs_file::{WriterView, MFS_FILE_MAX_BLOCKS, MFS_FILE_MAX_BYTES};
use crate::mfs_laws;
use crate::mfs_laws::{amap, at, bytes_at, committed, good_plan, mapv, wok};

verus! {

/// `v` with `n` bytes: cut, or zeros after it.
pub open spec fn resized(v: Seq<u8>, n: int) -> Seq<u8> {
    Seq::new(
        n as nat,
        |i: int|
            if i < v.len() {
                v[i]
            } else {
                0u8
            },
    )
}

/// The map from `s` to `t` with the blocks from `b` to `end - 1` made holes.
pub open spec fn holed(
    s: MfsView,
    w: WriterView,
    t: MfsView,
    v: WriterView,
    b: int,
    end: int,
) -> bool {
    forall|bj: int|
        0 <= bj < MFS_FILE_MAX_BLOCKS ==> #[trigger] amap(t, v, at(bj)) == if b <= bj < end {
            0
        } else {
            amap(s, w, at(bj))
        }
}

/// One block made a hole.
proof fn lemma_unmap(s: MfsView, w: WriterView, bi: int)
    requires
        wok(s, w),
        0 <= bi < MFS_FILE_MAX_BLOCKS,
    ensures
        committed(s, s.unmap(w, bi).0),
        s.unmap(w, bi).1 matches Some(v) ==> wok(s.unmap(w, bi).0, v) && holed(
            s,
            w,
            s.unmap(w, bi).0,
            v,
            bi,
            bi + 1,
        ),
{
    reveal(MfsView::unmap);
    mfs_laws::lemma_ind_peek(s, w, bi);
    mfs_laws::lemma_at(bi, bi);
    let (t, r) = s.ind_peek(w, bi);
    if r is Some {
        let (w1, db) = r->Some_0;
        assert forall|bj: int| 0 <= bj < MFS_FILE_MAX_BLOCKS implies #[trigger] amap(t, w1, at(bj))
            == amap(s, w, at(bj)) by {
            mfs_laws::lemma_at(bj, bj);
        }
        if db != 0 {
            mfs_laws::lemma_ind_link(t, w1, bi, 0);
            let (u, r2) = t.ind_link(w1, bi, 0);
            mfs_laws::lemma_committed_trans(s, t, u);
            if r2 is Some {
                let v = r2->Some_0;
                assert forall|bj: int| 0 <= bj < MFS_FILE_MAX_BLOCKS implies #[trigger] amap(
                    u,
                    v,
                    at(bj),
                ) == if bi <= bj < bi + 1 {
                    0
                } else {
                    amap(s, w, at(bj))
                } by {
                    mfs_laws::lemma_at(bj, bi);
                    if bj != bi {
                        assert(amap(u, v, at(bj)) == amap(t, w1, at(bj)));
                    }
                }
            }
        }
    }
}

/// A range of blocks made holes.
proof fn lemma_unmap_range(s: MfsView, w: WriterView, b: int, end: int)
    requires
        wok(s, w),
        0 <= b,
        end <= MFS_FILE_MAX_BLOCKS,
    ensures
        committed(s, s.unmap_range(w, b, end).0),
        s.unmap_range(w, b, end).1 matches Some(v) ==> wok(s.unmap_range(w, b, end).0, v) && holed(
            s,
            w,
            s.unmap_range(w, b, end).0,
            v,
            b,
            end,
        ),
    decreases end - b,
{
    mfs_cow::lemma_stable_refl(s);
    if b < end {
        lemma_unmap(s, w, b);
        let (t, r) = s.unmap(w, b);
        if r is Some {
            let w1 = r->Some_0;
            lemma_unmap_range(t, w1, b + 1, end);
            let (u, r2) = t.unmap_range(w1, b + 1, end);
            mfs_laws::lemma_committed_trans(s, t, u);
            if r2 is Some {
                let v = r2->Some_0;
                assert forall|bj: int| 0 <= bj < MFS_FILE_MAX_BLOCKS implies #[trigger] amap(
                    u,
                    v,
                    at(bj),
                ) == if b <= bj < end {
                    0
                } else {
                    amap(s, w, at(bj))
                } by {
                    assert(amap(t, w1, at(bj)) == if b <= bj < b + 1 {
                        0
                    } else {
                        amap(s, w, at(bj))
                    });
                }
            }
        }
    }
}

/// What kind of place a block has.
proof fn lemma_kind(bj: int)
    requires
        0 <= bj < MFS_FILE_MAX_BLOCKS,
    ensures
        good_plan(at(bj)),
        at(bj).kind == if bj < 1005 {
            0
        } else if bj < 2027 {
            1
        } else if bj < 1_046_511 {
            2
        } else {
            3u32
        },
        bj < 1005 ==> at(bj).slot1 == bj,
{
    reveal(mfs_laws::at);
    mfs_laws::lemma_at(bj, bj);
}

/// Where an indirect area is named in a node, where it starts and where it ends.
pub open spec fn area(k: int) -> (usize, int, int) {
    if k == 1 {
        (4044, 1005, 2027)
    } else if k == 2 {
        (4048, 2027, 1_046_511)
    } else {
        (4052, 1_046_511, MFS_FILE_MAX_BLOCKS as int)
    }
}

/// The number of an indirect area cleared: all its blocks are holes.
proof fn lemma_drop_ptr(s: MfsView, w: WriterView, k: int)
    requires
        wok(s, w),
        1 <= k <= 3,
        w.kind < k,
    ensures
        ({
            let v = WriterView { a: mfs_file::with_ptr(w.a, area(k).0, 0), ..w };
            wok(s, v) && holed(s, w, s, v, area(k).1, area(k).2)
        }),
{
    let off = area(k).0;
    let v = WriterView { a: mfs_file::with_ptr(w.a, off, 0), ..w };
    mfs_laws::lemma_node_ptr(s, w.a, off as int, 0);
    mfs_laws::lemma_ptr(w.a, off as int, 0);
    assert forall|bj: int| 0 <= bj < MFS_FILE_MAX_BLOCKS implies #[trigger] amap(s, v, at(bj))
        == if area(k).1 <= bj < area(k).2 {
        0
    } else {
        amap(s, w, at(bj))
    } by {
        lemma_kind(bj);
        let p = at(bj);
        if p.kind == k {
            assert(mapv(s, v.a, p) == 0);
        } else {
            assert(mapv(s, v.a, p) == mapv(s, w.a, p));
        }
    }
}

/// One indirect area cut.
proof fn lemma_drop_area(s: MfsView, w: WriterView, keep: int, nb: int, k: int, end: int)
    requires
        wok(s, w),
        1 <= k <= 3,
        w.kind < k,
        0 <= keep,
        0 <= nb <= MFS_FILE_MAX_BLOCKS,
        end == if k == 3 {
            nb
        } else {
            area(k).2
        },
        forall|bj: int| nb <= bj < MFS_FILE_MAX_BLOCKS ==> #[trigger] amap(s, w, at(bj)) == 0,
    ensures
        ({
            let (t, r) = s.drop_area(w, keep, nb, area(k).1, end, area(k).0);
            &&& committed(s, t)
            &&& r matches Some(v) ==> wok(t, v) && v.kind <= k && holed(
                s,
                w,
                t,
                v,
                mfs_file::most(keep, area(k).1),
                area(k).2,
            )
        }),
{
    reveal(MfsView::drop_area);
    mfs_cow::lemma_stable_refl(s);
    let start = area(k).1;
    let (t, r) = s.drop_area(w, keep, nb, start, end, area(k).0);
    if nb <= start {
    } else if keep <= start {
        lemma_drop_ptr(s, w, k);
    } else {
        let e = mfs_file::least(end, nb);
        lemma_unmap_range(s, w, keep, e);
        lemma_range_kind(s, w, keep, e, k);
        if r is Some {
            let v = r->Some_0;
            assert forall|bj: int| 0 <= bj < MFS_FILE_MAX_BLOCKS implies #[trigger] amap(
                t,
                v,
                at(bj),
            ) == if mfs_file::most(keep, start) <= bj < area(k).2 {
                0
            } else {
                amap(s, w, at(bj))
            } by {}
        }
    }
}

/// Which indirect block is in memory after holes were made in one area.
proof fn lemma_range_kind(s: MfsView, w: WriterView, b: int, end: int, k: int)
    requires
        wok(s, w),
        1 <= k <= 3,
        w.kind <= k,
        area(k).1 <= b,
        end <= area(k).2,
    ensures
        s.unmap_range(w, b, end).1 matches Some(v) ==> v.kind <= k,
    decreases end - b,
{
    if b < end {
        lemma_unmap(s, w, b);
        let (t, r) = s.unmap(w, b);
        if r is Some {
            let w1 = r->Some_0;
            lemma_kind(b);
            lemma_unmap_kind(s, w, b);
            assert(w1.kind <= k);
            lemma_range_kind(t, w1, b + 1, end, k);
        }
    }
}

/// Which indirect block is in memory after one hole was made.
proof fn lemma_unmap_kind(s: MfsView, w: WriterView, bi: int)
    requires
        wok(s, w),
        1005 <= bi < MFS_FILE_MAX_BLOCKS,
    ensures
        s.unmap(w, bi).1 matches Some(v) ==> v.kind <= at(bi).kind,
{
    reveal(MfsView::unmap);
    reveal(MfsView::ind_link);
    mfs_laws::lemma_ind_peek(s, w, bi);
    lemma_kind(bi);
}

/// Direct numbers cleared.
proof fn lemma_without_direct(a: Seq<u8>, i: int, end: int)
    requires
        a.len() == 4096,
        0 <= i,
        end <= 1005,
    ensures
        mfs_file::without_direct(a, i, end).len() == 4096,
        forall|j: int|
            0 <= j < 1008 ==> #[trigger] bytes::le32(
                mfs_file::without_direct(a, i, end),
                24 + 4 * j,
            ) == if i <= j < end {
                0
            } else {
                bytes::le32(a, 24 + 4 * j)
            },
    decreases end - i,
{
    if i < end {
        mfs_laws::lemma_ptr(a, 24 + 4 * i, 0);
        let b = bytes::put32(a, 24 + 4 * i, 0);
        lemma_without_direct(b, i + 1, end);
        let c = mfs_file::without_direct(b, i + 1, end);
        assert forall|j: int| 0 <= j < 1008 implies #[trigger] bytes::le32(c, 24 + 4 * j)
            == if i <= j < end {
            0
        } else {
            bytes::le32(a, 24 + 4 * j)
        } by {
            if j != i {
                assert(bytes::le32(b, 24 + 4 * j) == bytes::le32(a, 24 + 4 * j));
            }
        }
    }
}

/// The direct blocks from `keep` on dropped.
proof fn lemma_drop_direct(s: MfsView, a: Seq<u8>, keep: int, nb: int)
    requires
        mfs_cow::sound(s),
        mfs_laws::node_ok(s, a),
        0 <= keep,
        0 <= nb,
        forall|bj: int| nb <= bj < MFS_FILE_MAX_BLOCKS ==> #[trigger] mapv(s, a, at(bj)) == 0,
    ensures
        ({
            let w = mfs_file::writer(a);
            let c = mfs_file::without_direct(a, keep, mfs_file::least(1005, nb));
            let v = WriterView { a: c, ..w };
            wok(s, v) && holed(s, w, s, v, keep, 1005)
        }),
{
    let w = mfs_file::writer(a);
    let end = mfs_file::least(1005, nb);
    let c = mfs_file::without_direct(a, keep, end);
    let v = WriterView { a: c, ..w };
    lemma_without_direct(a, keep, end);
    assert(bytes::le32(c, 24 + 4 * 1005int) == bytes::le32(a, 24 + 4 * 1005int));
    assert(bytes::le32(c, 24 + 4 * 1006int) == bytes::le32(a, 24 + 4 * 1006int));
    assert(bytes::le32(c, 24 + 4 * 1007int) == bytes::le32(a, 24 + 4 * 1007int));
    assert forall|i: int| 0 <= i < 1005 implies mfs_laws::leaf_ok(
        s,
        #[trigger] bytes::le32(c, 24 + 4 * i),
    ) by {
        if !(keep <= i < end) {
            assert(bytes::le32(c, 24 + 4 * i) == bytes::le32(a, 24 + 4 * i));
        }
    }
    assert forall|bj: int| 0 <= bj < MFS_FILE_MAX_BLOCKS implies #[trigger] amap(s, v, at(bj))
        == if keep <= bj < 1005 {
        0
    } else {
        amap(s, w, at(bj))
    } by {
        lemma_kind(bj);
        if bj < 1005 {
            assert(bytes::le32(c, 24 + 4 * bj) == if keep <= bj < end {
                0
            } else {
                bytes::le32(a, 24 + 4 * bj)
            });
            if bj >= nb {
                assert(mapv(s, a, at(bj)) == 0);
            }
        }
    }
}

/// Holes one after the other.
proof fn lemma_holes_trans(
    s: MfsView,
    w: WriterView,
    t: MfsView,
    v: WriterView,
    u: MfsView,
    x: WriterView,
    b: int,
    mid: int,
    c: int,
    end: int,
)
    requires
        holed(s, w, t, v, b, mid),
        holed(t, v, u, x, c, end),
        c == mfs_file::most(b, mid),
        mid <= end,
    ensures
        holed(s, w, u, x, b, end),
{
    assert forall|bj: int| 0 <= bj < MFS_FILE_MAX_BLOCKS implies #[trigger] amap(u, x, at(bj))
        == if b <= bj < end {
        0
    } else {
        amap(s, w, at(bj))
    } by {
        assert(amap(t, v, at(bj)) == if b <= bj < mid {
            0
        } else {
            amap(s, w, at(bj))
        });
    }
}

/// Every block from `keep` on dropped.
proof fn lemma_drop_blocks(s: MfsView, a: Seq<u8>, keep: int, nb: int)
    requires
        mfs_cow::sound(s),
        mfs_laws::node_ok(s, a),
        0 <= keep,
        0 <= nb <= MFS_FILE_MAX_BLOCKS,
        forall|bj: int| nb <= bj < MFS_FILE_MAX_BLOCKS ==> #[trigger] mapv(s, a, at(bj)) == 0,
    ensures
        ({
            let w = mfs_file::writer(a);
            let (t, r) = s.drop_blocks(w, keep, nb);
            &&& committed(s, t)
            &&& r matches Some(v) ==> wok(t, v) && holed(
                s,
                w,
                t,
                v,
                keep,
                MFS_FILE_MAX_BLOCKS as int,
            )
        }),
{
    reveal(MfsView::drop_blocks);
    let w = mfs_file::writer(a);
    let c = mfs_file::without_direct(a, keep, mfs_file::least(1005, nb));
    let w0 = WriterView { a: c, ..w };
    lemma_drop_direct(s, a, keep, nb);
    mfs_laws::lemma_writer(s, a);
    assert forall|bj: int| nb <= bj < MFS_FILE_MAX_BLOCKS implies #[trigger] amap(s, w0, at(bj))
        == 0 by {
        mfs_laws::lemma_at(bj, bj);
        assert(mapv(s, a, at(bj)) == 0);
        assert(amap(s, w, at(bj)) == mapv(s, a, at(bj)));
    }
    lemma_drop_area(s, w0, keep, nb, 1, 2027);
    let (s1, r1) = s.drop_area(w0, keep, nb, 1005, 2027, 4044);
    if r1 is Some {
        let w1 = r1->Some_0;
        lemma_holes_trans(s, w, s, w0, s1, w1, keep, 1005, mfs_file::most(keep, 1005), 2027);
        assert forall|bj: int| nb <= bj < MFS_FILE_MAX_BLOCKS implies #[trigger] amap(
            s1,
            w1,
            at(bj),
        ) == 0 by {
            assert(amap(s, w0, at(bj)) == 0);
        }
        lemma_drop_area(s1, w1, keep, nb, 2, 1_046_511);
        let (s2, r2) = s1.drop_area(w1, keep, nb, 2027, 1_046_511, 4048);
        mfs_laws::lemma_committed_trans(s, s1, s2);
        if r2 is Some {
            let w2 = r2->Some_0;
            lemma_holes_trans(
                s,
                w,
                s1,
                w1,
                s2,
                w2,
                keep,
                2027,
                mfs_file::most(keep, 2027),
                1_046_511,
            );
            assert forall|bj: int| nb <= bj < MFS_FILE_MAX_BLOCKS implies #[trigger] amap(
                s2,
                w2,
                at(bj),
            ) == 0 by {
                assert(amap(s1, w1, at(bj)) == 0);
            }
            lemma_drop_area(s2, w2, keep, nb, 3, nb);
            let (s3, r3) = s2.drop_area(w2, keep, nb, 1_046_511, nb, 4052);
            mfs_laws::lemma_committed_trans(s, s2, s3);
            if r3 is Some {
                let w3 = r3->Some_0;
                lemma_holes_trans(
                    s,
                    w,
                    s2,
                    w2,
                    s3,
                    w3,
                    keep,
                    1_046_511,
                    mfs_file::most(keep, 1_046_511),
                    MFS_FILE_MAX_BLOCKS as int,
                );
                mfs_laws::lemma_ind_flush(s3, w3);
                let (t, r) = s3.ind_flush(w3);
                mfs_laws::lemma_committed_trans(s, s3, t);
                if r is Some {
                    assert forall|bj: int| 0 <= bj < MFS_FILE_MAX_BLOCKS implies #[trigger] amap(
                        t,
                        r->Some_0,
                        at(bj),
                    ) == if keep <= bj {
                        0
                    } else {
                        amap(s, w, at(bj))
                    } by {
                        mfs_laws::lemma_at(bj, bj);
                        assert(amap(t, r->Some_0, at(bj)) == amap(s3, w3, at(bj)));
                    }
                }
            }
        }
    }
}

/// The last block cleared behind the new end.
proof fn lemma_clear_tail(s: MfsView, w: WriterView, bi: int, tail: int)
    requires
        wok(s, w),
        0 <= bi < MFS_FILE_MAX_BLOCKS,
        0 < tail < 4088,
    ensures
        committed(s, s.clear_tail(w, bi, tail).0),
        s.clear_tail(w, bi, tail).1 matches Some(v) ==> ({
            let t = s.clear_tail(w, bi, tail).0;
            &&& wok(t, v)
            &&& forall|k: int|
                0 <= k < 4088 ==> #[trigger] mfs_laws::block_of(t, v, bi)[k] == if k < tail {
                    mfs_laws::block_of(s, w, bi)[k]
                } else {
                    0
                }
            &&& forall|bj: int|
                0 <= bj < MFS_FILE_MAX_BLOCKS && bj != bi ==> #[trigger] amap(t, v, at(bj))
                    == amap(s, w, at(bj))
        }),
{
    reveal(MfsView::clear_tail);
    mfs_laws::lemma_at(bi, bi);
    let p = at(bi);
    mfs_laws::lemma_ind_peek(s, w, bi);
    let (t, r) = s.ind_peek(w, bi);
    if r is Some {
        let (w1, db) = r->Some_0;
        mfs_laws::lemma_amap_ok(s, w, p);
        mfs_laws::lemma_amap_ok(t, w1, p);
        assert(amap(t, w1, p) == db);
        mfs_laws::lemma_same_bytes(s, t, db);
        assert forall|bj: int| 0 <= bj < MFS_FILE_MAX_BLOCKS implies #[trigger] amap(t, w1, at(bj))
            == amap(s, w, at(bj)) by {
            mfs_laws::lemma_at(bj, bj);
        }
        if db != 0 {
            mfs_cow::lemma_block_len(t, db);
            match t.load(db, MFS_MAGIC_DATA) {
                None => {},
                Some(c) => {
                    let d = bytes::splice(c, 8 + tail, bytes::zeros(4088 - tail));
                    mfs_cow::lemma_commit(t, d, MFS_MAGIC_DATA);
                    mfs::law_sealed_is_ok(d, MFS_MAGIC_DATA);
                    let (t1, r1) = t.commit(d, MFS_MAGIC_DATA);
                    mfs_laws::lemma_committed_trans(s, t, t1);
                    if r1 is Some {
                        let nb = r1->Some_0;
                        mfs_laws::lemma_wok_stable(t, t1, w1);
                        mfs_laws::lemma_ind_link(t1, w1, bi, nb);
                        let (t2, r2) = t1.ind_link(w1, bi, nb);
                        mfs_laws::lemma_committed_trans(s, t1, t2);
                        if r2 is Some {
                            let v = r2->Some_0;
                            mfs_laws::lemma_same_bytes(t1, t2, nb);
                            let img = mfs::payload(mfs::sealed(d, MFS_MAGIC_DATA));
                            assert(bytes_at(t2, nb) == img);
                            assert forall|k: int| 0 <= k < 4088 implies img[k] == if k < tail {
                                mfs::payload(c)[k]
                            } else {
                                0
                            } by {
                                assert(mfs::sealed(d, MFS_MAGIC_DATA)[8 + k] == d[8 + k]);
                            }
                            assert(amap(t2, v, p) == nb);
                            assert forall|bj: int|
                                0 <= bj < MFS_FILE_MAX_BLOCKS && bj != bi implies #[trigger] amap(
                                t2,
                                v,
                                at(bj),
                            ) == amap(s, w, at(bj)) by {
                                mfs_laws::lemma_at(bj, bi);
                                let q = at(bj);
                                assert(amap(t2, v, q) == amap(t1, w1, q));
                                assert(amap(t1, w1, q) == amap(t, w1, q));
                            }
                        }
                    }
                },
            }
        }
    }
}

/// A file opened for writing that holds the first `size` bytes of `a`, in `nb` blocks.
#[verifier::opaque]
pub open spec fn cut_blocks(
    s: MfsView,
    a: Seq<u8>,
    t: MfsView,
    w: WriterView,
    size: int,
    nb: int,
) -> bool {
    &&& forall|bj: int| nb <= bj < MFS_FILE_MAX_BLOCKS ==> #[trigger] amap(t, w, at(bj)) == 0
    &&& forall|bj: int, k: int|
        0 <= bj < nb && 0 <= k < 4088 ==> #[trigger] mfs_laws::block_of(t, w, bj)[k] == if bj
            * 4088 + k < size {
            bytes_at(s, mapv(s, a, at(bj)))[k]
        } else {
            0
        }
}

/// What a file holds once its blocks are cut.
proof fn lemma_cut_file(
    s: MfsView,
    ino: u32,
    a: Seq<u8>,
    t: MfsView,
    w: WriterView,
    size: u64,
    nb: u32,
) -> (c: Seq<u8>)
    requires
        mfs_laws::file_ok(s, ino, a),
        mfs_cow::table_ok(t),
        wok(t, w),
        size < mfs_file::file_size(a),
        size <= MFS_FILE_MAX_BYTES,
        nb == (size + 4087) / 4088,
        cut_blocks(s, a, t, w, size as int, nb as int),
        t.finish(ino, w, size, nb).1,
    ensures
        ({
            let u = t.finish(ino, w, size, nb).0;
            &&& mfs_cow::stable(t, u)
            &&& mfs_laws::file_ok(u, ino, c)
            &&& mfs_file::file_nblocks(c) == nb
            &&& mfs_laws::content(u, c) == resized(mfs_laws::content(s, a), size as int)
            &&& forall|i: u32|
                mfs_cow::good_ino(i) && i != ino ==> #[trigger] mfs_cow::obj(u, i) == mfs_cow::obj(
                    t,
                    i,
                )
        }),
{
    reveal(cut_blocks);
    let c = mfs_laws::lemma_finish(t, ino, w, size, nb);
    let u = t.finish(ino, w, size, nb).0;
    assert forall|bj: int| 0 <= bj < MFS_FILE_MAX_BLOCKS implies #[trigger] mapv(u, c, at(bj))
        == amap(t, w, at(bj)) && bytes_at(u, mapv(u, c, at(bj))) == mfs_laws::block_of(
        t,
        w,
        bj,
    ) by {
        mfs_laws::lemma_at(bj, bj);
        mfs_laws::lemma_amap_ok(t, w, at(bj));
        mfs_laws::lemma_leaf(t, u, amap(t, w, at(bj)));
    }
    assert forall|bj: int| nb <= bj < MFS_FILE_MAX_BLOCKS implies #[trigger] mapv(u, c, at(bj))
        == 0 by {
        assert(amap(t, w, at(bj)) == 0);
    }
    assert forall|bj: int, k: int|
        0 <= bj < MFS_FILE_MAX_BLOCKS && 0 <= k < 4088 && bj * 4088 + k >= size implies
        #[trigger] bytes_at(u, mapv(u, c, at(bj)))[k] == 0 by {
        assert(mapv(u, c, at(bj)) == amap(t, w, at(bj)));
        if bj < nb {
            assert(mfs_laws::block_of(t, w, bj)[k] == 0);
        }
    }
    assert(mfs_laws::content(u, c) =~= resized(mfs_laws::content(s, a), size as int)) by {
        assert forall|pos: int| 0 <= pos < size implies mfs_laws::content(u, c)[pos]
            == mfs_laws::content(s, a)[pos] by {
            let bj = pos / 4088;
            let k = pos % 4088;
            assert(bj * 4088 + k == pos);
            assert(0 <= bj < nb);
            assert(mapv(u, c, at(bj)) == amap(t, w, at(bj)));
            assert(mfs_laws::block_of(t, w, bj)[k] == bytes_at(s, mapv(s, a, at(bj)))[k]);
        }
    }
    c
}

/// Law: a file cut or extended to `size` bytes holds its old bytes up to `size`, and zeros
/// after its old end, also where no block can be. It is in good order again; every other file
/// keeps its bytes. A file that reaches beyond what can be mapped is to be cut to what can.
pub proof fn law_truncate(s: MfsView, ino: u32, a: Seq<u8>, size: u64) -> (c: Seq<u8>)
    requires
        mfs_laws::file_ok(s, ino, a),
        size < mfs_file::file_size(a) ==> size <= MFS_FILE_MAX_BYTES,
        s.truncate(ino, size).1,
    ensures
        mfs_laws::file_ok(s.truncate(ino, size).0, ino, c),
        mfs_laws::content(s.truncate(ino, size).0, c) == resized(
            mfs_laws::content(s, a),
            size as int,
        ),
        mfs_cow::stable(s, s.truncate(ino, size).0),
        forall|i: u32, d: Seq<u8>|
            i != ino && #[trigger] mfs_laws::file_ok(s, i, d) ==> mfs_laws::file_ok(
                s.truncate(ino, size).0,
                i,
                d,
            ) && mfs_laws::content(s.truncate(ino, size).0, d) == mfs_laws::content(s, d),
{
    reveal(MfsView::truncate);
    mfs_laws::lemma_object(s, ino);
    let t = s.object_block(ino).0;
    mfs_cow::lemma_buffer_only(s, t);
    mfs_laws::lemma_file_elsewhere(s, t, ino, a);
    let u = s.truncate(ino, size).0;
    let old_size = mfs_file::file_size(a);
    let c = if size == old_size {
        assert(resized(mfs_laws::content(s, a), size as int) =~= mfs_laws::content(s, a));
        a
    } else if size > old_size {
        lemma_extend(t, ino, a, size)
    } else {
        lemma_cut(t, ino, a, size)
    };
    if size != old_size {
        mfs_cow::lemma_stable_trans(s, t, u);
    }
    assert forall|i: u32, d: Seq<u8>| i != ino && #[trigger] mfs_laws::file_ok(s, i, d) implies
        mfs_laws::file_ok(u, i, d) && mfs_laws::content(u, d) == mfs_laws::content(s, d) by {
        assert(mfs_cow::obj(t, i) == mfs_cow::obj(s, i));
        assert(mfs_cow::obj(u, i) == mfs_cow::obj(t, i));
        mfs_laws::lemma_file_elsewhere(s, u, i, d);
    }
    c
}

/// Law: a file cut to `cut` bytes and then extended to `size` holds its old bytes up to `cut` and
/// zeros from there on: no byte that was cut off comes back, wherever in a block the cut is.
pub proof fn law_cut_bytes_stay_gone(s: MfsView, ino: u32, a: Seq<u8>, cut: u64, size: u64) -> (c:
    Seq<u8>)
    requires
        mfs_laws::file_ok(s, ino, a),
        cut <= mfs_file::file_size(a),
        cut < mfs_file::file_size(a) ==> cut <= MFS_FILE_MAX_BYTES,
        cut <= size,
        s.truncate(ino, cut).1,
        s.truncate(ino, cut).0.truncate(ino, size).1,
    ensures
        ({
            let t = s.truncate(ino, cut).0.truncate(ino, size).0;
            &&& mfs_laws::file_ok(t, ino, c)
            &&& mfs_laws::content(t, c).len() == size
            &&& forall|i: int|
                0 <= i < size ==> #[trigger] mfs_laws::content(t, c)[i] == if i < cut {
                    mfs_laws::content(s, a)[i]
                } else {
                    0
                }
        }),
{
    let b = law_truncate(s, ino, a, cut);
    let x = s.truncate(ino, cut).0;
    assert(mfs_laws::content(x, b).len() == cut);
    assert(mfs_file::file_size(b) == cut);
    let c = law_truncate(x, ino, b, size);
    let t = x.truncate(ino, size).0;
    assert(mfs_laws::content(t, c) == resized(
        resized(mfs_laws::content(s, a), cut as int),
        size as int,
    ));
    c
}

/// A file extended: its node alone is written.
proof fn lemma_extend(t: MfsView, ino: u32, a: Seq<u8>, size: u64) -> (c: Seq<u8>)
    requires
        mfs_laws::file_ok(t, ino, a),
        mfs_file::file_size(a) < size,
        t.commit_object(
            ino,
            mfs_dir::touched(bytes::put64(a, 8, size), false, t.now),
            MFS_MAGIC_FILE,
        ).1,
    ensures
        ({
            let u = t.commit_object(
                ino,
                mfs_dir::touched(bytes::put64(a, 8, size), false, t.now),
                MFS_MAGIC_FILE,
            ).0;
            &&& mfs_cow::stable(t, u)
            &&& mfs_laws::file_ok(u, ino, c)
            &&& mfs_file::file_nblocks(c) == mfs_file::file_nblocks(a)
            &&& mfs_laws::content(u, c) == resized(mfs_laws::content(t, a), size as int)
            &&& forall|i: u32|
                mfs_cow::good_ino(i) && i != ino ==> #[trigger] mfs_cow::obj(u, i) == mfs_cow::obj(
                    t,
                    i,
                )
        }),
{
    let data = mfs_dir::touched(bytes::put64(a, 8, size), false, t.now);
    let nb = mfs_file::file_nblocks(a);
    mfs_cow::lemma_commit_object(t, ino, data, MFS_MAGIC_FILE);
    let u = t.commit_object(ino, data, MFS_MAGIC_FILE).0;
    let c = mfs::sealed(data, MFS_MAGIC_FILE);
    lemma_extended_node(a, size, t.now);
    mfs_laws::lemma_node(t, u, a);
    mfs_laws::lemma_same_numbers(u, a, c);
    assert forall|bj: int| 0 <= bj < MFS_FILE_MAX_BLOCKS implies #[trigger] mapv(u, c, at(bj))
        == mapv(t, a, at(bj)) && bytes_at(u, mapv(u, c, at(bj))) == bytes_at(
        t,
        mapv(t, a, at(bj)),
    ) by {
        mfs_laws::lemma_at(bj, bj);
        assert(mapv(u, c, at(bj)) == mapv(u, a, at(bj)));
        assert(mapv(u, a, at(bj)) == mapv(t, a, at(bj)));
        mfs_laws::lemma_map_at(t, a, at(bj));
        mfs_laws::lemma_leaf(t, u, mapv(t, a, at(bj)));
    }
    assert forall|bj: int, k: int|
        0 <= bj < MFS_FILE_MAX_BLOCKS && 0 <= k < 4088 && bj * 4088 + k >= size implies
        #[trigger] bytes_at(u, mapv(u, c, at(bj)))[k] == 0 by {
        assert(mapv(u, c, at(bj)) == mapv(t, a, at(bj)));
        assert(bytes_at(t, mapv(t, a, at(bj)))[k] == 0);
    }
    assert(mfs_laws::content(u, c) =~= resized(mfs_laws::content(t, a), size as int)) by {
        assert forall|pos: int| 0 <= pos < size implies mfs_laws::content(u, c)[pos] == resized(
            mfs_laws::content(t, a),
            size as int,
        )[pos] by {
            let bj = pos / 4088;
            let k = pos % 4088;
            if pos < MFS_FILE_MAX_BYTES {
                assert(bj * 4088 + k == pos);
                assert(0 <= bj < MFS_FILE_MAX_BLOCKS);
                assert(mapv(u, c, at(bj)) == mapv(t, a, at(bj)));
                if pos >= mfs_file::file_size(a) {
                    assert(bytes_at(t, mapv(t, a, at(bj)))[k] == 0);
                }
            }
        }
    }
    c
}

/// The node of an extended file.
proof fn lemma_extended_node(a: Seq<u8>, size: u64, now: u64)
    requires
        a.len() == 4096,
    ensures
        ({
            let c = mfs::sealed(
                mfs_dir::touched(bytes::put64(a, 8, size), false, now),
                MFS_MAGIC_FILE,
            );
            &&& c.len() == 4096
            &&& mfs_file::file_size(c) == size
            &&& mfs_file::file_nblocks(c) == mfs_file::file_nblocks(a)
            &&& forall|k: int| 24 <= k < 4056 ==> #[trigger] c[k] == a[k]
        }),
{
    let a1 = bytes::put64(a, 8, size);
    let a2 = mfs_dir::touched(a1, false, now);
    let c = mfs::sealed(a2, MFS_MAGIC_FILE);
    bytes::law_put64_reads_back(a, 8, size);
    assert forall|k: int| 8 <= k < 4056 implies #[trigger] c[k] == a1[k] by {
        assert(a2[k] == a1[k]);
    }
    assert forall|k: int| 16 <= k < 4056 implies #[trigger] c[k] == a[k] by {
        assert(a1[k] == a[k]);
    }
    assert(mfs_file::file_size(c) == bytes::le64(a1, 8)) by {
        assert(c[8] == a1[8] && c[9] == a1[9] && c[10] == a1[10] && c[11] == a1[11]);
        assert(c[12] == a1[12] && c[13] == a1[13] && c[14] == a1[14] && c[15] == a1[15]);
    }
    assert(mfs_file::file_nblocks(c) == mfs_file::file_nblocks(a)) by {
        assert(c[16] == a[16] && c[17] == a[17] && c[18] == a[18] && c[19] == a[19]);
    }
}

/// The file after its blocks were dropped and its last block was cleared.
pub open spec fn cut_result(s: MfsView, ino: u32, a: Seq<u8>, size: u64) -> (MfsView, bool) {
    let keep = (size + 4087) / 4088;
    let tail = size as int % 4088;
    match s.drop_blocks(mfs_file::writer(a), keep, mfs_file::file_nblocks(a) as int) {
        (s1, None) => (s1, false),
        (s1, Some(w1)) => if tail == 0 {
            s1.finish(ino, w1, size, bytes::w32(keep))
        } else {
            match s1.clear_tail(w1, keep - 1, tail) {
                (s2, None) => (s2, false),
                (s2, Some(w2)) => s2.finish(ino, w2, size, bytes::w32(keep)),
            }
        },
    }
}

/// A file opened for writing that has the first `keep` blocks of `a`, and no others.
pub open spec fn first_blocks(s: MfsView, a: Seq<u8>, t: MfsView, w: WriterView, keep: int) -> bool {
    &&& forall|bj: int|
        0 <= bj < keep ==> #[trigger] mfs_laws::block_of(t, w, bj) == bytes_at(
            s,
            mapv(s, a, at(bj)),
        )
    &&& forall|bj: int| keep <= bj < MFS_FILE_MAX_BLOCKS ==> #[trigger] amap(t, w, at(bj)) == 0
}

/// All objects but `ino` are where they were.
pub open spec fn others_kept(s: MfsView, t: MfsView, ino: u32) -> bool {
    forall|i: u32|
        mfs_cow::good_ino(i) && i != ino ==> #[trigger] mfs_cow::obj(t, i) == mfs_cow::obj(s, i)
}

/// The blocks behind the new end dropped.
proof fn lemma_dropped(t: MfsView, ino: u32, a: Seq<u8>, keep: int)
    requires
        mfs_laws::file_ok(t, ino, a),
        0 <= keep <= MFS_FILE_MAX_BLOCKS,
    ensures
        ({
            let (s1, r1) = t.drop_blocks(
                mfs_file::writer(a),
                keep,
                mfs_file::file_nblocks(a) as int,
            );
            &&& committed(t, s1)
            &&& mfs_cow::table_ok(s1)
            &&& others_kept(t, s1, ino)
            &&& r1 matches Some(w1) ==> wok(s1, w1) && first_blocks(t, a, s1, w1, keep)
        }),
{
    let nb = mfs_file::file_nblocks(a) as int;
    let w = mfs_file::writer(a);
    mfs_laws::lemma_writer(t, a);
    lemma_drop_blocks(t, a, keep, nb);
    let (s1, r1) = t.drop_blocks(w, keep, nb);
    mfs_cow::lemma_obj_stable(t, s1);
    if r1 is Some {
        let w1 = r1->Some_0;
        assert forall|bj: int| 0 <= bj < keep implies #[trigger] mfs_laws::block_of(s1, w1, bj)
            == bytes_at(t, mapv(t, a, at(bj))) by {
            mfs_laws::lemma_at(bj, bj);
            assert(amap(s1, w1, at(bj)) == amap(t, w, at(bj)));
            mfs_laws::lemma_map_at(t, a, at(bj));
            mfs_laws::lemma_leaf(t, s1, mapv(t, a, at(bj)));
        }
    }
}

/// The blocks of a file cut at the end of a block.
proof fn lemma_whole_blocks(
    t: MfsView,
    a: Seq<u8>,
    size: int,
    nb: int,
    s1: MfsView,
    w1: WriterView,
)
    requires
        0 <= size,
        size % 4088 == 0,
        nb == (size + 4087) / 4088,
        first_blocks(t, a, s1, w1, nb),
    ensures
        cut_blocks(t, a, s1, w1, size, nb),
{
    reveal(cut_blocks);
    assert(nb * 4088 == size);
    assert forall|bj: int, k: int|
        0 <= bj < nb && 0 <= k < 4088 implies #[trigger] mfs_laws::block_of(s1, w1, bj)[k] == if bj
        * 4088 + k < size {
        bytes_at(t, mapv(t, a, at(bj)))[k]
    } else {
        0
    } by {
        assert(bj * 4088 + k < size);
        assert(mfs_laws::block_of(s1, w1, bj) == bytes_at(t, mapv(t, a, at(bj))));
    }
}

/// A file cut at the end of a block.
proof fn lemma_cut_whole(
    t: MfsView,
    ino: u32,
    a: Seq<u8>,
    size: u64,
    nb: u32,
    s1: MfsView,
    w1: WriterView,
) -> (c: Seq<u8>)
    requires
        mfs_laws::file_ok(t, ino, a),
        size < mfs_file::file_size(a),
        size <= MFS_FILE_MAX_BYTES,
        size as int % 4088 == 0,
        nb == (size + 4087) / 4088,
        mfs_cow::table_ok(s1),
        wok(s1, w1),
        first_blocks(t, a, s1, w1, nb as int),
        s1.finish(ino, w1, size, nb).1,
    ensures
        ({
            let u = s1.finish(ino, w1, size, nb).0;
            &&& mfs_cow::stable(s1, u)
            &&& mfs_laws::file_ok(u, ino, c)
            &&& mfs_file::file_nblocks(c) == nb
            &&& mfs_laws::content(u, c) == resized(mfs_laws::content(t, a), size as int)
            &&& others_kept(s1, u, ino)
        }),
{
    lemma_whole_blocks(t, a, size as int, nb as int, s1, w1);
    lemma_cut_file(t, ino, a, s1, w1, size, nb)
}

/// The blocks of a file whose last block was cleared behind the new end.
proof fn lemma_tail_blocks(
    t: MfsView,
    a: Seq<u8>,
    size: int,
    keep: int,
    s1: MfsView,
    w1: WriterView,
)
    requires
        wok(s1, w1),
        0 < keep <= MFS_FILE_MAX_BLOCKS,
        size == (keep - 1) * 4088 + size % 4088,
        size % 4088 != 0,
        first_blocks(t, a, s1, w1, keep),
        s1.clear_tail(w1, keep - 1, size % 4088).1 is Some,
    ensures
        ({
            let (s2, r2) = s1.clear_tail(w1, keep - 1, size % 4088);
            let w2 = r2->Some_0;
            &&& committed(s1, s2)
            &&& wok(s2, w2)
            &&& cut_blocks(t, a, s2, w2, size, keep)
        }),
{
    reveal(cut_blocks);
    let tail = size % 4088;
    lemma_clear_tail(s1, w1, keep - 1, tail);
    let (s2, r2) = s1.clear_tail(w1, keep - 1, tail);
    let w2 = r2->Some_0;
    assert forall|bj: int| keep <= bj < MFS_FILE_MAX_BLOCKS implies #[trigger] amap(s2, w2, at(bj))
        == 0 by {
        assert(amap(s1, w1, at(bj)) == 0);
    }
    assert forall|bj: int, k: int|
        0 <= bj < keep && 0 <= k < 4088 implies #[trigger] mfs_laws::block_of(s2, w2, bj)[k]
        == if bj * 4088 + k < size {
        bytes_at(t, mapv(t, a, at(bj)))[k]
    } else {
        0
    } by {
        assert(mfs_laws::block_of(s1, w1, bj) == bytes_at(t, mapv(t, a, at(bj))));
        if bj == keep - 1 {
            assert(mfs_laws::block_of(s2, w2, keep - 1)[k] == if k < tail {
                mfs_laws::block_of(s1, w1, keep - 1)[k]
            } else {
                0
            });
        } else {
            assert(bj * 4088 + k < size);
            mfs_laws::lemma_at(bj, bj);
            assert(amap(s2, w2, at(bj)) == amap(s1, w1, at(bj)));
            mfs_laws::lemma_amap_ok(s1, w1, at(bj));
            mfs_laws::lemma_same_bytes(s1, s2, amap(s1, w1, at(bj)));
        }
    }
}

/// The last block of a file that does not fill it.
proof fn lemma_last_block(size: int, nb: int)
    requires
        0 <= size,
        size % 4088 != 0,
        nb == (size + 4087) / 4088,
    ensures
        0 < nb,
        size == (nb - 1) * 4088 + size % 4088,
{
}

/// A file cut within a block.
proof fn lemma_cut_within(
    t: MfsView,
    ino: u32,
    a: Seq<u8>,
    size: u64,
    nb: u32,
    s1: MfsView,
    w1: WriterView,
    s2: MfsView,
    w2: WriterView,
) -> (c: Seq<u8>)
    requires
        mfs_laws::file_ok(t, ino, a),
        size < mfs_file::file_size(a),
        size <= MFS_FILE_MAX_BYTES,
        size as int % 4088 != 0,
        nb == (size + 4087) / 4088,
        mfs_cow::table_ok(s1),
        wok(s1, w1),
        first_blocks(t, a, s1, w1, nb as int),
        s1.clear_tail(w1, nb - 1, size as int % 4088) == (s2, Some(w2)),
        s2.finish(ino, w2, size, nb).1,
    ensures
        ({
            let u = s2.finish(ino, w2, size, nb).0;
            &&& mfs_cow::stable(s1, u)
            &&& mfs_laws::file_ok(u, ino, c)
            &&& mfs_file::file_nblocks(c) == nb
            &&& mfs_laws::content(u, c) == resized(mfs_laws::content(t, a), size as int)
            &&& others_kept(s1, u, ino)
        }),
{
    lemma_last_block(size as int, nb as int);
    assert(nb <= MFS_FILE_MAX_BLOCKS);
    lemma_tail_blocks(t, a, size as int, nb as int, s1, w1);
    mfs_cow::lemma_obj_stable(s1, s2);
    let u = s2.finish(ino, w2, size, nb).0;
    let c = lemma_cut_file(t, ino, a, s2, w2, size, nb);
    mfs_cow::lemma_stable_trans(s1, s2, u);
    assert forall|i: u32| mfs_cow::good_ino(i) && i != ino implies #[trigger] mfs_cow::obj(u, i)
        == mfs_cow::obj(s1, i) by {
        assert(mfs_cow::obj(u, i) == mfs_cow::obj(s2, i));
    }
    c
}

/// A file cut.
#[verifier::spinoff_prover]
#[verifier::rlimit(60)]
proof fn lemma_cut(t: MfsView, ino: u32, a: Seq<u8>, size: u64) -> (c: Seq<u8>)
    requires
        mfs_laws::file_ok(t, ino, a),
        size < mfs_file::file_size(a),
        size <= MFS_FILE_MAX_BYTES,
        cut_result(t, ino, a, size).1,
    ensures
        ({
            let u = cut_result(t, ino, a, size).0;
            &&& mfs_cow::stable(t, u)
            &&& mfs_laws::file_ok(u, ino, c)
            &&& mfs_laws::content(u, c) == resized(mfs_laws::content(t, a), size as int)
            &&& others_kept(t, u, ino)
        }),
{
    let keep = (size + 4087) / 4088;
    assert(0 <= keep <= MFS_FILE_MAX_BLOCKS);
    let nb = bytes::w32(keep);
    assert(nb == keep);
    lemma_dropped(t, ino, a, keep);
    let (s1, r1) = t.drop_blocks(mfs_file::writer(a), keep, mfs_file::file_nblocks(a) as int);
    let u = cut_result(t, ino, a, size).0;
    let c = if size as int % 4088 == 0 {
        lemma_cut_whole(t, ino, a, size, nb, s1, r1->Some_0)
    } else {
        let (s2, r2) = s1.clear_tail(r1->Some_0, keep - 1, size as int % 4088);
        lemma_cut_within(t, ino, a, size, nb, s1, r1->Some_0, s2, r2->Some_0)
    };
    mfs_cow::lemma_stable_trans(t, s1, u);
    assert forall|i: u32| mfs_cow::good_ino(i) && i != ino implies #[trigger] mfs_cow::obj(u, i)
        == mfs_cow::obj(t, i) by {
        assert(mfs_cow::obj(u, i) == mfs_cow::obj(s1, i));
        assert(mfs_cow::obj(s1, i) == mfs_cow::obj(t, i));
    }
    c
}

} // verus!
