//! MorionFS: what lies on the way to a path. A directory is never moved below itself.
use vstd::prelude::*;

use crate::mfs::{MfsView, MFS_ROOT_INO};
use crate::mfs_cow;
use crate::mfs_dir;
use crate::mfs_dir::{MFS_NAME_MAX, MFS_TYPE_DIR};
use crate::mfs_path::{MFS_PATH_MAX, MFS_SYMLINK_MAX_DEPTH};
use crate::mfs_via;
use crate::mfs_ways;
use crate::path;

verus! {

/// The way along path `p` from position `i` on in directory `cur` comes to object `dir`.
pub open spec fn passes(s: MfsView, p: Seq<u8>, i: int, cur: u32, dir: u32) -> bool
    decreases p.len() - i,
{
    let end = path::seg_end(p, i);
    cur == dir || (!(i >= p.len() || end <= i || end - i > MFS_NAME_MAX) && match mfs_ways::says(
        s,
        cur,
        p.subrange(i, end),
    ) {
        None => false,
        Some((ino, typ)) => if end >= p.len() {
            ino == dir
        } else {
            passes(s, p, end + 1, ino, dir)
        },
    })
}

/// Object `dir` is what path `q`, which has no link on it, leads to, or lies on the way.
pub open spec fn on_way(s: MfsView, q: Seq<u8>, dir: u32) -> bool {
    if q.len() == 1 {
        dir == MFS_ROOT_INO
    } else {
        passes(s, q, 1, MFS_ROOT_INO, dir)
    }
}

/// A leading part of path `w`, which has no link on it, leads to object `ino`: what is at `w`
/// lies below that object.
pub open spec fn below(s: MfsView, w: Seq<u8>, ino: u32) -> bool {
    exists|k: int|
        1 < k < w.len() && w[k] == 0x2F && (#[trigger] mfs_ways::leads(
            s,
            w.subrange(0, k),
        ) matches Some((x, typ)) && x == ino)
}

/// The directories on a way without links looked at.
proof fn lemma_visits(s: MfsView, t: MfsView, p: Seq<u8>, i: int, cur: u32, dir: u32)
    requires
        mfs_cow::table_ok(s),
        mfs_ways::alike(s, t),
        1 <= i,
        p.len() <= MFS_PATH_MAX,
        mfs_ways::way_ok(s, p, i, cur),
    ensures
        mfs_ways::alike(s, t.visits(p, i, cur, dir).0),
        t.visits(p, i, cur, dir).1 == passes(s, p, i, cur, dir),
    decreases p.len() - i,
{
    let end = path::seg_end(p, i);
    if cur != dir && !(i >= p.len() || end <= i || end - i > MFS_NAME_MAX) {
        path::lemma_seg_end(p, i);
        let n = p.subrange(i, end);
        mfs_ways::lemma_look(s, t, cur, n);
        let u = t.dir_lookup(cur, n).0;
        match mfs_ways::says(s, cur, n) {
            None => {},
            Some((ino, typ)) => {
                if end < p.len() {
                    lemma_visits(s, u, p, end + 1, ino, dir);
                }
            },
        }
    }
}

/// What lies on the way to a path through links.
proof fn lemma_crosses_from(
    s: MfsView,
    t: MfsView,
    p: Seq<u8>,
    q: Seq<u8>,
    n: nat,
    dir: u32,
    links: nat,
)
    requires
        mfs_cow::table_ok(s),
        mfs_ways::alike(s, t),
        mfs_via::goes(s, p, q, n, true),
        p.len() != 1,
        n <= links,
    ensures
        mfs_ways::alike(s, t.crosses_from(p, dir, links).0),
        t.crosses_from(p, dir, links).1 == (mfs_via::ends(s, q) is Some && on_way(s, q, dir)),
    decreases n,
{
    let leaf = mfs_dir::no_loc();
    if n == 0 {
        mfs_ways::lemma_walk(s, t, p, 1, MFS_ROOT_INO, leaf, true);
        let (u, w) = t.walk(p, 1, MFS_ROOT_INO, leaf, true);
        if mfs_ways::leads(s, p) is Some {
            lemma_visits(s, u, p, 1, MFS_ROOT_INO, dir);
        }
    } else {
        let p2 = mfs_via::turn(s, p, true)->Some_0;
        mfs_via::lemma_next(s, t, p, leaf, true);
        let (u, w) = t.walk(p, 1, MFS_ROOT_INO, leaf, true);
        let v = u.followed(p, w->Link_start as int, w->Link_end as int, w->Link_ino).0;
        if p2.len() == 1 {
            assert(mfs_via::goes(s, p2, q, (n - 1) as nat, true));
            assert(n == 1);
        } else {
            lemma_crosses_from(s, v, p2, q, (n - 1) as nat, dir, (links - 1) as nat);
        }
    }
}

/// Whether an object would come to lie below itself at a path whose directory stands for that of
/// the path `dw` without links.
pub proof fn lemma_rings(
    s: MfsView,
    t: MfsView,
    ino: u32,
    typ: u32,
    dc: Seq<u8>,
    dw: Seq<u8>,
    n: nat,
)
    requires
        mfs_cow::table_ok(s),
        mfs_ways::alike(s, t),
        mfs_via::stands(s, dc, dw, n),
        path::leaf_of(dc).len() > 0,
    ensures
        mfs_ways::alike(s, t.rings(ino, typ, dc).0),
        t.rings(ino, typ, dc).1 == (typ == MFS_TYPE_DIR && mfs_via::ends(
            s,
            path::pop_segment(dw),
        ) is Some && on_way(s, path::pop_segment(dw), ino)),
{
    reveal(MfsView::rings);
    reveal(MfsView::crosses);
    mfs_via::lemma_pop_goes(s, dc, dw, n);
    let p = path::pop_segment(dc);
    let q = path::pop_segment(dw);
    if typ == MFS_TYPE_DIR {
        if p.len() == 1 {
            assert(n == 0);
        } else {
            lemma_crosses_from(s, t, p, q, n, ino, MFS_SYMLINK_MAX_DEPTH as nat);
        }
    }
}

/// A leading part of a path that leads to an object: the way comes to it.
proof fn lemma_leading(s: MfsView, p: Seq<u8>, i: int, cur: u32, k: int, ino: u32)
    requires
        1 <= i,
        0 <= k <= p.len(),
        k < p.len() ==> p[k] == 0x2F,
        mfs_ways::way(s, p.subrange(0, k), i, cur) is Some,
        mfs_ways::way(s, p.subrange(0, k), i, cur)->Some_0.0 == ino,
    ensures
        passes(s, p, i, cur, ino),
    decreases p.len() - i,
{
    let q = p.subrange(0, k);
    let e = path::seg_end(q, i);
    path::lemma_seg_end(q, i);
    assert(i < e <= k);
    assert forall|j: int| i <= j < e implies p[j] != 0x2F by {
        assert(q[j] == p[j]);
    }
    assert(e < p.len() ==> p[e] == 0x2F) by {
        if e < q.len() {
            assert(p[e] == q[e]);
        }
    }
    path::lemma_run(p, i, e);
    assert(path::seg_end(p, i) == e);
    assert(p.subrange(i, e) =~= q.subrange(i, e));
    let (x, typ) = mfs_ways::says(s, cur, q.subrange(i, e))->Some_0;
    if e < q.len() {
        lemma_leading(s, p, e + 1, x, k, ino);
    } else {
        assert(passes(s, p, e + 1, x, ino));
    }
}

/// What lies below an object has it on the way to its directory.
pub proof fn lemma_below(s: MfsView, w: Seq<u8>, ino: u32)
    requires
        mfs_ways::proper(w),
        path::leaf_of(w).len() > 0,
        below(s, w, ino),
    ensures
        path::pop_segment(w).len() > 1,
        on_way(s, path::pop_segment(w), ino),
{
    let k = choose|k: int|
        1 < k < w.len() && w[k] == 0x2F && (#[trigger] mfs_ways::leads(
            s,
            w.subrange(0, k),
        ) matches Some((x, typ)) && x == ino);
    let l = mfs_ways::leaf_at(w);
    mfs_ways::lemma_leaf(w, w.len() as int);
    assert(k < l);
    let q = path::pop_segment(w);
    assert(q =~= w.subrange(0, l - 1));
    assert(q.subrange(0, k) =~= w.subrange(0, k));
    lemma_leading(s, q, 1, MFS_ROOT_INO, k, ino);
}

/// A way that does not come to an object does not go through the entry that names it.
proof fn lemma_avoids_entry(
    s: MfsView,
    p: Seq<u8>,
    i: int,
    cur: u32,
    e: u32,
    from: Seq<u8>,
    ino: u32,
)
    requires
        0 <= i,
        mfs_ways::says(s, e, from) matches Some((x, typ)) && x == ino,
        !passes(s, p, i, cur, ino),
    ensures
        mfs_ways::avoids(s, p, i, cur, e, from),
    decreases p.len() - i,
{
    let end = path::seg_end(p, i);
    if !(i >= p.len() || end <= i || end - i > MFS_NAME_MAX) {
        match mfs_ways::says(s, cur, p.subrange(i, end)) {
            None => {},
            Some((x, typ)) => {
                if end < p.len() {
                    lemma_avoids_entry(s, p, end + 1, x, e, from, ino);
                }
            },
        }
    }
}

/// A way to a directory does not go through the entry of what is no directory.
proof fn lemma_avoids_file(s: MfsView, p: Seq<u8>, i: int, cur: u32, e: u32, from: Seq<u8>)
    requires
        0 <= i,
        mfs_ways::says(s, e, from) matches Some((x, typ)) && typ != MFS_TYPE_DIR,
        mfs_ways::way_ok(s, p, i, cur),
        mfs_ways::way(s, p, i, cur) matches Some((x, typ)) && typ == MFS_TYPE_DIR,
    ensures
        mfs_ways::avoids(s, p, i, cur, e, from),
    decreases p.len() - i,
{
    let end = path::seg_end(p, i);
    if end < p.len() {
        let (x, typ) = mfs_ways::says(s, cur, p.subrange(i, end))->Some_0;
        lemma_avoids_file(s, p, end + 1, x, e, from);
    }
}

/// The way to the directory of a path does not go through the entry of an object that does not
/// come to lie below itself there.
pub proof fn lemma_parent_avoids(
    s: MfsView,
    t: MfsView,
    ino: u32,
    typ: u32,
    dc: Seq<u8>,
    dw: Seq<u8>,
    n: nat,
    e: u32,
    from: Seq<u8>,
)
    requires
        mfs_cow::table_ok(s),
        mfs_ways::alike(s, t),
        mfs_via::stands(s, dc, dw, n),
        path::leaf_of(dc).len() > 0,
        mfs_ways::says(s, e, from) == Some((ino, typ)),
        !t.rings(ino, typ, dc).1,
        mfs_via::ends(s, path::pop_segment(dw)) is Some,
    ensures
        mfs_ways::avoids(s, path::pop_segment(dw), 1, MFS_ROOT_INO, e, from),
{
    lemma_rings(s, t, ino, typ, dc, dw, n);
    let q = path::pop_segment(dw);
    mfs_via::lemma_pop_goes(s, dc, dw, n);
    mfs_via::lemma_goes_end(s, dc, dw, n, false);
    mfs_ways::lemma_leaf(dw, dw.len() as int);
    let k = mfs_ways::leaf_at(dw);
    if q.len() != 1 {
        if typ == MFS_TYPE_DIR {
            lemma_avoids_entry(s, q, 1, MFS_ROOT_INO, e, from, ino);
        } else {
            mfs_ways::lemma_under_of(s, dw);
            assert(k > 1);
            assert(q =~= dw.subrange(0, k - 1));
            lemma_avoids_file(s, q, 1, MFS_ROOT_INO, e, from);
        }
    }
}

} // verus!
