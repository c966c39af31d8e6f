//! MorionFS: what is found does not depend on which block of the object table is buffered. A
//! link resolves as its target does, whatever is on the way.
use vstd::prelude::*;

use crate::mfs::{MfsView, MFS_MAGIC_DIDX, MFS_MAGIC_DIR, MFS_ROOT_INO};
use crate::mfs_cow;
use crate::mfs_dir;
use crate::mfs_dir::MfsLoc;
use crate::mfs_path;
use crate::mfs_path::{Walk, MFS_PATH_MAX, MFS_SYMLINK_MAX_DEPTH};
use crate::mfs_ways;
use crate::mfs_ways::alike;
use crate::path;

verus! {

/// The state is one of those that differ in the buffered table block only.
pub proof fn lemma_refl(s: MfsView)
    requires
        mfs_cow::table_ok(s),
    ensures
        alike(s, s),
{
    mfs_cow::lemma_stable_refl(s);
}

/// The block of an object.
pub proof fn lemma_object(s: MfsView, t: MfsView, ino: u32)
    requires
        mfs_cow::table_ok(s),
        alike(s, t),
    ensures
        t.object_block(ino).1 == s.object_block(ino).1,
        alike(s, t.object_block(ino).0),
        alike(s, s.object_block(ino).0),
{
    reveal(MfsView::object_block);
    mfs_ways::lemma_alike(s, t);
    lemma_refl(s);
    if mfs_cow::good_ino(ino) {
        mfs_cow::lemma_ino_block(s, ino);
        mfs_cow::lemma_ino_block(t, ino);
        mfs_cow::lemma_stable_trans(s, t, t.ino_block(ino).0);
    } else {
        reveal(MfsView::ino_block);
    }
}

/// An entry in the blocks of a directory's index.
proof fn lemma_ext(s: MfsView, t: MfsView, dir: u32, b: Seq<u8>, i: int, n: Seq<u8>)
    requires
        forall|x: u32, m: u32| #[trigger] t.load(x, m) == s.load(x, m),
    ensures
        t.lookup_ext(dir, b, i, n) == s.lookup_ext(dir, b, i, n),
    decreases 1022 - i,
{
    if i < 1022 {
        lemma_ext(s, t, dir, b, i + 1, n);
    }
}

/// An entry of a directory.
proof fn lemma_lookup(s: MfsView, t: MfsView, dir: u32, n: Seq<u8>)
    requires
        mfs_cow::table_ok(s),
        alike(s, t),
    ensures
        t.dir_lookup(dir, n).1 == s.dir_lookup(dir, n).1,
        alike(s, t.dir_lookup(dir, n).0),
        alike(s, s.dir_lookup(dir, n).0),
{
    reveal(MfsView::dir_lookup);
    lemma_object(s, t, dir);
    let u = t.object_block(dir).0;
    let v = s.object_block(dir).0;
    mfs_ways::lemma_alike(s, u);
    mfs_ways::lemma_alike(s, v);
    if s.object_block(dir).1 is Some {
        let a = s.load(s.object_block(dir).1->Some_0, MFS_MAGIC_DIR);
        if a is Some {
            let b = s.load(mfs_dir::dir_ext(a->Some_0), MFS_MAGIC_DIDX);
            if b is Some {
                lemma_ext(s, u, dir, b->Some_0, 0, n);
                lemma_ext(s, v, dir, b->Some_0, 0, n);
            }
        }
    }
}

/// What a link holds.
proof fn lemma_target(s: MfsView, t: MfsView, ino: u32)
    requires
        mfs_cow::table_ok(s),
        alike(s, t),
    ensures
        t.link_target(ino).1 == s.link_target(ino).1,
        alike(s, t.link_target(ino).0),
        alike(s, s.link_target(ino).0),
{
    reveal(MfsView::link_target);
    lemma_object(s, t, ino);
    mfs_ways::lemma_alike(s, t.object_block(ino).0);
    mfs_ways::lemma_alike(s, s.object_block(ino).0);
}

/// Walks that end in the same way, but for the entry before a link.
pub open spec fn same_walk(a: Walk, b: Walk) -> bool {
    match (a, b) {
        (Walk::Fail, Walk::Fail) => true,
        (Walk::At { ino, loc }, Walk::At { ino: i2, loc: l2 }) => ino == i2 && loc == l2,
        (Walk::Link { start, end, ino, leaf }, Walk::Link { start: s2, end: e2, ino: i2, leaf: l2 }) => {
            start == s2 && end == e2 && ino == i2
        },
        _ => false,
    }
}

/// A walk.
proof fn lemma_walk(
    s: MfsView,
    t: MfsView,
    p: Seq<u8>,
    i: int,
    cur: u32,
    l1: MfsLoc,
    l2: MfsLoc,
    follow: bool,
)
    requires
        mfs_cow::table_ok(s),
        alike(s, t),
    ensures
        same_walk(t.walk(p, i, cur, l1, follow).1, s.walk(p, i, cur, l2, follow).1),
        alike(s, t.walk(p, i, cur, l1, follow).0),
        alike(s, s.walk(p, i, cur, l2, follow).0),
    decreases p.len() - i,
{
    lemma_refl(s);
    let end = path::seg_end(p, i);
    if !(i >= p.len() || end <= i || end - i > mfs_dir::MFS_NAME_MAX) {
        let n = p.subrange(i, end);
        lemma_lookup(s, t, cur, n);
        let (u, r) = t.dir_lookup(cur, n);
        let v = s.dir_lookup(cur, n).0;
        mfs_ways::lemma_alike(s, u);
        mfs_ways::lemma_alike(s, v);
        if r is Some {
            let loc = r->Some_0;
            if s.load(loc.blk, MFS_MAGIC_DIR) is Some {
                let c = s.load(loc.blk, MFS_MAGIC_DIR)->Some_0;
                let ino = mfs_dir::ent_ino(c, loc.off as int);
                if end < p.len() {
                    lemma_walk(s, u, p, end + 1, ino, loc, loc, follow);
                    lemma_walk(s, v, p, end + 1, ino, loc, loc, follow);
                }
            }
        }
    }
}

/// The object that path `q` leads to, at most `n` links followed, a last one too.
pub open spec fn reaches(s: MfsView, q: Seq<u8>, n: nat) -> Option<u32> {
    if q.len() == 1 {
        Some(MFS_ROOT_INO)
    } else {
        object(s.resolve_from(q, mfs_dir::no_loc(), n, true).1)
    }
}

/// The object of what was found.
pub open spec fn object(r: Option<(u32, MfsLoc)>) -> Option<u32> {
    match r {
        None => None,
        Some((ino, loc)) => Some(ino),
    }
}

/// What is reached with fewer links is reached with more, in any state and from any entry.
proof fn lemma_reaches(
    s: MfsView,
    t: MfsView,
    q: Seq<u8>,
    l1: MfsLoc,
    l2: MfsLoc,
    m: nat,
    n: nat,
)
    requires
        mfs_cow::table_ok(s),
        alike(s, t),
        m <= n,
    ensures
        m == n ==> object(t.resolve_from(q, l1, m, true).1) == object(
            s.resolve_from(q, l2, n, true).1,
        ),
        object(t.resolve_from(q, l1, m, true).1) is Some ==> object(
            s.resolve_from(q, l2, n, true).1,
        ) == object(t.resolve_from(q, l1, m, true).1),
    decreases n,
{
    lemma_walk(s, t, q, 1, MFS_ROOT_INO, l1, l2, true);
    let (t1, w1) = t.walk(q, 1, MFS_ROOT_INO, l1, true);
    let (s1, w2) = s.walk(q, 1, MFS_ROOT_INO, l2, true);
    if w1 is Link && m > 0 {
        let ino = w1->Link_ino;
        lemma_refl(s);
        lemma_target(s, t1, ino);
        lemma_target(s, s1, ino);
        let (t2, r) = t1.followed(q, w1->Link_start as int, w1->Link_end as int, ino);
        let s2 = s1.followed(q, w2->Link_start as int, w2->Link_end as int, ino).0;
        if r is Some && r->Some_0.len() != 1 {
            let q2 = r->Some_0;
            let a = w1->Link_leaf;
            let b = w2->Link_leaf;
            lemma_reaches(s, t2, q2, a, b, (m - 1) as nat, (m - 1) as nat);
            lemma_reaches(s, s2, q2, b, b, (n - 1) as nat, (n - 1) as nat);
            lemma_reaches(s, s, q2, b, b, (m - 1) as nat, (n - 1) as nat);
        }
    }
}

/// A walk that stops at a link with the last name ends there where links at the end are not
/// followed.
proof fn lemma_stays(s: MfsView, p: Seq<u8>, i: int, cur: u32, leaf: MfsLoc)
    requires
        s.walk(p, i, cur, leaf, true).1 is Link,
        s.walk(p, i, cur, leaf, true).1->Link_end == p.len(),
        p.len() <= MFS_PATH_MAX,
        0 <= i,
    ensures
        s.walk(p, i, cur, leaf, false).1 is At,
        s.walk(p, i, cur, leaf, false).1->At_ino == s.walk(p, i, cur, leaf, true).1->Link_ino,
    decreases p.len() - i,
{
    let end = path::seg_end(p, i);
    path::lemma_seg_end(p, i);
    let (u, r) = s.dir_lookup(cur, p.subrange(i, end));
    let loc = r->Some_0;
    let c = u.load(loc.blk, MFS_MAGIC_DIR)->Some_0;
    let ino = mfs_dir::ent_ino(c, loc.off as int);
    if end < p.len() {
        lemma_stays(u, p, end + 1, ino, loc);
    }
}

/// Law: a path without links before its last name, which names a link, is resolved to the link
/// itself where that is not to be followed. Where it is to be followed, the path is resolved as
/// the link's target, put in place of the name, is with one link less to follow: to the same
/// object or to nothing. So it is found where the target is, unless that takes all the links that
/// are followed, and nothing else is.
pub proof fn law_link_stands_for_its_target(s: MfsView, p: Seq<u8>)
    requires
        mfs_cow::table_ok(s),
        1 < p.len() <= MFS_PATH_MAX,
        s.walk(p, 1, MFS_ROOT_INO, mfs_dir::no_loc(), true).1 is Link,
        s.walk(p, 1, MFS_ROOT_INO, mfs_dir::no_loc(), true).1->Link_end == p.len(),
    ensures
        ({
            let w = s.walk(p, 1, MFS_ROOT_INO, mfs_dir::no_loc(), true).1;
            let to = s.followed(p, w->Link_start as int, w->Link_end as int, w->Link_ino).1;
            let got = object(s.resolve(p, true).1);
            &&& object(s.resolve(p, false).1) == Some(w->Link_ino)
            &&& to is None ==> got is None
            &&& to matches Some(q) ==> {
                &&& got == reaches(s, q, (MFS_SYMLINK_MAX_DEPTH - 1) as nat)
                &&& got is Some ==> object(s.resolve(q, true).1) == got
            }
        }),
{
    reveal(MfsView::resolve);
    lemma_refl(s);
    let leaf = mfs_dir::no_loc();
    lemma_stays(s, p, 1, MFS_ROOT_INO, leaf);
    let (u, w) = s.walk(p, 1, MFS_ROOT_INO, leaf, true);
    lemma_walk(s, s, p, 1, MFS_ROOT_INO, leaf, leaf, true);
    lemma_target(s, u, w->Link_ino);
    let (v, r) = u.followed(p, w->Link_start as int, w->Link_end as int, w->Link_ino);
    if r is Some {
        let target = u.link_target(w->Link_ino).1->Some_0;
        let merged = mfs_path::with_target(p, w->Link_start as int, w->Link_end as int, target);
        path::lemma_plain_len(
            path::segs(merged),
            0,
            seq![0x2Fu8],
            mfs_dir::MFS_NAME_MAX as int,
            MFS_PATH_MAX as int,
        );
    }
    if r is Some && r->Some_0.len() != 1 {
        let q = r->Some_0;
        let n = (MFS_SYMLINK_MAX_DEPTH - 1) as nat;
        lemma_reaches(s, v, q, w->Link_leaf, leaf, n, n);
        lemma_reaches(s, s, q, leaf, leaf, n, MFS_SYMLINK_MAX_DEPTH as nat);
    }
}

} // verus!
