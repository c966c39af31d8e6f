//! MorionFS: paths through symbolic links. A path leads where the path without links leads that
//! it stands for: each link on the way is put in place of its name.
use vstd::prelude::*;

use crate::mfs;
use crate::mfs::{MfsView, MFS_MAGIC_DIR, MFS_MAGIC_LINK, MFS_ROOT_INO};
use crate::mfs_cow;
use crate::mfs_dir::{MfsLoc, MFS_NAME_MAX, MFS_TYPE_DIR, MFS_TYPE_LINK};
use crate::mfs_links;
use crate::mfs_moves;
use crate::mfs_path;
use crate::mfs_path::{MFS_PATH_MAX, MFS_SYMLINK_MAX_DEPTH};
use crate::mfs_ways;
use crate::path;

verus! {

/// The first link on path `p` from position `i` on in directory `cur`: where its name starts and
/// ends, and its number. The last name counts where `follow` says so.
#[verifier::opaque]
pub open spec fn first_link(s: MfsView, p: Seq<u8>, i: int, cur: u32, follow: bool) -> Option<
    (int, int, u32),
>
    decreases p.len() - i,
{
    let end = path::seg_end(p, i);
    if i >= p.len() || end <= i || end - i > MFS_NAME_MAX {
        None
    } else {
        match mfs_ways::says(s, cur, p.subrange(i, end)) {
            None => None,
            Some((ino, typ)) => if typ == MFS_TYPE_LINK && (end < p.len() || follow) {
                Some((i, end, ino))
            } else if end >= p.len() {
                None
            } else {
                first_link(s, p, end + 1, ino, follow)
            },
        }
    }
}

/// Every directory on the path up to the first link is in good order.
#[verifier::opaque]
pub open spec fn good_till(s: MfsView, p: Seq<u8>, i: int, cur: u32, follow: bool) -> bool
    decreases p.len() - i,
{
    let end = path::seg_end(p, i);
    if i >= p.len() || end <= i || end - i > MFS_NAME_MAX {
        true
    } else {
        &&& mfs_ways::good(s, cur)
        &&& match mfs_ways::says(s, cur, p.subrange(i, end)) {
            None => true,
            Some((ino, typ)) => ino != 0 && (end >= p.len() || typ == MFS_TYPE_LINK || (typ
                == MFS_TYPE_DIR && good_till(s, p, end + 1, ino, follow))),
        }
    }
}

/// The target of link `ino` where it is in good order.
pub open spec fn aim(s: MfsView, ino: u32) -> Option<Seq<u8>> {
    if mfs_cow::good_ino(ino) && mfs_cow::obj(s, ino) != 0 && mfs_cow::held(
        s,
        mfs_cow::obj(s, ino),
    ) {
        mfs_links::text(s, ino)
    } else {
        None
    }
}

/// The path to go on with: the normal form of `p` with the target of the first link in place of
/// its name.
#[verifier::opaque]
pub open spec fn turn(s: MfsView, p: Seq<u8>, follow: bool) -> Option<Seq<u8>> {
    match first_link(s, p, 1, MFS_ROOT_INO, follow) {
        None => None,
        Some((from, to, ino)) => match aim(s, ino) {
            None => None,
            Some(t) => {
                let merged = mfs_path::with_target(p, from, to, t);
                if merged.len() > MFS_PATH_MAX {
                    None
                } else {
                    mfs_path::raw_normal(merged)
                }
            },
        },
    }
}

/// Path `p` stands for path `q`, which has no link on it: `n` links are on the way, one after
/// the other. A link that is the last name is one of them where `follow` says so.
pub open spec fn goes(s: MfsView, p: Seq<u8>, q: Seq<u8>, n: nat, follow: bool) -> bool
    decreases n,
{
    if n == 0 {
        &&& p == q
        &&& p.len() == 1 || (1 < p.len() <= MFS_PATH_MAX && mfs_ways::clear(s, p) && (
        mfs_ways::leads(s, p) matches Some((ino, typ)) ==> typ != MFS_TYPE_LINK || !follow))
    } else {
        &&& 1 < p.len() <= MFS_PATH_MAX
        &&& good_till(s, p, 1, MFS_ROOT_INO, follow)
        &&& turn(s, p, follow) matches Some(p2) && goes(s, p2, q, (n - 1) as nat, follow)
    }
}

/// Where a path without links leads; the root leads to the root directory.
pub open spec fn ends(s: MfsView, q: Seq<u8>) -> Option<(u32, u32)> {
    if q.len() == 1 {
        Some((MFS_ROOT_INO, MFS_TYPE_DIR))
    } else {
        mfs_ways::leads(s, q)
    }
}

/// The walk along a path stops at its first link.
proof fn lemma_stops(
    s: MfsView,
    t: MfsView,
    p: Seq<u8>,
    i: int,
    cur: u32,
    leaf: MfsLoc,
    follow: bool,
)
    requires
        mfs_cow::table_ok(s),
        mfs_ways::alike(s, t),
        1 <= i,
        p.len() <= MFS_PATH_MAX,
        good_till(s, p, i, cur, follow),
        first_link(s, p, i, cur, follow) is Some,
    ensures
        ({
            let (u, w) = t.walk(p, i, cur, leaf, follow);
            let (from, to, ino) = first_link(s, p, i, cur, follow)->Some_0;
            &&& mfs_ways::alike(s, u)
            &&& w is Link
            &&& w->Link_start == from
            &&& w->Link_end == to
            &&& w->Link_ino == ino
            &&& 1 <= from < to <= p.len()
        }),
    decreases p.len() - i,
{
    reveal(first_link);
    reveal(good_till);
    let end = path::seg_end(p, i);
    path::lemma_seg_end(p, i);
    let n = p.subrange(i, end);
    mfs_ways::lemma_look(s, t, cur, n);
    let (u, r) = t.dir_lookup(cur, n);
    let (ino, typ) = mfs_ways::says(s, cur, n)->Some_0;
    if !(typ == MFS_TYPE_LINK && (end < p.len() || follow)) {
        lemma_stops(s, u, p, end + 1, ino, r->Some_0, follow);
    }
}

/// The first link found on a path, and the path to go on with.
pub proof fn lemma_next(s: MfsView, t: MfsView, p: Seq<u8>, leaf: MfsLoc, follow: bool)
    requires
        mfs_cow::table_ok(s),
        mfs_ways::alike(s, t),
        1 < p.len() <= MFS_PATH_MAX,
        good_till(s, p, 1, MFS_ROOT_INO, follow),
        turn(s, p, follow) is Some,
    ensures
        ({
            let (u, w) = t.walk(p, 1, MFS_ROOT_INO, leaf, follow);
            let (v, r) = u.followed(p, w->Link_start as int, w->Link_end as int, w->Link_ino);
            &&& w is Link
            &&& mfs_ways::alike(s, v)
            &&& r == turn(s, p, follow)
        }),
{
    reveal(turn);
    lemma_stops(s, t, p, 1, MFS_ROOT_INO, leaf, follow);
    let (u, w) = t.walk(p, 1, MFS_ROOT_INO, leaf, follow);
    let (from, to, ino) = first_link(s, p, 1, MFS_ROOT_INO, follow)->Some_0;
    let a = s.load(mfs_cow::obj(s, ino), MFS_MAGIC_LINK)->Some_0;
    mfs_ways::lemma_link_target(s, u, ino, aim(s, ino)->Some_0, a);
}

/// One link followed. What is handed back is the state and the entry to go on from.
proof fn lemma_turn(
    s: MfsView,
    t: MfsView,
    p: Seq<u8>,
    leaf: MfsLoc,
    links: nat,
    follow: bool,
) -> (r: (MfsView, MfsLoc))
    requires
        mfs_cow::table_ok(s),
        mfs_ways::alike(s, t),
        1 < p.len() <= MFS_PATH_MAX,
        good_till(s, p, 1, MFS_ROOT_INO, follow),
        turn(s, p, follow) is Some,
    ensures
        mfs_ways::alike(s, r.0),
        links == 0 ==> t.resolve_from(p, leaf, links, follow).1 is None,
        links > 0 ==> t.resolve_from(p, leaf, links, follow) == (if turn(s, p, follow)->Some_0.len()
            == 1 {
            (r.0, Some((MFS_ROOT_INO, r.1)))
        } else {
            r.0.resolve_from(turn(s, p, follow)->Some_0, r.1, (links - 1) as nat, follow)
        }),
{
    lemma_next(s, t, p, leaf, follow);
    let (u, w) = t.walk(p, 1, MFS_ROOT_INO, leaf, follow);
    (u.link_target(w->Link_ino).0, w->Link_leaf)
}

/// What resolving a path that stands for `q` gives: the object that `q` leads to, by the entry
/// that is found with the state and in the directory of `last`.
#[verifier::opaque]
pub open spec fn found(
    s: MfsView,
    q: Seq<u8>,
    last: (MfsView, u32),
    got: (MfsView, Option<(u32, MfsLoc)>),
) -> bool {
    &&& mfs_ways::alike(s, got.0)
    &&& match ends(s, q) {
        None => got.1 is None,
        Some((ino, typ)) => got.1 matches Some((x, loc)) && x == ino && (q.len() != 1 ==> {
            &&& last.1 == mfs_ways::last_dir(s, q, 1, MFS_ROOT_INO)
            &&& mfs_ways::alike(s, last.0)
            &&& mfs_ways::good(s, last.1)
            &&& mfs_ways::says(s, last.1, path::leaf_of(q)) == Some((ino, typ))
            &&& last.0.dir_lookup(last.1, path::leaf_of(q)) == (got.0, Some(loc))
        }),
    }
}

/// A path without links resolved.
proof fn lemma_no_turn(
    s: MfsView,
    t: MfsView,
    q: Seq<u8>,
    leaf: MfsLoc,
    links: nat,
    follow: bool,
) -> (last: (MfsView, u32))
    requires
        mfs_cow::table_ok(s),
        mfs_ways::alike(s, t),
        goes(s, q, q, 0, follow),
        q.len() != 1,
    ensures
        found(s, q, last, t.resolve_from(q, leaf, links, follow)),
{
    reveal(found);
    mfs_ways::lemma_walk(s, t, q, 1, MFS_ROOT_INO, leaf, follow)
}

/// The root found.
proof fn lemma_at_root(s: MfsView, u: MfsView, q: Seq<u8>, leaf: MfsLoc)
    requires
        mfs_ways::alike(s, u),
        q.len() == 1,
    ensures
        found(s, q, (u, 0u32), (u, Some((MFS_ROOT_INO, leaf)))),
{
    reveal(found);
}

/// A path resolved that goes through links.
proof fn lemma_goes(
    s: MfsView,
    t: MfsView,
    p: Seq<u8>,
    q: Seq<u8>,
    n: nat,
    leaf: MfsLoc,
    links: nat,
    follow: bool,
) -> (last: (MfsView, u32))
    requires
        mfs_cow::table_ok(s),
        mfs_ways::alike(s, t),
        goes(s, p, q, n, follow),
        p.len() != 1,
        n <= links,
    ensures
        found(s, q, last, t.resolve_from(p, leaf, links, follow)),
    decreases n,
{
    if n == 0 {
        lemma_no_turn(s, t, p, leaf, links, follow)
    } else {
        let p2 = turn(s, p, follow)->Some_0;
        let (u, leaf2) = lemma_turn(s, t, p, leaf, links, follow);
        if p2.len() == 1 {
            assert(goes(s, p2, q, (n - 1) as nat, follow));
            assert(n == 1);
            lemma_at_root(s, u, q, leaf2);
            (u, 0u32)
        } else {
            lemma_goes(s, u, p2, q, (n - 1) as nat, leaf2, (links - 1) as nat, follow)
        }
    }
}

/// Too many links on the way.
proof fn lemma_too_many(
    s: MfsView,
    t: MfsView,
    p: Seq<u8>,
    q: Seq<u8>,
    n: nat,
    leaf: MfsLoc,
    links: nat,
    follow: bool,
)
    requires
        mfs_cow::table_ok(s),
        mfs_ways::alike(s, t),
        goes(s, p, q, n, follow),
        n > links,
    ensures
        t.resolve_from(p, leaf, links, follow).1 is None,
    decreases n,
{
    let p2 = turn(s, p, follow)->Some_0;
    let (u, leaf2) = lemma_turn(s, t, p, leaf, links, follow);
    if links > 0 {
        if p2.len() == 1 {
            assert(goes(s, p2, q, (n - 1) as nat, follow));
            assert(false);
        }
        lemma_too_many(s, u, p2, q, (n - 1) as nat, leaf2, (links - 1) as nat, follow);
    }
}

/// A path resolved in a state that differs in the buffered table block only.
pub proof fn lemma_resolve(s: MfsView, t: MfsView, p: Seq<u8>, q: Seq<u8>, n: nat, follow: bool) -> (
    last: (MfsView, u32))
    requires
        mfs_cow::table_ok(s),
        mfs_ways::alike(s, t),
        goes(s, p, q, n, follow),
        n <= MFS_SYMLINK_MAX_DEPTH,
    ensures
        found(s, q, last, t.resolve(p, follow)),
{
    reveal(MfsView::resolve);
    if p.len() == 1 {
        assert(n == 0);
        lemma_at_root(s, t, q, crate::mfs_dir::no_loc());
        (t, 0u32)
    } else {
        lemma_goes(
            s,
            t,
            p,
            q,
            n,
            crate::mfs_dir::no_loc(),
            MFS_SYMLINK_MAX_DEPTH as nat,
            follow,
        )
    }
}

/// Law: a path that goes through links, at most sixteen, is resolved to what the path without
/// links leads to that it stands for, and to nothing where that leads nowhere; with more links
/// it is resolved to nothing.
pub proof fn law_path_through_links(s: MfsView, p: Seq<u8>, q: Seq<u8>, n: nat, follow: bool)
    requires
        mfs_cow::table_ok(s),
        goes(s, p, q, n, follow),
    ensures
        match ends(s, q) {
            Some((ino, typ)) if n <= MFS_SYMLINK_MAX_DEPTH => s.resolve(p, follow).1 matches Some(
                (x, loc),
            ) && x == ino,
            _ => s.resolve(p, follow).1 is None,
        },
{
    mfs_cow::lemma_stable_refl(s);
    if n <= MFS_SYMLINK_MAX_DEPTH {
        reveal(found);
        lemma_resolve(s, s, p, q, n, follow);
    } else {
        reveal(MfsView::resolve);
        lemma_too_many(
            s,
            s,
            p,
            q,
            n,
            crate::mfs_dir::no_loc(),
            MFS_SYMLINK_MAX_DEPTH as nat,
            follow,
        );
    }
}

/// The path to go on with from a path whose directories are in good order and that leads to a
/// link: the link's target in place of the last name.
proof fn lemma_last_link(s: MfsView, p: Seq<u8>, i: int, cur: u32)
    requires
        1 <= i,
        i == 1 || (i <= p.len() && p[i - 1] == 0x2F),
        p.len() > 1,
        mfs_ways::way_ok(s, p, i, cur),
        mfs_ways::way(s, p, i, cur) matches Some((ino, typ)) && typ == MFS_TYPE_LINK,
    ensures
        first_link(s, p, i, cur, true) == Some(
            (mfs_ways::leaf_at(p), p.len() as int, mfs_ways::way(s, p, i, cur)->Some_0.0),
        ),
        good_till(s, p, i, cur, true),
    decreases p.len() - i,
{
    reveal(first_link);
    reveal(good_till);
    let end = path::seg_end(p, i);
    path::lemma_seg_end(p, i);
    let (ino, typ) = mfs_ways::says(s, cur, p.subrange(i, end))->Some_0;
    if end < p.len() {
        lemma_last_link(s, p, end + 1, ino);
    } else {
        mfs_ways::lemma_leaf_is(p, i, p.len() as int);
    }
}

/// Law: a link that is not to be followed is resolved to itself. One that is to be followed is
/// resolved as its target is, taken from the link's directory where it is relative, in
/// normal form: to the same object, or to nothing if the target leads nowhere, as long as
/// there are fewer than sixteen links on the way from the target on.
pub proof fn law_link_resolves_as_its_target(
    s: MfsView,
    p: Seq<u8>,
    ino: u32,
    target: Seq<u8>,
    to: Seq<u8>,
    q: Seq<u8>,
    n: nat,
)
    requires
        mfs_cow::table_ok(s),
        1 < p.len() <= MFS_PATH_MAX,
        mfs_ways::clear(s, p),
        mfs_ways::leads(s, p) == Some((ino, MFS_TYPE_LINK)),
        aim(s, ino) == Some(target),
        ({
            let whole = if target[0] == 0x2F {
                target
            } else {
                p.subrange(0, mfs_ways::leaf_at(p)) + target
            };
            whole.len() <= MFS_PATH_MAX && mfs_path::raw_normal(whole) == Some(to)
        }),
        goes(s, to, q, n, true),
        n < MFS_SYMLINK_MAX_DEPTH,
    ensures
        s.resolve(p, false).1 matches Some((x, loc)) && x == ino,
        match ends(s, q) {
            Some((e, typ)) => (s.resolve(p, true).1 matches Some((x, loc)) && x == e) && (
            s.resolve(to, true).1 matches Some((x, loc)) && x == e),
            None => s.resolve(p, true).1 is None && s.resolve(to, true).1 is None,
        },
{
    mfs_ways::law_resolve(s, p, false);
    lemma_last_link(s, p, 1, MFS_ROOT_INO);
    mfs_ways::lemma_leaf(p, p.len() as int);
    let whole = if target[0] == 0x2F {
        target
    } else {
        p.subrange(0, mfs_ways::leaf_at(p)) + target
    };
    assert(mfs_path::with_target(p, mfs_ways::leaf_at(p), p.len() as int, target) =~= whole);
    assert(turn(s, p, true) == Some(to)) by {
        reveal(turn);
    }
    assert(goes(s, p, q, n + 1, true));
    law_path_through_links(s, p, q, n + 1, true);
    law_path_through_links(s, to, q, n, true);
}

/// Where there is a link before the last name, it is the first one to follow in any case.
proof fn lemma_follow_same(s: MfsView, p: Seq<u8>, i: int, cur: u32)
    requires
        0 <= i,
        first_link(s, p, i, cur, false) is Some,
    ensures
        first_link(s, p, i, cur, true) == first_link(s, p, i, cur, false),
        good_till(s, p, i, cur, true) == good_till(s, p, i, cur, false),
    decreases p.len() - i,
{
    reveal(first_link);
    reveal(good_till);
    let end = path::seg_end(p, i);
    path::lemma_seg_end(p, i);
    let (ino, typ) = mfs_ways::says(s, cur, p.subrange(i, end))->Some_0;
    if typ != MFS_TYPE_LINK {
        lemma_follow_same(s, p, end + 1, ino);
    }
}

/// A path that does not end at a link is followed in the same way whether or not a link at its
/// end would be.
pub proof fn lemma_no_link_at_end(s: MfsView, p: Seq<u8>, q: Seq<u8>, n: nat)
    requires
        goes(s, p, q, n, false),
        ends(s, q) matches Some((ino, typ)) ==> typ != MFS_TYPE_LINK,
    ensures
        goes(s, p, q, n, true),
    decreases n,
{
    if n > 0 {
        reveal(turn);
        lemma_follow_same(s, p, 1, MFS_ROOT_INO);
        lemma_no_link_at_end(s, turn(s, p, false)->Some_0, q, (n - 1) as nat);
    }
}

/// A link before the last name is on the path without that name, too.
proof fn lemma_pop_link(s: MfsView, p: Seq<u8>, i: int, cur: u32)
    requires
        p.len() > 1,
        1 <= i < mfs_ways::leaf_at(p),
        first_link(s, p, i, cur, false) is Some,
    ensures
        mfs_ways::leaf_at(p) > 1,
        first_link(s, path::pop_segment(p), i, cur, true) == first_link(s, p, i, cur, false),
        good_till(s, p, i, cur, false) ==> good_till(s, path::pop_segment(p), i, cur, true),
        first_link(s, p, i, cur, false)->Some_0.1 <= path::pop_segment(p).len(),
        1 <= first_link(s, p, i, cur, false)->Some_0.0 < first_link(s, p, i, cur, false)->Some_0.1,
    decreases p.len() - i,
{
    reveal(first_link);
    reveal(good_till);
    let k = mfs_ways::leaf_at(p);
    let q = path::pop_segment(p);
    mfs_ways::lemma_leaf(p, p.len() as int);
    assert(q =~= p.subrange(0, k - 1));
    path::lemma_seg_end(p, i);
    let e = path::seg_end(p, i);
    assert(e < p.len());
    assert(p[e] == 0x2F);
    assert(e <= k - 1);
    assert forall|j: int| i <= j < e implies q[j] != 0x2F by {
        assert(q[j] == p[j]);
    }
    if e < q.len() {
        assert(q[e] == p[e]);
    }
    path::lemma_run(q, i, e);
    assert(p.subrange(i, e) =~= q.subrange(i, e));
    let (ino, typ) = mfs_ways::says(s, cur, p.subrange(i, e))->Some_0;
    if typ != MFS_TYPE_LINK {
        if e == k - 1 {
            path::lemma_run(p, k, p.len() as int);
            assert(first_link(s, p, k, ino, false) is None);
            assert(false);
        }
        lemma_pop_link(s, p, e + 1, ino);
    }
}

/// One turn of a path and of the path without its last name.
proof fn lemma_pop_turn(s: MfsView, p: Seq<u8>)
    requires
        s.store.wf(),
        1 < p.len() <= MFS_PATH_MAX,
        path::is_name(path::leaf_of(p)),
        turn(s, p, false) is Some,
    ensures
        ({
            let p2 = turn(s, p, false)->Some_0;
            &&& turn(s, path::pop_segment(p), true) == Some(path::pop_segment(p2))
            &&& path::leaf_of(p2) == path::leaf_of(p)
            &&& p2.len() > 1
            &&& 1 < path::pop_segment(p).len() <= MFS_PATH_MAX
            &&& good_till(s, p, 1, MFS_ROOT_INO, false) ==> good_till(
                s,
                path::pop_segment(p),
                1,
                MFS_ROOT_INO,
                true,
            )
        }),
{
    let k = mfs_ways::leaf_at(p);
    let n = path::leaf_of(p);
    let q = path::pop_segment(p);
    mfs_ways::lemma_leaf(p, p.len() as int);
    assert(first_link(s, p, 1, MFS_ROOT_INO, false) is Some) by {
        reveal(turn);
    }
    if k == 1 {
        path::lemma_run(p, 1, p.len() as int);
        reveal(first_link);
    }
    lemma_pop_link(s, p, 1, MFS_ROOT_INO);
    let (from, to, ino) = first_link(s, p, 1, MFS_ROOT_INO, false)->Some_0;
    assert(q =~= p.subrange(0, k - 1));
    assert(p =~= q + seq![0x2Fu8] + n);
    lemma_turned(s, p, q, n, from, to, ino);
}

/// A path and the path without its last name turned at the same link.
proof fn lemma_turned(s: MfsView, p: Seq<u8>, q: Seq<u8>, n: Seq<u8>, from: int, to: int, ino: u32)
    requires
        s.store.wf(),
        p == q + seq![0x2Fu8] + n,
        path::is_name(n),
        1 <= from < to <= q.len(),
        first_link(s, p, 1, MFS_ROOT_INO, false) == Some((from, to, ino)),
        first_link(s, q, 1, MFS_ROOT_INO, true) == Some((from, to, ino)),
        turn(s, p, false) is Some,
    ensures
        turn(s, q, true) == Some(path::pop_segment(turn(s, p, false)->Some_0)),
        path::leaf_of(turn(s, p, false)->Some_0) == n,
        turn(s, p, false)->Some_0.len() > 1,
{
    reveal(turn);
    let t = aim(s, ino)->Some_0;
    mfs_cow::lemma_block_len(s, mfs_cow::obj(s, ino));
    lemma_merged(p, q, n, from, to, t);
    path::lemma_plain_push(
        mfs_path::with_target(q, from, to, t),
        n,
        MFS_NAME_MAX as int,
        MFS_PATH_MAX as int,
    );
}

/// A link's target put in place of its name on a path and on the path without its last name.
proof fn lemma_merged(p: Seq<u8>, q: Seq<u8>, n: Seq<u8>, from: int, to: int, t: Seq<u8>)
    requires
        p == q + seq![0x2Fu8] + n,
        1 <= from < to <= q.len(),
    ensures
        mfs_path::with_target(p, from, to, t) == mfs_path::with_target(q, from, to, t) + seq![
            0x2Fu8,
        ] + n,
        t.len() > 0 ==> mfs_path::with_target(q, from, to, t).len() > 0,
{
    assert(p.subrange(to, p.len() as int) =~= q.subrange(to, q.len() as int) + seq![0x2Fu8] + n);
    assert(p.subrange(0, from) =~= q.subrange(0, from));
    assert(mfs_path::with_target(p, from, to, t) =~= mfs_path::with_target(q, from, to, t) + seq![
        0x2Fu8,
    ] + n);
}

/// A path and the path without its last name stand for a path and that path without its last
/// name.
pub proof fn lemma_pop_goes(s: MfsView, p: Seq<u8>, q: Seq<u8>, n: nat)
    requires
        s.store.wf(),
        goes(s, p, q, n, false),
        p.len() > 1,
        n > 0 ==> path::is_name(path::leaf_of(p)),
        path::leaf_of(p).len() > 0,
    ensures
        goes(s, path::pop_segment(p), path::pop_segment(q), n, true),
        path::leaf_of(q) == path::leaf_of(p),
        q.len() > 1,
        n > 0 ==> path::is_name(path::leaf_of(q)),
    decreases n,
{
    if n == 0 {
        mfs_ways::lemma_leaf(p, p.len() as int);
        mfs_ways::lemma_under_of(s, p);
        let k = mfs_ways::leaf_at(p);
        if k > 1 {
            assert(path::pop_segment(p) == p.subrange(0, k - 1));
        }
    } else {
        lemma_pop_turn(s, p);
        let p2 = turn(s, p, false)->Some_0;
        lemma_pop_goes(s, p2, q, (n - 1) as nat);
    }
}

/// The directory of the last name of a path through links, resolved.
pub proof fn lemma_parent(s: MfsView, t: MfsView, p: Seq<u8>, q: Seq<u8>, n: nat)
    requires
        mfs_cow::table_ok(s),
        mfs_ways::alike(s, t),
        goes(s, p, q, n, false),
        n <= MFS_SYMLINK_MAX_DEPTH,
        p.len() > 1,
        mfs_ways::proper(q),
        n > 0 ==> path::is_name(path::leaf_of(p)),
        path::leaf_of(p).len() > 0,
        t.resolve(path::pop_segment(p), true).1 is Some,
    ensures
        ({
            let (u, r) = t.resolve(path::pop_segment(p), true);
            let d = r->Some_0.0;
            &&& mfs_ways::alike(s, u)
            &&& mfs_ways::under(s, q, d)
            &&& mfs_ways::good(s, d)
            &&& mfs_ways::leads(s, q) == mfs_ways::says(s, d, path::leaf_of(q))
            &&& path::leaf_of(q) == path::leaf_of(p)
        }),
{
    lemma_pop_goes(s, p, q, n);
    reveal(found);
    lemma_resolve(s, t, path::pop_segment(p), path::pop_segment(q), n, true);
    lemma_goes_end(s, p, q, n, false);
    mfs_ways::lemma_leaf(q, q.len() as int);
    mfs_ways::lemma_under_of(s, q);
    let k = mfs_ways::leaf_at(q);
    if k > 1 {
        assert(path::pop_segment(q) == q.subrange(0, k - 1));
        if k == 2 {
            assert(q[1] == 0x2F);
        }
    }
}

/// The path without links that a path stands for.
pub proof fn lemma_goes_end(s: MfsView, p: Seq<u8>, q: Seq<u8>, n: nat, follow: bool)
    requires
        goes(s, p, q, n, follow),
    ensures
        q.len() == 1 || (1 < q.len() <= MFS_PATH_MAX && mfs_ways::clear(s, q)),
        goes(s, q, q, 0, follow),
    decreases n,
{
    if n > 0 {
        lemma_goes_end(s, turn(s, p, follow)->Some_0, q, (n - 1) as nat, follow);
    }
}

/// Path `p`, of a last name, stands for path `q` by the `n` links before that name, at most
/// sixteen.
pub open spec fn stands(s: MfsView, p: Seq<u8>, q: Seq<u8>, n: nat) -> bool {
    &&& goes(s, p, q, n, false)
    &&& n <= MFS_SYMLINK_MAX_DEPTH
    &&& p.len() > 1
    &&& n > 0 ==> path::is_name(path::leaf_of(p))
    &&& mfs_ways::proper(q)
}

/// The path up to its first link does not go through entry `comp` of directory `d`.
#[verifier::opaque]
pub open spec fn skirts(
    s: MfsView,
    p: Seq<u8>,
    i: int,
    cur: u32,
    d: u32,
    comp: Seq<u8>,
    follow: bool,
) -> bool
    decreases p.len() - i,
{
    let end = path::seg_end(p, i);
    if i >= p.len() || end <= i || end - i > MFS_NAME_MAX {
        true
    } else {
        &&& !(cur == d && p.subrange(i, end) == comp)
        &&& match mfs_ways::says(s, cur, p.subrange(i, end)) {
            None => true,
            Some((ino, typ)) => end >= p.len() || typ == MFS_TYPE_LINK || skirts(
                s,
                p,
                end + 1,
                ino,
                d,
                comp,
                follow,
            ),
        }
    }
}

/// The way to the path without links that `p` stands for goes neither through entry `comp` of
/// directory `d` nor through link `gone`.
pub open spec fn shuns(
    s: MfsView,
    p: Seq<u8>,
    n: nat,
    d: u32,
    comp: Seq<u8>,
    gone: u32,
    follow: bool,
) -> bool
    decreases n,
{
    n == 0 || {
        &&& skirts(s, p, 1, MFS_ROOT_INO, d, comp, follow)
        &&& first_link(s, p, 1, MFS_ROOT_INO, follow) matches Some((from, to, ino)) ==> ino != gone
        &&& turn(s, p, follow) matches Some(p2) ==> shuns(
            s,
            p2,
            (n - 1) as nat,
            d,
            comp,
            gone,
            follow,
        )
    }
}

/// A path does not go through an entry that is not there.
pub proof fn lemma_skirts(s: MfsView, p: Seq<u8>, i: int, cur: u32, d: u32, comp: Seq<u8>, follow: bool)
    requires
        0 <= i,
        mfs_ways::says(s, d, comp) is None,
        first_link(s, p, i, cur, follow) is Some,
    ensures
        skirts(s, p, i, cur, d, comp, follow),
    decreases p.len() - i,
{
    reveal(first_link);
    reveal(skirts);
    let end = path::seg_end(p, i);
    path::lemma_seg_end(p, i);
    let (ino, typ) = mfs_ways::says(s, cur, p.subrange(i, end))->Some_0;
    if !(typ == MFS_TYPE_LINK && (end < p.len() || follow)) && end < p.len() {
        lemma_skirts(s, p, end + 1, ino, d, comp, follow);
    }
}

/// Nor does the way to the path that it stands for.
pub proof fn lemma_shuns(
    s: MfsView,
    p: Seq<u8>,
    q: Seq<u8>,
    n: nat,
    d: u32,
    comp: Seq<u8>,
    gone: u32,
    follow: bool,
)
    requires
        goes(s, p, q, n, follow),
        mfs_ways::says(s, d, comp) is None,
        aim(s, gone) is None,
    ensures
        shuns(s, p, n, d, comp, gone, follow),
    decreases n,
{
    if n > 0 {
        assert(first_link(s, p, 1, MFS_ROOT_INO, follow) is Some && aim(
            s,
            first_link(s, p, 1, MFS_ROOT_INO, follow)->Some_0.2,
        ) is Some) by {
            reveal(turn);
        }
        lemma_skirts(s, p, 1, MFS_ROOT_INO, d, comp, follow);
        lemma_shuns(
            s,
            turn(s, p, follow)->Some_0,
            q,
            (n - 1) as nat,
            d,
            comp,
            gone,
            follow,
        );
    }
}

/// The first link on a path that does not go through the entry stays the first.
proof fn lemma_link_kept(
    s: MfsView,
    t: MfsView,
    p: Seq<u8>,
    i: int,
    cur: u32,
    d: u32,
    comp: Seq<u8>,
    gone: u32,
    follow: bool,
)
    requires
        mfs_moves::kept_but(s, t, d, comp, gone),
        mfs_moves::barren(s, gone),
        0 <= i,
        good_till(s, p, i, cur, follow),
        first_link(s, p, i, cur, follow) is Some,
        skirts(s, p, i, cur, d, comp, follow),
    ensures
        good_till(t, p, i, cur, follow),
        first_link(t, p, i, cur, follow) == first_link(s, p, i, cur, follow),
    decreases p.len() - i,
{
    reveal(first_link);
    reveal(good_till);
    reveal(skirts);
    let end = path::seg_end(p, i);
    path::lemma_seg_end(p, i);
    let n = p.subrange(i, end);
    assert(mfs_ways::good(s, cur));
    assert(mfs_ways::says(s, cur, n) is Some);
    assert(cur != gone);
    assert(mfs_ways::good(t, cur));
    assert(mfs_ways::says(t, cur, n) == mfs_ways::says(s, cur, n));
    let (ino, typ) = mfs_ways::says(s, cur, n)->Some_0;
    if !(typ == MFS_TYPE_LINK && (end < p.len() || follow)) {
        lemma_link_kept(s, t, p, end + 1, ino, d, comp, gone, follow);
    }
}

/// The target of a link that is where it was.
proof fn lemma_aim_kept(s: MfsView, t: MfsView, ino: u32)
    requires
        mfs_cow::stable(s, t),
        aim(s, ino) is Some,
        mfs_cow::obj(t, ino) == mfs_cow::obj(s, ino),
    ensures
        aim(t, ino) == aim(s, ino),
{
    let b = mfs_cow::obj(s, ino);
    assert(mfs_cow::held(t, b));
    assert(t.rd(b) == s.rd(b));
    assert(t.load(b, MFS_MAGIC_LINK) == s.load(b, MFS_MAGIC_LINK));
}

/// A directory is no link.
pub proof fn lemma_dir_no_aim(s: MfsView, d: u32)
    requires
        mfs_ways::good(s, d),
    ensures
        aim(s, d) is None,
{
    let b = mfs_cow::obj(s, d);
    assert(s.load(b, MFS_MAGIC_DIR) is Some);
    if s.load(b, MFS_MAGIC_LINK) is Some {
        mfs::law_one_kind(s.rd(b)->Some_0, MFS_MAGIC_DIR, MFS_MAGIC_LINK);
    }
}

/// A path stands for the path that it stood for where its way is as it was.
pub proof fn lemma_goes_kept(
    s: MfsView,
    t: MfsView,
    p: Seq<u8>,
    q: Seq<u8>,
    n: nat,
    d: u32,
    comp: Seq<u8>,
    gone: u32,
    follow: bool,
)
    requires
        mfs_cow::stable(s, t),
        mfs_moves::kept_but(s, t, d, comp, gone),
        mfs_moves::barren(s, gone),
        mfs_ways::good(s, d),
        forall|i: u32|
            mfs_cow::good_ino(i) && i != gone && i != d ==> #[trigger] mfs_cow::obj(t, i)
                == mfs_cow::obj(s, i),
        goes(s, p, q, n, follow),
        shuns(s, p, n, d, comp, gone, follow),
        goes(t, q, q, 0, follow),
    ensures
        goes(t, p, q, n, follow),
    decreases n,
{
    if n > 0 {
        let p2 = turn(s, p, follow)->Some_0;
        assert(first_link(s, p, 1, MFS_ROOT_INO, follow) is Some && aim(
            s,
            first_link(s, p, 1, MFS_ROOT_INO, follow)->Some_0.2,
        ) is Some) by {
            reveal(turn);
        }
        let ino = first_link(s, p, 1, MFS_ROOT_INO, follow)->Some_0.2;
        lemma_link_kept(s, t, p, 1, MFS_ROOT_INO, d, comp, gone, follow);
        lemma_dir_no_aim(s, d);
        lemma_aim_kept(s, t, ino);
        assert(turn(t, p, follow) == turn(s, p, follow)) by {
            reveal(turn);
        }
        lemma_goes_kept(s, t, p2, q, (n - 1) as nat, d, comp, gone, follow);
    }
}

} // verus!
