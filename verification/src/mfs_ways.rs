//! MorionFS: paths. What was made is found under its path, what was removed is not, and every
//! other path leads where it led.
use vstd::prelude::*;

use crate::bytes;
use crate::mfs;
use crate::mfs::{MfsView, MFS_MAGIC_DIR, MFS_MAGIC_FILE, MFS_MAGIC_LINK, MFS_ROOT_INO};
use crate::mfs_cow;
use crate::mfs_dir;
use crate::mfs_dir::{MfsLoc, MFS_NAME_MAX, MFS_TYPE_DIR, MFS_TYPE_FILE, MFS_TYPE_LINK};
use crate::mfs_file;
use crate::mfs_laws;
use crate::mfs_path;
use crate::mfs_path::{Walk, MFS_LINK_MAX, MFS_PATH_MAX};
use crate::mfs_tree;
use crate::mfs_via;
use crate::path;
use crate::vfs;

verus! {

/// The node of directory `d`.
pub open spec fn node(s: MfsView, d: u32) -> Seq<u8> {
    s.load(mfs_cow::obj(s, d), MFS_MAGIC_DIR)->Some_0
}

/// What directory `d` says of a name: the number and the type of the object.
pub open spec fn says(s: MfsView, d: u32, n: Seq<u8>) -> Option<(u32, u32)> {
    mfs_tree::dir_hit(s, node(s, d), n)
}

/// Directory `d` is in good order.
pub open spec fn good(s: MfsView, d: u32) -> bool {
    mfs_tree::dir_ok(s, d, node(s, d))
}

/// Where the path `p` leads from position `i` on in directory `cur`, by directories only: the
/// number and the type of the object.
pub open spec fn way(s: MfsView, p: Seq<u8>, i: int, cur: u32) -> Option<(u32, u32)>
    decreases p.len() - i,
{
    let end = path::seg_end(p, i);
    if i >= p.len() || end <= i || end - i > MFS_NAME_MAX {
        None
    } else {
        match says(s, cur, p.subrange(i, end)) {
            None => None,
            Some((ino, typ)) => if end >= p.len() {
                Some((ino, typ))
            } else {
                way(s, p, end + 1, ino)
            },
        }
    }
}

/// Every directory on the way is in good order, and what stands before the last name is a
/// directory.
pub open spec fn way_ok(s: MfsView, p: Seq<u8>, i: int, cur: u32) -> bool
    decreases p.len() - i,
{
    let end = path::seg_end(p, i);
    if i >= p.len() || end <= i || end - i > MFS_NAME_MAX {
        true
    } else {
        &&& good(s, cur)
        &&& match says(s, cur, p.subrange(i, end)) {
            None => true,
            Some((ino, typ)) => ino != 0 && (end >= p.len() || (typ == MFS_TYPE_DIR && way_ok(
                s,
                p,
                end + 1,
                ino,
            ))),
        }
    }
}

/// The directory in which the last name on the way is looked up.
pub open spec fn last_dir(s: MfsView, p: Seq<u8>, i: int, cur: u32) -> u32
    decreases p.len() - i,
{
    let end = path::seg_end(p, i);
    if i >= p.len() || end <= i || end - i > MFS_NAME_MAX || end >= p.len() {
        cur
    } else {
        match says(s, cur, p.subrange(i, end)) {
            None => cur,
            Some((ino, typ)) => last_dir(s, p, end + 1, ino),
        }
    }
}

/// Where a path leads.
pub open spec fn leads(s: MfsView, p: Seq<u8>) -> Option<(u32, u32)> {
    way(s, p, 1, MFS_ROOT_INO)
}

/// Every directory on a path is in good order.
pub open spec fn clear(s: MfsView, p: Seq<u8>) -> bool {
    way_ok(s, p, 1, MFS_ROOT_INO)
}

/// A state that differs in the buffered table block only.
pub open spec fn alike(s: MfsView, t: MfsView) -> bool {
    &&& mfs_cow::same_but_buffer(s, t)
    &&& mfs_cow::table_ok(t)
    &&& mfs_cow::stable(s, t)
}

/// States that differ in the buffered table block only.
pub proof fn lemma_alike(s: MfsView, t: MfsView)
    requires
        mfs_cow::table_ok(s),
        alike(s, t),
    ensures
        forall|b: u32, m: u32| #[trigger] t.load(b, m) == s.load(b, m),
        forall|i: u32| #[trigger] mfs_cow::obj(t, i) == mfs_cow::obj(s, i),
        forall|b: u32| #[trigger] mfs_cow::held(t, b) == mfs_cow::held(s, b),
{
    mfs_cow::lemma_buffer_only(s, t);
}

/// Directories in states that differ in the buffered table block only.
pub proof fn lemma_good_alike(s: MfsView, t: MfsView, d: u32, n: Seq<u8>)
    requires
        mfs_cow::table_ok(s),
        alike(s, t),
        good(s, d),
    ensures
        good(t, d),
        node(t, d) == node(s, d),
        says(t, d, n) == says(s, d, n),
{
    lemma_alike(s, t);
    mfs_tree::law_directory_stays(s, t, d, node(s, d), n);
}

/// One step of a lookup in a directory.
pub proof fn lemma_look(s: MfsView, t: MfsView, d: u32, n: Seq<u8>)
    requires
        mfs_cow::table_ok(s),
        alike(s, t),
        good(s, d),
    ensures
        ({
            let (u, r) = t.dir_lookup(d, n);
            &&& alike(s, u)
            &&& r is Some <==> says(s, d, n) is Some
            &&& r matches Some(loc) ==> ({
                let c = u.load(loc.blk, MFS_MAGIC_DIR)->Some_0;
                &&& u.load(loc.blk, MFS_MAGIC_DIR) is Some
                &&& loc.dir_ino == d
                &&& says(s, d, n) == Some(
                    (mfs_dir::ent_ino(c, loc.off as int), mfs_dir::ent_type(c, loc.off as int)),
                )
            })
        }),
{
    lemma_good_alike(s, t, d, n);
    mfs_tree::law_lookup(t, d, node(t, d), n);
    let u = t.dir_lookup(d, n).0;
    lemma_alike(s, t);
    mfs_cow::lemma_stable_trans(s, t, u);
    mfs_tree::lemma_lookup_table(t, d, node(t, d), n);
    assert(alike(s, u));
    lemma_alike(s, u);
}

/// Where the last name of a path starts.
pub open spec fn leaf_at(p: Seq<u8>) -> int {
    path::after_slash(p, p.len() as int)
}

/// The last name of a path starts after a slash, or right after the first byte.
pub proof fn lemma_leaf_is(p: Seq<u8>, i: int, n: int)
    requires
        1 <= i <= n <= p.len(),
        i == 1 || p[i - 1] == 0x2F,
        forall|j: int| i <= j < n ==> p[j] != 0x2F,
    ensures
        path::after_slash(p, n) == i,
    decreases n,
{
    if n > i {
        lemma_leaf_is(p, i, n - 1);
    }
}

/// The walk along a path goes where the path leads. What is handed back is the state before
/// the last lookup and the directory that it is made in.
pub proof fn lemma_walk(
    s: MfsView,
    t: MfsView,
    p: Seq<u8>,
    i: int,
    cur: u32,
    leaf: MfsLoc,
    follow: bool,
) -> (last: (MfsView, u32))
    requires
        mfs_cow::table_ok(s),
        alike(s, t),
        1 <= i,
        i == 1 || (i <= p.len() && p[i - 1] == 0x2F),
        p.len() <= MFS_PATH_MAX,
        way_ok(s, p, i, cur),
    ensures
        ({
            let (u, w) = t.walk(p, i, cur, leaf, follow);
            &&& alike(s, u)
            &&& match way(s, p, i, cur) {
                None => w == Walk::Fail,
                Some((ino, typ)) => if typ == MFS_TYPE_LINK && follow {
                    w is Link && w->Link_ino == ino && w->Link_end == p.len() && w->Link_start
                        == leaf_at(p)
                } else {
                    &&& w is At
                    &&& w->At_ino == ino
                    &&& last.1 == last_dir(s, p, i, cur)
                    &&& alike(s, last.0)
                    &&& good(s, last.1)
                    &&& says(s, last.1, path::leaf_of(p)) == Some((ino, typ))
                    &&& last.0.dir_lookup(last.1, path::leaf_of(p)) == (u, Some(w->At_loc))
                },
            }
        }),
    decreases p.len() - i,
{
    let end = path::seg_end(p, i);
    if i >= p.len() || end <= i || end - i > MFS_NAME_MAX {
        (t, cur)
    } else {
        path::lemma_seg_end(p, i);
        let n = p.subrange(i, end);
        lemma_look(s, t, cur, n);
        let (u, r) = t.dir_lookup(cur, n);
        match says(s, cur, n) {
            None => (t, cur),
            Some((ino, typ)) => {
                if end >= p.len() {
                    lemma_leaf_is(p, i, p.len() as int);
                    (t, cur)
                } else {
                    lemma_walk(s, u, p, end + 1, ino, r->Some_0, follow)
                }
            },
        }
    }
}

/// Law: a path whose directories are in good order is resolved to what it leads to, and to
/// nothing where it leads nowhere; a link at its end is not followed here.
pub proof fn law_resolve(s: MfsView, p: Seq<u8>, follow: bool) -> (last: (MfsView, u32))
    requires
        mfs_cow::table_ok(s),
        1 < p.len() <= MFS_PATH_MAX,
        clear(s, p),
        leads(s, p) matches Some((ino, typ)) ==> typ != MFS_TYPE_LINK || !follow,
    ensures
        ({
            let (u, r) = s.resolve(p, follow);
            &&& alike(s, u)
            &&& match leads(s, p) {
                None => r is None,
                Some((ino, typ)) => {
                    &&& r matches Some((n, loc)) && n == ino
                    &&& last.1 == last_dir(s, p, 1, MFS_ROOT_INO)
                    &&& alike(s, last.0)
                    &&& good(s, last.1)
                    &&& says(s, last.1, path::leaf_of(p)) == Some((ino, typ))
                    &&& last.0.dir_lookup(last.1, path::leaf_of(p)) == (u, Some(r->Some_0.1))
                },
            }
        }),
{
    reveal(MfsView::resolve);
    mfs_cow::lemma_stable_refl(s);
    lemma_walk(s, s, p, 1, MFS_ROOT_INO, mfs_dir::no_loc(), follow)
}

/// The last name of a path.
pub proof fn lemma_leaf(p: Seq<u8>, n: int)
    requires
        1 <= n <= p.len(),
    ensures
        ({
            let k = path::after_slash(p, n);
            &&& 1 <= k <= n
            &&& k > 1 ==> p[k - 1] == 0x2F
            &&& forall|i: int| k <= i < n ==> p[i] != 0x2F
        }),
    decreases n,
{
    if n > 1 && p[n - 1] != 0x2F {
        lemma_leaf(p, n - 1);
    }
}

/// A path without its last name leads to the directory in which that name is looked up.
pub proof fn lemma_split(s: MfsView, p: Seq<u8>, i: int, cur: u32)
    requires
        1 < leaf_at(p) < p.len(),
        1 <= i < leaf_at(p),
    ensures
        ({
            let k = leaf_at(p);
            let q = p.subrange(0, k - 1);
            &&& way(s, p, i, cur) == (match way(s, q, i, cur) {
                None => None,
                Some((d, typ)) => way(s, p, k, d),
            })
            &&& way_ok(s, p, i, cur) ==> way_ok(s, q, i, cur) && (way(s, q, i, cur) matches Some(
                (d, typ),
            ) ==> typ == MFS_TYPE_DIR && d != 0 && way_ok(s, p, k, d))
            &&& way_ok(s, q, i, cur) && (way(s, q, i, cur) matches Some((d, typ)) ==> typ
                == MFS_TYPE_DIR && way_ok(s, p, k, d)) ==> way_ok(s, p, i, cur)
        }),
    decreases p.len() - i,
{
    let k = leaf_at(p);
    let q = p.subrange(0, k - 1);
    lemma_leaf(p, p.len() as int);
    path::lemma_seg_end(p, i);
    let e = path::seg_end(p, i);
    if e > k - 1 {
        assert(p[k - 1] != 0x2F);
    }
    assert forall|j: int| i <= j < e implies q[j] != 0x2F by {
        assert(q[j] == p[j]);
    }
    if i <= q.len() {
        if e < q.len() {
            assert(q[e] == p[e]);
        }
        path::lemma_run(q, i, e);
    }
    assert(path::seg_end(q, i) == e);
    assert(p.subrange(i, e) =~= q.subrange(i, e));
    if e > i && e - i <= MFS_NAME_MAX {
        match says(s, cur, p.subrange(i, e)) {
            None => {},
            Some((ino, typ)) => {
                if e < k - 1 {
                    lemma_split(s, p, e + 1, ino);
                }
            },
        }
    }
}

/// Every directory in good order still is, and says the same of every name but `comp` in `d`.
pub open spec fn kept(s: MfsView, t: MfsView, d: u32, comp: Seq<u8>) -> bool {
    &&& forall|x: u32| good(s, x) ==> #[trigger] good(t, x)
    &&& forall|x: u32, m: Seq<u8>|
        good(s, x) && !(x == d && m == comp) ==> #[trigger] says(t, x, m) == says(s, x, m)
}

/// The path does not go through entry `comp` of directory `d`.
pub open spec fn avoids(s: MfsView, p: Seq<u8>, i: int, cur: u32, d: u32, comp: Seq<u8>) -> bool
    decreases p.len() - i,
{
    let end = path::seg_end(p, i);
    if i >= p.len() || end <= i || end - i > MFS_NAME_MAX {
        true
    } else {
        &&& !(cur == d && p.subrange(i, end) == comp)
        &&& match says(s, cur, p.subrange(i, end)) {
            None => true,
            Some((ino, typ)) => end >= p.len() || avoids(s, p, end + 1, ino, d, comp),
        }
    }
}

/// A path that does not go through the entry leads where it led.
pub proof fn lemma_way_kept(
    s: MfsView,
    t: MfsView,
    p: Seq<u8>,
    i: int,
    cur: u32,
    d: u32,
    comp: Seq<u8>,
)
    requires
        kept(s, t, d, comp),
        0 <= i,
        way_ok(s, p, i, cur),
        avoids(s, p, i, cur, d, comp),
    ensures
        way_ok(t, p, i, cur),
        way(t, p, i, cur) == way(s, p, i, cur),
    decreases p.len() - i,
{
    let end = path::seg_end(p, i);
    if !(i >= p.len() || end <= i || end - i > MFS_NAME_MAX) {
        path::lemma_seg_end(p, i);
        let n = p.subrange(i, end);
        assert(good(t, cur));
        assert(says(t, cur, n) == says(s, cur, n));
        match says(s, cur, n) {
            None => {},
            Some((ino, typ)) => {
                if end < p.len() {
                    lemma_way_kept(s, t, p, end + 1, ino, d, comp);
                }
            },
        }
    }
}

/// A path that leads somewhere does not go through an entry that is not there.
pub proof fn lemma_avoids(s: MfsView, p: Seq<u8>, i: int, cur: u32, d: u32, comp: Seq<u8>)
    requires
        0 <= i,
        says(s, d, comp) is None,
        way(s, p, i, cur) is Some,
    ensures
        avoids(s, p, i, cur, d, comp),
    decreases p.len() - i,
{
    let end = path::seg_end(p, i);
    path::lemma_seg_end(p, i);
    match says(s, cur, p.subrange(i, end)) {
        None => {},
        Some((ino, typ)) => {
            if end < p.len() {
                lemma_avoids(s, p, end + 1, ino, d, comp);
            }
        },
    }
}

/// What adding an object to a directory does.
pub open spec fn added(
    s: MfsView,
    t: MfsView,
    d: u32,
    comp: Seq<u8>,
    n: u32,
    nd: Seq<u8>,
    magic: u32,
    typ: u32,
) -> bool {
    &&& mfs_cow::stable(s, t)
    &&& mfs_cow::table_ok(t)
    &&& kept(s, t, d, comp)
    &&& says(t, d, comp) == Some((n, typ))
    &&& mfs_cow::good_ino(n)
    &&& mfs_cow::obj(s, n) == 0
    &&& mfs_cow::obj(t, n) != 0
    &&& mfs_cow::held(t, mfs_cow::obj(t, n))
    &&& t.load(mfs_cow::obj(t, n), magic) == Some(mfs::sealed(nd, magic))
    &&& forall|i: u32|
        mfs_cow::good_ino(i) && i != n && i != d ==> #[trigger] mfs_cow::obj(t, i) == mfs_cow::obj(
            s,
            i,
        )
}

/// An object added to a directory that has no such name.
pub proof fn lemma_add(s: MfsView, d: u32, comp: Seq<u8>, nd: Seq<u8>, magic: u32, typ: u32) -> (n: u32)
    requires
        mfs_cow::table_ok(s),
        good(s, d),
        says(s, d, comp) is None,
        nd.len() == 4096,
        typ < 256,
        s.add_object(d, comp, nd, magic, typ).1,
    ensures
        added(s, s.add_object(d, comp, nd, magic, typ).0, d, comp, n, nd, magic, typ),
{
    reveal(MfsView::add_object);
    mfs_cow::lemma_commit(s, nd, magic);
    let (t1, r1) = s.commit(nd, magic);
    let b = r1->Some_0;
    mfs_cow::lemma_obj_stable(s, t1);
    mfs_cow::law_new_number(t1, b);
    let (t2, r2) = t1.ino_alloc(b);
    let n = r2->Some_0;
    mfs_cow::lemma_stable_trans(s, t1, t2);
    assert(mfs_cow::obj(t1, d) == mfs_cow::obj(s, d));
    assert(n != d);
    assert(mfs_cow::obj(t2, d) == mfs_cow::obj(s, d));
    let a = node(s, d);
    mfs_tree::law_directory_stays(s, t2, d, a, comp);
    let c = mfs_tree::law_inserted_is_found(t2, d, a, comp, n, typ);
    let t = t2.dir_insert(d, comp, n, typ).0;
    mfs_cow::lemma_stable_trans(s, t2, t);
    assert(node(t, d) == c);
    assert(mfs_cow::obj(t, n) == mfs_cow::obj(t2, n));
    assert(mfs_cow::held(t1, b));
    assert(mfs_cow::held(t2, b));
    assert(mfs_cow::held(t, b));
    assert(t.rd(b) == t1.rd(b));
    assert(t.load(b, magic) == t1.load(b, magic));
    assert(mfs_cow::obj(s, n) == 0) by {
        assert(mfs_cow::obj(t1, n) == mfs_cow::obj(s, n));
    }
    assert forall|i: u32| mfs_cow::good_ino(i) && i != n && i != d implies #[trigger] mfs_cow::obj(
        t,
        i,
    ) == mfs_cow::obj(s, i) by {
        assert(mfs_cow::obj(t2, i) == mfs_cow::obj(t1, i));
        assert(mfs_cow::obj(t1, i) == mfs_cow::obj(s, i));
    }
    assert forall|x: u32| good(s, x) implies #[trigger] good(t, x) by {
        if x != d {
            assert(mfs_cow::obj(t, x) == mfs_cow::obj(s, x));
            mfs_tree::law_directory_stays(s, t, x, node(s, x), comp);
        }
    }
    assert forall|x: u32, m: Seq<u8>|
        good(s, x) && !(x == d && m == comp) implies #[trigger] says(t, x, m) == says(s, x, m) by {
        if x != d {
            assert(mfs_cow::obj(t, x) == mfs_cow::obj(s, x));
            mfs_tree::law_directory_stays(s, t, x, node(s, x), m);
        } else {
            mfs_tree::law_directory_stays(s, t2, d, a, m);
            assert(mfs_tree::dir_hit(t, c, m) == mfs_tree::dir_hit(t2, a, m));
        }
    }
    n
}

/// Path `p` has a last name, which is looked up in directory `d`.
pub open spec fn under(s: MfsView, p: Seq<u8>, d: u32) -> bool {
    let k = leaf_at(p);
    &&& k < p.len()
    &&& if k == 1 {
        d == MFS_ROOT_INO
    } else {
        clear(s, p.subrange(0, k - 1)) && leads(s, p.subrange(0, k - 1)) == Some((d, MFS_TYPE_DIR))
    }
}

/// A path leads to what the directory of its last name says.
pub proof fn lemma_under(s: MfsView, p: Seq<u8>, d: u32)
    requires
        under(s, p, d),
        1 < p.len() <= MFS_PATH_MAX,
        good(s, d),
        says(s, d, path::leaf_of(p)) matches Some((ino, typ)) ==> ino != 0,
    ensures
        leads(s, p) == says(s, d, path::leaf_of(p)),
        clear(s, p),
{
    let k = leaf_at(p);
    lemma_leaf(p, p.len() as int);
    path::lemma_run(p, k, p.len() as int);
    assert(p.subrange(k, p.len() as int) == path::leaf_of(p));
    if k > 1 {
        lemma_split(s, p, 1, MFS_ROOT_INO);
    }
}

/// The directory of the last name of a path whose directories are in good order.
pub proof fn lemma_under_of(s: MfsView, p: Seq<u8>)
    requires
        1 < p.len() <= MFS_PATH_MAX,
        leaf_at(p) < p.len(),
        clear(s, p),
    ensures
        ({
            let k = leaf_at(p);
            let q = p.subrange(0, k - 1);
            &&& k == 1 ==> under(s, p, MFS_ROOT_INO) && good(s, MFS_ROOT_INO) && leads(s, p)
                == says(s, MFS_ROOT_INO, path::leaf_of(p))
            &&& k > 1 ==> clear(s, q) && (leads(s, q) matches Some((d, typ)) ==> typ
                == MFS_TYPE_DIR && under(s, p, d) && good(s, d) && leads(s, p) == says(
                s,
                d,
                path::leaf_of(p),
            ))
            &&& k > 1 && leads(s, q) is None ==> leads(s, p) is None
        }),
{
    let k = leaf_at(p);
    lemma_leaf(p, p.len() as int);
    path::lemma_run(p, k, p.len() as int);
    assert(p.subrange(k, p.len() as int) == path::leaf_of(p));
    if k > 1 {
        lemma_split(s, p, 1, MFS_ROOT_INO);
    }
}

/// A path that is not the root's and does not start with an empty name.
pub open spec fn proper(p: Seq<u8>) -> bool {
    1 < p.len() <= MFS_PATH_MAX && p[1] != 0x2F
}

/// A place for a path that stands for `w` and leads nowhere.
pub proof fn lemma_place(s: MfsView, t: MfsView, p: Seq<u8>, w: Seq<u8>, links: nat)
    requires
        mfs_cow::table_ok(s),
        alike(s, t),
        mfs_via::stands(s, p, w, links),
        t.place_for(p).1 is Some,
    ensures
        ({
            let (u, r) = t.place_for(p);
            let d = r->Some_0;
            &&& alike(s, u)
            &&& under(s, w, d)
            &&& good(s, d)
            &&& says(s, d, path::leaf_of(w)) is None
            &&& path::leaf_of(w) == path::leaf_of(p)
        }),
{
    reveal(MfsView::place_for);
    mfs_via::lemma_parent(s, t, p, w, links);
    let (u, r) = t.resolve(path::pop_segment(p), true);
    lemma_look(s, u, r->Some_0.0, path::leaf_of(p));
}

/// Alike to what is alike.
pub proof fn lemma_alike_trans(s: MfsView, t: MfsView, u: MfsView)
    requires
        mfs_cow::table_ok(s),
        alike(s, t),
        alike(t, u),
    ensures
        alike(s, u),
{
    mfs_cow::lemma_stable_trans(s, t, u);
}

/// Paths in states that differ in the buffered table block only.
pub proof fn lemma_alike_way(s: MfsView, t: MfsView, p: Seq<u8>, i: int, cur: u32)
    requires
        mfs_cow::table_ok(s),
        alike(s, t),
        0 <= i,
        way_ok(s, p, i, cur),
    ensures
        way_ok(t, p, i, cur),
        way(t, p, i, cur) == way(s, p, i, cur),
    decreases p.len() - i,
{
    let end = path::seg_end(p, i);
    if !(i >= p.len() || end <= i || end - i > MFS_NAME_MAX) {
        path::lemma_seg_end(p, i);
        lemma_good_alike(s, t, cur, p.subrange(i, end));
        match says(s, cur, p.subrange(i, end)) {
            None => {},
            Some((ino, typ)) => {
                if end < p.len() {
                    lemma_alike_way(s, t, p, end + 1, ino);
                }
            },
        }
    }
}

/// Law: a file or directory made under a path whose directories are in good order is found
/// under it, with the node that it was made with. It has a number that nothing had, every
/// block in use holds what it held, and every other path leads where it led. The path may go
/// through links: `w` is the path without links that it stands for, before and after.
pub proof fn law_created_is_found(
    s: MfsView,
    p: Seq<u8>,
    w: Seq<u8>,
    links: nat,
    is_dir: bool,
    owner: u16,
) -> (n: u32)
    requires
        mfs_cow::table_ok(s),
        mfs_via::stands(s, p, w, links),
        leads(s, w) is None,
        s.create(p, is_dir, owner).1,
    ensures
        ({
            let t = s.create(p, is_dir, owner).0;
            let magic = if is_dir {
                MFS_MAGIC_DIR
            } else {
                MFS_MAGIC_FILE
            };
            let typ = if is_dir {
                MFS_TYPE_DIR
            } else {
                MFS_TYPE_FILE
            };
            &&& exists|d: u32| #[trigger]
                under(s, w, d) && added(
                    s,
                    t,
                    d,
                    path::leaf_of(w),
                    n,
                    mfs_path::new_node(is_dir, owner, s.now),
                    magic,
                    typ,
                )
            &&& clear(t, w)
            &&& leads(t, w) == Some((n, typ))
            &&& mfs_via::stands(t, p, w, links)
            &&& forall|q: Seq<u8>| clear(s, q) && leads(s, q) is Some ==> #[trigger] leads(t, q)
                == leads(s, q) && clear(t, q)
        }),
{
    reveal(MfsView::create);
    reveal(MfsView::open_or_none);
    let magic = if is_dir {
        MFS_MAGIC_DIR
    } else {
        MFS_MAGIC_FILE
    };
    let typ = if is_dir {
        MFS_TYPE_DIR
    } else {
        MFS_TYPE_FILE
    };
    mfs_cow::lemma_stable_refl(s);
    mfs_via::lemma_no_link_at_end(s, p, w, links);
    mfs_via::lemma_resolve(s, s, p, w, links, true);
    reveal(mfs_via::found);
    let u = s.resolve(p, true).0;
    lemma_place(s, u, p, w, links);
    let (v, r) = u.place_for(p);
    let d = r->Some_0;
    let nd = mfs_path::new_node(is_dir, owner, v.now);
    assert(nd.len() == 4096) by {
        lemma_node_len(is_dir, owner, v.now);
    }
    let n = lemma_enter(s, v, w, d, nd, magic, typ);
    lemma_still_stands(s, s.create(p, is_dir, owner).0, p, w, links, d, n, nd, magic, typ);
    n
}

/// A path stands for what it stood for where an object was added.
proof fn lemma_still_stands(
    s: MfsView,
    t: MfsView,
    p: Seq<u8>,
    w: Seq<u8>,
    links: nat,
    d: u32,
    n: u32,
    nd: Seq<u8>,
    magic: u32,
    typ: u32,
)
    requires
        mfs_via::stands(s, p, w, links),
        good(s, d),
        says(s, d, path::leaf_of(w)) is None,
        added(s, t, d, path::leaf_of(w), n, nd, magic, typ),
        clear(t, w),
    ensures
        mfs_via::stands(t, p, w, links),
{
    let comp = path::leaf_of(w);
    mfs_via::lemma_shuns(s, p, w, links, d, comp, n, false);
    mfs_via::lemma_goes_kept(s, t, p, w, links, d, comp, n, false);
}

/// The node of a new object has the length of a block.
pub proof fn lemma_node_len(is_dir: bool, owner: u16, now: u64)
    ensures
        mfs_path::new_node(is_dir, owner, now).len() == 4096,
{
    reveal(mfs_dir::empty_dir);
}

/// An object added where a path has its place.
pub proof fn lemma_enter(
    s: MfsView,
    v: MfsView,
    p: Seq<u8>,
    d: u32,
    nd: Seq<u8>,
    magic: u32,
    typ: u32,
) -> (n: u32)
    requires
        mfs_cow::table_ok(s),
        alike(s, v),
        proper(p),
        under(s, p, d),
        good(s, d),
        says(s, d, path::leaf_of(p)) is None,
        nd.len() == 4096,
        typ < 256,
        v.add_object(d, path::leaf_of(p), nd, magic, typ).1,
    ensures
        ({
            let t = v.add_object(d, path::leaf_of(p), nd, magic, typ).0;
            &&& added(s, t, d, path::leaf_of(p), n, nd, magic, typ)
            &&& clear(t, p)
            &&& leads(t, p) == Some((n, typ))
            &&& forall|q: Seq<u8>| clear(s, q) && leads(s, q) is Some ==> #[trigger] leads(t, q)
                == leads(s, q) && clear(t, q)
        }),
{
    let comp = path::leaf_of(p);
    lemma_good_alike(s, v, d, comp);
    let n = lemma_add(v, d, comp, nd, magic, typ);
    let t = v.add_object(d, comp, nd, magic, typ).0;
    lemma_alike(s, v);
    mfs_cow::lemma_stable_trans(s, v, t);
    assert forall|x: u32| good(s, x) implies #[trigger] good(t, x) by {
        lemma_good_alike(s, v, x, comp);
    }
    assert forall|x: u32, m: Seq<u8>|
        good(s, x) && !(x == d && m == comp) implies #[trigger] says(t, x, m) == says(s, x, m) by {
        lemma_good_alike(s, v, x, m);
    }
    assert(kept(s, t, d, comp));
    assert forall|i: u32| mfs_cow::good_ino(i) && i != n && i != d implies #[trigger] mfs_cow::obj(
        t,
        i,
    ) == mfs_cow::obj(s, i) by {
        assert(mfs_cow::obj(t, i) == mfs_cow::obj(v, i));
    }
    assert forall|q: Seq<u8>| clear(s, q) && leads(s, q) is Some implies #[trigger] leads(t, q)
        == leads(s, q) && clear(t, q) by {
        lemma_avoids(s, q, 1, MFS_ROOT_INO, d, comp);
        lemma_way_kept(s, t, q, 1, MFS_ROOT_INO, d, comp);
    }
    let k = leaf_at(p);
    if k > 1 {
        assert(leads(t, p.subrange(0, k - 1)) == leads(s, p.subrange(0, k - 1)));
    }
    assert(under(t, p, d));
    lemma_under(t, p, d);
    n
}

/// What the node of a link holds of its target.
pub proof fn lemma_link_node(target: Seq<u8>, owner: u16, now: u64)
    requires
        target.len() <= MFS_LINK_MAX,
    ensures
        ({
            let c = mfs::sealed(mfs_path::link_node(target, owner, now), MFS_MAGIC_LINK);
            &&& mfs_path::link_node(target, owner, now).len() == 4096
            &&& mfs_file::file_size(c) == target.len()
            &&& c.subrange(16, 16 + target.len() as int) == target
        }),
{
    let a0 = bytes::put64(bytes::zeros(4096), 8, target.len() as u64);
    let a1 = bytes::splice(a0, 16, target);
    let a2 = mfs_path::link_node(target, owner, now);
    let c = mfs::sealed(a2, MFS_MAGIC_LINK);
    bytes::law_put64_reads_back(bytes::zeros(4096), 8, target.len() as u64);
    assert(a1.len() == 4096);
    assert(a2.len() == 4096);
    assert forall|k: int| 8 <= k < 4056 implies #[trigger] c[k] == a1[k] by {
        assert(a2[k] == a1[k]);
    }
    assert forall|k: int| 8 <= k < 16 implies #[trigger] c[k] == a0[k] by {
        assert(a1[k] == a0[k]);
    }
    assert(c[8] == a0[8] && c[9] == a0[9] && c[10] == a0[10] && c[11] == a0[11]);
    assert(c[12] == a0[12] && c[13] == a0[13] && c[14] == a0[14] && c[15] == a0[15]);
    assert(c.subrange(16, 16 + target.len() as int) =~= target) by {
        assert forall|k: int| 0 <= k < target.len() implies c[16 + k] == target[k] by {
            assert(c[16 + k] == a1[16 + k]);
        }
    }
}

/// The target of a link.
pub proof fn lemma_link_target(s: MfsView, t: MfsView, n: u32, target: Seq<u8>, a: Seq<u8>)
    requires
        mfs_cow::table_ok(s),
        alike(s, t),
        mfs_cow::good_ino(n),
        mfs_cow::obj(s, n) != 0,
        s.load(mfs_cow::obj(s, n), MFS_MAGIC_LINK) == Some(a),
        0 < target.len() <= MFS_LINK_MAX,
        mfs_file::file_size(a) == target.len(),
        a.subrange(16, 16 + target.len() as int) == target,
    ensures
        t.link_target(n).1 == Some(target),
        alike(s, t.link_target(n).0),
{
    reveal(MfsView::link_target);
    lemma_alike(s, t);
    mfs_laws::lemma_object(t, n);
    let u = t.object_block(n).0;
    lemma_alike_trans(s, t, u);
    lemma_alike(s, u);
}

/// Law: a symbolic link made under a path whose directories are in good order gives its target
/// back: all of it where one message carries it, else as much as one carries. Every block in
/// use holds what it held, and every other path leads where it led. The path may go through
/// links: `w` is the path without links that it stands for, before and after.
pub proof fn law_symlink_reads_back(
    s: MfsView,
    target: Seq<u8>,
    p: Seq<u8>,
    c: Seq<u8>,
    w: Seq<u8>,
    links: nat,
    owner: u16,
) -> (n: u32)
    requires
        mfs_cow::table_ok(s),
        mfs_path::raw_normal(p) == Some(c),
        mfs_via::stands(s, c, w, links),
        leads(s, w) is None,
        s.symlink(target, p, owner).1,
    ensures
        ({
            let t = s.symlink(target, p, owner).0;
            &&& mfs_cow::stable(s, t)
            &&& mfs_cow::table_ok(t)
            &&& clear(t, w)
            &&& leads(t, w) == Some((n, MFS_TYPE_LINK))
            &&& mfs_via::stands(t, c, w, links)
            &&& target.len() < vfs::PAYLOAD_LEN ==> t.readlink(p).1 == Some(target)
            &&& t.readlink(p).1 == Some(
                target.subrange(0, mfs_file::least(target.len() as int, vfs::PAYLOAD_LEN - 1)),
            )
            &&& forall|q: Seq<u8>| clear(s, q) && leads(s, q) is Some ==> #[trigger] leads(t, q)
                == leads(s, q) && clear(t, q)
        }),
{
    reveal(MfsView::symlink);
    reveal(MfsView::readlink);
    reveal(mfs_via::found);
    mfs_cow::lemma_stable_refl(s);
    mfs_via::lemma_resolve(s, s, c, w, links, false);
    let u = s.resolve(c, false).0;
    lemma_place(s, u, c, w, links);
    let (v, r) = u.place_for(c);
    let d = r->Some_0;
    let nd = mfs_path::link_node(target, owner, v.now);
    lemma_link_node(target, owner, v.now);
    let n = lemma_enter(s, v, w, d, nd, MFS_MAGIC_LINK, MFS_TYPE_LINK);
    let t = s.symlink(target, p, owner).0;
    lemma_still_stands(s, t, c, w, links, d, n, nd, MFS_MAGIC_LINK, MFS_TYPE_LINK);
    mfs_cow::lemma_stable_refl(t);
    let last = mfs_via::lemma_resolve(t, t, c, w, links, false);
    let (x, y) = t.resolve(c, false);
    lemma_look(t, last.0, last.1, path::leaf_of(w));
    lemma_link_target(t, x, n, target, mfs::sealed(nd, MFS_MAGIC_LINK));
    assert(target.subrange(0, target.len() as int) =~= target);
    n
}

} // verus!
