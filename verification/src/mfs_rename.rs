//! MorionFS: renaming. What was moved is found under its new path and not under the old one,
//! and a directory is never moved below itself.
use vstd::prelude::*;

use crate::mfs::{MfsView, MFS_MAGIC_DIR, MFS_ROOT_INO};
use crate::mfs_cow;
use crate::mfs_dir;
use crate::mfs_dir::{MfsLoc, MFS_NAME_MAX, MFS_TYPE_DIR, MFS_TYPE_FILE};
use crate::mfs_laws;
use crate::mfs_moves;
use crate::mfs_path;
use crate::mfs_ring;
use crate::mfs_tree;
use crate::mfs_via;
use crate::mfs_ways;
use crate::path;

verus! {

/// The directory of the last name of a path that does not go through the entry stays.
proof fn lemma_last_kept(
    s: MfsView,
    t: MfsView,
    p: Seq<u8>,
    i: int,
    cur: u32,
    d: u32,
    comp: Seq<u8>,
)
    requires
        mfs_ways::kept(s, t, d, comp),
        0 <= i,
        mfs_ways::way_ok(s, p, i, cur),
        mfs_ways::avoids(s, p, i, cur, d, comp),
    ensures
        mfs_ways::last_dir(t, p, i, cur) == mfs_ways::last_dir(s, p, i, cur),
    decreases p.len() - i,
{
    let end = path::seg_end(p, i);
    if !(i >= p.len() || end <= i || end - i > MFS_NAME_MAX || end >= p.len()) {
        path::lemma_seg_end(p, i);
        let n = p.subrange(i, end);
        assert(mfs_ways::says(t, cur, n) == mfs_ways::says(s, cur, n));
        match mfs_ways::says(s, cur, n) {
            None => {},
            Some((ino, typ)) => {
                lemma_last_kept(s, t, p, end + 1, ino, d, comp);
            },
        }
    }
}

/// A path that goes through neither of two entries still avoids the second when the first
/// changes.
proof fn lemma_avoids_kept(
    s: MfsView,
    t: MfsView,
    p: Seq<u8>,
    i: int,
    cur: u32,
    d: u32,
    comp: Seq<u8>,
    e: u32,
    other: Seq<u8>,
)
    requires
        mfs_ways::kept(s, t, d, comp),
        0 <= i,
        mfs_ways::way_ok(s, p, i, cur),
        mfs_ways::avoids(s, p, i, cur, d, comp),
        mfs_ways::avoids(s, p, i, cur, e, other),
    ensures
        mfs_ways::avoids(t, p, i, cur, e, other),
    decreases p.len() - i,
{
    let end = path::seg_end(p, i);
    if !(i >= p.len() || end <= i || end - i > MFS_NAME_MAX) {
        path::lemma_seg_end(p, i);
        let n = p.subrange(i, end);
        assert(mfs_ways::says(t, cur, n) == mfs_ways::says(s, cur, n));
        match mfs_ways::says(s, cur, n) {
            None => {},
            Some((ino, typ)) => {
                if end < p.len() {
                    lemma_avoids_kept(s, t, p, end + 1, ino, d, comp, e, other);
                }
            },
        }
    }
}

/// A directory has a name once at most after another name was entered somewhere.
proof fn lemma_once_kept(
    s: MfsView,
    u: MfsView,
    d: u32,
    comp: Seq<u8>,
    ino: u32,
    typ: u32,
    e: u32,
    n: Seq<u8>,
)
    requires
        mfs_cow::table_ok(s),
        mfs_ways::alike(s, u),
        mfs_ways::good(s, d),
        mfs_ways::good(s, e),
        mfs_ways::says(s, d, comp) is None,
        mfs_tree::once(s, mfs_ways::node(s, e), n),
        typ < 256,
        u.dir_insert(d, comp, ino, typ).1,
    ensures
        ({
            let t = u.dir_insert(d, comp, ino, typ).0;
            mfs_tree::once(t, mfs_ways::node(t, e), n)
        }),
{
    let t = u.dir_insert(d, comp, ino, typ).0;
    mfs_ways::lemma_good_alike(s, u, d, comp);
    mfs_ways::lemma_good_alike(s, u, e, n);
    mfs_tree::lemma_once_same(s, u, mfs_ways::node(s, e), n);
    mfs_moves::lemma_insert(u, d, comp, ino, typ);
    if e == d {
        let c = mfs_tree::law_inserted_stays_once(
            u,
            d,
            mfs_ways::node(u, d),
            comp,
            ino,
            typ,
            n,
        );
        assert(mfs_ways::node(t, d) == c);
    } else {
        assert(mfs_cow::obj(t, e) == mfs_cow::obj(u, e));
        mfs_tree::law_directory_stays(u, t, e, mfs_ways::node(u, e), n);
        reveal(mfs_tree::once);
    }
}

/// What moving the entry for object `ino` from path `sc` to path `dc` does; they stand for the
/// paths `sw` and `dw`.
proof fn lemma_move_entry(
    s: MfsView,
    u: MfsView,
    ino: u32,
    typ: u32,
    sc: Seq<u8>,
    dc: Seq<u8>,
    sw: Seq<u8>,
    dw: Seq<u8>,
    slinks: nat,
    dlinks: nat,
)
    requires
        mfs_cow::table_ok(s),
        mfs_ways::alike(s, u),
        mfs_via::stands(s, sc, sw, slinks),
        mfs_via::stands(s, dc, dw, dlinks),
        path::leaf_of(dc).len() > 0,
        mfs_ways::leads(s, sw) == Some((ino, typ)),
        mfs_ways::leads(s, dw) is None,
        mfs_ways::avoids(
            s,
            path::pop_segment(dw),
            1,
            MFS_ROOT_INO,
            mfs_ways::last_dir(s, sw, 1, MFS_ROOT_INO),
            path::leaf_of(sw),
        ),
        mfs_tree::once(
            s,
            mfs_ways::node(s, mfs_ways::last_dir(s, sw, 1, MFS_ROOT_INO)),
            path::leaf_of(sw),
        ),
        ino != 0,
        typ < 256,
        u.move_entry(ino, typ, sc, dc).1,
    ensures
        moved(s, u.move_entry(ino, typ, sc, dc).0, ino, typ, sw, dw),
{
    reveal(MfsView::move_entry);
    let comp = path::leaf_of(dw);
    let from = path::leaf_of(sw);
    let e = mfs_ways::last_dir(s, sw, 1, MFS_ROOT_INO);
    mfs_via::lemma_goes_end(s, sc, sw, slinks, false);
    mfs_ways::law_resolve(s, sw, false);
    mfs_via::lemma_parent(s, u, dc, dw, dlinks);
    let (u1, r) = u.resolve(path::pop_segment(dc), true);
    let d = r->Some_0.0;
    assert(mfs_ways::says(s, d, comp) is None);
    assert(mfs_ways::says(s, e, from) == Some((ino, typ)));
    mfs_ways::lemma_good_alike(s, u1, d, comp);
    mfs_moves::lemma_insert(u1, d, comp, ino, typ);
    lemma_once_kept(s, u1, d, comp, ino, typ, e, from);
    let t1 = u1.dir_insert(d, comp, ino, typ).0;
    mfs_moves::lemma_kept_alike(s, u1, t1, d, comp);
    mfs_cow::lemma_stable_trans(s, u1, t1);
    mfs_moves::lemma_paths(s, t1, d, comp);
    mfs_ways::lemma_avoids(s, sw, 1, MFS_ROOT_INO, d, comp);
    lemma_last_kept(s, t1, sw, 1, MFS_ROOT_INO, d, comp);
    assert(mfs_ways::leads(t1, sw) == Some((ino, typ)));
    mfs_ways::lemma_alike(s, u1);
    assert forall|i: u32| mfs_cow::good_ino(i) && i != d implies #[trigger] mfs_cow::obj(t1, i)
        == mfs_cow::obj(s, i) by {
        assert(mfs_cow::obj(t1, i) == mfs_cow::obj(u1, i));
    }
    mfs_via::lemma_shuns(s, sc, sw, slinks, d, comp, 0, false);
    mfs_via::lemma_goes_kept(s, t1, sc, sw, slinks, d, comp, 0, false);
    mfs_cow::lemma_stable_refl(t1);
    let last = mfs_via::lemma_resolve(t1, t1, sc, sw, slinks, false);
    reveal(mfs_via::found);
    let (s3, x) = t1.resolve(sc, false);
    let loc = x->Some_0.1;
    mfs_moves::lemma_delete(t1, last.0, s3, e, from);
    let t = s3.dir_delete(loc).0;
    mfs_cow::lemma_stable_trans(s, t1, t);
    assert forall|i: u32| mfs_cow::good_ino(i) && i != d && i != e implies #[trigger] mfs_cow::obj(
        t,
        i,
    ) == mfs_cow::obj(s, i) by {
        assert(mfs_cow::obj(t, i) == mfs_cow::obj(t1, i));
    }
    lemma_moved(s, t1, t, ino, typ, sw, dw, d);
}

/// Every file but `gone` is as it was.
pub open spec fn files_kept(s: MfsView, t: MfsView, gone: u32) -> bool {
    forall|i: u32, a: Seq<u8>| #[trigger]
        mfs_laws::file_ok(s, i, a) && i != gone ==> mfs_laws::file_ok(t, i, a) && mfs_laws::content(
            t,
            a,
        ) == mfs_laws::content(s, a)
}

/// Every file is as it was where only the directories `d` and `e` are elsewhere.
proof fn lemma_files_kept(s: MfsView, t: MfsView, d: u32, e: u32, gone: u32)
    requires
        mfs_cow::stable(s, t),
        mfs_cow::table_ok(t),
        mfs_ways::good(s, d),
        mfs_ways::good(s, e),
        forall|i: u32|
            mfs_cow::good_ino(i) && i != d && i != e && i != gone ==> #[trigger] mfs_cow::obj(t, i)
                == mfs_cow::obj(s, i),
    ensures
        files_kept(s, t, gone),
{
    assert forall|i: u32, a: Seq<u8>| #[trigger]
        mfs_laws::file_ok(s, i, a) && i != gone implies mfs_laws::file_ok(t, i, a)
        && mfs_laws::content(t, a) == mfs_laws::content(s, a) by {
        mfs_moves::lemma_no_dir(s, i);
        assert(mfs_cow::obj(t, i) == mfs_cow::obj(s, i));
        mfs_laws::lemma_file_elsewhere(s, t, i, a);
    }
}

/// What a move leaves: the old path leads nowhere, the new one to the object; every block in
/// use holds what it held, every file is as it was, what number is free stays free, and every
/// other path that does not go through the old entry leads where it led.
pub open spec fn moved(
    s: MfsView,
    t: MfsView,
    ino: u32,
    typ: u32,
    sc: Seq<u8>,
    dc: Seq<u8>,
) -> bool {
    &&& mfs_cow::stable(s, t)
    &&& mfs_cow::table_ok(t)
    &&& mfs_ways::leads(t, dc) == Some((ino, typ))
    &&& mfs_ways::clear(t, dc)
    &&& mfs_ways::leads(t, sc) is None
    &&& forall|i: u32, a: Seq<u8>| #[trigger]
        mfs_laws::file_ok(s, i, a) ==> mfs_laws::file_ok(t, i, a) && mfs_laws::content(t, a)
            == mfs_laws::content(s, a)
    &&& forall|i: u32|
        mfs_cow::good_ino(i) && mfs_cow::obj(s, i) == 0 ==> #[trigger] mfs_cow::obj(t, i) == 0
    &&& forall|q: Seq<u8>|
        mfs_ways::clear(s, q) && mfs_ways::leads(s, q) is Some && mfs_ways::avoids(
            s,
            q,
            1,
            MFS_ROOT_INO,
            mfs_ways::last_dir(s, sc, 1, MFS_ROOT_INO),
            path::leaf_of(sc),
        ) ==> #[trigger] mfs_ways::leads(t, q) == mfs_ways::leads(s, q) && mfs_ways::clear(t, q)
}

/// The paths after an entry was added and another one taken out.
proof fn lemma_moved(
    s: MfsView,
    t1: MfsView,
    t: MfsView,
    ino: u32,
    typ: u32,
    sc: Seq<u8>,
    dc: Seq<u8>,
    d: u32,
)
    requires
        mfs_cow::stable(s, t),
        mfs_cow::table_ok(t),
        mfs_ways::proper(sc),
        mfs_ways::proper(dc),
        mfs_ways::clear(t1, sc),
        mfs_ways::leads(t1, sc) == Some((ino, typ)),
        mfs_ways::under(s, dc, d),
        mfs_ways::good(s, d),
        mfs_ways::says(s, d, path::leaf_of(dc)) is None,
        mfs_ways::says(t1, d, path::leaf_of(dc)) == Some((ino, typ)),
        mfs_ways::says(
            s,
            mfs_ways::last_dir(s, sc, 1, MFS_ROOT_INO),
            path::leaf_of(sc),
        ) is Some,
        mfs_ways::last_dir(t1, sc, 1, MFS_ROOT_INO) == mfs_ways::last_dir(s, sc, 1, MFS_ROOT_INO),
        mfs_ways::avoids(
            s,
            path::pop_segment(dc),
            1,
            MFS_ROOT_INO,
            mfs_ways::last_dir(s, sc, 1, MFS_ROOT_INO),
            path::leaf_of(sc),
        ),
        ino != 0,
        mfs_ways::kept(s, t1, d, path::leaf_of(dc)),
        mfs_ways::kept(
            t1,
            t,
            mfs_ways::last_dir(s, sc, 1, MFS_ROOT_INO),
            path::leaf_of(sc),
        ),
        mfs_ways::says(t, mfs_ways::last_dir(s, sc, 1, MFS_ROOT_INO), path::leaf_of(sc)) is None,
        mfs_ways::good(s, mfs_ways::last_dir(s, sc, 1, MFS_ROOT_INO)),
        forall|i: u32|
            mfs_cow::good_ino(i) && i != d && i != mfs_ways::last_dir(s, sc, 1, MFS_ROOT_INO)
                ==> #[trigger] mfs_cow::obj(t, i) == mfs_cow::obj(s, i),
    ensures
        moved(s, t, ino, typ, sc, dc),
{
    let comp = path::leaf_of(dc);
    let from = path::leaf_of(sc);
    let e = mfs_ways::last_dir(s, sc, 1, MFS_ROOT_INO);
    mfs_moves::lemma_way_gone(t1, t, sc, 1, MFS_ROOT_INO, e, 0);
    lemma_files_kept(s, t, d, e, 0);
    assert forall|i: u32, a: Seq<u8>| #[trigger] mfs_laws::file_ok(s, i, a) implies i != 0 by {}
    assert forall|q: Seq<u8>|
        mfs_ways::clear(s, q) && mfs_ways::leads(s, q) is Some && mfs_ways::avoids(
            s,
            q,
            1,
            MFS_ROOT_INO,
            e,
            from,
        ) implies #[trigger] mfs_ways::leads(t, q) == mfs_ways::leads(s, q) && mfs_ways::clear(
        t,
        q,
    ) by {
        mfs_ways::lemma_avoids(s, q, 1, MFS_ROOT_INO, d, comp);
        mfs_ways::lemma_way_kept(s, t1, q, 1, MFS_ROOT_INO, d, comp);
        lemma_avoids_kept(s, t1, q, 1, MFS_ROOT_INO, d, comp, e, from);
        mfs_ways::lemma_way_kept(t1, t, q, 1, MFS_ROOT_INO, e, from);
    }
    let k = mfs_ways::leaf_at(dc);
    mfs_ways::lemma_leaf(dc, dc.len() as int);
    if k > 1 {
        assert(path::pop_segment(dc) == dc.subrange(0, k - 1));
        assert(mfs_ways::leads(t, dc.subrange(0, k - 1)) == mfs_ways::leads(
            s,
            dc.subrange(0, k - 1),
        ));
    }
    assert(mfs_ways::under(t, dc, d));
    assert(mfs_ways::good(t1, d));
    assert(mfs_ways::good(t, d));
    assert(mfs_ways::says(t, d, comp) == mfs_ways::says(t1, d, comp));
    mfs_ways::lemma_under(t, dc, d);
}

/// Law: an object renamed to a path that led nowhere is found under its new path and not under
/// the old one. The paths may go through links: `sw` and `dw` are the paths without links that
/// they stand for.
pub proof fn law_renamed(
    s: MfsView,
    src: Seq<u8>,
    dst: Seq<u8>,
    sc: Seq<u8>,
    dc: Seq<u8>,
    sw: Seq<u8>,
    dw: Seq<u8>,
    slinks: nat,
    dlinks: nat,
    ino: u32,
    typ: u32,
)
    requires
        mfs_cow::table_ok(s),
        mfs_path::raw_normal(src) == Some(sc),
        mfs_path::raw_normal(dst) == Some(dc),
        mfs_via::stands(s, sc, sw, slinks),
        mfs_via::stands(s, dc, dw, dlinks),
        mfs_ways::leads(s, sw) == Some((ino, typ)),
        mfs_ways::leads(s, dw) is None,
        mfs_cow::good_ino(ino),
        mfs_cow::obj(s, ino) != 0,
        s.node_type(mfs_cow::obj(s, ino)) == Some(typ),
        mfs_tree::once(
            s,
            mfs_ways::node(s, mfs_ways::last_dir(s, sw, 1, MFS_ROOT_INO)),
            path::leaf_of(sw),
        ),
        s.rename(src, dst).1,
    ensures
        moved(s, s.rename(src, dst).0, ino, typ, sw, dw),
{
    reveal(MfsView::rename);
    reveal(MfsView::rename_to);
    mfs_cow::lemma_stable_refl(s);
    lemma_two_paths(s, sc, dc, sw, dw, slinks, dlinks);
    let x = lemma_source(s, sc, sw, slinks, ino);
    mfs_ring::lemma_rings(s, x, ino, typ, dc, dw, dlinks);
    let u2 = x.rings(ino, typ, dc).0;
    mfs_via::lemma_resolve(s, u2, dc, dw, dlinks, false);
    reveal(mfs_via::found);
    let u3 = u2.resolve(dc, false).0;
    lemma_parent_there(s, u3, ino, typ, sc, dc, dw, dlinks);
    mfs_via::lemma_goes_end(s, sc, sw, slinks, false);
    mfs_ways::law_resolve(s, sw, false);
    let e = mfs_ways::last_dir(s, sw, 1, MFS_ROOT_INO);
    mfs_ring::lemma_parent_avoids(s, x, ino, typ, dc, dw, dlinks, e, path::leaf_of(sw));
    lemma_move_entry(s, u3, ino, typ, sc, dc, sw, dw, slinks, dlinks);
}

/// A path that leads somewhere and one that leads nowhere are two paths.
proof fn lemma_two_paths(
    s: MfsView,
    sc: Seq<u8>,
    dc: Seq<u8>,
    sw: Seq<u8>,
    dw: Seq<u8>,
    slinks: nat,
    dlinks: nat,
)
    requires
        mfs_cow::table_ok(s),
        mfs_via::stands(s, sc, sw, slinks),
        mfs_via::stands(s, dc, dw, dlinks),
        mfs_ways::leads(s, sw) is Some,
        mfs_ways::leads(s, dw) is None,
    ensures
        sc != dc,
{
    mfs_cow::lemma_stable_refl(s);
    mfs_via::lemma_resolve(s, s, dc, dw, dlinks, false);
    mfs_via::lemma_resolve(s, s, sc, sw, slinks, false);
    reveal(mfs_via::found);
}

/// Where an entry was moved to a path, there is a directory for it.
proof fn lemma_parent_there(
    s: MfsView,
    u: MfsView,
    ino: u32,
    typ: u32,
    sc: Seq<u8>,
    dc: Seq<u8>,
    dw: Seq<u8>,
    dlinks: nat,
)
    requires
        mfs_cow::table_ok(s),
        mfs_ways::alike(s, u),
        mfs_via::stands(s, dc, dw, dlinks),
        path::leaf_of(dc).len() > 0,
        u.move_entry(ino, typ, sc, dc).1,
    ensures
        mfs_via::ends(s, path::pop_segment(dw)) is Some,
{
    reveal(MfsView::move_entry);
    reveal(mfs_via::found);
    mfs_via::lemma_pop_goes(s, dc, dw, dlinks);
    mfs_via::lemma_resolve(s, u, path::pop_segment(dc), path::pop_segment(dw), dlinks, true);
}

/// The object to be renamed found, and its block.
proof fn lemma_source(s: MfsView, sc: Seq<u8>, sw: Seq<u8>, slinks: nat, ino: u32) -> (u2: MfsView)
    requires
        mfs_cow::table_ok(s),
        mfs_via::stands(s, sc, sw, slinks),
        mfs_ways::leads(s, sw) matches Some((x, typ)) && x == ino,
        mfs_cow::good_ino(ino),
        mfs_cow::obj(s, ino) != 0,
    ensures
        s.resolve(sc, false).1 matches Some((x, loc)) && x == ino,
        s.resolve(sc, false).0.object_block(ino) == (u2, Some(mfs_cow::obj(s, ino))),
        mfs_ways::alike(s, u2),
        u2.node_type(mfs_cow::obj(s, ino)) == s.node_type(mfs_cow::obj(s, ino)),
{
    mfs_cow::lemma_stable_refl(s);
    mfs_via::lemma_resolve(s, s, sc, sw, slinks, false);
    reveal(mfs_via::found);
    let u1 = s.resolve(sc, false).0;
    mfs_ways::lemma_alike(s, u1);
    mfs_laws::lemma_object(u1, ino);
    let u2 = u1.object_block(ino).0;
    mfs_ways::lemma_alike_trans(s, u1, u2);
    mfs_cow::lemma_buffer_only(s, u2);
    assert(u2.rd(mfs_cow::obj(s, ino)) == s.rd(mfs_cow::obj(s, ino)));
    u2
}

/// Law: a directory is not moved below itself, and nothing changes on the volume. The new path
/// lies below it where it begins with the old one, or where, its links followed, a leading part
/// of it leads to the directory.
pub proof fn law_below_itself_is_refused(
    s: MfsView,
    src: Seq<u8>,
    dst: Seq<u8>,
    sc: Seq<u8>,
    dc: Seq<u8>,
    sw: Seq<u8>,
    dw: Seq<u8>,
    slinks: nat,
    dlinks: nat,
    ino: u32,
    typ: u32,
)
    requires
        mfs_cow::table_ok(s),
        mfs_path::raw_normal(src) == Some(sc),
        mfs_path::raw_normal(dst) == Some(dc),
        mfs_via::stands(s, sc, sw, slinks),
        mfs_ways::leads(s, sw) == Some((ino, typ)),
        mfs_cow::good_ino(ino),
        mfs_cow::obj(s, ino) != 0,
        s.node_type(mfs_cow::obj(s, ino)) == Some(MFS_TYPE_DIR),
        mfs_path::is_below(sc, dc) || (mfs_via::stands(s, dc, dw, dlinks) && mfs_ring::below(
            s,
            dw,
            ino,
        ) && sc != dc),
    ensures
        !s.rename(src, dst).1,
        mfs_ways::alike(s, s.rename(src, dst).0),
{
    reveal(MfsView::rename);
    let x = lemma_source(s, sc, sw, slinks, ino);
    mfs_cow::lemma_stable_refl(s);
    if !mfs_path::is_below(sc, dc) && path::leaf_of(dc).len() > 0 && sc.len() != 1 {
        mfs_ring::lemma_rings(s, x, ino, MFS_TYPE_DIR, dc, dw, dlinks);
        mfs_via::lemma_pop_goes(s, dc, dw, dlinks);
        mfs_ring::lemma_below(s, dw, ino);
        let u = x.rings(ino, MFS_TYPE_DIR, dc).0;
        if mfs_via::ends(s, path::pop_segment(dw)) is None {
            lemma_no_parent(s, u, ino, MFS_TYPE_DIR, sc, dc, dw, dlinks);
        }
    }
}

/// Nothing is moved to a path that has no directory.
proof fn lemma_no_parent(
    s: MfsView,
    u: MfsView,
    ino: u32,
    typ: u32,
    sc: Seq<u8>,
    dc: Seq<u8>,
    dw: Seq<u8>,
    dlinks: nat,
)
    requires
        mfs_cow::table_ok(s),
        mfs_ways::alike(s, u),
        mfs_via::stands(s, dc, dw, dlinks),
        path::leaf_of(dc).len() > 0,
        mfs_via::ends(s, path::pop_segment(dw)) is None,
    ensures
        forall|loc: MfsLoc|
            !(#[trigger] u.rename_to(ino, typ, loc, sc, dc)).1 && mfs_ways::alike(
                s,
                u.rename_to(ino, typ, loc, sc, dc).0,
            ),
{
    reveal(MfsView::rename_to);
    reveal(MfsView::move_entry);
    reveal(mfs_via::found);
    mfs_via::lemma_pop_goes(s, dc, dw, dlinks);
    mfs_via::lemma_goes_end(s, dc, dw, dlinks, false);
    mfs_ways::lemma_leaf(dw, dw.len() as int);
    mfs_ways::lemma_under_of(s, dw);
    let k = mfs_ways::leaf_at(dw);
    assert(k > 1);
    assert(path::pop_segment(dw) =~= dw.subrange(0, k - 1));
    mfs_via::lemma_resolve(s, u, dc, dw, dlinks, false);
    let v = u.resolve(dc, false).0;
    mfs_via::lemma_resolve(s, v, path::pop_segment(dc), path::pop_segment(dw), dlinks, true);
}

/// The entry that a path ends at, found in two states that differ in the buffered table block
/// only.
proof fn lemma_one_entry(s: MfsView, x: MfsView, y: MfsView, d: u32, n: Seq<u8>)
    requires
        mfs_cow::table_ok(s),
        mfs_ways::alike(s, x),
        mfs_ways::alike(s, y),
        mfs_ways::good(s, d),
    ensures
        x.dir_lookup(d, n).1 == y.dir_lookup(d, n).1,
{
    mfs_ways::lemma_good_alike(s, x, d, n);
    mfs_ways::lemma_good_alike(s, y, d, n);
    mfs_ways::lemma_alike(s, x);
    mfs_ways::lemma_alike(s, y);
    mfs_tree::lemma_lookup_alike(s, x, d, mfs_ways::node(s, d), n);
    mfs_tree::lemma_lookup_alike(s, y, d, mfs_ways::node(s, d), n);
}

/// Two names are two entries.
proof fn lemma_two_entries(
    s: MfsView,
    x: MfsView,
    y: MfsView,
    d: u32,
    n: Seq<u8>,
    e: u32,
    m: Seq<u8>,
)
    requires
        mfs_cow::table_ok(s),
        mfs_ways::alike(s, x),
        mfs_ways::alike(s, y),
        mfs_ways::good(s, d),
        mfs_ways::good(s, e),
        x.dir_lookup(d, n).1 is Some,
        y.dir_lookup(e, m).1 is Some,
        !(d == e && n == m),
    ensures
        x.dir_lookup(d, n).1 != y.dir_lookup(e, m).1,
{
    mfs_cow::lemma_stable_refl(s);
    lemma_one_entry(s, x, s, d, n);
    lemma_one_entry(s, y, s, e, m);
    mfs_tree::law_lookup(s, d, mfs_ways::node(s, d), n);
    mfs_tree::law_lookup(s, e, mfs_ways::node(s, e), m);
    let loc = s.dir_lookup(d, n).1->Some_0;
    let c = s.load(loc.blk, MFS_MAGIC_DIR)->Some_0;
    mfs_tree::lemma_scan_name(c, 56, n);
    if s.dir_lookup(e, m).1 == Some(loc) {
        mfs_tree::lemma_scan_name(c, 56, m);
    }
}

/// Law: where two paths end at one entry, by a link on the way, the object renamed from the one
/// to the other stays as it is, and so does everything else; the request succeeds.
pub proof fn law_renamed_to_itself(
    s: MfsView,
    src: Seq<u8>,
    dst: Seq<u8>,
    sc: Seq<u8>,
    dc: Seq<u8>,
    sw: Seq<u8>,
    dw: Seq<u8>,
    slinks: nat,
    dlinks: nat,
    ino: u32,
    typ: u32,
)
    requires
        mfs_cow::table_ok(s),
        mfs_path::raw_normal(src) == Some(sc),
        mfs_path::raw_normal(dst) == Some(dc),
        mfs_via::stands(s, sc, sw, slinks),
        mfs_via::stands(s, dc, dw, dlinks),
        path::leaf_of(dc).len() > 0,
        mfs_ways::leads(s, sw) == Some((ino, typ)),
        mfs_ways::last_dir(s, dw, 1, MFS_ROOT_INO) == mfs_ways::last_dir(s, sw, 1, MFS_ROOT_INO),
        path::leaf_of(dw) == path::leaf_of(sw),
        mfs_ways::leads(s, dw) is Some,
        mfs_cow::good_ino(ino),
        mfs_cow::obj(s, ino) != 0,
        s.node_type(mfs_cow::obj(s, ino)) == Some(typ),
        typ != MFS_TYPE_DIR || !(mfs_path::is_below(sc, dc) || mfs_ring::on_way(
            s,
            path::pop_segment(dw),
            ino,
        )),
    ensures
        s.rename(src, dst).1,
        mfs_ways::alike(s, s.rename(src, dst).0),
{
    reveal(MfsView::rename);
    reveal(MfsView::rename_to);
    mfs_cow::lemma_stable_refl(s);
    let first = mfs_via::lemma_resolve(s, s, sc, sw, slinks, false);
    lemma_found(s, sw, first, s.resolve(sc, false));
    let x = lemma_source(s, sc, sw, slinks, ino);
    mfs_ring::lemma_rings(s, x, ino, typ, dc, dw, dlinks);
    let u2 = x.rings(ino, typ, dc).0;
    let last = mfs_via::lemma_resolve(s, u2, dc, dw, dlinks, false);
    lemma_found(s, dw, last, u2.resolve(dc, false));
    lemma_one_entry(s, first.0, last.0, first.1, path::leaf_of(sw));
}

/// A directory from which a path goes on is not one under which no path goes on.
proof fn lemma_goes_on(s: MfsView, p: Seq<u8>, i: int, cur: u32)
    requires
        mfs_ways::way_ok(s, p, i, cur),
        mfs_ways::way(s, p, i, cur) is Some,
    ensures
        !mfs_moves::barren(s, cur),
{
    assert(mfs_ways::says(s, cur, p.subrange(i, path::seg_end(p, i))) is Some);
}

/// A path that leads to another object does not go through the entry of one under which no path
/// goes on.
proof fn lemma_avoids_barren(s: MfsView, p: Seq<u8>, i: int, cur: u32, d: u32, comp: Seq<u8>, g: u32)
    requires
        0 <= i,
        mfs_ways::says(s, d, comp) is Some,
        mfs_ways::says(s, d, comp)->Some_0.0 == g,
        mfs_moves::barren(s, g),
        mfs_ways::way(s, p, i, cur) is Some,
        mfs_ways::way(s, p, i, cur)->Some_0.0 != g,
        mfs_ways::way_ok(s, p, i, cur),
    ensures
        mfs_ways::avoids(s, p, i, cur, d, comp),
    decreases p.len() - i,
{
    let end = path::seg_end(p, i);
    path::lemma_seg_end(p, i);
    let ino = mfs_ways::says(s, cur, p.subrange(i, end))->Some_0.0;
    if end < p.len() {
        lemma_goes_on(s, p, end + 1, ino);
        lemma_avoids_barren(s, p, end + 1, ino, d, comp, g);
    }
}

/// A path that ends at another entry does not go through the entry of an object under which no
/// path goes on.
proof fn lemma_avoids_other(s: MfsView, p: Seq<u8>, i: int, cur: u32, d: u32, comp: Seq<u8>, g: u32)
    requires
        1 <= i,
        i == 1 || (i <= p.len() && p[i - 1] == 0x2F),
        mfs_ways::says(s, d, comp) is Some,
        mfs_ways::says(s, d, comp)->Some_0.0 == g,
        mfs_moves::barren(s, g),
        mfs_ways::way(s, p, i, cur) is Some,
        !(mfs_ways::last_dir(s, p, i, cur) == d && path::leaf_of(p) == comp),
        mfs_ways::way_ok(s, p, i, cur),
    ensures
        mfs_ways::avoids(s, p, i, cur, d, comp),
    decreases p.len() - i,
{
    let end = path::seg_end(p, i);
    path::lemma_seg_end(p, i);
    let ino = mfs_ways::says(s, cur, p.subrange(i, end))->Some_0.0;
    if end < p.len() {
        lemma_goes_on(s, p, end + 1, ino);
        lemma_avoids_other(s, p, end + 1, ino, d, comp, g);
    } else {
        mfs_ways::lemma_leaf_is(p, i, p.len() as int);
        assert(path::leaf_of(p) =~= p.subrange(i, end));
    }
}

/// A path in states that agree but for an entry and an object under which no path goes on: it
/// avoids the same entries.
proof fn lemma_avoids_but(
    s: MfsView,
    t: MfsView,
    p: Seq<u8>,
    i: int,
    cur: u32,
    d: u32,
    comp: Seq<u8>,
    gone: u32,
    e: u32,
    other: Seq<u8>,
)
    requires
        mfs_moves::kept_but(s, t, d, comp, gone),
        mfs_moves::barren(s, gone),
        0 <= i,
        mfs_ways::way_ok(s, p, i, cur),
        mfs_ways::way(s, p, i, cur) is Some,
        mfs_ways::avoids(s, p, i, cur, d, comp),
        mfs_ways::avoids(s, p, i, cur, e, other),
    ensures
        mfs_ways::avoids(t, p, i, cur, e, other),
    decreases p.len() - i,
{
    let end = path::seg_end(p, i);
    path::lemma_seg_end(p, i);
    let n = p.subrange(i, end);
    assert(mfs_ways::says(s, cur, n) is Some);
    assert(cur != gone);
    assert(mfs_ways::says(t, cur, n) == mfs_ways::says(s, cur, n));
    if end < p.len() {
        lemma_avoids_but(
            s,
            t,
            p,
            end + 1,
            mfs_ways::says(s, cur, n)->Some_0.0,
            d,
            comp,
            gone,
            e,
            other,
        );
    }
}

/// The directory of the last name of such a path.
proof fn lemma_last_but(
    s: MfsView,
    t: MfsView,
    p: Seq<u8>,
    i: int,
    cur: u32,
    d: u32,
    comp: Seq<u8>,
    gone: u32,
)
    requires
        mfs_moves::kept_but(s, t, d, comp, gone),
        mfs_moves::barren(s, gone),
        0 <= i,
        mfs_ways::way_ok(s, p, i, cur),
        mfs_ways::way(s, p, i, cur) is Some,
        mfs_ways::avoids(s, p, i, cur, d, comp),
    ensures
        mfs_ways::last_dir(t, p, i, cur) == mfs_ways::last_dir(s, p, i, cur),
    decreases p.len() - i,
{
    let end = path::seg_end(p, i);
    path::lemma_seg_end(p, i);
    let n = p.subrange(i, end);
    assert(mfs_ways::says(s, cur, n) is Some);
    assert(cur != gone);
    assert(mfs_ways::says(t, cur, n) == mfs_ways::says(s, cur, n));
    if end < p.len() {
        lemma_last_but(
            s,
            t,
            p,
            end + 1,
            mfs_ways::says(s, cur, n)->Some_0.0,
            d,
            comp,
            gone,
        );
    }
}

/// A path whose last name is the entry that is gone is still in good order.
pub proof fn lemma_clear_gone(s: MfsView, t: MfsView, p: Seq<u8>, i: int, cur: u32, d: u32, gone: u32)
    requires
        mfs_moves::kept_but(s, t, d, path::leaf_of(p), gone),
        mfs_moves::barren(s, gone),
        mfs_ways::says(t, d, path::leaf_of(p)) is None,
        1 <= i,
        mfs_ways::way_ok(s, p, i, cur),
        mfs_ways::way(s, p, i, cur) is Some,
    ensures
        mfs_ways::way_ok(t, p, i, cur),
    decreases p.len() - i,
{
    let end = path::seg_end(p, i);
    path::lemma_seg_end(p, i);
    let n = p.subrange(i, end);
    assert(mfs_ways::says(s, cur, n) is Some);
    assert(cur != gone);
    assert(mfs_ways::good(t, cur));
    if !(cur == d && n == path::leaf_of(p)) {
        assert(mfs_ways::says(t, cur, n) == mfs_ways::says(s, cur, n));
        if end < p.len() {
            lemma_clear_gone(s, t, p, end + 1, mfs_ways::says(s, cur, n)->Some_0.0, d, gone);
        }
    }
}

/// What stood at a path gone: the entry deleted, and the object changed or given
/// back.
proof fn lemma_dropped(
    s: MfsView,
    x: MfsView,
    s1: MfsView,
    t: MfsView,
    d: u32,
    comp: Seq<u8>,
    gone: u32,
    e: u32,
    n: Seq<u8>,
)
    requires
        mfs_cow::table_ok(s),
        mfs_ways::alike(s, x),
        mfs_ways::alike(s, s1),
        mfs_ways::good(s, d),
        mfs_ways::good(s, e),
        mfs_tree::once(s, mfs_ways::node(s, d), comp),
        mfs_tree::once(s, mfs_ways::node(s, e), n),
        mfs_cow::good_ino(gone),
        gone != d,
        gone != e,
        x.dir_lookup(d, comp).1 matches Some(loc) && s1.dir_delete(loc).1 && mfs_cow::stable(
            s1.dir_delete(loc).0,
            t,
        ) && mfs_tree::others_kept(s1.dir_delete(loc).0, t, gone),
        mfs_cow::table_ok(t),
    ensures
        mfs_cow::stable(s, t),
        mfs_moves::kept_but(s, t, d, comp, gone),
        mfs_ways::says(t, d, comp) is None,
        mfs_tree::once(t, mfs_ways::node(t, e), n),
        forall|i: u32|
            mfs_cow::good_ino(i) && i != gone && i != d ==> #[trigger] mfs_cow::obj(t, i)
                == mfs_cow::obj(s, i),
{
    let loc = x.dir_lookup(d, comp).1->Some_0;
    mfs_moves::lemma_delete(s, x, s1, d, comp);
    let t1 = s1.dir_delete(loc).0;
    mfs_moves::lemma_but(s, t1, t, d, comp, gone);
    mfs_cow::lemma_stable_trans(s, t1, t);
    assert forall|i: u32| mfs_cow::good_ino(i) && i != gone && i != d implies
        #[trigger] mfs_cow::obj(t, i) == mfs_cow::obj(s, i) by {
        assert(mfs_cow::obj(t, i) == mfs_cow::obj(t1, i));
        assert(mfs_cow::obj(t1, i) == mfs_cow::obj(s, i));
    }
    assert(mfs_tree::once(t1, mfs_ways::node(t1, e), n)) by {
        if e == d {
            mfs_ways::lemma_good_alike(s, x, d, n);
            mfs_ways::lemma_alike(s, x);
            mfs_ways::lemma_alike(s, s1);
            mfs_cow::lemma_buffer_only(x, s1);
            mfs_tree::lemma_once_same(s, x, mfs_ways::node(s, d), n);
            mfs_tree::lemma_once_same(s, x, mfs_ways::node(s, d), comp);
            let c = mfs_tree::law_deleted_stays_once(
                x,
                s1,
                d,
                mfs_ways::node(s, d),
                comp,
                n,
            );
            assert(mfs_ways::node(t1, d) == c);
        } else {
            assert(mfs_cow::obj(t1, e) == mfs_cow::obj(s, e));
            mfs_tree::law_directory_stays(s, t1, e, mfs_ways::node(s, e), n);
            reveal(mfs_tree::once);
        }
    }
    assert(mfs_ways::good(t1, e));
    assert(mfs_cow::obj(t, e) == mfs_cow::obj(t1, e));
    mfs_tree::law_directory_stays(t1, t, e, mfs_ways::node(t1, e), n);
    reveal(mfs_tree::once);
}

/// What is left of an object that made way at path `dw`: no name there, and every other name of
/// a file that has more.
pub open spec fn gave_way(
    s: MfsView,
    t: MfsView,
    gone: u32,
    typ: u32,
    a: Seq<u8>,
    b: Seq<u8>,
) -> bool {
    typ == MFS_TYPE_FILE && mfs_laws::file_ok(s, gone, a) ==> if mfs_dir::nlink_of(a, false) > 1 {
        &&& mfs_laws::file_ok(t, gone, b)
        &&& mfs_laws::content(t, b) == mfs_laws::content(s, a)
        &&& mfs_dir::nlink_of(b, false) == mfs_dir::nlink_of(a, false) - 1
    } else {
        mfs_cow::obj(t, gone) == 0
    }
}

/// What stood at the path that stands for `dw` made way, by the entry `loc` that was found with
/// the state and in the directory of `last`.
proof fn lemma_make_way(
    s: MfsView,
    u: MfsView,
    last: MfsView,
    loc: MfsLoc,
    d: u32,
    comp: Seq<u8>,
    gone: u32,
    typ: u32,
    e: u32,
    n: Seq<u8>,
    a: Seq<u8>,
) -> (b: Seq<u8>)
    requires
        mfs_cow::table_ok(s),
        mfs_ways::alike(s, u),
        mfs_ways::alike(s, last),
        mfs_ways::good(s, d),
        mfs_ways::says(s, d, comp) == Some((gone, typ)),
        last.dir_lookup(d, comp).1 == Some(loc),
        mfs_cow::good_ino(gone),
        mfs_cow::obj(s, gone) != 0,
        typ == MFS_TYPE_DIR <==> mfs_ways::good(s, gone),
        mfs_ways::good(s, e),
        mfs_ways::says(s, e, n) is Some,
        mfs_tree::once(s, mfs_ways::node(s, d), comp),
        mfs_tree::once(s, mfs_ways::node(s, e), n),
        u.make_way(gone, loc, typ).1,
    ensures
        ({
            let t = u.make_way(gone, loc, typ).0;
            &&& mfs_moves::barren(s, gone)
            &&& mfs_cow::stable(s, t)
            &&& mfs_cow::table_ok(t)
            &&& mfs_moves::kept_but(s, t, d, comp, gone)
            &&& mfs_ways::says(t, d, comp) is None
            &&& mfs_tree::once(t, mfs_ways::node(t, e), n)
            &&& forall|i: u32|
                mfs_cow::good_ino(i) && i != gone && i != d ==> #[trigger] mfs_cow::obj(t, i)
                    == mfs_cow::obj(s, i)
            &&& gave_way(s, t, gone, typ, a, b)
        }),
{
    reveal(MfsView::make_way);
    reveal(MfsView::drop_object);
    mfs_ways::lemma_alike(s, u);
    mfs_laws::lemma_object(u, gone);
    let v2 = u.object_block(gone).0;
    mfs_ways::lemma_alike_trans(s, u, v2);
    let v = if typ == MFS_TYPE_DIR {
        mfs_moves::lemma_empty_alike(s, v2, gone);
        v2.dir_is_empty(gone).0
    } else {
        v2
    };
    assert(mfs_moves::barren(s, gone));
    assert(gone != d && gone != e);
    mfs_moves::lemma_delete(s, last, v, d, comp);
    let t1 = v.dir_delete(loc).0;
    let t = u.make_way(gone, loc, typ).0;
    let mut b = a;
    if typ == MFS_TYPE_FILE {
        b = mfs_moves::lemma_drop_name(t1, gone, a);
        assert(mfs_cow::obj(t1, gone) == mfs_cow::obj(s, gone));
        if mfs_laws::file_ok(s, gone, a) {
            mfs_laws::lemma_file_elsewhere(s, t1, gone, a);
        }
    } else {
        mfs_moves::lemma_free(t1, gone);
    }
    lemma_dropped(s, last, v, t, d, comp, gone, e, n);
    b
}

/// What a move to a path at which something stood leaves: besides what a move leaves, every
/// other path that goes through neither entry leads where it led.
pub open spec fn replaced(
    s: MfsView,
    t: MfsView,
    ino: u32,
    gone: u32,
    typ: u32,
    sc: Seq<u8>,
    dc: Seq<u8>,
) -> bool {
    &&& mfs_cow::stable(s, t)
    &&& mfs_cow::table_ok(t)
    &&& mfs_ways::leads(t, dc) == Some((ino, typ))
    &&& mfs_ways::clear(t, dc)
    &&& mfs_ways::leads(t, sc) is None
    &&& files_kept(s, t, gone)
    &&& forall|q: Seq<u8>|
        mfs_ways::clear(s, q) && mfs_ways::leads(s, q) is Some && mfs_ways::avoids(
            s,
            q,
            1,
            MFS_ROOT_INO,
            mfs_ways::last_dir(s, sc, 1, MFS_ROOT_INO),
            path::leaf_of(sc),
        ) && mfs_ways::avoids(
            s,
            q,
            1,
            MFS_ROOT_INO,
            mfs_ways::last_dir(s, dc, 1, MFS_ROOT_INO),
            path::leaf_of(dc),
        ) ==> #[trigger] mfs_ways::leads(t, q) == mfs_ways::leads(s, q) && mfs_ways::clear(t, q)
}

/// The entry that a path ends at found: the state after it, and the one in which it was looked
/// up last.
proof fn lemma_entry(s: MfsView, u: MfsView, c: Seq<u8>, w: Seq<u8>, n: nat) -> (r: (
    MfsView,
    MfsView,
))
    requires
        mfs_cow::table_ok(s),
        mfs_ways::alike(s, u) || u == s,
        mfs_via::stands(s, c, w, n),
        mfs_ways::leads(s, w) is Some,
    ensures
        ({
            let d = mfs_ways::last_dir(s, w, 1, MFS_ROOT_INO);
            &&& r.0 == u.resolve(c, false).0
            &&& mfs_ways::alike(s, r.0)
            &&& mfs_ways::alike(s, r.1)
            &&& mfs_ways::clear(s, w)
            &&& mfs_ways::good(s, d)
            &&& mfs_ways::says(s, d, path::leaf_of(w)) == mfs_ways::leads(s, w)
            &&& u.resolve(c, false).1 is Some
            &&& u.resolve(c, false).1->Some_0.0 == mfs_ways::leads(s, w)->Some_0.0
            &&& r.1.dir_lookup(d, path::leaf_of(w)).1 == Some(u.resolve(c, false).1->Some_0.1)
        }),
{
    mfs_cow::lemma_stable_refl(s);
    mfs_via::lemma_goes_end(s, c, w, n, false);
    let last = mfs_via::lemma_resolve(s, u, c, w, n, false);
    lemma_found(s, w, last, u.resolve(c, false));
    (u.resolve(c, false).0, last.0)
}

/// Paths that end at two names end at two entries.
proof fn lemma_entries_apart(
    s: MfsView,
    u: MfsView,
    sc: Seq<u8>,
    dc: Seq<u8>,
    sw: Seq<u8>,
    dw: Seq<u8>,
    slinks: nat,
    dlinks: nat,
)
    requires
        mfs_cow::table_ok(s),
        mfs_ways::alike(s, u) || u == s,
        mfs_via::stands(s, sc, sw, slinks),
        mfs_via::stands(s, dc, dw, dlinks),
        mfs_ways::leads(s, sw) is Some,
        mfs_ways::leads(s, dw) is Some,
        !(mfs_ways::last_dir(s, dw, 1, MFS_ROOT_INO) == mfs_ways::last_dir(
            s,
            sw,
            1,
            MFS_ROOT_INO,
        ) && path::leaf_of(dw) == path::leaf_of(sw)),
    ensures
        u.resolve(dc, false).1->Some_0.1 != s.resolve(sc, false).1->Some_0.1,
{
    let first = lemma_entry(s, s, sc, sw, slinks).1;
    let last = lemma_entry(s, u, dc, dw, dlinks).1;
    lemma_two_entries(
        s,
        last,
        first,
        mfs_ways::last_dir(s, dw, 1, MFS_ROOT_INO),
        path::leaf_of(dw),
        mfs_ways::last_dir(s, sw, 1, MFS_ROOT_INO),
        path::leaf_of(sw),
    );
}

/// The steps of a rename to a path at which another object stood: the state before that object
/// makes way, the one in which its entry was found, and the entry.
proof fn lemma_over_steps(
    s: MfsView,
    src: Seq<u8>,
    dst: Seq<u8>,
    sc: Seq<u8>,
    dc: Seq<u8>,
    sw: Seq<u8>,
    dw: Seq<u8>,
    slinks: nat,
    dlinks: nat,
    ino: u32,
    gone: u32,
    typ: u32,
) -> (r: (MfsView, MfsView, MfsLoc))
    requires
        mfs_cow::table_ok(s),
        mfs_path::raw_normal(src) == Some(sc),
        mfs_path::raw_normal(dst) == Some(dc),
        mfs_via::stands(s, sc, sw, slinks),
        mfs_via::stands(s, dc, dw, dlinks),
        mfs_ways::leads(s, sw) == Some((ino, typ)),
        mfs_ways::leads(s, dw) == Some((gone, typ)),
        !(mfs_ways::last_dir(s, dw, 1, MFS_ROOT_INO) == mfs_ways::last_dir(
            s,
            sw,
            1,
            MFS_ROOT_INO,
        ) && path::leaf_of(dw) == path::leaf_of(sw)),
        mfs_cow::good_ino(ino),
        mfs_cow::obj(s, ino) != 0,
        s.node_type(mfs_cow::obj(s, ino)) == Some(typ),
        s.rename(src, dst).1,
    ensures
        ({
            let (u, last, loc) = r;
            let e = mfs_ways::last_dir(s, sw, 1, MFS_ROOT_INO);
            let d = mfs_ways::last_dir(s, dw, 1, MFS_ROOT_INO);
            &&& mfs_ways::alike(s, u)
            &&& mfs_ways::alike(s, last)
            &&& mfs_ways::good(s, d)
            &&& mfs_ways::good(s, e)
            &&& mfs_ways::says(s, d, path::leaf_of(dw)) == Some((gone, typ))
            &&& mfs_ways::says(s, e, path::leaf_of(sw)) == Some((ino, typ))
            &&& last.dir_lookup(d, path::leaf_of(dw)).1 == Some(loc)
            &&& mfs_ways::avoids(
                s,
                path::pop_segment(dw),
                1,
                MFS_ROOT_INO,
                e,
                path::leaf_of(sw),
            )
            &&& mfs_ways::clear(s, sw)
            &&& mfs_ways::clear(s, dw)
            &&& u.make_way(gone, loc, typ).1
            &&& s.rename(src, dst) == u.make_way(gone, loc, typ).0.move_entry(ino, typ, sc, dc)
        }),
{
    let (u0, first) = lemma_entry(s, s, sc, sw, slinks);
    mfs_cow::lemma_stable_refl(s);
    lemma_entries_apart(s, s, sc, dc, sw, dw, slinks, dlinks);
    let u1 = lemma_source(s, sc, sw, slinks, ino);
    lemma_no_ring(s, u1, src, dst, sc, dc, sw, dw, dlinks, ino, typ);
    let u2 = u1.rings(ino, typ, dc).0;
    let (u3, last) = lemma_entry(s, u2, dc, dw, dlinks);
    lemma_entries_apart(s, u2, sc, dc, sw, dw, slinks, dlinks);
    let loc = u2.resolve(dc, false).1->Some_0.1;
    lemma_rename_steps(s, src, dst, sc, dc, u1, u2, u3, loc, ino, gone, typ);
    (u3, last, loc)
}

/// Law: an object renamed to a path at which another one of its type stood takes its place: the
/// path leads to the object, and the old path leads nowhere. A directory that has names does
/// not make way. A file that made way and has other names stays under them, with its content
/// and one name less; with the last one its number is free. Every other file is as it was.
/// Where both paths are names of one file, that is the file that made way: it stays, under the
/// new path and with its content, and has one name less.
/// The paths may go through links, though not through what makes way: `sw` and `dw` are the
/// paths without links that they stand for.
pub proof fn law_renamed_over(
    s: MfsView,
    src: Seq<u8>,
    dst: Seq<u8>,
    sc: Seq<u8>,
    dc: Seq<u8>,
    sw: Seq<u8>,
    dw: Seq<u8>,
    slinks: nat,
    dlinks: nat,
    ino: u32,
    gone: u32,
    typ: u32,
    a: Seq<u8>,
) -> (b: Seq<u8>)
    requires
        mfs_cow::table_ok(s),
        mfs_path::raw_normal(src) == Some(sc),
        mfs_path::raw_normal(dst) == Some(dc),
        mfs_via::stands(s, sc, sw, slinks),
        mfs_via::stands(s, dc, dw, dlinks),
        mfs_via::shuns(
            s,
            sc,
            slinks,
            mfs_ways::last_dir(s, dw, 1, MFS_ROOT_INO),
            path::leaf_of(dw),
            gone,
            false,
        ),
        mfs_via::shuns(
            s,
            dc,
            dlinks,
            mfs_ways::last_dir(s, dw, 1, MFS_ROOT_INO),
            path::leaf_of(dw),
            gone,
            false,
        ),
        mfs_ways::leads(s, sw) == Some((ino, typ)),
        mfs_ways::leads(s, dw) == Some((gone, typ)),
        !(mfs_ways::last_dir(s, dw, 1, MFS_ROOT_INO) == mfs_ways::last_dir(
            s,
            sw,
            1,
            MFS_ROOT_INO,
        ) && path::leaf_of(dw) == path::leaf_of(sw)),
        mfs_cow::good_ino(ino),
        mfs_cow::obj(s, ino) != 0,
        s.node_type(mfs_cow::obj(s, ino)) == Some(typ),
        mfs_cow::good_ino(gone),
        mfs_cow::obj(s, gone) != 0,
        typ == MFS_TYPE_DIR <==> mfs_ways::good(s, gone),
        mfs_tree::once(
            s,
            mfs_ways::node(s, mfs_ways::last_dir(s, sw, 1, MFS_ROOT_INO)),
            path::leaf_of(sw),
        ),
        mfs_tree::once(
            s,
            mfs_ways::node(s, mfs_ways::last_dir(s, dw, 1, MFS_ROOT_INO)),
            path::leaf_of(dw),
        ),
        s.rename(src, dst).1,
    ensures
        replaced(s, s.rename(src, dst).0, ino, gone, typ, sw, dw),
        mfs_moves::barren(s, gone),
        gave_way(s, s.rename(src, dst).0, gone, typ, a, b),
{
    let e = mfs_ways::last_dir(s, sw, 1, MFS_ROOT_INO);
    let from = path::leaf_of(sw);
    let d = mfs_ways::last_dir(s, dw, 1, MFS_ROOT_INO);
    let comp = path::leaf_of(dw);
    let (u3, last, loc) = lemma_over_steps(
        s,
        src,
        dst,
        sc,
        dc,
        sw,
        dw,
        slinks,
        dlinks,
        ino,
        gone,
        typ,
    );
    let b = lemma_make_way(s, u3, last, loc, d, comp, gone, typ, e, from, a);
    let v = u3.make_way(gone, loc, typ).0;
    lemma_after_way(s, v, ino, gone, typ, sc, dc, sw, dw, slinks, dlinks, a, b);
    b
}

/// An object that is renamed does not come to lie below itself, and the way to the new path does
/// not go through its old name.
proof fn lemma_no_ring(
    s: MfsView,
    u1: MfsView,
    src: Seq<u8>,
    dst: Seq<u8>,
    sc: Seq<u8>,
    dc: Seq<u8>,
    sw: Seq<u8>,
    dw: Seq<u8>,
    dlinks: nat,
    ino: u32,
    typ: u32,
)
    requires
        mfs_cow::table_ok(s),
        mfs_path::raw_normal(src) == Some(sc),
        mfs_path::raw_normal(dst) == Some(dc),
        sc != dc,
        mfs_ways::alike(s, u1),
        mfs_via::stands(s, dc, dw, dlinks),
        mfs_ways::says(
            s,
            mfs_ways::last_dir(s, sw, 1, MFS_ROOT_INO),
            path::leaf_of(sw),
        ) == Some((ino, typ)),
        mfs_ways::leads(s, dw) is Some,
        s.resolve(sc, false).1 matches Some((x, at)) && x == ino,
        s.resolve(sc, false).0.object_block(ino) == (u1, Some(mfs_cow::obj(s, ino))),
        u1.node_type(mfs_cow::obj(s, ino)) == Some(typ),
        s.rename(src, dst).1,
    ensures
        !u1.rings(ino, typ, dc).1,
        mfs_ways::alike(s, u1.rings(ino, typ, dc).0),
        path::leaf_of(dc).len() > 0,
        mfs_ways::avoids(
            s,
            path::pop_segment(dw),
            1,
            MFS_ROOT_INO,
            mfs_ways::last_dir(s, sw, 1, MFS_ROOT_INO),
            path::leaf_of(sw),
        ),
{
    reveal(MfsView::rename);
    let e = mfs_ways::last_dir(s, sw, 1, MFS_ROOT_INO);
    mfs_ring::lemma_rings(s, u1, ino, typ, dc, dw, dlinks);
    mfs_via::lemma_pop_goes(s, dc, dw, dlinks);
    mfs_via::lemma_goes_end(s, dc, dw, dlinks, false);
    mfs_ways::lemma_leaf(dw, dw.len() as int);
    mfs_ways::lemma_under_of(s, dw);
    let k = mfs_ways::leaf_at(dw);
    if k > 1 {
        assert(path::pop_segment(dw) =~= dw.subrange(0, k - 1));
    }
    mfs_ring::lemma_parent_avoids(s, u1, ino, typ, dc, dw, dlinks, e, path::leaf_of(sw));
}

/// The steps of a rename to a path at which another object stands.
proof fn lemma_rename_steps(
    s: MfsView,
    src: Seq<u8>,
    dst: Seq<u8>,
    sc: Seq<u8>,
    dc: Seq<u8>,
    u1: MfsView,
    u2: MfsView,
    u3: MfsView,
    loc: MfsLoc,
    ino: u32,
    gone: u32,
    typ: u32,
)
    requires
        mfs_path::raw_normal(src) == Some(sc),
        mfs_path::raw_normal(dst) == Some(dc),
        sc != dc,
        s.resolve(sc, false).1 matches Some((x, at)) && x == ino && at != loc,
        s.resolve(sc, false).0.object_block(ino) == (u1, Some(mfs_cow::obj(s, ino))),
        u1.node_type(mfs_cow::obj(s, ino)) == Some(typ),
        u1.rings(ino, typ, dc) == (u2, false),
        u2.resolve(dc, false) == (u3, Some((gone, loc))),
        s.rename(src, dst).1,
    ensures
        u3.make_way(gone, loc, typ).1,
        s.rename(src, dst) == u3.make_way(gone, loc, typ).0.move_entry(ino, typ, sc, dc),
{
    reveal(MfsView::rename);
    reveal(MfsView::rename_to);
}

/// What was found under a path that leads to an object.
proof fn lemma_found(
    s: MfsView,
    q: Seq<u8>,
    last: (MfsView, u32),
    got: (MfsView, Option<(u32, MfsLoc)>),
)
    requires
        mfs_via::found(s, q, last, got),
        q.len() != 1,
        mfs_ways::leads(s, q) is Some,
    ensures
        mfs_ways::alike(s, got.0),
        got.1 matches Some((x, loc)) && x == mfs_ways::leads(s, q)->Some_0.0
            && last.0.dir_lookup(last.1, path::leaf_of(q)).1 == Some(loc),
        last.1 == mfs_ways::last_dir(s, q, 1, MFS_ROOT_INO),
        mfs_ways::alike(s, last.0),
        mfs_ways::good(s, last.1),
        mfs_ways::says(s, last.1, path::leaf_of(q)) == mfs_ways::leads(s, q),
{
    reveal(mfs_via::found);
}

/// The entry moved after what stood at the new path made way.
proof fn lemma_after_way(
    s: MfsView,
    v: MfsView,
    ino: u32,
    gone: u32,
    typ: u32,
    sc: Seq<u8>,
    dc: Seq<u8>,
    sw: Seq<u8>,
    dw: Seq<u8>,
    slinks: nat,
    dlinks: nat,
    a: Seq<u8>,
    b: Seq<u8>,
)
    requires
        mfs_cow::table_ok(s),
        mfs_via::stands(s, sc, sw, slinks),
        mfs_via::stands(s, dc, dw, dlinks),
        mfs_via::shuns(
            s,
            sc,
            slinks,
            mfs_ways::last_dir(s, dw, 1, MFS_ROOT_INO),
            path::leaf_of(dw),
            gone,
            false,
        ),
        mfs_via::shuns(
            s,
            dc,
            dlinks,
            mfs_ways::last_dir(s, dw, 1, MFS_ROOT_INO),
            path::leaf_of(dw),
            gone,
            false,
        ),
        mfs_ways::clear(s, sw),
        mfs_ways::clear(s, dw),
        mfs_ways::leads(s, sw) == Some((ino, typ)),
        mfs_ways::leads(s, dw) == Some((gone, typ)),
        !(mfs_ways::last_dir(s, dw, 1, MFS_ROOT_INO) == mfs_ways::last_dir(
            s,
            sw,
            1,
            MFS_ROOT_INO,
        ) && path::leaf_of(dw) == path::leaf_of(sw)),
        mfs_cow::good_ino(ino),
        typ < 256,
        mfs_ways::good(s, mfs_ways::last_dir(s, dw, 1, MFS_ROOT_INO)),
        mfs_ways::says(
            s,
            mfs_ways::last_dir(s, dw, 1, MFS_ROOT_INO),
            path::leaf_of(dw),
        ) == Some((gone, typ)),
        mfs_ways::avoids(
            s,
            path::pop_segment(dw),
            1,
            MFS_ROOT_INO,
            mfs_ways::last_dir(s, sw, 1, MFS_ROOT_INO),
            path::leaf_of(sw),
        ),
        mfs_moves::barren(s, gone),
        mfs_cow::stable(s, v),
        mfs_cow::table_ok(v),
        mfs_moves::kept_but(
            s,
            v,
            mfs_ways::last_dir(s, dw, 1, MFS_ROOT_INO),
            path::leaf_of(dw),
            gone,
        ),
        mfs_ways::says(v, mfs_ways::last_dir(s, dw, 1, MFS_ROOT_INO), path::leaf_of(dw)) is None,
        mfs_tree::once(
            v,
            mfs_ways::node(v, mfs_ways::last_dir(s, sw, 1, MFS_ROOT_INO)),
            path::leaf_of(sw),
        ),
        forall|i: u32|
            mfs_cow::good_ino(i) && i != gone && i != mfs_ways::last_dir(s, dw, 1, MFS_ROOT_INO)
                ==> #[trigger] mfs_cow::obj(v, i) == mfs_cow::obj(s, i),
        gave_way(s, v, gone, typ, a, b),
        v.move_entry(ino, typ, sc, dc).1,
    ensures
        replaced(s, v.move_entry(ino, typ, sc, dc).0, ino, gone, typ, sw, dw),
        gave_way(s, v.move_entry(ino, typ, sc, dc).0, gone, typ, a, b),
{
    let e = mfs_ways::last_dir(s, sw, 1, MFS_ROOT_INO);
    let from = path::leaf_of(sw);
    let d = mfs_ways::last_dir(s, dw, 1, MFS_ROOT_INO);
    let comp = path::leaf_of(dw);
    lemma_avoids_other(s, sw, 1, MFS_ROOT_INO, d, comp, gone);
    mfs_moves::lemma_way_but(s, v, sw, 1, MFS_ROOT_INO, d, comp, gone);
    lemma_last_but(s, v, sw, 1, MFS_ROOT_INO, d, comp, gone);
    mfs_moves::lemma_way_gone(s, v, dw, 1, MFS_ROOT_INO, d, gone);
    lemma_clear_gone(s, v, dw, 1, MFS_ROOT_INO, d, gone);
    lemma_parent_but(s, v, dw, d, gone, e, from);
    mfs_via::lemma_goes_kept(s, v, sc, sw, slinks, d, comp, gone, false);
    mfs_via::lemma_goes_kept(s, v, dc, dw, dlinks, d, comp, gone, false);
    assert(path::leaf_of(dc).len() > 0);
    mfs_cow::lemma_stable_refl(v);
    lemma_move_entry(v, v, ino, typ, sc, dc, sw, dw, slinks, dlinks);
    let t = v.move_entry(ino, typ, sc, dc).0;
    mfs_cow::lemma_stable_trans(s, v, t);
    lemma_files_kept(s, v, d, d, gone);
    assert forall|i: u32, f: Seq<u8>| #[trigger]
        mfs_laws::file_ok(s, i, f) && i != gone implies mfs_laws::file_ok(t, i, f)
        && mfs_laws::content(t, f) == mfs_laws::content(s, f) by {
        assert(mfs_laws::file_ok(v, i, f));
    }
    assert forall|q: Seq<u8>|
        mfs_ways::clear(s, q) && mfs_ways::leads(s, q) is Some && mfs_ways::avoids(
            s,
            q,
            1,
            MFS_ROOT_INO,
            e,
            from,
        ) && mfs_ways::avoids(s, q, 1, MFS_ROOT_INO, d, comp) implies #[trigger] mfs_ways::leads(
        t,
        q,
    ) == mfs_ways::leads(s, q) && mfs_ways::clear(t, q) by {
        mfs_moves::lemma_way_but(s, v, q, 1, MFS_ROOT_INO, d, comp, gone);
        lemma_avoids_but(s, v, q, 1, MFS_ROOT_INO, d, comp, gone, e, from);
    }
}

/// The way to the directory of a path's last name after what stood there made way.
proof fn lemma_parent_but(
    s: MfsView,
    v: MfsView,
    dc: Seq<u8>,
    d: u32,
    gone: u32,
    e: u32,
    from: Seq<u8>,
)
    requires
        mfs_moves::kept_but(s, v, d, path::leaf_of(dc), gone),
        mfs_moves::barren(s, gone),
        mfs_ways::proper(dc),
        mfs_ways::clear(s, dc),
        mfs_ways::leads(s, dc) matches Some((g, t)) && g == gone,
        mfs_ways::says(s, d, path::leaf_of(dc)) matches Some((g, t)) && g == gone,
        mfs_ways::avoids(s, path::pop_segment(dc), 1, MFS_ROOT_INO, e, from),
    ensures
        mfs_ways::avoids(v, path::pop_segment(dc), 1, MFS_ROOT_INO, e, from),
        path::leaf_of(dc).len() > 0,
{
    let k = mfs_ways::leaf_at(dc);
    let comp = path::leaf_of(dc);
    mfs_ways::lemma_leaf(dc, dc.len() as int);
    assert(k < dc.len()) by {
        if k == dc.len() {
            lemma_no_leaf(s, dc, 1, MFS_ROOT_INO);
        }
    }
    if k > 1 {
        let q = dc.subrange(0, k - 1);
        assert(path::pop_segment(dc) == q);
        mfs_ways::lemma_under_of(s, dc);
        let x = mfs_ways::leads(s, q)->Some_0.0;
        assert(x != gone) by {
            if x == gone {
                assert(mfs_ways::says(s, gone, comp) is Some);
            }
        }
        lemma_avoids_barren(s, q, 1, MFS_ROOT_INO, d, comp, gone);
        lemma_avoids_but(s, v, q, 1, MFS_ROOT_INO, d, comp, gone, e, from);
    }
}

/// A path without a last name leads nowhere.
proof fn lemma_no_leaf(s: MfsView, p: Seq<u8>, i: int, cur: u32)
    requires
        1 <= i <= p.len(),
        p.len() > 1,
        mfs_ways::leaf_at(p) == p.len(),
    ensures
        mfs_ways::way(s, p, i, cur) is None,
    decreases p.len() - i,
{
    let end = path::seg_end(p, i);
    path::lemma_seg_end(p, i);
    mfs_ways::lemma_leaf(p, p.len() as int);
    if !(i >= p.len() || end <= i || end - i > MFS_NAME_MAX) {
        let n = p.subrange(i, end);
        assert(p[p.len() - 1] == 0x2F);
        if end < p.len() && mfs_ways::says(s, cur, n) is Some {
            lemma_no_leaf(s, p, end + 1, mfs_ways::says(s, cur, n)->Some_0.0);
        }
    }
}

} // verus!
