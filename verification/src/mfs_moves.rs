//! MorionFS: names of files. A new file is empty, a second name names the same file, and a
//! removed name names nothing.
use vstd::prelude::*;

use crate::bytes;
use crate::mfs;
use crate::mfs::{
    MfsView, MFS_MAGIC_DIDX, MFS_MAGIC_DIR, MFS_MAGIC_FILE, MFS_MAGIC_LINK, MFS_ROOT_INO,
};
use crate::mfs_cow;
use crate::mfs_dir;
use crate::mfs_dir::{MFS_TYPE_DIR, MFS_TYPE_FILE, MFS_TYPE_LINK};
use crate::mfs_file;
use crate::mfs_file::{MfsMapPlan, MFS_FILE_MAX_BLOCKS, MFS_FILE_MAX_BYTES};
use crate::mfs_laws;
use crate::mfs_names;
use crate::mfs_path;
use crate::mfs_path::MFS_SYMLINK_MAX_DEPTH;
use crate::mfs_rename;
use crate::mfs_tree;
use crate::mfs_via;
use crate::mfs_ways;
use crate::path;

verus! {

/// A node written again with other metadata: the file's content is as it was.
pub proof fn lemma_renode(s: MfsView, ino: u32, a: Seq<u8>, b: Seq<u8>)
    requires
        mfs_laws::file_ok(s, ino, a),
        b.len() == 4096,
        forall|k: int| 8 <= k < 4056 ==> #[trigger] b[k] == a[k],
        s.commit_object(ino, b, MFS_MAGIC_FILE).1,
    ensures
        ({
            let t = s.commit_object(ino, b, MFS_MAGIC_FILE).0;
            let c = mfs::sealed(b, MFS_MAGIC_FILE);
            &&& mfs_laws::file_ok(t, ino, c)
            &&& mfs_laws::content(t, c) == mfs_laws::content(s, a)
            &&& forall|k: int| 8 <= k < 4096 ==> #[trigger] c[k] == b[k]
            &&& mfs_cow::stable(s, t)
            &&& mfs_tree::others_kept(s, t, ino)
        }),
{
    mfs_cow::lemma_commit_object(s, ino, b, MFS_MAGIC_FILE);
    let t = s.commit_object(ino, b, MFS_MAGIC_FILE).0;
    let c = mfs::sealed(b, MFS_MAGIC_FILE);
    assert(c.len() == 4096);
    assert forall|k: int| 8 <= k < 4096 implies #[trigger] c[k] == b[k] by {}
    assert forall|k: int| 24 <= k < 4056 implies #[trigger] c[k] == a[k] by {
        assert(c[k] == b[k]);
    }
    mfs_laws::lemma_node(s, t, a);
    mfs_laws::lemma_same_numbers(t, a, c);
    assert(mfs_file::file_size(c) == mfs_file::file_size(a)) by {
        assert(c[8] == b[8] && c[9] == b[9] && c[10] == b[10] && c[11] == b[11]);
        assert(c[12] == b[12] && c[13] == b[13] && c[14] == b[14] && c[15] == b[15]);
        assert(b[8] == a[8] && b[9] == a[9] && b[10] == a[10] && b[11] == a[11]);
        assert(b[12] == a[12] && b[13] == a[13] && b[14] == a[14] && b[15] == a[15]);
    }
    assert(mfs_file::file_nblocks(c) == mfs_file::file_nblocks(a)) by {
        assert(c[16] == b[16] && c[17] == b[17] && c[18] == b[18] && c[19] == b[19]);
        assert(b[16] == a[16] && b[17] == a[17] && b[18] == a[18] && b[19] == a[19]);
    }
    assert forall|bj: int| 0 <= bj < MFS_FILE_MAX_BLOCKS implies #[trigger] mfs_laws::mapv(
        t,
        c,
        mfs_laws::at(bj),
    ) == mfs_laws::mapv(s, a, mfs_laws::at(bj)) && mfs_laws::bytes_at(
        t,
        mfs_laws::mapv(t, c, mfs_laws::at(bj)),
    ) == mfs_laws::bytes_at(s, mfs_laws::mapv(s, a, mfs_laws::at(bj))) by {
        mfs_laws::lemma_at(bj, bj);
        mfs_laws::lemma_map_at(s, a, mfs_laws::at(bj));
        mfs_laws::lemma_leaf(s, t, mfs_laws::mapv(s, a, mfs_laws::at(bj)));
        assert(mfs_laws::mapv(t, c, mfs_laws::at(bj)) == mfs_laws::mapv(
            t,
            a,
            mfs_laws::at(bj),
        ));
    }
    assert forall|bj: int|
        mfs_file::file_nblocks(c) <= bj < MFS_FILE_MAX_BLOCKS implies #[trigger] mfs_laws::mapv(
        t,
        c,
        mfs_laws::at(bj),
    ) == 0 by {
        assert(mfs_laws::mapv(s, a, mfs_laws::at(bj)) == 0);
    }
    assert forall|bj: int, k: int|
        0 <= bj < MFS_FILE_MAX_BLOCKS && 0 <= k < 4088 && bj * 4088 + k >= mfs_file::file_size(c)
            implies #[trigger] mfs_laws::bytes_at(t, mfs_laws::mapv(t, c, mfs_laws::at(bj)))[k]
        == 0 by {
        assert(mfs_laws::mapv(t, c, mfs_laws::at(bj)) == mfs_laws::mapv(s, a, mfs_laws::at(bj)));
        assert(mfs_laws::bytes_at(s, mfs_laws::mapv(s, a, mfs_laws::at(bj)))[k] == 0);
    }
    assert(mfs_laws::content(t, c) =~= mfs_laws::content(s, a)) by {
        assert forall|pos: int| 0 <= pos < mfs_file::file_size(a) implies mfs_laws::content(
            t,
            c,
        )[pos] == mfs_laws::content(s, a)[pos] by {
            let bj = pos / 4088;
            if pos < MFS_FILE_MAX_BYTES {
                assert(0 <= bj < MFS_FILE_MAX_BLOCKS);
                assert(mfs_laws::mapv(t, c, mfs_laws::at(bj)) == mfs_laws::mapv(
                    s,
                    a,
                    mfs_laws::at(bj),
                ));
            }
        }
    }
}

/// Law: a file is empty when it is made.
pub proof fn law_new_file_is_empty(t: MfsView, n: u32, owner: u16, now: u64)
    requires
        mfs_cow::table_ok(t),
        mfs_cow::good_ino(n),
        mfs_cow::obj(t, n) != 0,
        mfs_cow::held(t, mfs_cow::obj(t, n)),
        t.load(mfs_cow::obj(t, n), MFS_MAGIC_FILE) == Some(
            mfs::sealed(mfs_path::new_node(false, owner, now), MFS_MAGIC_FILE),
        ),
    ensures
        ({
            let c = mfs::sealed(mfs_path::new_node(false, owner, now), MFS_MAGIC_FILE);
            &&& mfs_laws::file_ok(t, n, c)
            &&& mfs_laws::content(t, c) == Seq::<u8>::empty()
        }),
{
    let a = mfs_path::new_node(false, owner, now);
    let c = mfs::sealed(a, MFS_MAGIC_FILE);
    assert(a.len() == 4096);
    assert(c.len() == 4096);
    assert forall|k: int| 8 <= k < 4056 implies #[trigger] c[k] == 0 by {
        assert(a[k] == 0);
    }
    assert forall|o: int| 8 <= o <= 4052 implies #[trigger] bytes::le32(c, o) == 0 by {
        assert(c[o] == 0 && c[o + 1] == 0 && c[o + 2] == 0 && c[o + 3] == 0);
    }
    assert(mfs_file::file_size(c) == 0) by {
        assert(c[8] == 0 && c[9] == 0 && c[10] == 0 && c[11] == 0);
        assert(c[12] == 0 && c[13] == 0 && c[14] == 0 && c[15] == 0);
    }
    assert(mfs_file::file_nblocks(c) == bytes::le32(c, 16));
    assert(mfs_laws::node_ok(t, c)) by {
        assert forall|i: int| 0 <= i < 1005 implies mfs_laws::leaf_ok(
            t,
            #[trigger] bytes::le32(c, 24 + 4 * i),
        ) by {
            assert(bytes::le32(c, 24 + 4 * i) == 0);
        }
    }
    assert forall|bj: int| 0 <= bj < MFS_FILE_MAX_BLOCKS implies #[trigger] mfs_laws::mapv(
        t,
        c,
        mfs_laws::at(bj),
    ) == 0 by {
        mfs_laws::lemma_at(bj, bj);
        lemma_no_blocks(t, c, mfs_laws::at(bj));
    }
    assert(mfs_laws::content(t, c) =~= Seq::<u8>::empty());
}

/// A node without numbers maps nothing.
proof fn lemma_no_blocks(t: MfsView, c: Seq<u8>, p: MfsMapPlan)
    requires
        mfs_laws::good_plan(p),
        forall|o: int| 8 <= o <= 4052 ==> #[trigger] bytes::le32(c, o) == 0,
    ensures
        mfs_laws::mapv(t, c, p) == 0,
{
}

/// A name entered into a directory that does not have it.
pub proof fn lemma_insert(s: MfsView, d: u32, comp: Seq<u8>, ino: u32, typ: u32)
    requires
        mfs_cow::table_ok(s),
        mfs_ways::good(s, d),
        mfs_ways::says(s, d, comp) is None,
        typ < 256,
        s.dir_insert(d, comp, ino, typ).1,
    ensures
        ({
            let t = s.dir_insert(d, comp, ino, typ).0;
            &&& mfs_cow::stable(s, t)
            &&& mfs_cow::table_ok(t)
            &&& mfs_ways::kept(s, t, d, comp)
            &&& mfs_ways::says(t, d, comp) == Some((ino, typ))
            &&& mfs_tree::others_kept(s, t, d)
        }),
{
    let a = mfs_ways::node(s, d);
    let c = mfs_tree::law_inserted_is_found(s, d, a, comp, ino, typ);
    let t = s.dir_insert(d, comp, ino, typ).0;
    assert(mfs_ways::node(t, d) == c);
    lemma_one_dir(s, t, d, comp);
}

/// A change of one directory that touches one name.
proof fn lemma_one_dir(s: MfsView, t: MfsView, d: u32, comp: Seq<u8>)
    requires
        mfs_cow::stable(s, t),
        mfs_cow::table_ok(t),
        mfs_tree::others_kept(s, t, d),
        mfs_ways::good(t, d),
        forall|m: Seq<u8>|
            m != comp ==> #[trigger] mfs_ways::says(t, d, m) == mfs_ways::says(s, d, m),
    ensures
        mfs_ways::kept(s, t, d, comp),
{
    assert forall|x: u32| mfs_ways::good(s, x) implies #[trigger] mfs_ways::good(t, x) by {
        if x != d {
            assert(mfs_cow::obj(t, x) == mfs_cow::obj(s, x));
            mfs_tree::law_directory_stays(s, t, x, mfs_ways::node(s, x), comp);
        }
    }
    assert forall|x: u32, m: Seq<u8>|
        mfs_ways::good(s, x) && !(x == d && m == comp) implies #[trigger] mfs_ways::says(t, x, m)
        == mfs_ways::says(s, x, m) by {
        if x != d {
            assert(mfs_cow::obj(t, x) == mfs_cow::obj(s, x));
            mfs_tree::law_directory_stays(s, t, x, mfs_ways::node(s, x), m);
        }
    }
}

/// A file is no directory.
pub proof fn lemma_no_dir(s: MfsView, ino: u32)
    requires
        s.load(mfs_cow::obj(s, ino), MFS_MAGIC_FILE) is Some,
    ensures
        !mfs_ways::good(s, ino),
        s.load(mfs_cow::obj(s, ino), MFS_MAGIC_DIR) is None,
{
}

/// A change of a file touches no directory.
proof fn lemma_file_change(s: MfsView, t: MfsView, u: MfsView, d: u32, comp: Seq<u8>, ino: u32)
    requires
        mfs_ways::kept(s, t, d, comp),
        mfs_cow::stable(t, u),
        mfs_cow::table_ok(u),
        mfs_tree::others_kept(t, u, ino),
        !mfs_ways::good(t, ino),
        mfs_ways::good(t, d),
    ensures
        mfs_ways::kept(s, u, d, comp),
        mfs_ways::says(u, d, comp) == mfs_ways::says(t, d, comp),
{
    assert forall|x: u32| mfs_ways::good(s, x) implies #[trigger] mfs_ways::good(u, x) by {
        assert(mfs_ways::good(t, x));
        assert(mfs_cow::obj(u, x) == mfs_cow::obj(t, x));
        mfs_tree::law_directory_stays(t, u, x, mfs_ways::node(t, x), comp);
    }
    assert forall|x: u32, m: Seq<u8>|
        mfs_ways::good(s, x) && !(x == d && m == comp) implies #[trigger] mfs_ways::says(u, x, m)
        == mfs_ways::says(s, x, m) by {
        assert(mfs_ways::good(t, x));
        assert(mfs_cow::obj(u, x) == mfs_cow::obj(t, x));
        mfs_tree::law_directory_stays(t, u, x, mfs_ways::node(t, x), m);
        assert(mfs_ways::says(t, x, m) == mfs_ways::says(s, x, m));
    }
    assert(mfs_cow::obj(u, d) == mfs_cow::obj(t, d));
    mfs_tree::law_directory_stays(t, u, d, mfs_ways::node(t, d), comp);
}

/// What is kept from a state that differs in the buffered table block only.
pub proof fn lemma_kept_alike(s: MfsView, v: MfsView, t: MfsView, d: u32, comp: Seq<u8>)
    requires
        mfs_cow::table_ok(s),
        mfs_ways::alike(s, v),
        mfs_ways::kept(v, t, d, comp),
    ensures
        mfs_ways::kept(s, t, d, comp),
{
    assert forall|x: u32| mfs_ways::good(s, x) implies #[trigger] mfs_ways::good(t, x) by {
        mfs_ways::lemma_good_alike(s, v, x, comp);
    }
    assert forall|x: u32, m: Seq<u8>|
        mfs_ways::good(s, x) && !(x == d && m == comp) implies #[trigger] mfs_ways::says(t, x, m)
        == mfs_ways::says(s, x, m) by {
        mfs_ways::lemma_good_alike(s, v, x, m);
    }
}

/// A node with one name more, or less, has the numbers that it had.
proof fn lemma_meta_bytes(a: Seq<u8>, n: u32, now: u64)
    requires
        a.len() == 4096,
    ensures
        ({
            let b = mfs_dir::with_ctime(mfs_dir::with_nlink(a, false, n), false, now);
            &&& b.len() == 4096
            &&& forall|k: int| 8 <= k < 4056 ==> #[trigger] b[k] == a[k]
            &&& mfs_dir::nlink_of(b, false) == n
        }),
{
    let b1 = mfs_dir::with_nlink(a, false, n);
    let b = mfs_dir::with_ctime(b1, false, now);
    bytes::law_put32_reads_back(a, 4060, n);
    assert forall|k: int| 8 <= k < 4056 implies #[trigger] b[k] == a[k] by {
        assert(b1[k] == a[k]);
    }
    assert(b[4060] == b1[4060] && b[4061] == b1[4061] && b[4062] == b1[4062] && b[4063]
        == b1[4063]);
}

/// The number of names that a node says, sealed.
proof fn lemma_sealed_nlink(b: Seq<u8>)
    requires
        b.len() == 4096,
    ensures
        mfs_dir::nlink_of(mfs::sealed(b, MFS_MAGIC_FILE), false) == mfs_dir::nlink_of(b, false),
{
    let c = mfs::sealed(b, MFS_MAGIC_FILE);
    assert(c[4060] == b[4060] && c[4061] == b[4061] && c[4062] == b[4062] && c[4063] == b[4063]);
}

/// Law: a second name given to a file names the same file: both paths lead to it, it has one
/// name more, and its content is as it was. Every block in use holds what it held, and every
/// other path leads where it led. The paths may go through links: `sw` and `dw` are the paths
/// without links that they stand for, before and after.
pub proof fn law_link_names_the_same(
    s: MfsView,
    src: Seq<u8>,
    dst: Seq<u8>,
    sc: Seq<u8>,
    dc: Seq<u8>,
    sw: Seq<u8>,
    dw: Seq<u8>,
    slinks: nat,
    dlinks: nat,
    ino: u32,
    a: Seq<u8>,
) -> (c: Seq<u8>)
    requires
        mfs_path::raw_normal(src) == Some(sc),
        mfs_path::raw_normal(dst) == Some(dc),
        mfs_via::goes(s, sc, sw, slinks, true),
        slinks <= MFS_SYMLINK_MAX_DEPTH,
        sw.len() > 1,
        mfs_via::stands(s, dc, dw, dlinks),
        mfs_ways::leads(s, sw) == Some((ino, MFS_TYPE_FILE)),
        mfs_ways::leads(s, dw) is None,
        mfs_laws::file_ok(s, ino, a),
        s.link(src, dst).1,
    ensures
        ({
            let t = s.link(src, dst).0;
            &&& mfs_cow::stable(s, t)
            &&& mfs_ways::leads(t, dw) == Some((ino, MFS_TYPE_FILE))
            &&& mfs_ways::leads(t, sw) == Some((ino, MFS_TYPE_FILE))
            &&& mfs_ways::clear(t, dw)
            &&& mfs_via::goes(t, sc, sw, slinks, true)
            &&& mfs_via::stands(t, dc, dw, dlinks)
            &&& mfs_laws::file_ok(t, ino, c)
            &&& mfs_laws::content(t, c) == mfs_laws::content(s, a)
            &&& mfs_dir::nlink_of(c, false) == bytes::w32(
                if mfs_dir::nlink_of(a, false) == 0 {
                    2
                } else {
                    mfs_dir::nlink_of(a, false) + 1
                },
            )
            &&& forall|q: Seq<u8>|
                mfs_ways::clear(s, q) && mfs_ways::leads(s, q) is Some
                    ==> #[trigger] mfs_ways::leads(t, q) == mfs_ways::leads(s, q)
                    && mfs_ways::clear(t, q)
        }),
{
    reveal(MfsView::link);
    reveal(MfsView::link_at);
    reveal(MfsView::bump_nlink);
    let comp = path::leaf_of(dc);
    reveal(mfs_via::found);
    mfs_cow::lemma_stable_refl(s);
    mfs_via::lemma_goes_end(s, sc, sw, slinks, true);
    mfs_via::lemma_resolve(s, s, sc, sw, slinks, true);
    let u1 = s.resolve(sc, true).0;
    mfs_ways::lemma_alike(s, u1);
    mfs_laws::lemma_object(u1, ino);
    let u2 = u1.object_block(ino).0;
    mfs_ways::lemma_alike_trans(s, u1, u2);
    mfs_ways::lemma_alike(s, u2);
    lemma_no_dir(s, ino);
    mfs_via::lemma_resolve(s, u2, dc, dw, dlinks, false);
    let u3 = u2.resolve(dc, false).0;
    mfs_via::lemma_parent(s, u3, dc, dw, dlinks);
    let (u4, r) = u3.resolve(path::pop_segment(dc), true);
    let d = r->Some_0.0;
    mfs_ways::lemma_good_alike(s, u4, d, comp);
    lemma_insert(u4, d, comp, ino, MFS_TYPE_FILE);
    let t1 = u4.dir_insert(d, comp, ino, MFS_TYPE_FILE).0;
    lemma_kept_alike(s, u4, t1, d, comp);
    mfs_cow::lemma_stable_trans(s, u4, t1);
    mfs_ways::lemma_alike(s, u4);
    assert(ino != d);
    assert(mfs_cow::obj(t1, ino) == mfs_cow::obj(s, ino));
    mfs_laws::lemma_file_elsewhere(s, t1, ino, a);
    mfs_laws::lemma_object(t1, ino);
    let t2 = t1.object_block(ino).0;
    mfs_cow::lemma_buffer_only(t1, t2);
    mfs_laws::lemma_file_elsewhere(t1, t2, ino, a);
    let n = if mfs_dir::nlink_of(a, false) == 0 {
        1
    } else {
        mfs_dir::nlink_of(a, false) as int
    };
    let b = mfs_dir::with_ctime(
        mfs_dir::with_nlink(a, false, bytes::w32(n + 1)),
        false,
        t2.now,
    );
    lemma_meta_bytes(a, bytes::w32(n + 1), t2.now);
    lemma_renode(t2, ino, a, b);
    lemma_sealed_nlink(b);
    let t = s.link(src, dst).0;
    let c = mfs::sealed(b, MFS_MAGIC_FILE);
    assert(t == t2.commit_object(ino, b, MFS_MAGIC_FILE).0);
    mfs_cow::lemma_stable_trans(t1, t2, t);
    mfs_cow::lemma_stable_trans(s, t1, t);
    assert forall|i: u32| mfs_cow::good_ino(i) && i != ino implies #[trigger] mfs_cow::obj(t, i)
        == mfs_cow::obj(t1, i) by {
        assert(mfs_cow::obj(t, i) == mfs_cow::obj(t2, i));
        assert(mfs_cow::obj(t2, i) == mfs_cow::obj(t1, i));
    }
    lemma_no_dir(t1, ino);
    lemma_file_change(s, t1, t, d, comp, ino);
    lemma_paths(s, t, d, comp);
    lemma_under_kept(s, t, dw, d);
    mfs_ways::lemma_under(t, dw, d);
    lemma_file_no_aim(s, ino, a);
    assert forall|i: u32| mfs_cow::good_ino(i) && i != ino && i != d implies #[trigger] mfs_cow::obj(
        t,
        i,
    ) == mfs_cow::obj(s, i) by {
        assert(mfs_cow::obj(t, i) == mfs_cow::obj(t1, i));
        assert(mfs_cow::obj(t1, i) == mfs_cow::obj(u4, i));
    }
    mfs_via::lemma_shuns(s, sc, sw, slinks, d, comp, ino, true);
    mfs_via::lemma_goes_kept(s, t, sc, sw, slinks, d, comp, ino, true);
    mfs_via::lemma_shuns(s, dc, dw, dlinks, d, comp, ino, false);
    mfs_via::lemma_goes_kept(s, t, dc, dw, dlinks, d, comp, ino, false);
    c
}

/// A file is no link.
proof fn lemma_file_no_aim(s: MfsView, ino: u32, a: Seq<u8>)
    requires
        mfs_laws::file_ok(s, ino, a),
    ensures
        mfs_via::aim(s, ino) is None,
{
    let b = mfs_cow::obj(s, ino);
    if s.load(b, MFS_MAGIC_LINK) is Some {
        mfs::law_one_kind(s.rd(b)->Some_0, MFS_MAGIC_FILE, MFS_MAGIC_LINK);
    }
}

/// Paths that lead somewhere still do where a name that was not there was added.
pub proof fn lemma_paths(s: MfsView, t: MfsView, d: u32, comp: Seq<u8>)
    requires
        mfs_ways::kept(s, t, d, comp),
        mfs_ways::says(s, d, comp) is None,
    ensures
        forall|q: Seq<u8>|
            mfs_ways::clear(s, q) && mfs_ways::leads(s, q) is Some ==> #[trigger] mfs_ways::leads(
                t,
                q,
            ) == mfs_ways::leads(s, q) && mfs_ways::clear(t, q),
{
    assert forall|q: Seq<u8>|
        mfs_ways::clear(s, q) && mfs_ways::leads(s, q) is Some implies #[trigger] mfs_ways::leads(
        t,
        q,
    ) == mfs_ways::leads(s, q) && mfs_ways::clear(t, q) by {
        mfs_ways::lemma_avoids(s, q, 1, MFS_ROOT_INO, d, comp);
        mfs_ways::lemma_way_kept(s, t, q, 1, MFS_ROOT_INO, d, comp);
    }
}

/// The directory of a path's last name stays that directory where paths stay.
pub proof fn lemma_under_kept(s: MfsView, t: MfsView, p: Seq<u8>, d: u32)
    requires
        mfs_ways::under(s, p, d),
        1 < p.len(),
        forall|q: Seq<u8>|
            mfs_ways::clear(s, q) && mfs_ways::leads(s, q) is Some ==> #[trigger] mfs_ways::leads(
                t,
                q,
            ) == mfs_ways::leads(s, q) && mfs_ways::clear(t, q),
    ensures
        mfs_ways::under(t, p, d),
{
    let k = mfs_ways::leaf_at(p);
    if k > 1 {
        assert(mfs_ways::leads(t, p.subrange(0, k - 1)) == mfs_ways::leads(
            s,
            p.subrange(0, k - 1),
        ));
    }
}

/// A number under which no path goes on: it is no directory, or one without names.
pub open spec fn barren(s: MfsView, x: u32) -> bool {
    !mfs_ways::good(s, x) || forall|m: Seq<u8>| (#[trigger] mfs_ways::says(s, x, m)) is None
}

/// Every directory in good order but `gone` still is, and says the same of every name but
/// `comp` in `d`.
pub open spec fn kept_but(s: MfsView, t: MfsView, d: u32, comp: Seq<u8>, gone: u32) -> bool {
    &&& forall|x: u32| mfs_ways::good(s, x) && x != gone ==> #[trigger] mfs_ways::good(t, x)
    &&& forall|x: u32, m: Seq<u8>|
        mfs_ways::good(s, x) && x != gone && !(x == d && m == comp) ==> #[trigger] mfs_ways::says(
            t,
            x,
            m,
        ) == mfs_ways::says(s, x, m)
}

/// A path that does not go through the entry leads where it led.
pub proof fn lemma_way_but(
    s: MfsView,
    t: MfsView,
    p: Seq<u8>,
    i: int,
    cur: u32,
    d: u32,
    comp: Seq<u8>,
    gone: u32,
)
    requires
        kept_but(s, t, d, comp, gone),
        barren(s, gone),
        0 <= i,
        mfs_ways::way_ok(s, p, i, cur),
        mfs_ways::way(s, p, i, cur) is Some,
        mfs_ways::avoids(s, p, i, cur, d, comp),
    ensures
        mfs_ways::way_ok(t, p, i, cur),
        mfs_ways::way(t, p, i, cur) == mfs_ways::way(s, p, i, cur),
    decreases p.len() - i,
{
    let end = path::seg_end(p, i);
    path::lemma_seg_end(p, i);
    let n = p.subrange(i, end);
    assert(mfs_ways::good(s, cur));
    assert(mfs_ways::says(s, cur, n) is Some);
    assert(cur != gone);
    assert(mfs_ways::good(t, cur));
    assert(mfs_ways::says(t, cur, n) == mfs_ways::says(s, cur, n));
    if end < p.len() {
        lemma_way_but(
            s,
            t,
            p,
            end + 1,
            mfs_ways::says(s, cur, n)->Some_0.0,
            d,
            comp,
            gone,
        );
    }
}

/// A path whose last name is the entry that is gone leads nowhere.
pub proof fn lemma_way_gone(
    s: MfsView,
    t: MfsView,
    p: Seq<u8>,
    i: int,
    cur: u32,
    d: u32,
    gone: u32,
)
    requires
        kept_but(s, t, d, path::leaf_of(p), gone),
        barren(s, gone),
        mfs_ways::says(t, d, path::leaf_of(p)) is None,
        1 <= i,
        i == 1 || (i <= p.len() && p[i - 1] == 0x2F),
        mfs_ways::way_ok(s, p, i, cur),
        mfs_ways::way(s, p, i, cur) is Some,
        mfs_ways::last_dir(s, p, i, cur) == d,
    ensures
        mfs_ways::way(t, p, i, cur) is None,
    decreases p.len() - i,
{
    let end = path::seg_end(p, i);
    path::lemma_seg_end(p, i);
    let n = p.subrange(i, end);
    assert(mfs_ways::says(s, cur, n) is Some);
    assert(cur != gone);
    if end >= p.len() {
        mfs_ways::lemma_leaf_is(p, i, p.len() as int);
    } else {
        if !(cur == d && n == path::leaf_of(p)) {
            assert(mfs_ways::says(t, cur, n) == mfs_ways::says(s, cur, n));
            lemma_way_gone(s, t, p, end + 1, mfs_ways::says(s, cur, n)->Some_0.0, d, gone);
        }
    }
}

/// A block without entries has no name.
proof fn lemma_no_entry(b: Seq<u8>, off: int, n: Seq<u8>)
    requires
        !mfs_dir::has_entry(b, off),
    ensures
        mfs_names::hit(b, off, n) is None,
    decreases 4096 - off,
{
    if off + 8 <= 4096 && !mfs_dir::ent_bad(b, off) {
        lemma_no_entry(b, off + mfs_dir::ent_rec(b, off), n);
    }
}

/// Further blocks without entries have no name.
proof fn lemma_no_ext_entry(s: MfsView, x: Seq<u8>, i: int, n: Seq<u8>)
    requires
        mfs_tree::parts_ok(s, x),
        0 <= i,
        !s.ext_has_entry(x, i),
    ensures
        mfs_tree::ext_hit(s, x, i, n) is None,
    decreases 1022 - i,
{
    if i < 1022 {
        let b = mfs::slot(x, i);
        assert(mfs_tree::part_ok(s, b));
        lemma_no_ext_entry(s, x, i + 1, n);
        if b != 0 {
            lemma_no_entry(s.load(b, MFS_MAGIC_DIR)->Some_0, 56, n);
        }
    }
}

/// Law: a directory that is found empty has no name.
pub proof fn law_empty_directory(s: MfsView, d: u32, n: Seq<u8>)
    requires
        mfs_ways::good(s, d),
        s.dir_is_empty(d).1 == Some(true),
    ensures
        mfs_ways::says(s, d, n) is None,
{
    reveal(MfsView::dir_is_empty);
    mfs_laws::lemma_object(s, d);
    let t = s.object_block(d).0;
    mfs_cow::lemma_buffer_only(s, t);
    let a = mfs_ways::node(s, d);
    lemma_no_entry(a, 56, n);
    if mfs_dir::dir_ext(a) != 0 {
        let x = s.load(mfs_dir::dir_ext(a), MFS_MAGIC_DIDX)->Some_0;
        lemma_same_ext_entry(s, t, x, 0);
        lemma_no_ext_entry(s, x, 0, n);
    }
}

/// The further blocks are the same whatever table block is buffered.
proof fn lemma_same_ext_entry(s: MfsView, t: MfsView, x: Seq<u8>, i: int)
    requires
        forall|b: u32, m: u32| #[trigger] t.load(b, m) == s.load(b, m),
    ensures
        t.ext_has_entry(x, i) == s.ext_has_entry(x, i),
    decreases 1022 - i,
{
    if i < 1022 {
        lemma_same_ext_entry(s, t, x, i + 1);
    }
}

/// An entry deleted.
pub proof fn lemma_delete(s: MfsView, x: MfsView, s1: MfsView, d: u32, comp: Seq<u8>)
    requires
        mfs_cow::table_ok(s),
        mfs_ways::alike(s, x),
        mfs_ways::alike(s, s1),
        mfs_ways::good(s, d),
        mfs_tree::once(s, mfs_ways::node(s, d), comp),
        x.dir_lookup(d, comp).1 matches Some(loc) && s1.dir_delete(loc).1,
    ensures
        ({
            let t = s1.dir_delete(x.dir_lookup(d, comp).1->Some_0).0;
            &&& mfs_cow::stable(s, t)
            &&& mfs_cow::table_ok(t)
            &&& mfs_ways::kept(s, t, d, comp)
            &&& mfs_ways::says(t, d, comp) is None
            &&& mfs_ways::good(t, d)
            &&& mfs_tree::others_kept(s, t, d)
        }),
{
    let a = mfs_ways::node(s, d);
    mfs_ways::lemma_good_alike(s, x, d, comp);
    mfs_ways::lemma_alike(s, x);
    mfs_ways::lemma_alike(s, s1);
    mfs_cow::lemma_buffer_only(x, s1);
    mfs_tree::lemma_once_same(s, x, a, comp);
    let c = mfs_tree::law_deleted_is_gone(x, s1, d, a, comp);
    let t = s1.dir_delete(x.dir_lookup(d, comp).1->Some_0).0;
    assert(mfs_ways::node(t, d) == c);
    mfs_cow::lemma_stable_trans(s, x, t);
    assert forall|i: u32| mfs_cow::good_ino(i) && i != d implies #[trigger] mfs_cow::obj(t, i)
        == mfs_cow::obj(s, i) by {
        assert(mfs_cow::obj(t, i) == mfs_cow::obj(x, i));
    }
    assert forall|m: Seq<u8>| m != comp implies #[trigger] mfs_ways::says(t, d, m)
        == mfs_ways::says(s, d, m) by {
        mfs_ways::lemma_good_alike(s, x, d, m);
        assert(mfs_tree::dir_hit(t, c, m) == mfs_tree::dir_hit(x, a, m));
    }
    assert(mfs_tree::dir_hit(t, c, comp) is None);
    lemma_one_dir(s, t, d, comp);
}

/// A number given back.
pub proof fn lemma_free(s: MfsView, ino: u32)
    requires
        mfs_cow::table_ok(s),
        mfs_cow::good_ino(ino),
        s.free_ino(ino).1,
    ensures
        ({
            let t = s.free_ino(ino).0;
            &&& mfs_cow::stable(s, t)
            &&& mfs_cow::table_ok(t)
            &&& mfs_cow::obj(t, ino) == 0
            &&& mfs_tree::others_kept(s, t, ino)
        }),
{
    reveal(MfsView::free_ino);
    mfs_cow::lemma_itab_set(s, ino, 0);
    let u = s.itab_set(ino, 0).0;
    let t = s.free_ino(ino).0;
    mfs_cow::lemma_stable_refl(u);
    assert(mfs_cow::stable(u, t)) by {
        assert forall|b: u32| mfs_cow::held(u, b) implies #[trigger] mfs_cow::held(t, b) && t.rd(b)
            == u.rd(b) by {}
    }
    mfs_cow::lemma_obj_stable(u, t);
    mfs_cow::lemma_stable_trans(s, u, t);
    assert(mfs_cow::obj(t, ino) == mfs_cow::obj(u, ino));
    assert forall|i: u32| mfs_cow::good_ino(i) && i != ino implies #[trigger] mfs_cow::obj(t, i)
        == mfs_cow::obj(s, i) by {
        assert(mfs_cow::obj(t, i) == mfs_cow::obj(u, i));
        assert(mfs_cow::obj(u, i) == mfs_cow::obj(s, i));
    }
}

/// What is left after the entry was deleted and object `ino` changed or given back.
pub proof fn lemma_but(s: MfsView, t: MfsView, u: MfsView, d: u32, comp: Seq<u8>, ino: u32)
    requires
        mfs_ways::kept(s, t, d, comp),
        mfs_ways::good(t, d),
        mfs_cow::stable(t, u),
        mfs_cow::table_ok(u),
        mfs_tree::others_kept(t, u, ino),
        d != ino,
    ensures
        kept_but(s, u, d, comp, ino),
        mfs_ways::says(u, d, comp) == mfs_ways::says(t, d, comp),
{
    assert forall|x: u32| mfs_ways::good(s, x) && x != ino implies #[trigger] mfs_ways::good(
        u,
        x,
    ) by {
        assert(mfs_ways::good(t, x));
        assert(mfs_cow::obj(u, x) == mfs_cow::obj(t, x));
        mfs_tree::law_directory_stays(t, u, x, mfs_ways::node(t, x), comp);
    }
    assert forall|x: u32, m: Seq<u8>|
        mfs_ways::good(s, x) && x != ino && !(x == d && m == comp) implies #[trigger] mfs_ways::says(
        u,
        x,
        m,
    ) == mfs_ways::says(s, x, m) by {
        assert(mfs_ways::good(t, x));
        assert(mfs_cow::obj(u, x) == mfs_cow::obj(t, x));
        mfs_tree::law_directory_stays(t, u, x, mfs_ways::node(t, x), m);
        assert(mfs_ways::says(t, x, m) == mfs_ways::says(s, x, m));
    }
    assert(mfs_cow::obj(u, d) == mfs_cow::obj(t, d));
    mfs_tree::law_directory_stays(t, u, d, mfs_ways::node(t, d), comp);
}

/// One name less for a file: it stays with the others, or its number is given back.
pub proof fn lemma_drop_name(s: MfsView, ino: u32, a: Seq<u8>) -> (c: Seq<u8>)
    requires
        mfs_cow::table_ok(s),
        mfs_cow::good_ino(ino),
        s.drop_name(ino).1,
    ensures
        ({
            let t = s.drop_name(ino).0;
            &&& mfs_cow::stable(s, t)
            &&& mfs_cow::table_ok(t)
            &&& mfs_tree::others_kept(s, t, ino)
            &&& mfs_laws::file_ok(s, ino, a) && mfs_dir::nlink_of(a, false) > 1
                ==> mfs_laws::file_ok(t, ino, c) && mfs_laws::content(t, c) == mfs_laws::content(
                s,
                a,
            ) && mfs_dir::nlink_of(c, false) == mfs_dir::nlink_of(a, false) - 1
            &&& mfs_laws::file_ok(s, ino, a) && mfs_dir::nlink_of(a, false) <= 1 ==> mfs_cow::obj(
                t,
                ino,
            ) == 0
        }),
{
    reveal(MfsView::drop_name);
    reveal(MfsView::object_block);
    mfs_cow::lemma_ino_block(s, ino);
    let s1 = s.object_block(ino).0;
    let blk = mfs_cow::obj(s, ino);
    mfs_cow::lemma_buffer_only(s, s1);
    let b = s1.load(blk, MFS_MAGIC_FILE)->Some_0;
    mfs_cow::lemma_block_len(s1, blk);
    let t = s.drop_name(ino).0;
    assert(b.len() == 4096);
    let c = if mfs_dir::nlink_of(b, false) > 1 {
        let n = (mfs_dir::nlink_of(b, false) - 1) as u32;
        let e = mfs_dir::with_ctime(mfs_dir::with_nlink(b, false, n), false, s1.now);
        lemma_meta_bytes(b, n, s1.now);
        mfs_cow::lemma_commit_object(s1, ino, e, MFS_MAGIC_FILE);
        if mfs_laws::file_ok(s, ino, a) {
            mfs_laws::lemma_file_elsewhere(s, s1, ino, a);
            lemma_renode(s1, ino, a, e);
            lemma_sealed_nlink(e);
        }
        mfs::sealed(e, MFS_MAGIC_FILE)
    } else {
        lemma_free(s1, ino);
        b
    };
    mfs_cow::lemma_stable_trans(s, s1, t);
    assert forall|i: u32| mfs_cow::good_ino(i) && i != ino implies #[trigger] mfs_cow::obj(t, i)
        == mfs_cow::obj(s, i) by {
        assert(mfs_cow::obj(t, i) == mfs_cow::obj(s1, i));
        assert(mfs_cow::obj(s1, i) == mfs_cow::obj(s, i));
    }
    c
}

/// Whether a directory is empty, found out.
pub proof fn lemma_empty_alike(s: MfsView, t: MfsView, d: u32)
    requires
        mfs_cow::table_ok(s),
        mfs_ways::alike(s, t),
        mfs_ways::good(s, d),
        t.dir_is_empty(d).1 == Some(true),
    ensures
        mfs_ways::alike(s, t.dir_is_empty(d).0),
        barren(s, d),
{
    mfs_ways::lemma_good_alike(s, t, d, Seq::empty());
    assert forall|m: Seq<u8>| (#[trigger] mfs_ways::says(s, d, m)) is None by {
        law_empty_directory(t, d, m);
        mfs_ways::lemma_good_alike(s, t, d, m);
    }
    reveal(MfsView::dir_is_empty);
    mfs_laws::lemma_object(t, d);
    mfs_ways::lemma_alike_trans(s, t, t.object_block(d).0);
}

/// Law: a file, a link or an empty directory that was removed is not found under its path any
/// more; a directory with names in it, and anything asked for as what it is not, is not
/// removed. A file that has other names stays, with its content and one name less; with the
/// last one its number is free. Every block in use holds what it held, every other object is
/// where it was, and every path that does not go through the entry leads where it led. The path
/// may go through links: `w` is the path without links that it stands for, and it still does
/// where the way there does not go through what was removed.
pub proof fn law_removed_is_gone(
    s: MfsView,
    p: Seq<u8>,
    c: Seq<u8>,
    w: Seq<u8>,
    links: nat,
    want_dir: bool,
    ino: u32,
    typ: u32,
    a: Seq<u8>,
) -> (b: Seq<u8>)
    requires
        mfs_cow::table_ok(s),
        mfs_path::raw_normal(p) == Some(c),
        mfs_via::stands(s, c, w, links),
        mfs_ways::leads(s, w) == Some((ino, typ)),
        mfs_cow::good_ino(ino),
        typ == MFS_TYPE_DIR <==> mfs_ways::good(s, ino),
        mfs_ways::last_dir(s, w, 1, MFS_ROOT_INO) != ino,
        mfs_tree::once(
            s,
            mfs_ways::node(s, mfs_ways::last_dir(s, w, 1, MFS_ROOT_INO)),
            path::leaf_of(w),
        ),
        s.remove(p, want_dir).1,
    ensures
        ({
            let t = s.remove(p, want_dir).0;
            let d = mfs_ways::last_dir(s, w, 1, MFS_ROOT_INO);
            &&& mfs_cow::stable(s, t)
            &&& mfs_cow::table_ok(t)
            &&& mfs_ways::leads(t, w) is None
            &&& mfs_via::shuns(s, c, links, d, path::leaf_of(w), ino, false) ==> mfs_via::stands(
                t,
                c,
                w,
                links,
            )
            &&& want_dir == (typ == MFS_TYPE_DIR)
            &&& barren(s, ino)
            &&& forall|q: Seq<u8>|
                mfs_ways::clear(s, q) && mfs_ways::leads(s, q) is Some && mfs_ways::avoids(
                    s,
                    q,
                    1,
                    MFS_ROOT_INO,
                    d,
                    path::leaf_of(w),
                ) ==> #[trigger] mfs_ways::leads(t, q) == mfs_ways::leads(s, q) && mfs_ways::clear(
                    t,
                    q,
                )
            &&& forall|i: u32|
                mfs_cow::good_ino(i) && i != ino && i != d ==> #[trigger] mfs_cow::obj(t, i)
                    == mfs_cow::obj(s, i)
            &&& typ == MFS_TYPE_FILE && mfs_laws::file_ok(s, ino, a) && mfs_dir::nlink_of(a, false)
                > 1 ==> mfs_laws::file_ok(t, ino, b) && mfs_laws::content(t, b)
                == mfs_laws::content(s, a) && mfs_dir::nlink_of(b, false) == mfs_dir::nlink_of(
                a,
                false,
            ) - 1
            &&& typ == MFS_TYPE_FILE && mfs_laws::file_ok(s, ino, a) && mfs_dir::nlink_of(a, false)
                <= 1 ==> mfs_cow::obj(t, ino) == 0
        }),
{
    reveal(MfsView::remove);
    let d = mfs_ways::last_dir(s, w, 1, MFS_ROOT_INO);
    let comp = path::leaf_of(w);
    reveal(mfs_via::found);
    mfs_cow::lemma_stable_refl(s);
    mfs_via::lemma_goes_end(s, c, w, links, false);
    let last = mfs_via::lemma_resolve(s, s, c, w, links, false);
    let (s1, r) = s.resolve(c, false);
    let loc = r->Some_0.1;
    mfs_ways::lemma_look(s, last.0, d, comp);
    let t = s.remove(p, want_dir).0;
    let mut b = a;
    if typ == MFS_TYPE_FILE || (typ != MFS_TYPE_DIR && typ != MFS_TYPE_LINK) {
        lemma_delete(s, last.0, s1, d, comp);
        let t1 = s1.dir_delete(loc).0;
        b = lemma_drop_name(t1, ino, a);
        lemma_but(s, t1, t, d, comp, ino);
        mfs_cow::lemma_stable_trans(s, t1, t);
        assert(mfs_cow::obj(t1, ino) == mfs_cow::obj(s, ino));
        if mfs_laws::file_ok(s, ino, a) {
            mfs_laws::lemma_file_elsewhere(s, t1, ino, a);
        }
        assert forall|i: u32| mfs_cow::good_ino(i) && i != ino && i != d implies
            #[trigger] mfs_cow::obj(t, i) == mfs_cow::obj(s, i) by {
            assert(mfs_cow::obj(t, i) == mfs_cow::obj(t1, i));
            assert(mfs_cow::obj(t1, i) == mfs_cow::obj(s, i));
        }
    } else {
        reveal(MfsView::drop_object);
        let s2 = if typ == MFS_TYPE_DIR {
            lemma_empty_alike(s, s1, ino);
            s1.dir_is_empty(ino).0
        } else {
            s1
        };
        lemma_delete(s, last.0, s2, d, comp);
        let t1 = s2.dir_delete(loc).0;
        lemma_free(t1, ino);
        lemma_but(s, t1, t, d, comp, ino);
        mfs_cow::lemma_stable_trans(s, t1, t);
        assert forall|i: u32| mfs_cow::good_ino(i) && i != ino && i != d implies
            #[trigger] mfs_cow::obj(t, i) == mfs_cow::obj(s, i) by {
            assert(mfs_cow::obj(t, i) == mfs_cow::obj(t1, i));
            assert(mfs_cow::obj(t1, i) == mfs_cow::obj(s, i));
        }
    }
    lemma_way_gone(s, t, w, 1, MFS_ROOT_INO, d, ino);
    mfs_rename::lemma_clear_gone(s, t, w, 1, MFS_ROOT_INO, d, ino);
    if mfs_via::shuns(s, c, links, d, comp, ino, false) {
        mfs_via::lemma_goes_kept(s, t, c, w, links, d, comp, ino, false);
    }
    assert forall|q: Seq<u8>|
        mfs_ways::clear(s, q) && mfs_ways::leads(s, q) is Some && mfs_ways::avoids(
            s,
            q,
            1,
            MFS_ROOT_INO,
            d,
            comp,
        ) implies #[trigger] mfs_ways::leads(t, q) == mfs_ways::leads(s, q) && mfs_ways::clear(
        t,
        q,
    ) by {
        lemma_way_but(s, t, q, 1, MFS_ROOT_INO, d, comp, ino);
    }
    b
}

} // verus!
