//! MorionFS: what is new is empty and in good order. A new directory, and a file system right
//! after it was made.
use vstd::prelude::*;

use crate::bytes;
use crate::mfs;
use crate::mfs::{
    MfsView, MFS_MAGIC_DIR, MFS_MAGIC_ITABX, MFS_MIN_TOTAL_BLOCKS, MFS_ROOT_INO,
};
use crate::mfs_cow;
use crate::mfs_dir;
use crate::mfs_dir::MFS_TYPE_DIR;
use crate::mfs_laws;
use crate::mfs_names;
use crate::mfs_path;
use crate::mfs_persist;
use crate::mfs_tree;
use crate::mfs_via;
use crate::mfs_vol;
use crate::mfs_ways;

verus! {

/// The node of a new directory: its entries are in order, and there is no name.
proof fn lemma_new_node(owner: u16, now: u64, n: Seq<u8>)
    ensures
        ({
            let a = mfs::sealed(mfs_path::new_node(true, owner, now), MFS_MAGIC_DIR);
            &&& mfs_names::wf(a, 56)
            &&& mfs_names::hit(a, 56, n) is None
            &&& mfs_dir::dir_ext(a) == 0
        }),
{
    let e = mfs_dir::empty_dir(bytes::zeros(4096));
    mfs_names::law_empty_has_none(bytes::zeros(4096), n);
    let b = mfs_path::new_node(true, owner, now);
    mfs_ways::lemma_node_len(true, owner, now);
    assert forall|k: int| 56 <= k < 4096 implies b[k] == e[k] by {}
    mfs_names::lemma_same_from(e, b, 56, n);
    mfs_tree::lemma_sealed(b, n);
    assert(b[8] == 0 && b[9] == 0 && b[10] == 0 && b[11] == 0);
}

/// Law: a directory whose node is that of a new one is in good order, and has no name.
pub proof fn law_new_directory_is_empty(s: MfsView, d: u32, owner: u16, now: u64, n: Seq<u8>)
    requires
        mfs_cow::table_ok(s),
        mfs_cow::good_ino(d),
        mfs_cow::obj(s, d) != 0,
        mfs_cow::held(s, mfs_cow::obj(s, d)),
        s.load(mfs_cow::obj(s, d), MFS_MAGIC_DIR) == Some(
            mfs::sealed(mfs_path::new_node(true, owner, now), MFS_MAGIC_DIR),
        ),
    ensures
        mfs_ways::good(s, d),
        mfs_ways::says(s, d, n) is None,
{
    lemma_new_node(owner, now, n);
}

/// Law: a directory made under a path is in good order, and has no name. (As where a file is
/// made, `w` is the path without links that `p` stands for.)
pub proof fn law_made_directory_is_empty(
    s: MfsView,
    p: Seq<u8>,
    w: Seq<u8>,
    links: nat,
    owner: u16,
    x: Seq<u8>,
) -> (n: u32)
    requires
        mfs_cow::table_ok(s),
        mfs_via::stands(s, p, w, links),
        mfs_ways::leads(s, w) is None,
        s.create(p, true, owner).1,
    ensures
        ({
            let t = s.create(p, true, owner).0;
            &&& mfs_ways::leads(t, w) == Some((n, MFS_TYPE_DIR))
            &&& mfs_ways::good(t, n)
            &&& mfs_ways::says(t, n, x) is None
        }),
{
    let n = mfs_ways::law_created_is_found(s, p, w, links, true, owner);
    law_new_directory_is_empty(s.create(p, true, owner).0, n, owner, s.now, x);
    n
}

/// The blocks before the data area marked in use: all that is to be written stays so.
proof fn lemma_marked(s: MfsView, b: int, end: int, c: int)
    requires
        mfs_cow::sound(s),
        0 <= b,
        0 <= c < s.dirty.len(),
        s.dirty[c],
    ensures
        s.set_range(b, end).dirty[c],
    decreases end - b,
{
    if b < end {
        let t = s.bmp_set(b as u32);
        assert(t.dirty[c]);
        lemma_marked(t, b + 1, end, c);
    }
}

/// The tables before the first block is written.
proof fn lemma_blank(s: MfsView) -> (s0: MfsView)
    requires
        mfs_cow::sound(s),
    ensures
        s0 == s.blank_state().set_range(0, mfs::data_start(mfs_vol::format_blocks(s.sectors))),
        mfs_cow::table_ok(s0),
        mfs_cow::in_sync(s0),
        s0.total == mfs_vol::format_blocks(s.sectors),
        s0.total >= MFS_MIN_TOTAL_BLOCKS,
        s0.snaps.len() == 0,
        s0.ino_hint > MFS_ROOT_INO,
        s0.vol == s.vol,
        s0.sectors == s.sectors,
        s0.now == s.now,
        forall|i: u32| mfs_cow::good_ino(i) ==> #[trigger] mfs_cow::obj(s0, i) == 0,
{
    let b = s.blank_state();
    let end = mfs::data_start(b.total);
    assert(mfs_cow::sound(b));
    mfs_persist::lemma_set_range(b, 0, end);
    let s0 = b.set_range(0, end);
    assert(mfs_cow::in_sync(s0)) by {
        reveal(mfs_cow::in_sync);
        assert forall|c: int| 0 <= c < mfs::bb_for(s0.total) implies s0.dirty[c] by {
            assert(b.dirty[c]);
            lemma_marked(b, 0, end, c);
        }
    }
    assert forall|i: u32| mfs_cow::good_ino(i) implies #[trigger] mfs_cow::obj(s0, i) == 0 by {
        assert(0 <= i as int / 1022 < 1022);
    }
    s0
}

/// The state in which a new file system is committed for the last time.
spec fn last_step(s: MfsView) -> MfsView {
    let b = s.blank_state();
    let s0 = b.set_range(0, mfs::data_start(b.total));
    let (s1, r1) = s0.commit(s.root_block(), MFS_MAGIC_DIR);
    let s3 = s1.itab_flush().0.itab_set(MFS_ROOT_INO, r1->Some_0).0;
    MfsView { ino_count: 1, ino_hint: (MFS_ROOT_INO + 1) as u32, ..s3 }
}

/// What holds of a new file system.
pub open spec fn fresh(s: MfsView, t: MfsView) -> bool {
    &&& mfs_cow::table_ok(t)
    &&& t.total == mfs_vol::format_blocks(s.sectors)
    &&& t.snaps.len() == 0
    &&& t.vol == s.vol
    &&& mfs_cow::obj(t, MFS_ROOT_INO) != 0
    &&& mfs_cow::held(t, mfs_cow::obj(t, MFS_ROOT_INO))
    &&& t.load(mfs_cow::obj(t, MFS_ROOT_INO), MFS_MAGIC_DIR) == Some(
        mfs::sealed(mfs_path::new_node(true, 0, s.now), MFS_MAGIC_DIR),
    )
    &&& forall|i: u32|
        mfs_cow::good_ino(i) && i != MFS_ROOT_INO ==> #[trigger] mfs_cow::obj(t, i) == 0
}

/// A new file system stays as it is while what is in use is kept and the index stays.
proof fn lemma_fresh_kept(s: MfsView, t: MfsView, u: MfsView)
    requires
        fresh(s, t),
        mfs_cow::stable(t, u),
        mfs_cow::table_ok(u),
        u.snaps == t.snaps,
        forall|i: u32|
            mfs_cow::good_ino(i) ==> #[trigger] mfs_cow::obj(u, i) == mfs_cow::obj(t, i),
    ensures
        fresh(s, u),
{
    assert(mfs_cow::good_ino(MFS_ROOT_INO));
    mfs_laws::lemma_load(t, u, mfs_cow::obj(t, MFS_ROOT_INO), MFS_MAGIC_DIR);
}

/// A new file system before its last commit.
proof fn lemma_before_last(s: MfsView)
    requires
        mfs_cow::sound(s),
        s.format().1,
    ensures
        s.format() == last_step(s).flush(),
        fresh(s, last_step(s)),
        mfs_cow::held(last_step(s), last_step(s).itab),
        s.sectors == 0 || MFS_MIN_TOTAL_BLOCKS * 8 <= s.sectors ==> mfs_persist::mountable(
            last_step(s),
        ) && mfs_persist::complete(last_step(s), last_step(s)) && last_step(s).sectors == s.sectors,
{
    reveal(MfsView::format);
    let s0 = lemma_blank(s);
    mfs_ways::lemma_node_len(true, 0, s.now);
    let d = s.root_block();
    assert(d == mfs_path::new_node(true, 0, s.now));
    mfs_cow::lemma_commit(s0, d, MFS_MAGIC_DIR);
    let (s1, r1) = s0.commit(d, MFS_MAGIC_DIR);
    let root = r1->Some_0;
    mfs_cow::lemma_obj_stable(s0, s1);
    mfs_cow::lemma_itab_flush(s1);
    let s2 = s1.itab_flush().0;
    mfs_laws::lemma_load(s1, s2, root, MFS_MAGIC_DIR);
    assert(mfs_cow::good_ino(MFS_ROOT_INO));
    mfs_cow::lemma_itab_set(s2, MFS_ROOT_INO, root);
    let s3 = s2.itab_set(MFS_ROOT_INO, root).0;
    mfs_laws::lemma_load(s2, s3, root, MFS_MAGIC_DIR);
    let s4 = last_step(s);
    assert(fresh(s, s3)) by {
        assert forall|i: u32| mfs_cow::good_ino(i) && i != MFS_ROOT_INO implies
            #[trigger] mfs_cow::obj(s3, i) == 0 by {
            assert(mfs_cow::obj(s3, i) == mfs_cow::obj(s2, i));
            assert(mfs_cow::obj(s2, i) == mfs_cow::obj(s1, i));
            assert(mfs_cow::obj(s1, i) == mfs_cow::obj(s0, i));
        }
    }
    lemma_counted(s3, s4);
    lemma_fresh_kept(s, s3, s4);
    if s.sectors == 0 || MFS_MIN_TOTAL_BLOCKS * 8 <= s.sectors {
        assert(mfs_persist::mountable(s1));
        mfs_persist::lemma_itab_flush_settles(s1);
        mfs_persist::lemma_itab_set_settles(s2, MFS_ROOT_INO, root);
        lemma_counted_sync(s3, s4);
        assert(s4.load(s4.itab, MFS_MAGIC_ITABX) == s3.load(s3.itab, MFS_MAGIC_ITABX));
    }
}

/// The count of objects plays no part in what is in use.
proof fn lemma_counted(s: MfsView, t: MfsView)
    requires
        mfs_cow::table_ok(s),
        t == (MfsView { ino_count: t.ino_count, ino_hint: t.ino_hint, ..s }),
    ensures
        mfs_cow::stable(s, t),
        mfs_cow::table_ok(t),
        forall|b: u32| #[trigger] mfs_cow::held(t, b) == mfs_cow::held(s, b),
        forall|i: u32|
            mfs_cow::good_ino(i) ==> #[trigger] mfs_cow::obj(t, i) == mfs_cow::obj(s, i),
{
    assert forall|b: u32| mfs_cow::held(s, b) implies #[trigger] mfs_cow::held(t, b) && t.rd(b)
        == s.rd(b) by {}
    mfs_cow::lemma_obj_stable(s, t);
}

/// The count of objects plays no part in the bitmap.
proof fn lemma_counted_sync(s: MfsView, t: MfsView)
    requires
        mfs_cow::in_sync(s),
        t == (MfsView { ino_count: t.ino_count, ino_hint: t.ino_hint, ..s }),
    ensures
        mfs_cow::in_sync(t),
{
    reveal(mfs_cow::in_sync);
    assert forall|e: int, c: int|
        0 <= e <= 1 && 0 <= c < mfs::bb_for(t.total) && !t.dirty[c] implies t.rd(
        #[trigger] mfs_cow::map_block(t, e, c),
    ) == Some(mfs::packed(t.bmp, c)) by {
        assert(mfs_cow::map_block(t, e, c) == mfs_cow::map_block(s, e, c));
    }
}

/// A new file system after its last commit.
proof fn lemma_formatted(s: MfsView)
    requires
        mfs_cow::sound(s),
        s.format().1,
    ensures
        fresh(s, s.format().0),
{
    lemma_before_last(s);
    let x = last_step(s);
    mfs_cow::lemma_flush(x);
    mfs_cow::lemma_obj_stable(x, x.flush().0);
    lemma_fresh_kept(s, x, x.flush().0);
}

/// Law: a file system that was just made is in good order, fills the volume as far as it can,
/// and is empty: it has no snapshot and no object but the root directory, which is in good
/// order and has no name.
pub proof fn law_formatted_is_empty(s: MfsView, n: Seq<u8>)
    requires
        mfs_cow::sound(s),
        s.format().1,
    ensures
        ({
            let t = s.format().0;
            &&& mfs_cow::table_ok(t)
            &&& mfs_ways::good(t, MFS_ROOT_INO)
            &&& mfs_ways::says(t, MFS_ROOT_INO, n) is None
            &&& forall|i: u32|
                mfs_cow::good_ino(i) && i != MFS_ROOT_INO ==> #[trigger] mfs_cow::obj(t, i) == 0
            &&& t.snaps.len() == 0
            &&& t.total == mfs_vol::format_blocks(s.sectors)
            &&& t.vol == s.vol
        }),
{
    lemma_formatted(s);
    law_new_directory_is_empty(s.format().0, MFS_ROOT_INO, 0, s.now, n);
}

/// Law: a file system that was just made can be mounted, and is all on the volume: a service
/// that has nothing of it in memory loads it, and finds it in good order and empty. (The volume
/// has room for the smallest file system, or its size is not known. A smaller one is not
/// loaded.)
pub proof fn law_formatted_is_mounted(s: MfsView, m: MfsView, n: Seq<u8>)
    requires
        mfs_cow::sound(s),
        s.format().1,
        s.sectors == 0 || MFS_MIN_TOTAL_BLOCKS * 8 <= s.sectors,
        mfs_cow::sound(m),
        m.store == s.format().0.store,
        m.vol == s.vol,
        m.sectors == s.sectors,
    ensures
        mfs_persist::mountable(s.format().0),
        mfs_persist::settled(s.format().0),
        m.load_state().1,
        ({
            let u = m.load_state().0;
            &&& mfs_cow::table_ok(u)
            &&& mfs_ways::good(u, MFS_ROOT_INO)
            &&& mfs_ways::says(u, MFS_ROOT_INO, n) is None
            &&& forall|i: u32|
                mfs_cow::good_ino(i) && i != MFS_ROOT_INO ==> #[trigger] mfs_cow::obj(u, i) == 0
            &&& u.snaps.len() == 0
            &&& u.total == mfs_vol::format_blocks(s.sectors)
            &&& u.vol == s.vol
        }),
{
    lemma_before_last(s);
    lemma_formatted(s);
    let x = last_step(s);
    mfs_persist::lemma_flush_settles(x);
    let t = s.format().0;
    mfs_persist::lemma_settled_mounts(t, m);
    let u = m.load_state().0;
    mfs_persist::lemma_resumed(m, t, u);
    lemma_fresh_kept(s, t, u);
    law_new_directory_is_empty(u, MFS_ROOT_INO, 0, s.now, n);
}

} // verus!
