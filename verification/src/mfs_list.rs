//! MorionFS: listings. A directory's listing shows each of its names once, with what is known of
//! the object that the name stands for.
use vstd::prelude::*;

use crate::bytes;
use crate::mfs;
use crate::mfs::{MfsView, MFS_MAGIC_DIDX, MFS_MAGIC_DIR, MFS_MAGIC_FILE, MFS_MAGIC_LINK};
use crate::mfs_alike;
use crate::mfs_cow;
use crate::mfs_dir;
use crate::mfs_dir::MFS_TYPE_DIR;
use crate::mfs_laws;
use crate::mfs_names;
use crate::mfs_path;
use crate::mfs_tree;
use crate::mfs_ways;
use crate::mfs_ways::{alike, says};
use crate::path;
use crate::vfs::DirEntryView;

verus! {

/// The node of object `ino`: the bytes of its block.
pub open spec fn node_bytes(s: MfsView, ino: u32) -> Option<Seq<u8>> {
    if mfs_cow::good_ino(ino) && mfs_cow::obj(s, ino) != 0 {
        s.rd(mfs_cow::obj(s, ino))
    } else {
        None
    }
}

/// Record `r` shows the name `n` of an object with number and type `h`: as much of the name as a
/// record holds, the type, and what the bytes of the node say. The metadata of a directory start
/// at byte 16 of its node, those of others at byte 4056; a size is at byte 8.
pub open spec fn is_record(s: MfsView, n: Seq<u8>, h: (u32, u32), r: DirEntryView) -> bool {
    let dir = h.1 == MFS_TYPE_DIR;
    let o = if dir {
        16int
    } else {
        4056int
    };
    &&& r.is_dir == dir
    &&& r.long == if n.len() <= 64 {
        n
    } else {
        n.subrange(0, 64)
    }
    &&& r.name == crate::tmpfs::seg_83(n)
    &&& match node_bytes(s, h.0) {
        None => r.size == 0 && r.mode == 0 && r.owner == 0 && r.nlink == 0 && r.mtime == 0,
        Some(a) => {
            &&& r.mode == bytes::le16(a, o)
            &&& r.owner == bytes::le16(a, o + 2)
            &&& r.nlink == bytes::le32(a, o + 4)
            &&& r.mtime == bytes::le64(a, o + 8)
            &&& dir ==> r.size == 0
            &&& !dir && (mfs::block_ok(a, MFS_MAGIC_FILE) || mfs::block_ok(a, MFS_MAGIC_LINK))
                ==> r.size == bytes::le64(a, 8)
        },
    }
}

/// How often a name is in a list.
pub open spec fn times(names: Seq<Seq<u8>>, n: Seq<u8>) -> int
    decreases names.len(),
{
    if names.len() == 0 {
        0
    } else {
        times(names.drop_last(), n) + if names.last() == n {
            1int
        } else {
            0int
        }
    }
}

/// One name more.
proof fn lemma_times_push(names: Seq<Seq<u8>>, m: Seq<u8>, n: Seq<u8>)
    ensures
        times(names.push(m), n) == times(names, n) + if m == n {
            1int
        } else {
            0int
        },
{
    assert(names.push(m).drop_last() =~= names);
}

/// A name is in a list that has it, at least as often as at one place.
proof fn lemma_times(names: Seq<Seq<u8>>, n: Seq<u8>)
    ensures
        times(names, n) >= 0,
        names.contains(n) <==> times(names, n) > 0,
        forall|x: int, y: int|
            0 <= x < y < names.len() && names[x] == n && names[y] == n ==> times(names, n) >= 2,
    decreases names.len(),
{
    if names.len() > 0 {
        let h = names.drop_last();
        let k = names.len() - 1;
        lemma_times(h, n);
        if names.contains(n) {
            let x = choose|x: int| 0 <= x < names.len() && names[x] == n;
            if x < k {
                assert(h[x] == n);
            }
        }
        if h.contains(n) {
            let x = choose|x: int| 0 <= x < h.len() && h[x] == n;
            assert(names[x] == n);
        }
        if names.last() == n {
            assert(names[k] == n);
        }
        assert forall|x: int, y: int|
            0 <= x < y < names.len() && names[x] == n && names[y] == n implies times(names, n)
            >= 2 by {
            assert(h[x] == n);
            if y < k {
                assert(h[y] == n);
            } else {
                assert(h.contains(n));
            }
        }
    }
}

/// Entry `off` is one of those from `from` on.
pub open spec fn reached(b: Seq<u8>, from: int, off: int) -> bool
    decreases 4096 - from,
{
    from == off || (from + 8 <= 4096 && !mfs_dir::ent_bad(b, from) && reached(
        b,
        from + mfs_dir::ent_rec(b, from),
        off,
    ))
}

/// One entry further.
proof fn lemma_reached_next(b: Seq<u8>, from: int, off: int)
    requires
        reached(b, from, off),
        off + 8 <= 4096,
        !mfs_dir::ent_bad(b, off),
    ensures
        reached(b, from, off + mfs_dir::ent_rec(b, off)),
    decreases 4096 - from,
{
    if from != off {
        lemma_reached_next(b, from + mfs_dir::ent_rec(b, from), off);
    } else {
        assert(reached(b, off + mfs_dir::ent_rec(b, off), off + mfs_dir::ent_rec(b, off)));
    }
}

/// The one entry with a name is what is found.
proof fn lemma_only(b: Seq<u8>, from: int, off: int, n: Seq<u8>)
    requires
        mfs_names::wf(b, from),
        reached(b, from, off),
        off + 8 <= 4096,
        mfs_dir::ent_is(b, off, n),
    ensures
        mfs_names::count(b, from, n) >= 1,
        mfs_names::count(b, from, n) == 1 ==> mfs_names::hit(b, from, n) == Some(
            (mfs_dir::ent_ino(b, off), mfs_dir::ent_type(b, off)),
        ),
    decreases 4096 - from,
{
    if from != off {
        mfs_names::lemma_hit(b, from, n);
        lemma_only(b, from + mfs_dir::ent_rec(b, from), off, n);
    } else {
        mfs_names::lemma_hit(b, from, n);
        mfs_names::lemma_count(b, from + mfs_dir::ent_rec(b, from), n);
    }
}

/// What is found in one of the further blocks of a directory that has a name once.
proof fn lemma_only_ext(s: MfsView, x: Seq<u8>, j: int, i: int, n: Seq<u8>)
    requires
        mfs_tree::parts_ok(s, x),
        0 <= j <= i < 1022,
        mfs_tree::part_count(s, mfs::slot(x, i), n) == 1,
    ensures
        mfs_tree::ext_count(s, x, j, n) >= 1,
        mfs_tree::ext_count(s, x, j, n) == 1 ==> mfs_tree::ext_hit(s, x, j, n)
            == mfs_tree::part_hit(s, mfs::slot(x, i), n),
    decreases i - j,
{
    let blk = mfs::slot(x, j);
    assert(mfs_tree::part_ok(s, blk));
    if blk != 0 {
        mfs_names::lemma_count(s.load(blk, MFS_MAGIC_DIR)->Some_0, 56, n);
    }
    if j < i {
        lemma_only_ext(s, x, j + 1, i, n);
    } else {
        mfs_tree::lemma_count_all(s, x, j + 1, n);
    }
}

/// The record of an entry.
proof fn lemma_record(s: MfsView, t: MfsView, b: Seq<u8>, off: int)
    requires
        mfs_cow::table_ok(s),
        alike(s, t),
        0 <= off,
        off + 8 + mfs_dir::ent_nlen(b, off) <= 4096,
        b.len() == 4096,
    ensures
        alike(s, t.entry_record(b, off).0),
        is_record(
            s,
            mfs_dir::ent_name(b, off),
            (mfs_dir::ent_ino(b, off), mfs_dir::ent_type(b, off)),
            t.entry_record(b, off).1,
        ),
{
    reveal(MfsView::entry_record);
    let ino = mfs_dir::ent_ino(b, off);
    let n = mfs_dir::ent_name(b, off);
    mfs_alike::lemma_object(s, t, ino);
    mfs_ways::lemma_alike(s, t);
    let u = t.object_block(ino).0;
    mfs_cow::lemma_buffer_only(s, u);
    assert(s.object_block(ino).1 == if mfs_cow::good_ino(ino) && mfs_cow::obj(s, ino) != 0 {
        Some(mfs_cow::obj(s, ino))
    } else {
        None
    }) by {
        reveal(MfsView::object_block);
        if mfs_cow::good_ino(ino) {
            mfs_cow::lemma_ino_block(s, ino);
        } else {
            reveal(MfsView::ino_block);
        }
    }
    if n.len() <= 64 {
        assert(n.subrange(0, n.len() as int) =~= n);
    }
}

/// What was listed so far: each record is of a name that the directory has.
pub open spec fn good_list(
    s: MfsView,
    a: Seq<u8>,
    names: Seq<Seq<u8>>,
    l: Seq<DirEntryView>,
) -> bool {
    &&& names.len() == l.len() <= 36
    &&& forall|x: int|
        0 <= x < l.len() ==> {
            &&& (#[trigger] names[x]).len() > 0
            &&& mfs_tree::dir_hit(s, a, names[x]) is Some
            &&& is_record(s, names[x], mfs_tree::dir_hit(s, a, names[x])->Some_0, l[x])
        }
}

/// The entries of one block listed. `from_main` says whether it is the directory's own; else it
/// is the one in slot `i` of its index.
proof fn lemma_emit(
    s: MfsView,
    t: MfsView,
    a: Seq<u8>,
    i: int,
    b: Seq<u8>,
    off: int,
    names: Seq<Seq<u8>>,
    l: Seq<DirEntryView>,
) -> (r: Seq<Seq<u8>>)
    requires
        mfs_cow::table_ok(s),
        alike(s, t),
        mfs_names::wf(a, 56),
        mfs_tree::ext_ok(s, a),
        forall|n: Seq<u8>| #[trigger] mfs_tree::dir_count(s, a, n) <= 1,
        good_list(s, a, names, l),
        b.len() == 4096,
        mfs_names::wf(b, 56),
        56 <= off,
        reached(b, 56, off),
        mfs_names::wf(b, off),
        -1 <= i < 1022,
        i == -1 ==> b == a,
        i >= 0 ==> mfs_dir::dir_ext(a) != 0 && mfs::slot(
            s.load(mfs_dir::dir_ext(a), MFS_MAGIC_DIDX)->Some_0,
            i,
        ) != 0 && s.load(
            mfs::slot(s.load(mfs_dir::dir_ext(a), MFS_MAGIC_DIDX)->Some_0, i),
            MFS_MAGIC_DIR,
        ) == Some(b),
    ensures
        ({
            let (u, o) = t.emit(b, off, l);
            &&& alike(s, u)
            &&& good_list(s, a, r, o)
            &&& l.len() <= o.len()
            &&& forall|n: Seq<u8>| #[trigger] times(r, n) <= times(names, n) + mfs_names::count(b, off, n)
            &&& o.len() < 36 ==> forall|n: Seq<u8>| #[trigger]
                times(r, n) == times(names, n) + mfs_names::count(b, off, n)
        }),
    decreases 4096 - off,
{
    if off + 8 > 4096 {
        names
    } else if l.len() >= 36 {
        assert forall|n: Seq<u8>| #[trigger] times(names, n) <= times(names, n)
            + mfs_names::count(b, off, n) by {
            mfs_names::lemma_count(b, off, n);
        }
        names
    } else {
        let m = mfs_dir::ent_name(b, off);
        let used = mfs_dir::ent_nlen(b, off) != 0;
        let (s1, e) = t.entry_record(b, off);
        let names2 = if used {
            names.push(m)
        } else {
            names
        };
        let l2 = if used {
            l.push(e)
        } else {
            l
        };
        let t2 = if used {
            s1
        } else {
            t
        };
        if used {
            lemma_record(s, t, b, off);
            assert(mfs_dir::ent_is(b, off, m));
            lemma_only(b, 56, off, m);
            assert(mfs_tree::dir_count(s, a, m) <= 1);
            mfs_names::lemma_count(a, 56, m);
            if i >= 0 {
                let x = s.load(mfs_dir::dir_ext(a), MFS_MAGIC_DIDX)->Some_0;
                mfs_tree::lemma_count_all(s, x, 0, m);
                lemma_part_le(s, x, 0, i, m);
                lemma_only_ext(s, x, 0, i, m);
            } else if mfs_dir::dir_ext(a) != 0 {
                let x = s.load(mfs_dir::dir_ext(a), MFS_MAGIC_DIDX)->Some_0;
                mfs_tree::lemma_count_all(s, x, 0, m);
            }
            assert(mfs_tree::dir_hit(s, a, m) == Some(
                (mfs_dir::ent_ino(b, off), mfs_dir::ent_type(b, off)),
            ));
        }
        assert(good_list(s, a, names2, l2)) by {
            assert forall|x: int| 0 <= x < l2.len() implies (#[trigger] names2[x]).len() > 0
                && mfs_tree::dir_hit(s, a, names2[x]) is Some && is_record(
                s,
                names2[x],
                mfs_tree::dir_hit(s, a, names2[x])->Some_0,
                l2[x],
            ) by {
                if x < l.len() {
                    assert(names2[x] == names[x]);
                    assert(l2[x] == l[x]);
                }
            }
        }
        lemma_reached_next(b, 56, off);
        let next = off + mfs_dir::ent_rec(b, off);
        let r = lemma_emit(s, t2, a, i, b, next, names2, l2);
        let (u, o) = t.emit(b, off, l);
        assert((u, o) == t2.emit(b, next, l2));
        assert forall|n: Seq<u8>| true implies times(names2, n) + mfs_names::count(b, next, n)
            == #[trigger] times(names, n) + mfs_names::count(b, off, n) by {
            mfs_names::lemma_hit(b, off, n);
            if used {
                lemma_times_push(names, m, n);
                assert(mfs_dir::ent_is(b, off, n) <==> n == m);
            }
        }
        assert forall|n: Seq<u8>| #[trigger] times(r, n) <= times(names, n) + mfs_names::count(
            b,
            off,
            n,
        ) by {
            assert(times(names2, n) + mfs_names::count(b, next, n) == times(names, n)
                + mfs_names::count(b, off, n));
        }
        if o.len() < 36 {
            assert forall|n: Seq<u8>| #[trigger] times(r, n) == times(names, n)
                + mfs_names::count(b, off, n) by {
                assert(times(names2, n) + mfs_names::count(b, next, n) == times(names, n)
                    + mfs_names::count(b, off, n));
            }
        }
        r
    }
}

/// One of the further blocks has a name no more often than all of them.
proof fn lemma_part_le(s: MfsView, x: Seq<u8>, j: int, i: int, n: Seq<u8>)
    requires
        mfs_tree::parts_ok(s, x),
        0 <= j <= i < 1022,
    ensures
        mfs_tree::part_count(s, mfs::slot(x, i), n) <= mfs_tree::ext_count(s, x, j, n),
    decreases i - j,
{
    let blk = mfs::slot(x, j);
    assert(mfs_tree::part_ok(s, blk));
    if blk != 0 {
        mfs_names::lemma_count(s.load(blk, MFS_MAGIC_DIR)->Some_0, 56, n);
    }
    if j < i {
        lemma_part_le(s, x, j + 1, i, n);
    } else {
        mfs_tree::lemma_count_all(s, x, j + 1, n);
    }
}

/// The further blocks from slot `i` on listed.
proof fn lemma_emit_ext(
    s: MfsView,
    t: MfsView,
    a: Seq<u8>,
    i: int,
    names: Seq<Seq<u8>>,
    l: Seq<DirEntryView>,
) -> (r: Seq<Seq<u8>>)
    requires
        mfs_cow::table_ok(s),
        alike(s, t),
        mfs_names::wf(a, 56),
        mfs_tree::ext_ok(s, a),
        mfs_dir::dir_ext(a) != 0,
        forall|n: Seq<u8>| #[trigger] mfs_tree::dir_count(s, a, n) <= 1,
        good_list(s, a, names, l),
        0 <= i <= 1022,
    ensures
        ({
            let x = s.load(mfs_dir::dir_ext(a), MFS_MAGIC_DIDX)->Some_0;
            let (u, o) = t.emit_ext(x, i, l);
            &&& alike(s, u)
            &&& good_list(s, a, r, o)
            &&& l.len() <= o.len()
            &&& forall|n: Seq<u8>| #[trigger]
                times(r, n) <= times(names, n) + mfs_tree::ext_count(s, x, i, n)
            &&& o.len() < 36 ==> forall|n: Seq<u8>| #[trigger]
                times(r, n) == times(names, n) + mfs_tree::ext_count(s, x, i, n)
        }),
    decreases 1022 - i,
{
    let x = s.load(mfs_dir::dir_ext(a), MFS_MAGIC_DIDX)->Some_0;
    if i >= 1022 {
        names
    } else if l.len() >= 36 {
        assert forall|n: Seq<u8>| #[trigger] times(names, n) <= times(names, n)
            + mfs_tree::ext_count(s, x, i, n) by {
            mfs_tree::lemma_count_all(s, x, i, n);
        }
        names
    } else {
        let blk = mfs::slot(x, i);
        assert(mfs_tree::part_ok(s, blk));
        mfs_ways::lemma_alike(s, t);
        if blk == 0 {
            lemma_emit_ext(s, t, a, i + 1, names, l)
        } else {
            let b = s.load(blk, MFS_MAGIC_DIR)->Some_0;
            mfs_cow::lemma_block_len(s, blk);
            let r1 = lemma_emit(s, t, a, i, b, 56, names, l);
            let (u, o) = t.emit(b, 56, l);
            let r = lemma_emit_ext(s, u, a, i + 1, r1, o);
            let o2 = u.emit_ext(x, i + 1, o).1;
            assert(t.emit_ext(x, i, l) == u.emit_ext(x, i + 1, o));
            assert forall|n: Seq<u8>| #[trigger] times(r, n) <= times(names, n)
                + mfs_tree::ext_count(s, x, i, n) by {
                assert(times(r1, n) <= times(names, n) + mfs_names::count(b, 56, n));
            }
            if o2.len() < 36 {
                assert forall|n: Seq<u8>| #[trigger] times(r, n) == times(names, n)
                    + mfs_tree::ext_count(s, x, i, n) by {
                    assert(times(r1, n) == times(names, n) + mfs_names::count(b, 56, n));
                }
            }
            r
        }
    }
}

/// Law: the listing of a directory that has no name twice shows each of its names once, up to 36
/// of them, and nothing else: a record holds the name, and the type, size, mode, owner, number of
/// names and time of the object that looking the name up in the directory finds. The names are
/// handed back in the order of the records.
pub proof fn law_listing(s: MfsView, d: u32, a: Seq<u8>) -> (names: Seq<Seq<u8>>)
    requires
        mfs_tree::dir_ok(s, d, a),
        forall|n: Seq<u8>| #[trigger] mfs_tree::once(s, a, n),
    ensures
        s.readdir(d).1 matches Some(l) && {
            &&& l.len() == names.len() <= 36
            &&& forall|x: int, y: int| 0 <= x < y < names.len() ==> #[trigger] names[x]
                != #[trigger] names[y]
            &&& forall|x: int|
                0 <= x < l.len() ==> (#[trigger] names[x]).len() > 0 && (s.dir_lookup(
                    d,
                    names[x],
                ).1 is Some) && (says(s, d, names[x]) matches Some(h) && is_record(
                    s,
                    names[x],
                    h,
                    l[x],
                ))
            &&& l.len() < 36 ==> forall|n: Seq<u8>|
                (#[trigger] s.dir_lookup(d, n)).1 is Some ==> names.contains(n)
        },
{
    reveal(mfs_tree::once);
    reveal(MfsView::readdir);
    mfs_laws::lemma_object(s, d);
    let t = s.object_block(d).0;
    mfs_cow::lemma_buffer_only(s, t);
    assert(alike(s, t));
    mfs_cow::lemma_block_len(s, mfs_cow::obj(s, d));
    assert forall|n: Seq<u8>| #[trigger] mfs_tree::dir_count(s, a, n) <= 1 by {
        assert(mfs_tree::once(s, a, n));
    }
    let none = Seq::<Seq<u8>>::empty();
    assert(good_list(s, a, none, Seq::empty()));
    let r1 = lemma_emit(s, t, a, -1, a, 56, none, Seq::empty());
    let (s1, o1) = t.emit(a, 56, Seq::empty());
    mfs_ways::lemma_alike(s, s1);
    let x = s.load(mfs_dir::dir_ext(a), MFS_MAGIC_DIDX)->Some_0;
    let names = if mfs_dir::dir_ext(a) == 0 {
        r1
    } else {
        lemma_emit_ext(s, s1, a, 0, r1, o1)
    };
    let l = s.readdir(d).1->Some_0;
    assert forall|n: Seq<u8>| #[trigger] times(names, n) <= mfs_tree::dir_count(s, a, n) by {
        assert(times(none, n) == 0);
        assert(times(r1, n) <= times(none, n) + mfs_names::count(a, 56, n));
    }
    assert forall|i: int, j: int| 0 <= i < j < names.len() implies #[trigger] names[i]
        != #[trigger] names[j] by {
        lemma_times(names, names[i]);
        assert(times(names, names[i]) <= mfs_tree::dir_count(s, a, names[i]));
        assert(mfs_tree::dir_count(s, a, names[i]) <= 1);
    }
    assert forall|i: int| 0 <= i < l.len() implies (#[trigger] names[i]).len() > 0 && (
    s.dir_lookup(d, names[i]).1 is Some) && (says(s, d, names[i]) matches Some(h) && is_record(
        s,
        names[i],
        h,
        l[i],
    )) by {
        mfs_tree::law_lookup(s, d, a, names[i]);
    }
    if l.len() < 36 {
        assert forall|n: Seq<u8>| (#[trigger] s.dir_lookup(d, n)).1 is Some implies names.contains(
            n,
        ) by {
            mfs_tree::law_lookup(s, d, a, n);
            lemma_times(names, n);
            mfs_names::lemma_count(a, 56, n);
            assert(times(none, n) == 0);
            assert(times(r1, n) == times(none, n) + mfs_names::count(a, 56, n));
            mfs_tree::lemma_dir_count(s, a, n);
        }
    }
    names
}

/// What is known of the object that a path leads to.
pub proof fn lemma_stat(s: MfsView, p: Seq<u8>, c: Seq<u8>, h: (u32, u32), a: Seq<u8>)
    requires
        mfs_cow::table_ok(s),
        mfs_path::raw_normal(p) == Some(c),
        1 < c.len() <= mfs_path::MFS_PATH_MAX,
        mfs_ways::clear(s, c),
        mfs_ways::leads(s, c) == Some(h),
        node_bytes(s, h.0) == Some(a),
    ensures
        s.stat(p, false).1 == mfs_path::stat_of(a),
{
    reveal(MfsView::stat);
    mfs_ways::law_resolve(s, c, false);
    let u = s.resolve(c, false).0;
    mfs_ways::lemma_alike(s, u);
    mfs_cow::lemma_ino_block(u, h.0);
    let v = u.ino_block(h.0).0;
    mfs_cow::lemma_buffer_only(s, u);
    mfs_cow::lemma_buffer_only(u, v);
}

/// The type of a node of one kind.
proof fn lemma_type(a: Seq<u8>, typ: u32)
    requires
        typ == 1 ==> mfs::block_ok(a, MFS_MAGIC_FILE),
        typ == 2 ==> mfs::block_ok(a, MFS_MAGIC_DIR),
        typ == 3 ==> mfs::block_ok(a, MFS_MAGIC_LINK),
        1 <= typ <= 3,
    ensures
        mfs_path::node_type_of(a) == Some(typ),
{
    let d = mfs::block_ok(a, MFS_MAGIC_DIR);
    let f = mfs::block_ok(a, MFS_MAGIC_FILE);
    let l = mfs::block_ok(a, MFS_MAGIC_LINK);
    if d && f {
        mfs::law_one_kind(a, MFS_MAGIC_DIR, MFS_MAGIC_FILE);
    }
    if d && l {
        mfs::law_one_kind(a, MFS_MAGIC_DIR, MFS_MAGIC_LINK);
    }
    if f && l {
        mfs::law_one_kind(a, MFS_MAGIC_FILE, MFS_MAGIC_LINK);
    }
}

/// What a node says, by its bytes.
proof fn lemma_fields(a: Seq<u8>, typ: u32)
    requires
        mfs_path::node_type_of(a) == Some(typ),
    ensures
        mfs_path::stat_of(a) matches Some(st) && {
            let o = if typ == 2 {
                16int
            } else {
                4056int
            };
            &&& st.is_dir == (typ == 2)
            &&& st.size == if typ == 2 {
                0
            } else {
                bytes::le64(a, 8)
            }
            &&& st.mode == bytes::le16(a, o)
            &&& st.owner == bytes::le16(a, o + 2)
            &&& st.nlink == bytes::le32(a, o + 4)
            &&& st.mtime == bytes::le64(a, o + 8)
        },
{
}

/// Law: a listing agrees with what is said of the path of each name. Where record `r` shows the
/// object that a path leads to, whose node is of the type that its entry says, asking for the
/// path itself, a link at its end not followed, gives the same size, type, mode, owner, number
/// of names and time of change.
pub proof fn law_listing_agrees_with_stat(
    s: MfsView,
    p: Seq<u8>,
    c: Seq<u8>,
    h: (u32, u32),
    a: Seq<u8>,
    r: DirEntryView,
)
    requires
        mfs_cow::table_ok(s),
        mfs_path::raw_normal(p) == Some(c),
        1 < c.len() <= mfs_path::MFS_PATH_MAX,
        mfs_ways::clear(s, c),
        mfs_ways::leads(s, c) == Some(h),
        is_record(s, path::leaf_of(c), h, r),
        node_bytes(s, h.0) == Some(a),
        h.1 == 1 ==> mfs::block_ok(a, MFS_MAGIC_FILE),
        h.1 == 2 ==> mfs::block_ok(a, MFS_MAGIC_DIR),
        h.1 == 3 ==> mfs::block_ok(a, MFS_MAGIC_LINK),
        1 <= h.1 <= 3,
    ensures
        s.stat(p, false).1 matches Some(st) && {
            &&& st.size == r.size
            &&& st.is_dir == r.is_dir
            &&& st.is_dir == (h.1 == 2)
            &&& st.mode == r.mode
            &&& st.owner == r.owner
            &&& st.nlink == r.nlink
            &&& st.mtime == r.mtime
        },
{
    lemma_stat(s, p, c, h, a);
    lemma_type(a, h.1);
    lemma_fields(a, h.1);
}

/// Law: the size that a listing and a path show of a file in good order is the number of bytes
/// that reading it gives.
pub proof fn law_size_shown(
    s: MfsView,
    p: Seq<u8>,
    c: Seq<u8>,
    ino: u32,
    f: Seq<u8>,
    n: Seq<u8>,
    r: DirEntryView,
)
    requires
        mfs_laws::file_ok(s, ino, f),
        mfs_path::raw_normal(p) == Some(c),
        1 < c.len() <= mfs_path::MFS_PATH_MAX,
        mfs_ways::clear(s, c),
        mfs_ways::leads(s, c) == Some((ino, 1u32)),
        is_record(s, n, (ino, 1u32), r),
    ensures
        r.size == mfs_laws::content(s, f).len(),
        !r.is_dir,
        s.stat(p, false).1 matches Some(st) && st.size == mfs_laws::content(s, f).len()
            && !st.is_dir,
{
    assert(node_bytes(s, ino) == Some(f));
    lemma_stat(s, p, c, (ino, 1u32), f);
    lemma_type(f, 1);
    lemma_fields(f, 1);
    assert(mfs_laws::content(s, f).len() == bytes::le64(f, 8));
}

} // verus!
