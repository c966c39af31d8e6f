//! What MorionFS refuses, and how it counts the names of a file.
use vstd::prelude::*;

use crate::bytes;
use crate::mfs::{MfsView, MFS_MAGIC_FILE};
use crate::mfs_dir;
use crate::mfs_path;
use crate::path;

verus! {

/// Law: the root is not removed, renamed, replaced or linked, and neither is a path without a normal
/// form; nothing changes.
pub proof fn law_root_refused(s: MfsView, p: Seq<u8>, q: Seq<u8>, want_dir: bool, owner: u16)
    requires
        mfs_path::raw_normal(p) is None || mfs_path::raw_normal(p)->Some_0.len() == 1,
    ensures
        s.remove(p, want_dir) == (s, false),
        s.rename(p, q) == (s, false),
        s.rename(q, p) == (s, false),
        s.link(p, q) == (s, false),
        s.link(q, p) == (s, false),
        s.symlink(q, p, owner) == (s, false),
{
    reveal(MfsView::remove);
    reveal(MfsView::rename);
    reveal(MfsView::link);
    reveal(MfsView::symlink);
}

/// Law: no link is made whose target is empty or longer than 4040 bytes.
pub proof fn law_link_length(s: MfsView, target: Seq<u8>, p: Seq<u8>, owner: u16)
    requires
        target.len() == 0 || target.len() > 4040,
    ensures
        s.symlink(target, p, owner) == (s, false),
{
    reveal(MfsView::symlink);
}

/// Law: where there is something already, no link and no second name is made; a directory is not made,
/// and a file is taken as it is only where it is one. Nothing is written.
pub proof fn law_taken(s: MfsView, p: Seq<u8>, c: Seq<u8>, target: Seq<u8>, owner: u16)
    requires
        mfs_path::raw_normal(p) == Some(c),
    ensures
        s.resolve(c, false).1 is Some ==> !s.symlink(target, p, owner).1,
        s.resolve(c, false).1 is Some ==> forall|ino: u32| !(#[trigger] s.link_at(ino, c)).1,
        s.resolve(c, true).1 is Some ==> {
            &&& !s.create(c, true, owner).1
            &&& s.create(c, false, owner).1 <==> s.open_kind(c).1 == Some(false)
            &&& s.create(c, false, owner).0 == s.open_kind(c).0
            &&& s.create(c, true, owner).0 == s.open_kind(c).0
        },
{
    reveal(MfsView::symlink);
    reveal(MfsView::link_at);
    reveal(MfsView::create);
    reveal(MfsView::open_or_none);
    reveal(MfsView::open_kind);
}

/// Law: a new object goes into the directory that the path before its last name leads to, links
/// followed; where that leads nowhere, or has such an entry, none is made.
pub proof fn law_place(s: MfsView, c: Seq<u8>)
    ensures
        ({
            let (t, r) = s.resolve(path::pop_segment(c), true);
            s.place_for(c).1 == match r {
                Some((dir, loc)) => if path::leaf_of(c).len() == 0 || t.dir_lookup(
                    dir,
                    path::leaf_of(c),
                ).1 is Some {
                    None
                } else {
                    Some(dir)
                },
                None => None,
            }
        }),
{
    reveal(MfsView::place_for);
}

/// Law: an entry is removed as what it is: a directory only as a directory, and only where it is
/// empty; a file and a link only as a file. What leads nowhere cannot be removed.
pub proof fn law_removal(s: MfsView, p: Seq<u8>, c: Seq<u8>, b: Seq<u8>)
    requires
        mfs_path::raw_normal(p) == Some(c),
    ensures
        s.resolve(c, false).1 is None ==> !s.remove(p, true).1 && !s.remove(p, false).1,
        ({
            let (t, r) = s.resolve(c, false);
            c.len() > 1 && r is Some && r->Some_0.1.dir_ino != 0 && t.load(
                r->Some_0.1.blk,
                0x4D46_4449,
            ) == Some(b) ==> {
                let (ino, loc) = r->Some_0;
                let typ = mfs_dir::ent_type(b, loc.off as int);
                let (u, e) = t.dir_is_empty(ino);
                &&& typ == 2 ==> s.remove(p, false) == (t, false)
                &&& typ != 2 ==> s.remove(p, true) == (t, false)
                &&& typ == 2 && e != Some(true) ==> s.remove(p, true) == (u, false)
                &&& typ == 2 && e == Some(true) ==> s.remove(p, true) == u.drop_object(loc, ino)
                &&& typ == 3 ==> s.remove(p, false) == t.drop_object(loc, ino)
            }
        }),
{
    reveal(MfsView::remove);
}

/// Law: a directory is given no second name, and what leads nowhere neither.
pub proof fn law_second_name_refused(s: MfsView, p: Seq<u8>, q: Seq<u8>, c: Seq<u8>)
    requires
        mfs_path::raw_normal(p) == Some(c),
    ensures
        s.resolve(c, true).1 is None ==> !s.link(p, q).1,
        s.open_kind(c).1 == Some(true) ==> !s.link(p, q).1,
        s.open_kind(c).1 is None ==> !s.link(p, q).1,
{
    reveal(MfsView::link);
    reveal(MfsView::open_kind);
}

/// Law: what is renamed over something makes it go only where both are of one kind, and a directory
/// only where it is empty.
pub proof fn law_way(s: MfsView, ino: u32, loc: mfs_dir::MfsLoc, typ: u32)
    ensures
        ({
            let (t, r) = s.object_block(ino);
            &&& r is None ==> !s.make_way(ino, loc, typ).1
            &&& r is Some && t.node_type(r->Some_0) != Some(typ) ==> s.make_way(ino, loc, typ) == (
                t,
                false,
            )
            &&& r is Some && typ == 2 && t.dir_is_empty(ino).1 != Some(true) ==> !s.make_way(
                ino,
                loc,
                typ,
            ).1
        }),
{
    reveal(MfsView::make_way);
}

/// A node with its number of names and its time of change set.
proof fn lemma_counted(a: Seq<u8>, v: u32, now: u64) -> (n: Seq<u8>)
    requires
        a.len() == 4096,
    ensures
        n == mfs_dir::with_ctime(mfs_dir::with_nlink(a, false, v), false, now),
        n.len() == 4096,
        bytes::le32(n, 4060) == v,
        bytes::le64(n, 4072) == now,
        forall|k: int|
            0 <= k < 4096 && !(4060 <= k < 4064) && !(4072 <= k < 4080) ==> #[trigger] n[k] == a[k],
{
    let b = bytes::put32(a, 4060, v);
    let n = bytes::put64(b, 4072, now);
    bytes::law_put32_reads_back(a, 4060, v);
    bytes::law_put64_reads_back(b, 4072, now);
    assert(n[4060] == b[4060] && n[4061] == b[4061] && n[4062] == b[4062] && n[4063] == b[4063]);
    n
}

/// The node that counts one name more.
proof fn lemma_bumped(s: MfsView, ino: u32, blk: u32, a: Seq<u8>, m: u32, v: u32)
    requires
        s.object_block(ino).1 == Some(blk),
        s.object_block(ino).0.load(blk, MFS_MAGIC_FILE) == Some(a),
        m == mfs_dir::nlink_of(a, false),
        m < 0xFFFF_FFFF,
        v == if m == 0 {
            2
        } else {
            m + 1
        },
    ensures
        s.bump_nlink(ino) == s.object_block(ino).0.commit_object(
            ino,
            mfs_dir::with_ctime(
                mfs_dir::with_nlink(a, false, v),
                false,
                s.object_block(ino).0.now,
            ),
            MFS_MAGIC_FILE,
        ),
{
    reveal(MfsView::bump_nlink);
    assert(bytes::w32(m + 1) == m + 1);
    assert(bytes::w32(2) == 2);
}

/// Law: a second name makes the number of names of a file one more, at byte 4060 of its node; where it
/// had none it was one.
pub proof fn law_one_name_more(s: MfsView, ino: u32, blk: u32, a: Seq<u8>) -> (n: Seq<u8>)
    requires
        s.object_block(ino).1 == Some(blk),
        s.object_block(ino).0.load(blk, 0x4D46_464C) == Some(a),
        a.len() == 4096,
        bytes::le32(a, 4060) < 0xFFFF_FFFF,
    ensures
        s.bump_nlink(ino) == s.object_block(ino).0.commit_object(ino, n, 0x4D46_464C),
        n.len() == 4096,
        bytes::le32(n, 4060) == if bytes::le32(a, 4060) == 0 {
            2
        } else {
            bytes::le32(a, 4060) + 1
        },
        bytes::le64(n, 4072) == s.object_block(ino).0.now,
        forall|k: int|
            0 <= k < 4096 && !(4060 <= k < 4064) && !(4072 <= k < 4080) ==> #[trigger] n[k] == a[k],
{
    let t = s.object_block(ino).0;
    let v: u32 = if bytes::le32(a, 4060) == 0 {
        2
    } else {
        (bytes::le32(a, 4060) + 1) as u32
    };
    lemma_bumped(s, ino, blk, a, bytes::le32(a, 4060), v);
    lemma_counted(a, v, t.now)
}

/// Law: a file that loses a name and has others keeps its number, with one name less; with its last
/// name its number is given back.
pub proof fn law_one_name_less(s: MfsView, ino: u32, blk: u32, a: Seq<u8>) -> (n: Seq<u8>)
    requires
        s.object_block(ino).1 == Some(blk),
        s.object_block(ino).0.load(blk, 0x4D46_464C) == Some(a),
        a.len() == 4096,
    ensures
        bytes::le32(a, 4060) <= 1 ==> s.drop_name(ino) == s.object_block(ino).0.free_ino(ino),
        bytes::le32(a, 4060) > 1 ==> {
            &&& s.drop_name(ino) == s.object_block(ino).0.commit_object(ino, n, 0x4D46_464C)
            &&& n.len() == 4096
            &&& bytes::le32(n, 4060) == bytes::le32(a, 4060) - 1
            &&& bytes::le64(n, 4072) == s.object_block(ino).0.now
            &&& forall|k: int|
                0 <= k < 4096 && !(4060 <= k < 4064) && !(4072 <= k < 4080) ==> #[trigger] n[k]
                    == a[k]
        },
{
    reveal(MfsView::drop_name);
    let t = s.object_block(ino).0;
    let v = (bytes::le32(a, 4060) - 1) as u32;
    lemma_counted(a, v, t.now)
}

/// Law: what is told of a link's target is at most its first 95 bytes; what is no link has none.
pub proof fn law_target_told(s: MfsView, p: Seq<u8>, c: Seq<u8>, b: Seq<u8>)
    requires
        mfs_path::raw_normal(p) == Some(c),
    ensures
        s.resolve(c, false).1 is None ==> s.readlink(p).1 is None,
        ({
            let (t, r) = s.resolve(c, false);
            r is Some && r->Some_0.1.dir_ino != 0 && t.load(r->Some_0.1.blk, 0x4D46_4449) == Some(b)
                ==> {
                let (ino, loc) = r->Some_0;
                let typ = mfs_dir::ent_type(b, loc.off as int);
                s.readlink(p).1 == if typ != 3 {
                    None
                } else {
                    match t.link_target(ino).1 {
                        Some(x) => Some(
                            if x.len() <= 95 {
                                x
                            } else {
                                x.subrange(0, 95)
                            },
                        ),
                        None => None,
                    }
                }
            }
        }),
{
    reveal(MfsView::readlink);
    let (t, r) = s.resolve(c, false);
    if r is Some {
        let x = t.link_target(r->Some_0.0).1;
        if x is Some && x->Some_0.len() <= 95 {
            let y = x->Some_0;
            assert(y.subrange(0, y.len() as int) =~= y);
        }
    }
}

} // verus!
