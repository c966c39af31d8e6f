//! MorionFS: names in a directory. What was inserted is found, what was deleted is not, and no
//! other name of any directory is touched.
use vstd::prelude::*;

use crate::bytes;
use crate::mfs;
use crate::mfs::{MfsView, MFS_MAGIC_DIDX, MFS_MAGIC_DIR};
use crate::mfs_cow;
use crate::mfs_dir;
use crate::mfs_dir::MfsLoc;
use crate::mfs_laws;
use crate::mfs_names;

verus! {

/// A further block of a directory in good order; 0 for none.
pub open spec fn part_ok(s: MfsView, b: u32) -> bool {
    b == 0 || (mfs_cow::held(s, b) && s.load(b, MFS_MAGIC_DIR) is Some && mfs_names::wf(
        s.load(b, MFS_MAGIC_DIR)->Some_0,
        56,
    ))
}

/// All slots of an index name further blocks in good order.
pub open spec fn parts_ok(s: MfsView, x: Seq<u8>) -> bool {
    x.len() == 4096 && forall|i: int| 0 <= i < 1022 ==> part_ok(s, #[trigger] mfs::slot(x, i))
}

/// The further blocks of a directory are in good order.
pub open spec fn ext_ok(s: MfsView, a: Seq<u8>) -> bool {
    mfs_dir::dir_ext(a) == 0 || (mfs_cow::held(s, mfs_dir::dir_ext(a)) && s.load(
        mfs_dir::dir_ext(a),
        MFS_MAGIC_DIDX,
    ) is Some && parts_ok(s, s.load(mfs_dir::dir_ext(a), MFS_MAGIC_DIDX)->Some_0))
}

/// A directory in good order, with node `a`.
pub open spec fn dir_ok(s: MfsView, ino: u32, a: Seq<u8>) -> bool {
    &&& mfs_cow::table_ok(s)
    &&& mfs_cow::good_ino(ino)
    &&& mfs_cow::obj(s, ino) != 0
    &&& mfs_cow::held(s, mfs_cow::obj(s, ino))
    &&& s.load(mfs_cow::obj(s, ino), MFS_MAGIC_DIR) == Some(a)
    &&& mfs_names::wf(a, 56)
    &&& ext_ok(s, a)
}

/// What a further block says of a name.
pub open spec fn part_hit(s: MfsView, b: u32, n: Seq<u8>) -> Option<(u32, u32)> {
    if b == 0 {
        None
    } else {
        mfs_names::hit(s.load(b, MFS_MAGIC_DIR)->Some_0, 56, n)
    }
}

/// What the further blocks from slot `i` on say of a name: the first that has it.
pub open spec fn ext_hit(s: MfsView, x: Seq<u8>, i: int, n: Seq<u8>) -> Option<(u32, u32)>
    decreases 1022 - i,
{
    if i >= 1022 {
        None
    } else {
        match part_hit(s, mfs::slot(x, i), n) {
            Some(h) => Some(h),
            None => ext_hit(s, x, i + 1, n),
        }
    }
}

/// What a directory with node `a` says of a name: the number and the type of the object.
pub open spec fn dir_hit(s: MfsView, a: Seq<u8>, n: Seq<u8>) -> Option<(u32, u32)> {
    match mfs_names::hit(a, 56, n) {
        Some(h) => Some(h),
        None => if mfs_dir::dir_ext(a) == 0 {
            None
        } else {
            ext_hit(s, s.load(mfs_dir::dir_ext(a), MFS_MAGIC_DIDX)->Some_0, 0, n)
        },
    }
}

/// How often a further block has a name.
pub open spec fn part_count(s: MfsView, b: u32, n: Seq<u8>) -> int {
    if b == 0 {
        0
    } else {
        mfs_names::count(s.load(b, MFS_MAGIC_DIR)->Some_0, 56, n)
    }
}

/// How often the further blocks from slot `i` on have a name.
pub open spec fn ext_count(s: MfsView, x: Seq<u8>, i: int, n: Seq<u8>) -> int
    decreases 1022 - i,
{
    if i >= 1022 {
        0
    } else {
        part_count(s, mfs::slot(x, i), n) + ext_count(s, x, i + 1, n)
    }
}

/// How often a directory with node `a` has a name.
pub open spec fn dir_count(s: MfsView, a: Seq<u8>, n: Seq<u8>) -> int {
    mfs_names::count(a, 56, n) + if mfs_dir::dir_ext(a) == 0 {
        0
    } else {
        ext_count(s, s.load(mfs_dir::dir_ext(a), MFS_MAGIC_DIDX)->Some_0, 0, n)
    }
}

/// A name looked for in the further blocks.
proof fn lemma_lookup_ext(s: MfsView, ino: u32, x: Seq<u8>, i: int, n: Seq<u8>)
    requires
        parts_ok(s, x),
        0 <= i,
    ensures
        s.lookup_ext(ino, x, i, n) is Some <==> ext_hit(s, x, i, n) is Some,
        s.lookup_ext(ino, x, i, n) matches Some(loc) ==> ({
            let c = s.load(loc.blk, MFS_MAGIC_DIR)->Some_0;
            &&& loc.dir_ino == ino
            &&& s.load(loc.blk, MFS_MAGIC_DIR) is Some
            &&& loc.blk != 0
            &&& mfs_dir::scan(c, 56, n) == Some(loc.off as int)
            &&& ext_hit(s, x, i, n) == mfs_names::hit(c, 56, n)
            &&& exists|j: int| i <= j < 1022 && #[trigger] mfs::slot(x, j) == loc.blk
        }),
    decreases 1022 - i,
{
    if i < 1022 {
        let blk = mfs::slot(x, i);
        lemma_lookup_ext(s, ino, x, i + 1, n);
        if blk != 0 {
            let c = s.load(blk, MFS_MAGIC_DIR)->Some_0;
            if mfs_dir::scan(c, 56, n) is Some {
                lemma_scan_range(c, 56, n);
            }
        }
    }
}

/// Where an entry can be found.
proof fn lemma_scan_range(b: Seq<u8>, off: int, n: Seq<u8>)
    requires
        0 <= off,
    ensures
        mfs_dir::scan(b, off, n) matches Some(p) ==> off <= p <= 4088,
    decreases 4096 - off,
{
    if off + 8 <= 4096 && !mfs_dir::ent_is(b, off, n) && !mfs_dir::ent_bad(b, off) {
        lemma_scan_range(b, off + mfs_dir::ent_rec(b, off), n);
    }
}

/// Law: a lookup in a directory finds a name exactly where the directory has it, and the
/// entry that it finds names the object and its type.
pub proof fn law_lookup(s: MfsView, ino: u32, a: Seq<u8>, n: Seq<u8>)
    requires
        dir_ok(s, ino, a),
    ensures
        s.dir_lookup(ino, n).1 is Some <==> dir_hit(s, a, n) is Some,
        s.dir_lookup(ino, n).1 matches Some(loc) ==> ({
            let c = s.load(loc.blk, MFS_MAGIC_DIR)->Some_0;
            &&& s.load(loc.blk, MFS_MAGIC_DIR) is Some
            &&& loc.dir_ino == ino
            &&& mfs_dir::scan(c, 56, n) == Some(loc.off as int)
            &&& dir_hit(s, a, n) == Some(
                (mfs_dir::ent_ino(c, loc.off as int), mfs_dir::ent_type(c, loc.off as int)),
            )
        }),
        mfs_cow::same_but_buffer(s, s.dir_lookup(ino, n).0),
        mfs_cow::stable(s, s.dir_lookup(ino, n).0),
{
    reveal(MfsView::dir_lookup);
    mfs_laws::lemma_object(s, ino);
    let t = s.object_block(ino).0;
    mfs_cow::lemma_buffer_only(s, t);
    lemma_scan_range(a, 56, n);
    if mfs_names::hit(a, 56, n) is None && mfs_dir::dir_ext(a) != 0 {
        let x = s.load(mfs_dir::dir_ext(a), MFS_MAGIC_DIDX)->Some_0;
        lemma_lookup_ext(s, ino, x, 0, n);
        lemma_lookup_same(s, t, ino, x, 0, n);
    }
}

/// A lookup does not depend on the buffered table block.
proof fn lemma_lookup_same(s: MfsView, t: MfsView, ino: u32, x: Seq<u8>, i: int, n: Seq<u8>)
    requires
        mfs_cow::same_but_buffer(s, t),
    ensures
        t.lookup_ext(ino, x, i, n) == s.lookup_ext(ino, x, i, n),
    decreases 1022 - i,
{
    if i < 1022 {
        lemma_lookup_same(s, t, ino, x, i + 1, n);
        assert(t.load(mfs::slot(x, i), MFS_MAGIC_DIR) == s.load(mfs::slot(x, i), MFS_MAGIC_DIR));
    }
}

/// What a lookup finds does not depend on the buffered table block.
pub proof fn lemma_lookup_alike(s: MfsView, t: MfsView, ino: u32, a: Seq<u8>, n: Seq<u8>)
    requires
        dir_ok(s, ino, a),
        dir_ok(t, ino, a),
        mfs_cow::same_but_buffer(s, t),
        mfs_cow::obj(t, ino) == mfs_cow::obj(s, ino),
    ensures
        t.dir_lookup(ino, n).1 == s.dir_lookup(ino, n).1,
{
    reveal(MfsView::dir_lookup);
    mfs_laws::lemma_object(s, ino);
    mfs_laws::lemma_object(t, ino);
    let s1 = s.object_block(ino).0;
    let t1 = t.object_block(ino).0;
    assert(mfs_cow::same_but_buffer(s1, t1));
    let base = mfs_cow::obj(s, ino);
    assert(t1.load(base, MFS_MAGIC_DIR) == s1.load(base, MFS_MAGIC_DIR));
    let x = mfs_dir::dir_ext(a);
    assert(t1.load(x, MFS_MAGIC_DIDX) == s1.load(x, MFS_MAGIC_DIDX));
    if s1.load(x, MFS_MAGIC_DIDX) is Some {
        lemma_lookup_same(s1, t1, ino, s1.load(x, MFS_MAGIC_DIDX)->Some_0, 0, n);
    }
}

/// The entry that a scan finds has the name.
pub proof fn lemma_scan_name(b: Seq<u8>, off: int, n: Seq<u8>)
    requires
        mfs_dir::scan(b, off, n) is Some,
    ensures
        mfs_dir::ent_is(b, mfs_dir::scan(b, off, n)->Some_0, n),
    decreases 4096 - off,
{
    if !mfs_dir::ent_is(b, off, n) {
        lemma_scan_name(b, off + mfs_dir::ent_rec(b, off), n);
    }
}

/// A further block stays in good order, and says what it said.
proof fn lemma_part(s: MfsView, t: MfsView, b: u32)
    requires
        mfs_cow::stable(s, t),
        part_ok(s, b),
    ensures
        part_ok(t, b),
        b != 0 ==> t.load(b, MFS_MAGIC_DIR) == s.load(b, MFS_MAGIC_DIR),
        forall|n: Seq<u8>| #[trigger] part_hit(t, b, n) == part_hit(s, b, n),
        forall|n: Seq<u8>| #[trigger] part_count(t, b, n) == part_count(s, b, n),
{
    if b != 0 {
        mfs_laws::lemma_load(s, t, b, MFS_MAGIC_DIR);
    }
}

/// Further blocks stay in good order, and say what they said.
proof fn lemma_parts(s: MfsView, t: MfsView, x: Seq<u8>, i: int, n: Seq<u8>)
    requires
        mfs_cow::stable(s, t),
        parts_ok(s, x),
        0 <= i,
    ensures
        parts_ok(t, x),
        ext_hit(t, x, i, n) == ext_hit(s, x, i, n),
        ext_count(t, x, i, n) == ext_count(s, x, i, n),
    decreases 1022 - i,
{
    assert forall|j: int| 0 <= j < 1022 implies part_ok(t, #[trigger] mfs::slot(x, j)) by {
        lemma_part(s, t, mfs::slot(x, j));
    }
    if i < 1022 {
        lemma_part(s, t, mfs::slot(x, i));
        assert(part_hit(t, mfs::slot(x, i), n) == part_hit(s, mfs::slot(x, i), n));
        assert(part_count(t, mfs::slot(x, i), n) == part_count(s, mfs::slot(x, i), n));
        lemma_parts(s, t, x, i + 1, n);
    }
}

/// The names of a directory stay where what is in use is kept.
pub proof fn lemma_names_elsewhere(s: MfsView, t: MfsView, a: Seq<u8>, n: Seq<u8>)
    requires
        mfs_cow::stable(s, t),
        ext_ok(s, a),
    ensures
        ext_ok(t, a),
        dir_hit(t, a, n) == dir_hit(s, a, n),
        dir_count(t, a, n) == dir_count(s, a, n),
{
    if mfs_dir::dir_ext(a) != 0 {
        mfs_laws::lemma_load(s, t, mfs_dir::dir_ext(a), MFS_MAGIC_DIDX);
        lemma_parts(s, t, s.load(mfs_dir::dir_ext(a), MFS_MAGIC_DIDX)->Some_0, 0, n);
    }
}

/// Law: a directory keeps its names wherever what is in use is kept and its number names the
/// same block.
pub proof fn law_directory_stays(s: MfsView, t: MfsView, ino: u32, a: Seq<u8>, n: Seq<u8>)
    requires
        dir_ok(s, ino, a),
        mfs_cow::stable(s, t),
        mfs_cow::table_ok(t),
        mfs_cow::obj(t, ino) == mfs_cow::obj(s, ino),
    ensures
        dir_ok(t, ino, a),
        dir_hit(t, a, n) == dir_hit(s, a, n),
        dir_count(t, a, n) == dir_count(s, a, n),
{
    mfs_laws::lemma_load(s, t, mfs_cow::obj(s, ino), MFS_MAGIC_DIR);
    lemma_names_elsewhere(s, t, a, n);
}

/// A node with new times has the same names.
proof fn lemma_touched(a: Seq<u8>, now: u64)
    requires
        a.len() == 4096,
    ensures
        mfs_dir::touched(a, true, now).len() == 4096,
        mfs_dir::dir_ext(mfs_dir::touched(a, true, now)) == mfs_dir::dir_ext(a),
        forall|k: int| 56 <= k < 4096 ==> #[trigger] mfs_dir::touched(a, true, now)[k] == a[k],
{
    let b = mfs_dir::touched(a, true, now);
    assert(b[8] == a[8] && b[9] == a[9] && b[10] == a[10] && b[11] == a[11]);
}

/// A sealed block has the same names.
pub proof fn lemma_sealed(a: Seq<u8>, n: Seq<u8>)
    requires
        a.len() == 4096,
        mfs_names::wf(a, 56),
    ensures
        mfs::sealed(a, MFS_MAGIC_DIR).len() == 4096,
        mfs_names::wf(mfs::sealed(a, MFS_MAGIC_DIR), 56),
        mfs_names::hit(mfs::sealed(a, MFS_MAGIC_DIR), 56, n) == mfs_names::hit(a, 56, n),
        mfs_names::count(mfs::sealed(a, MFS_MAGIC_DIR), 56, n) == mfs_names::count(a, 56, n),
        mfs_dir::dir_ext(mfs::sealed(a, MFS_MAGIC_DIR)) == mfs_dir::dir_ext(a),
{
    mfs_cow::lemma_sealed_slots(a, MFS_MAGIC_DIR);
    let c = mfs::sealed(a, MFS_MAGIC_DIR);
    assert forall|k: int| 56 <= k < 4096 implies c[k] == a[k] by {}
    mfs_names::lemma_same_from(a, c, 56, n);
}

/// Which blocks say nothing of a name.
proof fn lemma_ext_none(s: MfsView, x: Seq<u8>, i: int, n: Seq<u8>)
    requires
        0 <= i,
    ensures
        ext_hit(s, x, i, n) is None <==> forall|j: int|
            i <= j < 1022 ==> part_hit(s, #[trigger] mfs::slot(x, j), n) is None,
    decreases 1022 - i,
{
    if i < 1022 {
        lemma_ext_none(s, x, i + 1, n);
        assert(part_hit(s, mfs::slot(x, i), n) is None <==> part_hit(s, mfs::slot(x, i), n) is None);
    }
}

/// Two indexes whose blocks say the same of a name.
proof fn lemma_ext_same(s: MfsView, x: Seq<u8>, t: MfsView, y: Seq<u8>, i: int, n: Seq<u8>)
    requires
        0 <= i,
        forall|j: int|
            i <= j < 1022 ==> part_hit(t, #[trigger] mfs::slot(y, j), n) == part_hit(
                s,
                mfs::slot(x, j),
                n,
            ),
    ensures
        ext_hit(t, y, i, n) == ext_hit(s, x, i, n),
    decreases 1022 - i,
{
    if i < 1022 {
        assert(part_hit(t, mfs::slot(y, i), n) == part_hit(s, mfs::slot(x, i), n));
        lemma_ext_same(s, x, t, y, i + 1, n);
    }
}

/// Two indexes whose blocks have a name as often, but for the block in slot `k`.
proof fn lemma_count_but(
    s: MfsView,
    x: Seq<u8>,
    t: MfsView,
    y: Seq<u8>,
    i: int,
    k: int,
    n: Seq<u8>,
)
    requires
        0 <= i,
        0 <= k < 1022,
        forall|j: int|
            0 <= j < 1022 && j != k ==> part_count(t, #[trigger] mfs::slot(y, j), n) == part_count(
                s,
                mfs::slot(x, j),
                n,
            ),
    ensures
        ext_count(t, y, i, n) == ext_count(s, x, i, n) + if i <= k {
            part_count(t, mfs::slot(y, k), n) - part_count(s, mfs::slot(x, k), n)
        } else {
            0
        },
    decreases 1022 - i,
{
    if i < 1022 {
        if i != k {
            assert(part_count(t, mfs::slot(y, i), n) == part_count(s, mfs::slot(x, i), n));
        }
        lemma_count_but(s, x, t, y, i + 1, k, n);
    }
}

/// How often one further block has a name.
proof fn lemma_part_count(s: MfsView, b: u32, n: Seq<u8>)
    requires
        part_ok(s, b),
    ensures
        part_count(s, b, n) >= 0,
        part_hit(s, b, n) is None <==> part_count(s, b, n) == 0,
{
    if b != 0 {
        mfs_names::lemma_count(s.load(b, MFS_MAGIC_DIR)->Some_0, 56, n);
    }
}

/// A name is found in the further blocks where one of them has it.
pub proof fn lemma_count_all(s: MfsView, x: Seq<u8>, i: int, n: Seq<u8>)
    requires
        parts_ok(s, x),
        0 <= i,
    ensures
        ext_count(s, x, i, n) >= 0,
        ext_hit(s, x, i, n) is None <==> ext_count(s, x, i, n) == 0,
    decreases 1022 - i,
{
    if i < 1022 {
        lemma_part_count(s, mfs::slot(x, i), n);
        lemma_count_all(s, x, i + 1, n);
    }
}

/// The further blocks have a name at least as often as one of them.
proof fn lemma_count_one(s: MfsView, x: Seq<u8>, i: int, p: int, n: Seq<u8>)
    requires
        parts_ok(s, x),
        0 <= i <= p < 1022,
    ensures
        ext_count(s, x, i, n) >= part_count(s, mfs::slot(x, p), n),
    decreases p - i,
{
    lemma_part_count(s, mfs::slot(x, i), n);
    if i < p {
        lemma_count_one(s, x, i + 1, p, n);
    } else {
        lemma_count_all(s, x, i + 1, n);
    }
}

/// The further blocks have a name at least as often as two of them.
proof fn lemma_count_two(s: MfsView, x: Seq<u8>, i: int, p: int, q: int, n: Seq<u8>)
    requires
        parts_ok(s, x),
        0 <= i <= p < q < 1022,
    ensures
        ext_count(s, x, i, n) >= part_count(s, mfs::slot(x, p), n) + part_count(
            s,
            mfs::slot(x, q),
            n,
        ),
    decreases p - i,
{
    lemma_part_count(s, mfs::slot(x, i), n);
    if i < p {
        lemma_count_two(s, x, i + 1, p, q, n);
    } else {
        lemma_count_one(s, x, i + 1, q, n);
    }
}

/// The one block that says something of a name.
proof fn lemma_ext_one(t: MfsView, y: Seq<u8>, i: int, k: int, n: Seq<u8>)
    requires
        0 <= i <= k < 1022,
        forall|j: int|
            i <= j < 1022 && j != k ==> part_hit(t, #[trigger] mfs::slot(y, j), n) is None,
        part_hit(t, mfs::slot(y, k), n) is Some,
    ensures
        ext_hit(t, y, i, n) == part_hit(t, mfs::slot(y, k), n),
    decreases k - i,
{
    if i < k {
        assert(part_hit(t, mfs::slot(y, i), n) is None);
        lemma_ext_one(t, y, i + 1, k, n);
    }
}

/// All objects but `ino` are where they were.
pub open spec fn others_kept(s: MfsView, t: MfsView, ino: u32) -> bool {
    forall|i: u32|
        mfs_cow::good_ino(i) && i != ino ==> #[trigger] mfs_cow::obj(t, i) == mfs_cow::obj(s, i)
}

/// The names of node `a` in `s` with `comp` added, or taken out, are those of node `b` in `t`.
pub open spec fn names_with(
    s: MfsView,
    a: Seq<u8>,
    t: MfsView,
    b: Seq<u8>,
    comp: Seq<u8>,
    v: Option<(u32, u32)>,
) -> bool {
    forall|n: Seq<u8>| #[trigger]
        dir_hit(t, b, n) == if n == comp {
            v
        } else {
            dir_hit(s, a, n)
        }
}

/// Node `b` in `t` has the name `comp` as often as node `a` in `s` has it and `by` times more,
/// and every other name as often.
pub open spec fn counts_with(
    s: MfsView,
    a: Seq<u8>,
    t: MfsView,
    b: Seq<u8>,
    comp: Seq<u8>,
    by: int,
) -> bool {
    forall|n: Seq<u8>| #[trigger]
        dir_count(t, b, n) == dir_count(s, a, n) + if n == comp {
            by
        } else {
            0
        }
}

/// A slot of an index changed, the index and the node committed: the names are those of the
/// node and of the changed index.
proof fn lemma_commit_index(
    s: MfsView,
    ino: u32,
    a: Seq<u8>,
    x: Seq<u8>,
    i: int,
    nb: u32,
) -> (c: Seq<u8>)
    requires
        mfs_cow::table_ok(s),
        mfs_cow::good_ino(ino),
        a.len() == 4096,
        mfs_names::wf(a, 56),
        parts_ok(s, x),
        0 <= i < 1022,
        part_ok(s, nb),
    ensures
        ({
            let y = mfs::with_slot(x, i, nb);
            let (t, ok) = s.commit_index(ino, a, y);
            &&& mfs_cow::stable(s, t)
            &&& ok ==> dir_ok(t, ino, c) && others_kept(s, t, ino)
            &&& ok ==> forall|n: Seq<u8>| #[trigger]
                dir_hit(t, c, n) == match mfs_names::hit(a, 56, n) {
                    Some(h) => Some(h),
                    None => ext_hit(s, y, 0, n),
                }
            &&& ok ==> forall|n: Seq<u8>| #[trigger]
                dir_count(t, c, n) == mfs_names::count(a, 56, n) + ext_count(s, y, 0, n)
        }),
{
    reveal(MfsView::commit_index);
    let y = mfs::with_slot(x, i, nb);
    mfs_cow::lemma_slots(x, i, nb);
    mfs_cow::lemma_sealed_slots(y, MFS_MAGIC_DIDX);
    mfs_cow::lemma_commit(s, y, MFS_MAGIC_DIDX);
    let (s1, r1) = s.commit(y, MFS_MAGIC_DIDX);
    if r1 is Some {
        let b = r1->Some_0;
        let z = mfs::sealed(y, MFS_MAGIC_DIDX);
        mfs_cow::lemma_obj_stable(s, s1);
        let d = bytes::put32(a, 8, b);
        bytes::law_put32_reads_back(a, 8, b);
        assert forall|k: int| 56 <= k < 4096 implies d[k] == a[k] by {}
        mfs_names::lemma_same_from(a, d, 56, Seq::empty());
        lemma_sealed(d, Seq::empty());
        let c = mfs::sealed(d, MFS_MAGIC_DIR);
        mfs_cow::lemma_commit_object(s1, ino, d, MFS_MAGIC_DIR);
        let (t, ok) = s1.commit_object(ino, d, MFS_MAGIC_DIR);
        mfs_cow::lemma_stable_trans(s, s1, t);
        if ok {
            assert(mfs_cow::held(s1, b));
            mfs_laws::lemma_load(s1, t, b, MFS_MAGIC_DIDX);
            assert(t.load(b, MFS_MAGIC_DIDX) == Some(z));
            assert forall|j: int| 0 <= j < 1022 implies part_ok(s, #[trigger] mfs::slot(z, j)) by {
                assert(mfs::slot(z, j) == mfs::slot(y, j));
                if j != i {
                    assert(mfs::slot(y, j) == mfs::slot(x, j));
                }
            }
            lemma_parts(s, t, z, 0, Seq::empty());
            assert(dir_ok(t, ino, c));
            assert forall|n: Seq<u8>| #[trigger] dir_hit(t, c, n) == match mfs_names::hit(
                a,
                56,
                n,
            ) {
                Some(h) => Some(h),
                None => ext_hit(s, y, 0, n),
            } by {
                mfs_names::lemma_same_from(a, d, 56, n);
                lemma_sealed(d, n);
                lemma_parts(s, t, z, 0, n);
                assert forall|j: int| 0 <= j < 1022 implies part_hit(
                    s,
                    #[trigger] mfs::slot(z, j),
                    n,
                ) == part_hit(s, mfs::slot(y, j), n) by {
                    assert(mfs::slot(z, j) == mfs::slot(y, j));
                }
                lemma_ext_same(s, y, s, z, 0, n);
            }
            assert forall|n: Seq<u8>| #[trigger] dir_count(t, c, n) == mfs_names::count(a, 56, n)
                + ext_count(s, y, 0, n) by {
                mfs_names::lemma_same_from(a, d, 56, n);
                lemma_sealed(d, n);
                lemma_parts(s, t, z, 0, n);
                assert forall|j: int| 0 <= j < 1022 && j != 0 implies part_count(
                    s,
                    #[trigger] mfs::slot(z, j),
                    n,
                ) == part_count(s, mfs::slot(y, j), n) by {
                    assert(mfs::slot(z, j) == mfs::slot(y, j));
                }
                assert(mfs::slot(z, 0) == mfs::slot(y, 0));
                lemma_count_but(s, y, s, z, 0, 0, n);
            }
            assert forall|q: u32| mfs_cow::good_ino(q) && q != ino implies #[trigger] mfs_cow::obj(
                t,
                q,
            ) == mfs_cow::obj(s, q) by {
                assert(mfs_cow::obj(t, q) == mfs_cow::obj(s1, q));
            }
        }
        c
    } else {
        a
    }
}

/// A further block with room.
proof fn lemma_room(s: MfsView, x: Seq<u8>, i: int, need: int)
    requires
        0 <= i,
    ensures
        s.ext_room(x, i, need) matches Some((j, c, off)) ==> i <= j < 1022 && mfs::slot(x, j) != 0
            && s.load(mfs::slot(x, j), MFS_MAGIC_DIR) == Some(c) && mfs_dir::slot_for(c, 56, need)
            == Some(off),
    decreases 1022 - i,
{
    if i < 1022 {
        lemma_room(s, x, i + 1, need);
    }
}

/// The first slot with a value.
proof fn lemma_slot_with(b: Seq<u8>, i: int, v: u32)
    requires
        0 <= i,
    ensures
        match mfs_dir::slot_with(b, i, v) {
            Some(j) => i <= j < 1022 && mfs::slot(b, j) == v,
            None => forall|j: int| i <= j < 1022 ==> #[trigger] mfs::slot(b, j) != v,
        },
    decreases 1022 - i,
{
    if i < 1022 && mfs::slot(b, i) != v {
        lemma_slot_with(b, i + 1, v);
    }
}

/// A new block for slot `i`, which says of `comp` what is wanted and of every other name what
/// the old one said, committed with the index and the node.
proof fn lemma_put_part(
    s: MfsView,
    ino: u32,
    a: Seq<u8>,
    x: Seq<u8>,
    i: int,
    d: Seq<u8>,
    comp: Seq<u8>,
    v: Option<(u32, u32)>,
) -> (c: Seq<u8>)
    requires
        mfs_cow::table_ok(s),
        mfs_cow::good_ino(ino),
        a.len() == 4096,
        mfs_names::wf(a, 56),
        mfs_names::hit(a, 56, comp) is None,
        parts_ok(s, x),
        0 <= i < 1022,
        d.len() == 4096,
        mfs_names::wf(d, 56),
        forall|n: Seq<u8>| #[trigger]
            mfs_names::hit(d, 56, n) == if n == comp {
                v
            } else {
                part_hit(s, mfs::slot(x, i), n)
            },
        forall|n: Seq<u8>| #[trigger]
            mfs_names::count(d, 56, n) == part_count(s, mfs::slot(x, i), n) + if n == comp {
                1int
            } else {
                0
            },
        forall|j: int|
            0 <= j < 1022 && j != i ==> part_hit(s, #[trigger] mfs::slot(x, j), comp) is None,
        s.commit(d, MFS_MAGIC_DIR).1 is Some,
    ensures
        ({
            let (s1, r1) = s.commit(d, MFS_MAGIC_DIR);
            let (t, ok) = s1.commit_index(ino, a, mfs::with_slot(x, i, r1->Some_0));
            &&& mfs_cow::stable(s, t)
            &&& ok ==> dir_ok(t, ino, c) && others_kept(s, t, ino)
            &&& ok ==> forall|n: Seq<u8>| #[trigger]
                dir_hit(t, c, n) == if n == comp {
                    v
                } else {
                    match mfs_names::hit(a, 56, n) {
                        Some(h) => Some(h),
                        None => ext_hit(s, x, 0, n),
                    }
                }
            &&& ok ==> forall|n: Seq<u8>| #[trigger]
                dir_count(t, c, n) == mfs_names::count(a, 56, n) + ext_count(s, x, 0, n) + if n
                    == comp {
                    1int
                } else {
                    0
                }
        }),
{
    mfs_cow::lemma_commit(s, d, MFS_MAGIC_DIR);
    let (s1, r1) = s.commit(d, MFS_MAGIC_DIR);
    let nb = r1->Some_0;
    let y = mfs::with_slot(x, i, nb);
    mfs_cow::lemma_slots(x, i, nb);
    mfs_cow::lemma_obj_stable(s, s1);
    lemma_parts(s, s1, x, 0, comp);
    lemma_sealed(d, comp);
    assert(part_ok(s1, nb));
    let c = lemma_commit_index(s1, ino, a, x, i, nb);
    let (t, ok) = s1.commit_index(ino, a, y);
    mfs_cow::lemma_stable_trans(s, s1, t);
    if ok {
        assert forall|n: Seq<u8>| #[trigger] dir_hit(t, c, n) == if n == comp {
            v
        } else {
            match mfs_names::hit(a, 56, n) {
                Some(h) => Some(h),
                None => ext_hit(s, x, 0, n),
            }
        } by {
            lemma_sealed(d, n);
            assert(part_hit(s1, nb, n) == mfs_names::hit(d, 56, n));
            assert forall|j: int| 0 <= j < 1022 && j != i implies part_hit(
                s1,
                #[trigger] mfs::slot(y, j),
                n,
            ) == part_hit(s, mfs::slot(x, j), n) by {
                assert(mfs::slot(y, j) == mfs::slot(x, j));
                lemma_part(s, s1, mfs::slot(x, j));
                assert(part_hit(s1, mfs::slot(x, j), n) == part_hit(s, mfs::slot(x, j), n));
            }
            if n == comp {
                assert forall|j: int| 0 <= j < 1022 && j != i implies part_hit(
                    s1,
                    #[trigger] mfs::slot(y, j),
                    n,
                ) is None by {
                    assert(part_hit(s, mfs::slot(x, j), comp) is None);
                }
                if v is Some {
                    lemma_ext_one(s1, y, 0, i, n);
                } else {
                    lemma_ext_none(s1, y, 0, n);
                }
            } else {
                lemma_ext_same(s, x, s1, y, 0, n);
            }
        }
        assert forall|n: Seq<u8>| #[trigger] dir_count(t, c, n) == mfs_names::count(a, 56, n)
            + ext_count(s, x, 0, n) + if n == comp {
            1int
        } else {
            0
        } by {
            lemma_sealed(d, n);
            assert(part_count(s1, nb, n) == mfs_names::count(d, 56, n));
            assert forall|j: int| 0 <= j < 1022 && j != i implies part_count(
                s1,
                #[trigger] mfs::slot(y, j),
                n,
            ) == part_count(s, mfs::slot(x, j), n) by {
                assert(mfs::slot(y, j) == mfs::slot(x, j));
                lemma_part(s, s1, mfs::slot(x, j));
                assert(part_count(s1, mfs::slot(x, j), n) == part_count(s, mfs::slot(x, j), n));
            }
            lemma_count_but(s, x, s1, y, 0, i, n);
        }
        assert forall|q: u32| mfs_cow::good_ino(q) && q != ino implies #[trigger] mfs_cow::obj(t, q)
            == mfs_cow::obj(s, q) by {
            assert(mfs_cow::obj(t, q) == mfs_cow::obj(s1, q));
        }
    }
    c
}

/// An entry put into a further block.
proof fn lemma_insert_ext(
    s: MfsView,
    ino: u32,
    a: Seq<u8>,
    x: Seq<u8>,
    comp: Seq<u8>,
    child: u32,
    typ: u32,
) -> (c: Seq<u8>)
    requires
        mfs_cow::table_ok(s),
        mfs_cow::good_ino(ino),
        a.len() == 4096,
        mfs_names::wf(a, 56),
        mfs_names::hit(a, 56, comp) is None,
        parts_ok(s, x),
        ext_hit(s, x, 0, comp) is None,
        0 < comp.len() <= 255,
        typ < 256,
    ensures
        ({
            let (t, ok) = s.insert_ext(ino, a, x, comp, child, typ);
            &&& mfs_cow::stable(s, t)
            &&& ok ==> dir_ok(t, ino, c) && others_kept(s, t, ino)
            &&& ok ==> forall|n: Seq<u8>| #[trigger]
                dir_hit(t, c, n) == if n == comp {
                    Some((child, typ))
                } else {
                    match mfs_names::hit(a, 56, n) {
                        Some(h) => Some(h),
                        None => ext_hit(s, x, 0, n),
                    }
                }
            &&& ok ==> forall|n: Seq<u8>| #[trigger]
                dir_count(t, c, n) == mfs_names::count(a, 56, n) + ext_count(s, x, 0, n) + if n
                    == comp {
                    1int
                } else {
                    0
                }
        }),
{
    reveal(MfsView::insert_ext);
    let need = mfs_dir::ent_need(comp.len() as int);
    lemma_room(s, x, 0, need);
    lemma_ext_none(s, x, 0, comp);
    mfs_cow::lemma_stable_refl(s);
    match s.ext_room(x, 0, need) {
        Some((i, b, off)) => {
            let d = mfs_dir::placed(b, off, comp, child, typ);
            assert(part_ok(s, mfs::slot(x, i)));
            mfs_cow::lemma_block_len(s, mfs::slot(x, i));
            assert(part_hit(s, mfs::slot(x, i), comp) is None);
            mfs_names::law_placed_is_found(b, comp, child, typ, off, comp);
            mfs_cow::lemma_commit(s, d, MFS_MAGIC_DIR);
            if s.commit(d, MFS_MAGIC_DIR).1 is Some {
                assert forall|n: Seq<u8>| #[trigger] mfs_names::hit(d, 56, n) == if n == comp {
                    Some((child, typ))
                } else {
                    part_hit(s, mfs::slot(x, i), n)
                } by {
                    mfs_names::law_placed_is_found(b, comp, child, typ, off, n);
                }
                assert forall|n: Seq<u8>| #[trigger] mfs_names::count(d, 56, n) == part_count(
                    s,
                    mfs::slot(x, i),
                    n,
                ) + if n == comp {
                    1int
                } else {
                    0
                } by {
                    mfs_names::law_placed_is_found(b, comp, child, typ, off, n);
                }
                lemma_put_part(s, ino, a, x, i, d, comp, Some((child, typ)))
            } else {
                a
            }
        },
        None => {
            let b = mfs_dir::empty_dir(bytes::zeros(4096));
            mfs_names::law_empty_has_none(bytes::zeros(4096), comp);
            match mfs_dir::slot_for(b, 56, need) {
                None => a,
                Some(off) => {
                    let d = mfs_dir::placed(b, off, comp, child, typ);
                    mfs_names::law_placed_is_found(b, comp, child, typ, off, comp);
                    mfs_cow::lemma_commit(s, d, MFS_MAGIC_DIR);
                    lemma_slot_with(x, 0, 0);
                    if s.commit(d, MFS_MAGIC_DIR).1 is Some && mfs_dir::slot_with(x, 0, 0) is Some {
                        let i = mfs_dir::slot_with(x, 0, 0)->Some_0;
                        assert forall|n: Seq<u8>| #[trigger] mfs_names::hit(d, 56, n) == if n
                            == comp {
                            Some((child, typ))
                        } else {
                            part_hit(s, mfs::slot(x, i), n)
                        } by {
                            mfs_names::law_empty_has_none(bytes::zeros(4096), n);
                            mfs_names::law_placed_is_found(b, comp, child, typ, off, n);
                        }
                        assert forall|n: Seq<u8>| #[trigger] mfs_names::count(d, 56, n)
                            == part_count(s, mfs::slot(x, i), n) + if n == comp {
                            1int
                        } else {
                            0
                        } by {
                            mfs_names::law_empty_has_none(bytes::zeros(4096), n);
                            mfs_names::law_placed_is_found(b, comp, child, typ, off, n);
                        }
                        lemma_put_part(s, ino, a, x, i, d, comp, Some((child, typ)))
                    } else {
                        a
                    }
                },
            }
        },
    }
}

/// Law: a name inserted into a directory that does not have it is found there, with its
/// object and its type. Every other name there is as before, and every other object is where
/// it was.
pub proof fn law_inserted_is_found(
    s: MfsView,
    ino: u32,
    a: Seq<u8>,
    comp: Seq<u8>,
    child: u32,
    typ: u32,
) -> (c: Seq<u8>)
    requires
        dir_ok(s, ino, a),
        dir_hit(s, a, comp) is None,
        typ < 256,
        s.dir_insert(ino, comp, child, typ).1,
    ensures
        ({
            let t = s.dir_insert(ino, comp, child, typ).0;
            &&& mfs_cow::stable(s, t)
            &&& dir_ok(t, ino, c)
            &&& names_with(s, a, t, c, comp, Some((child, typ)))
            &&& counts_with(s, a, t, c, comp, 1)
            &&& others_kept(s, t, ino)
        }),
{
    reveal(MfsView::dir_insert);
    mfs_laws::lemma_object(s, ino);
    let s1 = s.object_block(ino).0;
    mfs_cow::lemma_buffer_only(s, s1);
    law_directory_stays(s, s1, ino, a, comp);
    mfs_cow::lemma_block_len(s, mfs_cow::obj(s, ino));
    let b = mfs_dir::touched(a, true, s1.now);
    lemma_touched(a, s1.now);
    mfs_names::lemma_same_from(a, b, 56, comp);
    let t = s.dir_insert(ino, comp, child, typ).0;
    let need = mfs_dir::ent_need(comp.len() as int);
    match mfs_dir::slot_for(b, 56, need) {
        Some(off) => {
            let d = mfs_dir::placed(b, off, comp, child, typ);
            mfs_names::law_placed_is_found(b, comp, child, typ, off, comp);
            lemma_sealed(d, comp);
            mfs_cow::lemma_commit_object(s1, ino, d, MFS_MAGIC_DIR);
            mfs_cow::lemma_stable_trans(s, s1, t);
            let c = mfs::sealed(d, MFS_MAGIC_DIR);
            assert(mfs_dir::dir_ext(d) == mfs_dir::dir_ext(b)) by {
                assert(d[8] == b[8] && d[9] == b[9] && d[10] == b[10] && d[11] == b[11]);
            }
            lemma_names_elsewhere(s1, t, a, comp);
            assert(dir_ok(t, ino, c));
            assert forall|n: Seq<u8>| #[trigger] dir_hit(t, c, n) == if n == comp {
                Some((child, typ))
            } else {
                dir_hit(s, a, n)
            } by {
                mfs_names::law_placed_is_found(b, comp, child, typ, off, n);
                lemma_sealed(d, n);
                mfs_names::lemma_same_from(a, b, 56, n);
                law_directory_stays(s, s1, ino, a, n);
                lemma_names_elsewhere(s1, t, a, n);
            }
            assert forall|n: Seq<u8>| #[trigger] dir_count(t, c, n) == dir_count(s, a, n) + if n
                == comp {
                1int
            } else {
                0
            } by {
                mfs_names::law_placed_is_found(b, comp, child, typ, off, n);
                lemma_sealed(d, n);
                mfs_names::lemma_same_from(a, b, 56, n);
                law_directory_stays(s, s1, ino, a, n);
                lemma_names_elsewhere(s1, t, a, n);
            }
            lemma_others(s, s1, t, ino);
            c
        },
        None => if mfs_dir::dir_ext(b) == 0 {
            let z = bytes::zeros(4096);
            mfs_cow::lemma_zero_slots();
            mfs_cow::lemma_commit(s1, z, MFS_MAGIC_DIDX);
            mfs_cow::lemma_sealed_slots(z, MFS_MAGIC_DIDX);
            let (s2, r2) = s1.commit(z, MFS_MAGIC_DIDX);
            let nx = r2->Some_0;
            let x = mfs::sealed(z, MFS_MAGIC_DIDX);
            let d = bytes::put32(b, 8, nx);
            assert forall|k: int| 56 <= k < 4096 implies d[k] == b[k] by {}
            mfs_names::lemma_same_from(b, d, 56, comp);
            mfs_cow::lemma_obj_stable(s1, s2);
            assert forall|j: int| 0 <= j < 1022 implies #[trigger] mfs::slot(x, j) == 0 by {
                assert(mfs::slot(z, j) == 0);
            }
            lemma_ext_none(s2, x, 0, comp);
            let c = lemma_insert_ext(s2, ino, d, x, comp, child, typ);
            mfs_cow::lemma_stable_trans(s, s1, s2);
            mfs_cow::lemma_stable_trans(s, s2, t);
            assert forall|n: Seq<u8>| #[trigger] dir_hit(t, c, n) == if n == comp {
                Some((child, typ))
            } else {
                dir_hit(s, a, n)
            } by {
                lemma_ext_none(s2, x, 0, n);
                mfs_names::lemma_same_from(a, b, 56, n);
                mfs_names::lemma_same_from(b, d, 56, n);
            }
            assert forall|n: Seq<u8>| #[trigger] dir_count(t, c, n) == dir_count(s, a, n) + if n
                == comp {
                1int
            } else {
                0
            } by {
                lemma_ext_none(s2, x, 0, n);
                lemma_count_all(s2, x, 0, n);
                mfs_names::lemma_same_from(a, b, 56, n);
                mfs_names::lemma_same_from(b, d, 56, n);
            }
            lemma_others(s1, s2, t, ino);
            lemma_others(s, s1, t, ino);
            c
        } else {
            let x = s1.load(mfs_dir::dir_ext(a), MFS_MAGIC_DIDX)->Some_0;
            let c = lemma_insert_ext(s1, ino, b, x, comp, child, typ);
            mfs_cow::lemma_stable_trans(s, s1, t);
            assert forall|n: Seq<u8>| #[trigger] dir_hit(t, c, n) == if n == comp {
                Some((child, typ))
            } else {
                dir_hit(s, a, n)
            } by {
                law_directory_stays(s, s1, ino, a, n);
                mfs_names::lemma_same_from(a, b, 56, n);
            }
            assert forall|n: Seq<u8>| #[trigger] dir_count(t, c, n) == dir_count(s, a, n) + if n
                == comp {
                1int
            } else {
                0
            } by {
                law_directory_stays(s, s1, ino, a, n);
                mfs_names::lemma_same_from(a, b, 56, n);
            }
            lemma_others(s, s1, t, ino);
            c
        },
    }
}

/// Objects kept one after the other.
proof fn lemma_others(s: MfsView, t: MfsView, u: MfsView, ino: u32)
    requires
        forall|i: u32|
            mfs_cow::good_ino(i) ==> #[trigger] mfs_cow::obj(t, i) == mfs_cow::obj(s, i),
        others_kept(t, u, ino),
    ensures
        others_kept(s, u, ino),
{
    assert forall|i: u32| mfs_cow::good_ino(i) && i != ino implies #[trigger] mfs_cow::obj(u, i)
        == mfs_cow::obj(s, i) by {
        assert(mfs_cow::obj(u, i) == mfs_cow::obj(t, i));
        assert(mfs_cow::obj(t, i) == mfs_cow::obj(s, i));
    }
}

/// A block has a name once at most.
pub open spec fn single(b: Seq<u8>, n: Seq<u8>) -> bool {
    mfs_dir::scan(b, 56, n) matches Some(at) ==> mfs_names::hit(
        b,
        at + mfs_dir::ent_rec(b, at),
        n,
    ) is None
}

/// A directory has a name once at most.
#[verifier::opaque]
pub open spec fn once(s: MfsView, a: Seq<u8>, n: Seq<u8>) -> bool {
    dir_count(s, a, n) <= 1
}

/// Where a directory has a name once at most: no block has it twice, no two blocks have it.
proof fn lemma_once(s: MfsView, a: Seq<u8>, n: Seq<u8>)
    requires
        mfs_names::wf(a, 56),
        ext_ok(s, a),
        once(s, a, n),
    ensures
        single(a, n),
        mfs_dir::dir_ext(a) != 0 ==> ({
            let x = s.load(mfs_dir::dir_ext(a), MFS_MAGIC_DIDX)->Some_0;
            &&& mfs_names::hit(a, 56, n) is Some ==> ext_hit(s, x, 0, n) is None
            &&& forall|i: int|
                0 <= i < 1022 && #[trigger] mfs::slot(x, i) != 0 ==> single(
                    s.load(mfs::slot(x, i), MFS_MAGIC_DIR)->Some_0,
                    n,
                )
            &&& forall|i: int, j: int|
                0 <= i < 1022 && 0 <= j < 1022 && i != j && part_hit(
                    s,
                    #[trigger] mfs::slot(x, i),
                    n,
                ) is Some ==> part_hit(s, #[trigger] mfs::slot(x, j), n) is None
        }),
{
    reveal(once);
    lemma_single(a, n);
    mfs_names::lemma_count(a, 56, n);
    if mfs_dir::dir_ext(a) != 0 {
        let x = s.load(mfs_dir::dir_ext(a), MFS_MAGIC_DIDX)->Some_0;
        lemma_count_all(s, x, 0, n);
        assert forall|i: int| 0 <= i < 1022 && #[trigger] mfs::slot(x, i) != 0 implies single(
            s.load(mfs::slot(x, i), MFS_MAGIC_DIR)->Some_0,
            n,
        ) by {
            assert(part_ok(s, mfs::slot(x, i)));
            lemma_count_one(s, x, 0, i, n);
            lemma_single(s.load(mfs::slot(x, i), MFS_MAGIC_DIR)->Some_0, n);
        }
        assert forall|i: int, j: int|
            0 <= i < 1022 && 0 <= j < 1022 && i != j && part_hit(
                s,
                #[trigger] mfs::slot(x, i),
                n,
            ) is Some implies part_hit(s, #[trigger] mfs::slot(x, j), n) is None by {
            assert(part_ok(s, mfs::slot(x, i)));
            assert(part_ok(s, mfs::slot(x, j)));
            lemma_part_count(s, mfs::slot(x, i), n);
            lemma_part_count(s, mfs::slot(x, j), n);
            if i < j {
                lemma_count_two(s, x, 0, i, j, n);
            } else {
                lemma_count_two(s, x, 0, j, i, n);
            }
        }
    }
}

/// A block with a name once at most.
proof fn lemma_single(b: Seq<u8>, n: Seq<u8>)
    requires
        mfs_names::wf(b, 56),
    ensures
        single(b, n) <==> mfs_names::count(b, 56, n) <= 1,
{
    mfs_names::lemma_count(b, 56, n);
    match mfs_dir::scan(b, 56, n) {
        Some(at) => {
            mfs_names::lemma_count(b, at + mfs_dir::ent_rec(b, at), n);
        },
        None => {},
    }
}

/// A directory has a name where it is found.
pub proof fn lemma_dir_count(s: MfsView, a: Seq<u8>, n: Seq<u8>)
    requires
        mfs_names::wf(a, 56),
        ext_ok(s, a),
    ensures
        dir_count(s, a, n) >= 0,
        dir_hit(s, a, n) is None <==> dir_count(s, a, n) == 0,
{
    mfs_names::lemma_count(a, 56, n);
    if mfs_dir::dir_ext(a) != 0 {
        lemma_count_all(s, s.load(mfs_dir::dir_ext(a), MFS_MAGIC_DIDX)->Some_0, 0, n);
    }
}

/// Law: names stay unique. Where a directory has a name once at most it still does after
/// another name, or this one where it was missing, was inserted.
pub proof fn law_inserted_stays_once(
    s: MfsView,
    ino: u32,
    a: Seq<u8>,
    comp: Seq<u8>,
    child: u32,
    typ: u32,
    n: Seq<u8>,
) -> (c: Seq<u8>)
    requires
        dir_ok(s, ino, a),
        dir_hit(s, a, comp) is None,
        once(s, a, n),
        typ < 256,
        s.dir_insert(ino, comp, child, typ).1,
    ensures
        dir_ok(s.dir_insert(ino, comp, child, typ).0, ino, c),
        once(s.dir_insert(ino, comp, child, typ).0, c, n),
{
    reveal(once);
    lemma_dir_count(s, a, comp);
    let c = law_inserted_is_found(s, ino, a, comp, child, typ);
    let t = s.dir_insert(ino, comp, child, typ).0;
    assert(dir_count(t, c, n) <= 1);
    c
}

/// Law: names stay unique. Where a directory has a name once at most it still does after a
/// name was deleted.
pub proof fn law_deleted_stays_once(
    s: MfsView,
    s1: MfsView,
    ino: u32,
    a: Seq<u8>,
    comp: Seq<u8>,
    n: Seq<u8>,
) -> (c: Seq<u8>)
    requires
        dir_ok(s, ino, a),
        once(s, a, comp),
        once(s, a, n),
        mfs_cow::same_but_buffer(s, s1),
        mfs_cow::table_ok(s1),
        mfs_cow::stable(s, s1),
        s.dir_lookup(ino, comp).1 matches Some(loc) && s1.dir_delete(loc).1,
    ensures
        ({
            let t = s1.dir_delete(s.dir_lookup(ino, comp).1->Some_0).0;
            dir_ok(t, ino, c) && once(t, c, n)
        }),
{
    reveal(once);
    let c = law_deleted_is_gone(s, s1, ino, a, comp);
    let t = s1.dir_delete(s.dir_lookup(ino, comp).1->Some_0).0;
    assert(dir_count(t, c, n) <= 1);
    c
}

/// Law: names stay unique. An empty directory block, which is what a new directory and a new
/// volume start with, has no name at all.
pub proof fn law_empty_is_once(s: MfsView, b: Seq<u8>, n: Seq<u8>)
    requires
        b.len() == 4096,
    ensures
        once(s, mfs_dir::empty_dir(b), n),
{
    reveal(once);
    mfs_names::law_empty_has_none(b, n);
    let c = mfs_dir::empty_dir(b);
    assert(c[8] == 0 && c[9] == 0 && c[10] == 0 && c[11] == 0);
}

/// Law: a name deleted from a directory that has it once is not found there any more. Every
/// other name there is as before, and every other object is where it was. (`s1` is the state
/// in which the entry that was looked up in `s` is deleted: other objects may have been looked
/// up in between.)
pub proof fn law_deleted_is_gone(s: MfsView, s1: MfsView, ino: u32, a: Seq<u8>, comp: Seq<u8>) -> (
    c: Seq<u8>)
    requires
        dir_ok(s, ino, a),
        once(s, a, comp),
        mfs_cow::same_but_buffer(s, s1),
        mfs_cow::table_ok(s1),
        mfs_cow::stable(s, s1),
        s.dir_lookup(ino, comp).1 matches Some(loc) && s1.dir_delete(loc).1,
    ensures
        ({
            let t = s1.dir_delete(s.dir_lookup(ino, comp).1->Some_0).0;
            &&& mfs_cow::stable(s, t)
            &&& dir_ok(t, ino, c)
            &&& names_with(s, a, t, c, comp, None)
            &&& counts_with(s, a, t, c, comp, -1)
            &&& others_kept(s, t, ino)
        }),
{
    law_lookup(s, ino, a, comp);
    let loc = s.dir_lookup(ino, comp).1->Some_0;
    mfs_cow::lemma_buffer_only(s, s1);
    law_directory_stays(s, s1, ino, a, comp);
    mfs_cow::lemma_block_len(s, mfs_cow::obj(s, ino));
    let t = s1.dir_delete(loc).0;
    lemma_once_same(s, s1, a, comp);
    let c = if mfs_names::hit(a, 56, comp) is Some {
        lemma_found_in_node(s, ino, a, comp);
        assert(loc == (MfsLoc { dir_ino: ino, blk: mfs_cow::obj(s1, ino), off: loc.off }));
        lemma_scan_range(a, 56, comp);
        lemma_delete_base(s1, ino, a, comp, loc.off as int)
    } else {
        lemma_found_in_part(s, ino, a, comp);
        assert(s1.load(loc.blk, MFS_MAGIC_DIR) == s.load(loc.blk, MFS_MAGIC_DIR));
        assert(s1.load(mfs_dir::dir_ext(a), MFS_MAGIC_DIDX) == s.load(
            mfs_dir::dir_ext(a),
            MFS_MAGIC_DIDX,
        ));
        lemma_delete_part(s1, ino, a, comp, loc)
    };
    mfs_cow::lemma_stable_trans(s, s1, t);
    assert forall|n: Seq<u8>| #[trigger] dir_hit(t, c, n) == if n == comp {
        None
    } else {
        dir_hit(s, a, n)
    } by {
        law_directory_stays(s, s1, ino, a, n);
        assert(names_with(s1, a, t, c, comp, None));
    }
    assert forall|n: Seq<u8>| #[trigger] dir_count(t, c, n) == dir_count(s, a, n) + if n == comp {
        -1int
    } else {
        0
    } by {
        law_directory_stays(s, s1, ino, a, n);
        assert(counts_with(s1, a, t, c, comp, -1));
    }
    lemma_others(s, s1, t, ino);
    c
}

/// A lookup keeps the inode table.
pub proof fn lemma_lookup_table(s: MfsView, ino: u32, a: Seq<u8>, comp: Seq<u8>)
    requires
        dir_ok(s, ino, a),
    ensures
        mfs_cow::table_ok(s.dir_lookup(ino, comp).0),
        s.dir_lookup(ino, comp).0 == s.object_block(ino).0,
{
    reveal(MfsView::dir_lookup);
    mfs_laws::lemma_object(s, ino);
}

/// A name that the node has is found in the node.
proof fn lemma_found_in_node(s: MfsView, ino: u32, a: Seq<u8>, comp: Seq<u8>)
    requires
        dir_ok(s, ino, a),
        mfs_names::hit(a, 56, comp) is Some,
    ensures
        s.dir_lookup(ino, comp).1 matches Some(loc) && loc.blk == mfs_cow::obj(s, ino)
            && loc.dir_ino == ino && mfs_dir::scan(a, 56, comp) == Some(loc.off as int),
{
    reveal(MfsView::dir_lookup);
    mfs_laws::lemma_object(s, ino);
    mfs_cow::lemma_buffer_only(s, s.object_block(ino).0);
    lemma_scan_range(a, 56, comp);
}

/// A name that the node does not have is found in a further block.
proof fn lemma_found_in_part(s: MfsView, ino: u32, a: Seq<u8>, comp: Seq<u8>)
    requires
        dir_ok(s, ino, a),
        mfs_names::hit(a, 56, comp) is None,
        s.dir_lookup(ino, comp).1 is Some,
    ensures
        ({
            let loc = s.dir_lookup(ino, comp).1->Some_0;
            let x = s.load(mfs_dir::dir_ext(a), MFS_MAGIC_DIDX)->Some_0;
            let b = s.load(loc.blk, MFS_MAGIC_DIR)->Some_0;
            &&& mfs_dir::dir_ext(a) != 0
            &&& loc.dir_ino == ino
            &&& loc.blk != 0
            &&& s.load(loc.blk, MFS_MAGIC_DIR) is Some
            &&& mfs_dir::scan(b, 56, comp) == Some(loc.off as int)
            &&& exists|j: int| 0 <= j < 1022 && #[trigger] mfs::slot(x, j) == loc.blk
        }),
{
    reveal(MfsView::dir_lookup);
    mfs_laws::lemma_object(s, ino);
    let t = s.object_block(ino).0;
    mfs_cow::lemma_buffer_only(s, t);
    if mfs_dir::dir_ext(a) != 0 {
        let x = s.load(mfs_dir::dir_ext(a), MFS_MAGIC_DIDX)->Some_0;
        lemma_lookup_ext(s, ino, x, 0, comp);
        lemma_lookup_same(s, t, ino, x, 0, comp);
    }
}

/// Names are there once whatever table block is buffered.
pub proof fn lemma_once_same(s: MfsView, t: MfsView, a: Seq<u8>, n: Seq<u8>)
    requires
        once(s, a, n),
        ext_ok(s, a),
        mfs_cow::stable(s, t),
        mfs_cow::same_but_buffer(s, t),
    ensures
        once(t, a, n),
{
    reveal(once);
    lemma_names_elsewhere(s, t, a, n);
}

/// A name taken out of the node of a directory.
proof fn lemma_delete_base(s: MfsView, ino: u32, a: Seq<u8>, comp: Seq<u8>, at: int) -> (c: Seq<u8>)
    requires
        dir_ok(s, ino, a),
        a.len() == 4096,
        0 <= at < 4096,
        mfs_dir::scan(a, 56, comp) == Some(at),
        once(s, a, comp),
        s.dir_delete(
            (MfsLoc { dir_ino: ino, blk: mfs_cow::obj(s, ino), off: at as usize }),
        ).1,
    ensures
        ({
            let loc = MfsLoc { dir_ino: ino, blk: mfs_cow::obj(s, ino), off: at as usize };
            let t = s.dir_delete(loc).0;
            &&& mfs_cow::stable(s, t)
            &&& dir_ok(t, ino, c)
            &&& names_with(s, a, t, c, comp, None)
            &&& counts_with(s, a, t, c, comp, -1)
            &&& others_kept(s, t, ino)
        }),
{
    lemma_once(s, a, comp);
    reveal(MfsView::dir_delete);
    reveal(MfsView::store_loc);
    let loc = MfsLoc { dir_ino: ino, blk: mfs_cow::obj(s, ino), off: at as usize };
    mfs_names::law_removed_is_gone(a, comp, at, comp);
    let d = mfs_dir::without(a, at)->Some_0;
    mfs_cow::lemma_ino_block(s, ino);
    let s1 = s.ino_block(ino).0;
    mfs_cow::lemma_buffer_only(s, s1);
    let e = mfs_dir::touched(d, true, s1.now);
    lemma_touched(d, s1.now);
    mfs_names::lemma_same_from(d, e, 56, comp);
    lemma_sealed(e, comp);
    let c = mfs::sealed(e, MFS_MAGIC_DIR);
    mfs_cow::lemma_commit_object(s1, ino, e, MFS_MAGIC_DIR);
    let t = s.dir_delete(loc).0;
    assert(t == s1.commit_object(ino, e, MFS_MAGIC_DIR).0);
    mfs_cow::lemma_stable_trans(s, s1, t);
    assert(mfs_dir::dir_ext(d) == mfs_dir::dir_ext(a)) by {
        assert(d[8] == a[8] && d[9] == a[9] && d[10] == a[10] && d[11] == a[11]);
    }
    lemma_names_elsewhere(s, t, a, comp);
    assert(dir_ok(t, ino, c));
    assert forall|n: Seq<u8>| #[trigger] dir_hit(t, c, n) == if n == comp {
        None
    } else {
        dir_hit(s, a, n)
    } by {
        mfs_names::law_removed_is_gone(a, comp, at, n);
        mfs_names::lemma_same_from(d, e, 56, n);
        lemma_sealed(e, n);
        lemma_names_elsewhere(s, t, a, n);
        if mfs_dir::dir_ext(a) != 0 {
            mfs_laws::lemma_load(s, t, mfs_dir::dir_ext(a), MFS_MAGIC_DIDX);
            lemma_parts(s, t, s.load(mfs_dir::dir_ext(a), MFS_MAGIC_DIDX)->Some_0, 0, n);
        }
    }
    assert forall|n: Seq<u8>| #[trigger] dir_count(t, c, n) == dir_count(s, a, n) + if n == comp {
        -1int
    } else {
        0
    } by {
        mfs_names::law_removed_is_gone(a, comp, at, n);
        mfs_names::lemma_same_from(d, e, 56, n);
        lemma_sealed(e, n);
        lemma_names_elsewhere(s, t, a, n);
    }
    lemma_others(s, s1, t, ino);
    c
}

/// A name taken out of a further block of a directory.
proof fn lemma_delete_part(s: MfsView, ino: u32, a: Seq<u8>, comp: Seq<u8>, loc: MfsLoc) -> (c: Seq<
    u8,
>)
    requires
        dir_ok(s, ino, a),
        a.len() == 4096,
        mfs_names::hit(a, 56, comp) is None,
        mfs_dir::dir_ext(a) != 0,
        loc.dir_ino == ino,
        loc.blk != 0,
        s.load(loc.blk, MFS_MAGIC_DIR) is Some,
        mfs_dir::scan(s.load(loc.blk, MFS_MAGIC_DIR)->Some_0, 56, comp) == Some(loc.off as int),
        exists|j: int|
            0 <= j < 1022 && #[trigger] mfs::slot(
                s.load(mfs_dir::dir_ext(a), MFS_MAGIC_DIDX)->Some_0,
                j,
            ) == loc.blk,
        once(s, a, comp),
        s.dir_delete(loc).1,
    ensures
        ({
            let t = s.dir_delete(loc).0;
            &&& mfs_cow::stable(s, t)
            &&& dir_ok(t, ino, c)
            &&& names_with(s, a, t, c, comp, None)
            &&& counts_with(s, a, t, c, comp, -1)
            &&& others_kept(s, t, ino)
        }),
{
    lemma_once(s, a, comp);
    reveal(MfsView::dir_delete);
    reveal(MfsView::store_loc);
    let x = s.load(mfs_dir::dir_ext(a), MFS_MAGIC_DIDX)->Some_0;
    let b = s.load(loc.blk, MFS_MAGIC_DIR)->Some_0;
    let at = loc.off as int;
    let t = s.dir_delete(loc).0;
    lemma_slot_with(x, 0, loc.blk);
    let i = mfs_dir::slot_with(x, 0, loc.blk)->Some_0;
    assert(part_ok(s, mfs::slot(x, i)));
    mfs_cow::lemma_block_len(s, loc.blk);
    assert(single(b, comp));
    mfs_names::law_removed_is_gone(b, comp, at, comp);
    let d = mfs_dir::without(b, at)->Some_0;
    mfs_cow::lemma_ino_block(s, ino);
    let s1 = s.ino_block(ino).0;
    mfs_cow::lemma_buffer_only(s, s1);
    assert(mfs_cow::obj(s, ino) != loc.blk);
    mfs_cow::lemma_commit(s1, d, MFS_MAGIC_DIR);
    let (s2, r2) = s1.commit(d, MFS_MAGIC_DIR);
    mfs_cow::lemma_obj_stable(s1, s2);
    mfs_laws::lemma_object(s2, ino);
    let s3 = s2.object_block(ino).0;
    mfs_cow::lemma_buffer_only(s2, s3);
    mfs_cow::lemma_stable_trans(s, s1, s2);
    mfs_cow::lemma_stable_trans(s, s2, s3);
    law_directory_stays(s, s3, ino, a, comp);
    mfs_laws::lemma_load(s, s3, mfs_dir::dir_ext(a), MFS_MAGIC_DIDX);
    let e = mfs_dir::touched(a, true, s3.now);
    lemma_touched(a, s3.now);
    mfs_names::lemma_same_from(a, e, 56, comp);
    let nb = r2->Some_0;
    lemma_parts(s, s3, x, 0, comp);
    lemma_sealed(d, comp);
    assert(mfs_cow::held(s2, nb));
    assert(mfs_cow::held(s3, nb));
    assert(s3.load(nb, MFS_MAGIC_DIR) == s2.load(nb, MFS_MAGIC_DIR));
    assert(part_ok(s3, nb));
    let y = mfs::with_slot(x, i, nb);
    mfs_cow::lemma_slots(x, i, nb);
    let c = lemma_commit_index(s3, ino, e, x, i, nb);
    assert(t == s3.commit_index(ino, e, y).0);
    mfs_cow::lemma_stable_trans(s, s3, t);
    assert forall|n: Seq<u8>| #[trigger] dir_hit(t, c, n) == if n == comp {
        None
    } else {
        dir_hit(s, a, n)
    } by {
        mfs_names::lemma_same_from(a, e, 56, n);
        lemma_deleted_ext(s, s3, x, i, nb, b, d, comp, at, n);
    }
    assert forall|n: Seq<u8>| #[trigger] dir_count(t, c, n) == dir_count(s, a, n) + if n == comp {
        -1int
    } else {
        0
    } by {
        mfs_names::lemma_same_from(a, e, 56, n);
        lemma_deleted_ext(s, s3, x, i, nb, b, d, comp, at, n);
    }
    assert forall|q: u32| mfs_cow::good_ino(q) && q != ino implies #[trigger] mfs_cow::obj(t, q)
        == mfs_cow::obj(s, q) by {
        assert(mfs_cow::obj(t, q) == mfs_cow::obj(s3, q));
        assert(mfs_cow::obj(s3, q) == mfs_cow::obj(s2, q));
        assert(mfs_cow::obj(s2, q) == mfs_cow::obj(s1, q));
        assert(mfs_cow::obj(s1, q) == mfs_cow::obj(s, q));
    }
    c
}

/// What the further blocks say after a name was taken out of the one in slot `i`.
proof fn lemma_deleted_ext(
    s: MfsView,
    t: MfsView,
    x: Seq<u8>,
    i: int,
    nb: u32,
    b: Seq<u8>,
    d: Seq<u8>,
    comp: Seq<u8>,
    at: int,
    n: Seq<u8>,
)
    requires
        mfs_cow::stable(s, t),
        parts_ok(s, x),
        0 <= i < 1022,
        mfs::slot(x, i) != 0,
        nb != 0,
        s.load(mfs::slot(x, i), MFS_MAGIC_DIR) == Some(b),
        b.len() == 4096,
        mfs_names::wf(b, 56),
        mfs_dir::scan(b, 56, comp) == Some(at),
        single(b, comp),
        mfs_dir::without(b, at) == Some(d),
        t.load(nb, MFS_MAGIC_DIR) == Some(mfs::sealed(d, MFS_MAGIC_DIR)),
        forall|p: int, q: int|
            0 <= p < 1022 && 0 <= q < 1022 && p != q && part_hit(
                s,
                #[trigger] mfs::slot(x, p),
                comp,
            ) is Some ==> part_hit(s, #[trigger] mfs::slot(x, q), comp) is None,
    ensures
        ext_hit(t, mfs::with_slot(x, i, nb), 0, n) == if n == comp {
            None
        } else {
            ext_hit(s, x, 0, n)
        },
        ext_count(t, mfs::with_slot(x, i, nb), 0, n) == ext_count(s, x, 0, n) - if n == comp {
            1int
        } else {
            0
        },
{
    let y = mfs::with_slot(x, i, nb);
    mfs_cow::lemma_slots(x, i, nb);
    mfs_names::law_removed_is_gone(b, comp, at, n);
    lemma_sealed(d, n);
    assert(part_hit(t, nb, n) == mfs_names::hit(d, 56, n));
    assert(part_hit(s, mfs::slot(x, i), comp) is Some);
    assert forall|j: int| 0 <= j < 1022 && j != i implies part_hit(t, #[trigger] mfs::slot(y, j), n)
        == part_hit(s, mfs::slot(x, j), n) by {
        assert(mfs::slot(y, j) == mfs::slot(x, j));
        lemma_part(s, t, mfs::slot(x, j));
        assert(part_hit(t, mfs::slot(x, j), n) == part_hit(s, mfs::slot(x, j), n));
    }
    assert forall|j: int| 0 <= j < 1022 && j != i implies part_count(
        t,
        #[trigger] mfs::slot(y, j),
        n,
    ) == part_count(s, mfs::slot(x, j), n) by {
        assert(mfs::slot(y, j) == mfs::slot(x, j));
        lemma_part(s, t, mfs::slot(x, j));
        assert(part_count(t, mfs::slot(x, j), n) == part_count(s, mfs::slot(x, j), n));
    }
    lemma_count_but(s, x, t, y, 0, i, n);
    if n == comp {
        assert forall|j: int| 0 <= j < 1022 implies part_hit(t, #[trigger] mfs::slot(y, j), n) is None by {
            if j != i {
                assert(part_hit(s, mfs::slot(x, j), comp) is None);
            }
        }
        lemma_ext_none(t, y, 0, n);
    } else {
        lemma_ext_same(s, x, t, y, 0, n);
    }
}

} // verus!
