//! What holds when MorionFS starts: which volume is its own, which copy of the tables is taken, and
//! when blocks are collected.
use vstd::prelude::*;

use crate::bytes;
use crate::disk::StoreView;
use crate::mfs::MfsView;
use crate::mfs_vol;
use crate::mfs_vol::Found;
use crate::volume::VolumeDesc;

verus! {

/// Law: blocks are collected first where no more than a sixteenth of them is free, and not where
/// there is no file system yet.
pub proof fn law_collects_when_low(s: MfsView)
    ensures
        s.total == 0 ==> s.maybe_gc() == s,
        s.free > s.total as int / 16 ==> s.maybe_gc() == s,
        s.total > 0 && s.free <= s.total as int / 16 ==> s.maybe_gc() == s.gc().0,
{
    reveal(MfsView::maybe_gc);
}

/// The search for the volume with the largest serial, from entry `i` on.
proof fn lemma_best(store: StoreView, list: Seq<VolumeDesc>, i: int, s: u64, v: Option<u32>)
    requires
        0 <= i <= list.len(),
    ensures
        match mfs_vol::best_from(store, list, i, s, v) {
            Some(w) => {
                ||| Some(w) == v && forall|x: int|
                    i <= x < list.len() && (#[trigger] list[x]).kind == 3 ==> mfs_vol::primary_of(
                        store,
                        list[x].id as u64,
                    ) <= s
                ||| {
                    &&& mfs_vol::primary_of(store, w as u64) > s
                    &&& exists|x: int|
                        i <= x < list.len() && (#[trigger] list[x]).kind == 3 && list[x].id == w
                    &&& forall|x: int|
                        i <= x < list.len() && (#[trigger] list[x]).kind == 3
                            ==> mfs_vol::primary_of(store, list[x].id as u64)
                            <= mfs_vol::primary_of(store, w as u64)
                }
            },
            None => v is None && forall|x: int|
                i <= x < list.len() && (#[trigger] list[x]).kind == 3 ==> mfs_vol::primary_of(
                    store,
                    list[x].id as u64,
                ) <= s,
        },
    decreases list.len() - i,
{
    if i < list.len() {
        let p = mfs_vol::primary_of(store, list[i].id as u64);
        if list[i].kind == 3 && p > s {
            lemma_best(store, list, i + 1, p, Some(list[i].id));
        } else {
            lemma_best(store, list, i + 1, s, v);
        }
    }
}

/// Law: the service's own volume is the MorionFS volume with the largest serial; where none has one,
/// the first MorionFS volume in the list, and volume 1 where there is none.
pub proof fn law_own_volume(store: StoreView, list: Seq<VolumeDesc>)
    ensures
        ({
            let w = mfs_vol::claimed(store, list);
            &&& (forall|x: int|
                0 <= x < list.len() && (#[trigger] list[x]).kind == 3 ==> mfs_vol::primary_of(
                    store,
                    list[x].id as u64,
                ) <= mfs_vol::primary_of(store, w)) || (forall|x: int|
                0 <= x < list.len() && (#[trigger] list[x]).kind == 3 ==> mfs_vol::primary_of(
                    store,
                    list[x].id as u64,
                ) == 0)
            &&& (exists|x: int| 0 <= x < list.len() && (#[trigger] list[x]).kind == 3) ==> exists|
                x: int,
            |
                0 <= x < list.len() && (#[trigger] list[x]).kind == 3 && list[x].id == w
            &&& (forall|x: int| 0 <= x < list.len() ==> (#[trigger] list[x]).kind != 3) ==> w == 1
            &&& (forall|x: int|
                0 <= x < list.len() && (#[trigger] list[x]).kind == 3 ==> mfs_vol::primary_of(
                    store,
                    list[x].id as u64,
                ) == 0) ==> forall|x: int|
                0 <= x < list.len() && (#[trigger] list[x]).kind == 3 && (forall|y: int|
                    0 <= y < x ==> (#[trigger] list[y]).kind != 3) ==> list[x].id == w
        }),
{
    lemma_best(store, list, 0, 0, None);
    crate::volume_laws::law_first_of_kind(list, 3, 0);
    if mfs_vol::best_from(store, list, 0, 0, None) is None {
        let r = crate::volume::first_of_kind(list, 3, 0);
        if r is Some {
            let id = r->Some_0;
            let x = choose|x: int|
                0 <= x < list.len() && (#[trigger] list[x]).kind == 3 && list[x].id == id
                    && forall|y: int| 0 <= y < x ==> (#[trigger] list[y]).kind != 3;
            assert forall|z: int|
                0 <= z < list.len() && (#[trigger] list[z]).kind == 3 && (forall|y: int|
                    0 <= y < z ==> (#[trigger] list[y]).kind != 3) implies list[z].id == id by {
                if z < x {
                    assert(list[z].kind != 3);
                } else if x < z {
                    assert(list[x].kind != 3);
                }
            }
        }
    }
}

/// Law: the serial of a volume is the larger one of those in its two first blocks, at byte 264; a
/// block that is no superblock says none.
pub proof fn law_serial(store: StoreView, vol: u64, a: Seq<u8>, b: Seq<u8>)
    requires
        store.read(vol, 0, 8) == Some(a),
        store.read(vol, 8, 8) == Some(b),
        mfs_vol::is_super(a),
    ensures
        mfs_vol::primary_of(store, vol) == if mfs_vol::is_super(b) && bytes::le64(b, 264)
            > bytes::le64(a, 264) {
            bytes::le64(b, 264)
        } else {
            bytes::le64(a, 264)
        },
{
    reveal(mfs_vol::primary_of);
}

/// Law: a superblock is taken for the state of the volume: at byte 16 how many blocks it has, at 20 how
/// many objects, at 24 where the search for a free block goes on, at 32 which commit it is of, at 40
/// where the table of objects is, at 264 the serial, and from 56 on the snapshots, at most 8.
pub proof fn law_taken_over(s: MfsView, b: Seq<u8>, i: int)
    ensures
        ({
            let t = s.adopted(b);
            &&& t.total == bytes::le32(b, 16)
            &&& t.ino_count == bytes::le32(b, 20)
            &&& t.alloc_next == bytes::le32(b, 24)
            &&& t.gen == bytes::le64(b, 32)
            &&& t.itab == bytes::le32(b, 40)
            &&& t.primary == bytes::le64(b, 264)
            &&& t.snaps.len() == if bytes::le32(b, 28) <= 8 {
                bytes::le32(b, 28) as int
            } else {
                8
            }
            &&& 0 <= i < t.snaps.len() ==> {
                &&& t.snaps[i].gen == bytes::le64(b, 56 + 24 * i)
                &&& t.snaps[i].itab == bytes::le32(b, 56 + 24 * i + 8)
                &&& t.snaps[i].ino_hint == bytes::le32(b, 56 + 24 * i + 12)
                &&& t.snaps[i].alloc_next == bytes::le32(b, 56 + 24 * i + 16)
            }
            &&& t.store == s.store && t.vol == s.vol && t.sectors == s.sectors
        }),
{
    reveal(MfsView::itab_reload);
}

/// Law: a copy is taken only where its superblock is one, is newer than what was found, or as new
/// where no bitmap was, and can be used: it has blocks, no more than the volume and the largest
/// file system, and its table of objects can be read. A copy that is not taken changes nothing.
pub proof fn law_copy_taken(s: MfsView, copy: int, f: Found, b: Seq<u8>)
    requires
        s.rd(copy as u32) == Some(b),
    ensures
        ({
            let (t, g) = s.load_copy(copy, f);
            let total = bytes::le32(b, 16);
            let gen = bytes::le64(b, 32);
            let itab = bytes::le32(b, 40);
            let fit = total != 0 && total <= 33_357_824 && (s.sectors == 0 || 8 * total <= s.sectors)
                && itab != 0 && s.load(itab, 0x4D46_4958) is Some;
            let newer = !f.any || gen > f.gen || (gen == f.gen && !f.bitmap);
            if mfs_vol::is_super(b) && newer && fit {
                &&& g.any && g.gen == gen
                &&& g.bitmap == s.adopted(b).load_bitmap(copy).1
                &&& t == s.adopted(b).load_bitmap(copy).0
            } else {
                t == s && g == f
            }
        }),
{
    reveal(MfsView::load_copy);
}

/// Law: the bitmap of a copy is taken only where its header, two blocks behind the superblock, is of
/// the same commit and the same size.
pub proof fn law_bitmap_taken(s: MfsView, copy: int, h: Seq<u8>)
    requires
        s.load((2 + copy) as u32, 0x4D46_4248) == Some(h),
        bytes::le64(h, 8) != s.gen || bytes::le32(h, 16) != s.total,
    ensures
        s.load_bitmap(copy) == (s, false),
{
    reveal(MfsView::load_bitmap);
}

/// Number `k` of a block of numbers; 0 of one that is not there, `None` of one that cannot be read.
pub open spec fn number_in(s: MfsView, blk: u32, magic: u32, k: int) -> Option<u32> {
    if blk == 0 {
        Some(0)
    } else {
        match s.load(blk, magic) {
            Some(b) => Some(bytes::le32(b, 8 + 4 * k)),
            None => None,
        }
    }
}

/// Law: the first 1005 blocks of a file are named by its node, from byte 24 on. The next 1022 are named
/// by a block that the node names at byte 4044. Then come 1022 times as many, through two blocks from
/// byte 4048 on, and 1022 times as many again, through three from byte 4052 on.
pub proof fn law_block_tree(s: MfsView, a: Seq<u8>, i: int, j: int, k: int)
    requires
        0 <= i < 1022,
        0 <= j < 1022,
        0 <= k < 1022,
    ensures
        k < 1005 ==> s.file_map(a, k) == Some(bytes::le32(a, 24 + 4 * k)),
        s.file_map(a, 1005 + k) == number_in(s, bytes::le32(a, 4044), 0x4D46_494E, k),
        s.file_map(a, 2027 + 1022 * j + k) == match number_in(
            s,
            bytes::le32(a, 4048),
            0x4D46_4932,
            j,
        ) {
            Some(p) => number_in(s, p, 0x4D46_494E, k),
            None => None,
        },
        s.file_map(a, 2027 + 1_044_484 + 1_044_484 * i + 1022 * j + k) == match number_in(
            s,
            bytes::le32(a, 4052),
            0x4D46_4933,
            i,
        ) {
            Some(p) => match number_in(s, p, 0x4D46_4932, j) {
                Some(q) => number_in(s, q, 0x4D46_494E, k),
                None => None,
            },
            None => None,
        },
{
    reveal(MfsView::file_map);
    let x = 1022 * j + k;
    assert(x / 1022 == j && x % 1022 == k);
    let y = 1_044_484 * i + x;
    assert(y / 1_044_484 == i && y % 1_044_484 == x);
}

} // verus!
