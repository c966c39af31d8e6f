//! MorionFS: what a volume gives back when it is mounted again, after a commit and after one
//! that was cut short.
use vstd::prelude::*;

use crate::bytes;
use crate::mfs;
use crate::mfs::{
    MfsView, MFS_MAGIC_BMPHDR, MFS_MAGIC_FILE, MFS_MAGIC_ITAB, MFS_MAGIC_ITABX, MFS_MAGIC_SUPER,
    MFS_MAX_BLOCKS, MFS_MAX_SNAP, MFS_ROOT_INO, MFS_VERSION,
};
use crate::mfs_cow;
use crate::mfs_dir;
use crate::mfs_file;
use crate::mfs_file::{WriterView, MFS_FILE_MAX_BLOCKS};
use crate::mfs_itab;
use crate::mfs_laws;
use crate::mfs_vol;
use crate::mfs_vol::Found;
use crate::tmpfs;

verus! {

/// A 32-bit field put leaves the other fields.
proof fn lemma_put32_keeps(b: Seq<u8>, off: int, v: u32)
    requires
        0 <= off,
        off + 4 <= b.len(),
    ensures
        bytes::put32(b, off, v).len() == b.len(),
        bytes::le32(bytes::put32(b, off, v), off) == v,
        forall|o: int|
            0 <= o && o + 4 <= b.len() && (o + 4 <= off || off + 4 <= o) ==> #[trigger] bytes::le32(
                bytes::put32(b, off, v),
                o,
            ) == bytes::le32(b, o),
{
    bytes::law_put32_reads_back(b, off, v);
}

/// A 64-bit field put leaves the other fields.
proof fn lemma_put64_keeps(b: Seq<u8>, off: int, v: u64)
    requires
        0 <= off,
        off + 8 <= b.len(),
    ensures
        bytes::put64(b, off, v).len() == b.len(),
        bytes::le64(bytes::put64(b, off, v), off) == v,
        forall|o: int|
            0 <= o && o + 4 <= b.len() && (o + 4 <= off || off + 8 <= o) ==> #[trigger] bytes::le32(
                bytes::put64(b, off, v),
                o,
            ) == bytes::le32(b, o),
{
    bytes::law_put64_reads_back(b, off, v);
}

/// The snapshot records of a superblock read back.
proof fn lemma_snap_records(x: MfsView, b: Seq<u8>, i: int)
    requires
        b.len() == 4096,
        0 <= i <= x.snaps.len() <= MFS_MAX_SNAP,
    ensures
        x.with_snaps(b, i).len() == 4096,
        forall|o: int|
            0 <= o <= 4092 && (o + 4 <= 56 + 24 * i || 248 <= o) ==> #[trigger] bytes::le32(
                x.with_snaps(b, i),
                o,
            ) == bytes::le32(b, o),
        forall|j: int|
            i <= j < x.snaps.len() ==> #[trigger] mfs_vol::snap_at(x.with_snaps(b, i), j)
                == x.snaps[j],
    decreases x.snaps.len() - i,
{
    if i < x.snaps.len() {
        let o = 56 + 24 * i;
        let s = x.snaps[i];
        let b1 = bytes::put64(b, o, s.gen);
        let b2 = bytes::put32(b1, o + 8, s.itab);
        let b3 = bytes::put32(b2, o + 12, s.ino_hint);
        let b4 = bytes::put32(b3, o + 16, s.alloc_next);
        lemma_put64_keeps(b, o, s.gen);
        lemma_put32_keeps(b1, o + 8, s.itab);
        lemma_put32_keeps(b2, o + 12, s.ino_hint);
        lemma_put32_keeps(b3, o + 16, s.alloc_next);
        lemma_snap_records(x, b4, i + 1);
        let r = x.with_snaps(b4, i + 1);
        assert(bytes::le32(r, o) == bytes::le32(b1, o));
        assert(bytes::le32(r, o + 4) == bytes::le32(b1, o + 4));
        assert(bytes::le32(r, o + 8) == s.itab);
        assert(bytes::le32(r, o + 12) == s.ino_hint);
        assert(bytes::le32(r, o + 16) == s.alloc_next);
        assert(mfs_vol::snap_at(r, i) == s);
    }
}

/// The fields of a superblock read back.
proof fn lemma_super_fields(x: MfsView)
    requires
        x.snaps.len() <= MFS_MAX_SNAP,
    ensures
        ({
            let b = x.super_block();
            &&& b.len() == 4096
            &&& mfs_vol::is_super(b)
            &&& bytes::le32(b, 16) == x.total
            &&& bytes::le32(b, 20) == x.ino_count
            &&& bytes::le32(b, 24) == x.alloc_next
            &&& bytes::le32(b, 28) == x.snaps.len()
            &&& bytes::le64(b, 32) == x.gen
            &&& bytes::le32(b, 40) == x.itab
            &&& bytes::le32(b, 44) == x.ino_hint
            &&& bytes::le64(b, 264) == x.primary
            &&& Seq::new(mfs_vol::snap_count(b) as nat, |i: int| mfs_vol::snap_at(b, i)) == x.snaps
        }),
{
    reveal(MfsView::super_block);
    let n = x.snaps.len() as u32;
    let b0 = bytes::zeros(4096);
    let b1 = bytes::put32(b0, 8, MFS_VERSION);
    let b2 = bytes::put32(b1, 12, 4096);
    let b3 = bytes::put32(b2, 16, x.total);
    let b4 = bytes::put32(b3, 20, x.ino_count);
    let b5 = bytes::put32(b4, 24, x.alloc_next);
    let b6 = bytes::put32(b5, 28, n);
    let b7 = bytes::put64(b6, 32, x.gen);
    let b8 = bytes::put32(b7, 40, x.itab);
    let b9 = bytes::put32(b8, 44, x.ino_hint);
    lemma_put32_keeps(b0, 8, MFS_VERSION);
    lemma_put32_keeps(b1, 12, 4096);
    lemma_put32_keeps(b2, 16, x.total);
    lemma_put32_keeps(b3, 20, x.ino_count);
    lemma_put32_keeps(b4, 24, x.alloc_next);
    lemma_put32_keeps(b5, 28, n);
    lemma_put64_keeps(b6, 32, x.gen);
    lemma_put32_keeps(b7, 40, x.itab);
    lemma_put32_keeps(b8, 44, x.ino_hint);
    assert(b9 == x.super_fields());
    lemma_snap_records(x, b9, 0);
    let c = x.with_snaps(b9, 0);
    let d = bytes::put64(c, 264, x.primary);
    lemma_put64_keeps(c, 264, x.primary);
    mfs_cow::lemma_sealed_slots(d, MFS_MAGIC_SUPER);
    mfs::law_sealed_is_ok(d, MFS_MAGIC_SUPER);
    let e = mfs::sealed(d, MFS_MAGIC_SUPER);
    assert(e == x.super_block());
    assert(bytes::le32(e, 8) == MFS_VERSION);
    assert(bytes::le32(e, 16) == x.total);
    assert(bytes::le32(e, 20) == x.ino_count);
    assert(bytes::le32(e, 24) == x.alloc_next);
    assert(bytes::le32(e, 28) == n);
    assert(bytes::le32(e, 32) == bytes::le32(b7, 32));
    assert(bytes::le32(e, 36) == bytes::le32(b7, 36));
    assert(bytes::le32(e, 264) == bytes::le32(d, 264));
    assert(bytes::le32(e, 268) == bytes::le32(d, 268));
    let snaps = Seq::new(mfs_vol::snap_count(e) as nat, |i: int| mfs_vol::snap_at(e, i));
    assert(snaps =~= x.snaps) by {
        assert forall|i: int| 0 <= i < x.snaps.len() implies snaps[i] == x.snaps[i] by {
            let o = 56 + 24 * i;
            assert(mfs_vol::snap_at(c, i) == x.snaps[i]);
            assert(bytes::le32(e, o) == bytes::le32(c, o));
            assert(bytes::le32(e, o + 4) == bytes::le32(c, o + 4));
            assert(bytes::le32(e, o + 8) == bytes::le32(c, o + 8));
            assert(bytes::le32(e, o + 12) == bytes::le32(c, o + 12));
            assert(bytes::le32(e, o + 16) == bytes::le32(c, o + 16));
        }
    }
}

/// The checksums of a bitmap header read back.
proof fn lemma_crcs(x: MfsView, b: Seq<u8>, c: int)
    requires
        b.len() == 4096,
        x.total <= MFS_MAX_BLOCKS,
        0 <= c <= mfs::bb_for(x.total),
    ensures
        x.with_crcs(b, c).len() == 4096,
        forall|o: int|
            0 <= o && o + 4 <= 24 + 4 * c ==> #[trigger] bytes::le32(x.with_crcs(b, c), o)
                == bytes::le32(b, o),
        forall|k: int|
            c <= k < mfs::bb_for(x.total) ==> #[trigger] bytes::le32(
                x.with_crcs(b, c),
                24 + 4 * k,
            ) == mfs::crc32(mfs::packed(x.bmp, k)),
    decreases mfs::bb_for(x.total) - c,
{
    if c < mfs::bb_for(x.total) {
        let v = mfs::crc32(mfs::packed(x.bmp, c));
        lemma_put32_keeps(b, 24 + 4 * c, v);
        let b1 = bytes::put32(b, 24 + 4 * c, v);
        lemma_crcs(x, b1, c + 1);
        let r = x.with_crcs(b1, c + 1);
        assert(bytes::le32(r, 24 + 4 * c) == bytes::le32(b1, 24 + 4 * c));
    }
}

/// The fields of a bitmap header read back.
proof fn lemma_header_fields(x: MfsView)
    requires
        x.total <= MFS_MAX_BLOCKS,
    ensures
        ({
            let h = x.bmp_header();
            &&& h.len() == 4096
            &&& mfs::block_ok(h, MFS_MAGIC_BMPHDR)
            &&& bytes::le64(h, 8) == x.gen
            &&& bytes::le32(h, 16) == x.total
            &&& bytes::le32(h, 20) == mfs::bb_for(x.total)
            &&& forall|k: int|
                0 <= k < mfs::bb_for(x.total) ==> #[trigger] bytes::le32(h, 24 + 4 * k)
                    == mfs::crc32(mfs::packed(x.bmp, k))
        }),
{
    reveal(MfsView::bmp_header);
    let bb = mfs::bb_for(x.total) as u32;
    let b0 = bytes::zeros(4096);
    let b1 = bytes::put64(b0, 8, x.gen);
    let b2 = bytes::put32(b1, 16, x.total);
    let b3 = bytes::put32(b2, 20, bb);
    lemma_put64_keeps(b0, 8, x.gen);
    lemma_put32_keeps(b1, 16, x.total);
    lemma_put32_keeps(b2, 20, bb);
    lemma_crcs(x, b3, 0);
    let d = x.with_crcs(b3, 0);
    mfs_cow::lemma_sealed_slots(d, MFS_MAGIC_BMPHDR);
    mfs::law_sealed_is_ok(d, MFS_MAGIC_BMPHDR);
    let h = mfs::sealed(d, MFS_MAGIC_BMPHDR);
    assert(h == x.bmp_header());
    assert(bytes::le32(h, 8) == bytes::le32(b1, 8));
    assert(bytes::le32(h, 12) == bytes::le32(b1, 12));
    assert(bytes::le32(h, 16) == x.total);
    assert(bytes::le32(h, 20) == bb);
    assert forall|k: int| 0 <= k < mfs::bb_for(x.total) implies #[trigger] bytes::le32(
        h,
        24 + 4 * k,
    ) == mfs::crc32(mfs::packed(x.bmp, k)) by {
        assert(bytes::le32(h, 24 + 4 * k) == bytes::le32(d, 24 + 4 * k));
    }
}

/// The volume holds copy `copy` of the state `x`: superblock, bitmap header and bitmap.
pub open spec fn on_disk(m: MfsView, x: MfsView, copy: int) -> bool {
    &&& m.rd(copy as u32) == Some(x.super_block())
    &&& m.rd((2 + copy) as u32) == Some(x.bmp_header())
    &&& forall|c: int|
        0 <= c < mfs::bb_for(x.total) ==> m.rd(#[trigger] mfs_cow::map_block(x, copy, c)) == Some(
            mfs::packed(x.bmp, c),
        )
}

/// The bitmap blocks of copy `copy` that are not to be written again are on the volume.
pub open spec fn synced(s: MfsView, copy: int) -> bool {
    forall|c: int|
        0 <= c < mfs::bb_for(s.total) && !s.dirty[c] ==> s.rd(#[trigger] mfs_cow::map_block(s, copy, c))
            == Some(mfs::packed(s.bmp, c))
}

/// What writing the bitmap of one copy touches.
proof fn lemma_flush_data(s: MfsView, copy: int, c: int)
    requires
        mfs_cow::sound(s),
        0 <= copy <= 1,
        0 <= c,
    ensures
        ({
            let (t, ok) = s.flush_data(copy, c);
            &&& t == (MfsView { store: t.store, ..s })
            &&& t.store.wf()
            &&& forall|k: u32|
                k < 4 || k >= mfs::data_start(s.total) ==> k < MFS_MAX_BLOCKS
                    ==> #[trigger] t.rd(k) == s.rd(k)
            &&& forall|d: int|
                0 <= d < mfs::bb_for(s.total) ==> t.rd(#[trigger] mfs_cow::map_block(s, 1 - copy, d))
                    == s.rd(mfs_cow::map_block(s, 1 - copy, d))
            &&& forall|d: int|
                0 <= d < mfs::bb_for(s.total) ==> t.rd(#[trigger] mfs_cow::map_block(s, copy, d)) == s.rd(
                    mfs_cow::map_block(s, copy, d),
                ) || t.rd(mfs_cow::map_block(s, copy, d)) == Some(mfs::packed(s.bmp, d))
            &&& forall|d: int|
                0 <= d < mfs::bb_for(s.total) && (d < c || !s.dirty[d]) ==> t.rd(
                    #[trigger] mfs_cow::map_block(s, copy, d),
                ) == s.rd(mfs_cow::map_block(s, copy, d))
            &&& ok ==> forall|d: int|
                c <= d < mfs::bb_for(s.total) && s.dirty[d] ==> t.rd(
                    #[trigger] mfs_cow::map_block(s, copy, d),
                ) == Some(mfs::packed(s.bmp, d))
        }),
    decreases mfs::bb_for(s.total) - c,
{
    reveal_with_fuel(MfsView::flush_data, 1);
    let bb = mfs::bb_for(s.total);
    if c < bb {
        if !s.dirty[c] {
            lemma_flush_data(s, copy, c + 1);
        } else {
            let b = mfs_cow::map_block(s, copy, c);
            let d = mfs::packed(s.bmp, c);
            mfs_cow::lemma_map_block(s, copy, c);
            mfs_cow::lemma_wr(s, b, d);
            let (s1, ok1) = s.wr(b, d);
            assert forall|k: int| 0 <= k < bb implies s1.rd(#[trigger] mfs_cow::map_block(s, 1 - copy, k))
                == s.rd(mfs_cow::map_block(s, 1 - copy, k)) by {
                mfs_cow::lemma_map_block(s, 1 - copy, k);
            }
            assert forall|k: int| 0 <= k < bb && k != c implies s1.rd(
                #[trigger] mfs_cow::map_block(s, copy, k),
            ) == s.rd(mfs_cow::map_block(s, copy, k)) by {
                mfs_cow::lemma_map_block(s, copy, k);
            }
            if ok1 {
                lemma_flush_data(s1, copy, c + 1);
                let (t, ok) = s1.flush_data(copy, c + 1);
                assert forall|k: int| 0 <= k < bb implies t.rd(#[trigger] mfs_cow::map_block(s, 1 - copy, k))
                    == s.rd(mfs_cow::map_block(s, 1 - copy, k)) by {
                    assert(mfs_cow::map_block(s1, 1 - copy, k) == mfs_cow::map_block(s, 1 - copy, k));
                }
                assert forall|k: int| 0 <= k < bb implies (t.rd(#[trigger] mfs_cow::map_block(s, copy, k))
                    == s1.rd(mfs_cow::map_block(s, copy, k)) || t.rd(mfs_cow::map_block(s, copy, k)) == Some(
                    mfs::packed(s.bmp, k),
                )) && (k <= c || !s.dirty[k] ==> t.rd(mfs_cow::map_block(s, copy, k)) == s1.rd(
                    mfs_cow::map_block(s, copy, k),
                )) && (ok && k > c && s.dirty[k] ==> t.rd(mfs_cow::map_block(s, copy, k)) == Some(
                    mfs::packed(s.bmp, k),
                )) by {
                    assert(mfs_cow::map_block(s1, copy, k) == mfs_cow::map_block(s, copy, k));
                }
            }
        }
    }
}

/// The other copy and the data area while one copy is written.
pub open spec fn copy_kept(s: MfsView, t: MfsView, copy: int) -> bool {
    &&& t.rd(copy as u32) == s.rd(copy as u32)
    &&& t.rd((2 + copy) as u32) == s.rd((2 + copy) as u32)
    &&& forall|d: int|
        0 <= d < mfs::bb_for(s.total) ==> t.rd(#[trigger] mfs_cow::map_block(s, copy, d)) == s.rd(
            mfs_cow::map_block(s, copy, d),
        )
}

/// One copy written whole is on the volume; the other copy is not touched. Where a write
/// fails the superblock of the copy stays as it was, and each bitmap block is as it was or
/// as it was to be.
proof fn lemma_flush_copy(s: MfsView, copy: int)
    requires
        mfs_cow::sound(s),
        0 <= copy <= 1,
    ensures
        ({
            let (t, ok) = s.flush_copy(copy);
            &&& t == (MfsView { store: t.store, ..s })
            &&& t.store.wf()
            &&& copy_kept(s, t, 1 - copy)
            &&& ok && synced(s, copy) ==> on_disk(t, s, copy)
            &&& !ok ==> t.rd(copy as u32) == s.rd(copy as u32)
            &&& forall|d: int|
                0 <= d < mfs::bb_for(s.total) ==> t.rd(#[trigger] mfs_cow::map_block(s, copy, d)) == s.rd(
                    mfs_cow::map_block(s, copy, d),
                ) || t.rd(mfs_cow::map_block(s, copy, d)) == Some(mfs::packed(s.bmp, d))
        }),
{
    reveal(MfsView::flush_copy);
    let bb = mfs::bb_for(s.total);
    lemma_flush_data(s, copy, 0);
    let (s1, ok1) = s.flush_data(copy, 0);
    if ok1 {
        mfs_cow::lemma_super_len(s1);
        lemma_same_images(s, s1);
        mfs_cow::lemma_wr(s1, (2 + copy) as u32, s1.bmp_header());
        let (s2, ok2) = s1.wr((2 + copy) as u32, s1.bmp_header());
        assert forall|e: int, d: int| 0 <= e <= 1 && 0 <= d < bb implies s2.rd(
            #[trigger] mfs_cow::map_block(s, e, d),
        ) == s1.rd(mfs_cow::map_block(s, e, d)) by {
            mfs_cow::lemma_map_block(s, e, d);
        }
        if ok2 {
            mfs_cow::lemma_super_len(s2);
            lemma_same_images(s, s2);
            mfs_cow::lemma_wr(s2, copy as u32, s2.super_block());
            let t = s2.wr(copy as u32, s2.super_block()).0;
            assert forall|e: int, d: int| 0 <= e <= 1 && 0 <= d < bb implies t.rd(
                #[trigger] mfs_cow::map_block(s, e, d),
            ) == s2.rd(mfs_cow::map_block(s, e, d)) by {
                mfs_cow::lemma_map_block(s, e, d);
            }
            assert(copy_kept(s, t, 1 - copy));
        }
    }
}

/// The images of a state do not depend on the volume.
proof fn lemma_same_images(s: MfsView, t: MfsView)
    requires
        t == (MfsView { store: t.store, dirty: t.dirty, ..s }),
    ensures
        t.super_block() == s.super_block(),
        t.bmp_header() == s.bmp_header(),
{
    reveal(MfsView::super_block);
    reveal(MfsView::bmp_header);
    lemma_same_snaps(s, t, s.super_fields(), 0);
    lemma_same_crcs(
        s,
        t,
        bytes::put32(
            bytes::put32(bytes::put64(bytes::zeros(4096), 8, s.gen), 16, s.total),
            20,
            mfs::bb_for(s.total) as u32,
        ),
        0,
    );
}

/// Records do not depend on the volume.
proof fn lemma_same_snaps(s: MfsView, t: MfsView, b: Seq<u8>, i: int)
    requires
        t == (MfsView { store: t.store, dirty: t.dirty, ..s }),
    ensures
        t.with_snaps(b, i) == s.with_snaps(b, i),
    decreases s.snaps.len() - i,
{
    if i < s.snaps.len() {
        let o = 56 + 24 * i;
        let x = s.snaps[i];
        lemma_same_snaps(
            s,
            t,
            bytes::put32(
                bytes::put32(
                    bytes::put32(bytes::put64(b, o, x.gen), o + 8, x.itab),
                    o + 12,
                    x.ino_hint,
                ),
                o + 16,
                x.alloc_next,
            ),
            i + 1,
        );
    }
}

/// Checksums do not depend on the volume.
proof fn lemma_same_crcs(s: MfsView, t: MfsView, b: Seq<u8>, c: int)
    requires
        t == (MfsView { store: t.store, dirty: t.dirty, ..s }),
    ensures
        t.with_crcs(b, c) == s.with_crcs(b, c),
    decreases mfs::bb_for(s.total) - c,
{
    if c < mfs::bb_for(s.total) {
        lemma_same_crcs(
            s,
            t,
            bytes::put32(b, 24 + 4 * c, mfs::crc32(mfs::packed(s.bmp, c))),
            c + 1,
        );
    }
}

/// The state that a commit writes.
pub open spec fn next_gen(s: MfsView) -> MfsView {
    MfsView { gen: ((s.gen + 1) % 0x1_0000_0000_0000_0000) as u64, ..s }
}

/// Law: a commit that succeeds leaves both copies of the new generation on the volume, whole.
pub proof fn law_commit_is_whole(s: MfsView)
    requires
        mfs_cow::sound(s),
        mfs_cow::in_sync(s),
        s.flush().1,
    ensures
        on_disk(s.flush().0, next_gen(s), 0),
        on_disk(s.flush().0, next_gen(s), 1),
        mfs_cow::in_sync(s.flush().0),
{
    reveal(MfsView::flush);
    reveal(mfs_cow::in_sync);
    let s0 = next_gen(s);
    assert(synced(s0, 0)) by {
        assert forall|c: int| 0 <= c < mfs::bb_for(s0.total) && !s0.dirty[c] implies s0.rd(
            #[trigger] mfs_cow::map_block(s0, 0, c),
        ) == Some(mfs::packed(s0.bmp, c)) by {
            assert(mfs_cow::map_block(s0, 0, c) == mfs_cow::map_block(s, 0, c));
        }
    }
    lemma_flush_copy(s0, 0);
    let s1 = s0.flush_copy(0).0;
    assert(synced(s1, 1)) by {
        assert forall|c: int| 0 <= c < mfs::bb_for(s1.total) && !s1.dirty[c] implies s1.rd(
            #[trigger] mfs_cow::map_block(s1, 1, c),
        ) == Some(mfs::packed(s1.bmp, c)) by {
            assert(mfs_cow::map_block(s1, 1, c) == mfs_cow::map_block(s, 1, c));
            assert(mfs_cow::map_block(s1, 1, c) == mfs_cow::map_block(s0, 1, c));
        }
    }
    lemma_flush_copy(s1, 1);
    lemma_same_images(s0, s1);
    let s2 = s1.flush_copy(1).0;
    let t = s.flush().0;
    assert forall|e: int, c: int| 0 <= e <= 1 && 0 <= c < mfs::bb_for(s.total) implies t.rd(
        #[trigger] mfs_cow::map_block(s0, e, c),
    ) == Some(mfs::packed(s.bmp, c)) by {
        assert(mfs_cow::map_block(s0, e, c) == mfs_cow::map_block(s1, e, c));
    }
    assert forall|e: int, c: int| 0 <= e <= 1 && 0 <= c < mfs::bb_for(t.total) implies t.rd(
        #[trigger] mfs_cow::map_block(t, e, c),
    ) == Some(mfs::packed(t.bmp, c)) by {
        assert(mfs_cow::map_block(s0, e, c) == mfs_cow::map_block(t, e, c));
    }
}

/// A bitmap block that shows all that `x` has in use.
pub open spec fn covers(d: Seq<u8>, x: MfsView, c: int) -> bool {
    forall|i: int|
        0 <= i < 32768 && x.bmp[c * 32768 + i] ==> #[trigger] mfs::bit_of(d, i)
}

/// The volume holds the superblock of the state `x` as copy `copy`, and no bitmap block
/// there shows a block as free that `x` has in use.
pub open spec fn near_disk(m: MfsView, x: MfsView, copy: int) -> bool {
    &&& m.rd(copy as u32) == Some(x.super_block())
    &&& forall|c: int|
        0 <= c < mfs::bb_for(x.total) ==> (m.rd(#[trigger] mfs_cow::map_block(x, copy, c)) matches Some(d)
            ==> covers(d, x, c))
}

/// The bits of a bitmap block.
proof fn lemma_packed_bits(y: Seq<bool>, c: int)
    requires
        0 <= c,
        (c + 1) * 32768 <= y.len(),
    ensures
        forall|i: int|
            0 <= i < 32768 ==> #[trigger] mfs::bit_of(mfs::packed(y, c), i) == y[c * 32768 + i],
{
    mfs::law_bitmap_reads_back(y, c);
    let b = mfs::packed(y, c);
    assert forall|i: int| 0 <= i < 32768 implies #[trigger] mfs::bit_of(b, i) == y[c * 32768
        + i] by {
        let j = c * 32768 + i;
        assert(mfs::unpacked(y, c, b)[j] == y[j]);
    }
}

/// A bitmap at least as full.
proof fn lemma_covers(y: MfsView, x: MfsView, c: int)
    requires
        mfs_cow::sound(x),
        y.bmp.len() >= mfs::bb_for(x.total) * 32768,
        0 <= c < mfs::bb_for(x.total),
        forall|b: int|
            0 <= b < mfs::bb_for(x.total) * 32768 && x.bmp[b] ==> #[trigger] y.bmp[b],
    ensures
        covers(mfs::packed(y.bmp, c), x, c),
{
    lemma_packed_bits(y.bmp, c);
    let d = mfs::packed(y.bmp, c);
    assert forall|i: int| 0 <= i < 32768 && x.bmp[c * 32768 + i] implies #[trigger] mfs::bit_of(
        d,
        i,
    ) by {
        assert(y.bmp[c * 32768 + i]);
    }
}

/// What of `x` is in use is in use in `u`, among the first `n` blocks.
pub open spec fn within(x: MfsView, u: MfsView, n: int) -> bool {
    forall|b: int| 0 <= b < n && x.bmp[b] ==> #[trigger] u.bmp[b]
}

/// The bitmap of a copy loaded.
proof fn lemma_bitmap_from(m: MfsView, x: MfsView, head: Seq<u8>, copy: int, c: int)
    requires
        mfs_cow::sound(m),
        mfs_cow::sound(x),
        m.total == x.total,
        0 <= copy <= 1,
        0 <= c <= mfs::bb_for(x.total),
        near_disk(m, x, copy),
        within(x, m, c * 32768),
    ensures
        ({
            let (u, ok) = m.bitmap_from(head, copy, c);
            &&& u == (MfsView { bmp: u.bmp, ..m })
            &&& u.bmp.len() == m.bmp.len()
            &&& ok ==> within(x, u, mfs::bb_for(x.total) * 32768)
            &&& (forall|k: int|
                c <= k < mfs::bb_for(x.total) ==> (m.rd(#[trigger] mfs_cow::map_block(x, copy, k)) matches Some(
                    d,
                ) && mfs::crc32(d) == bytes::le32(head, 24 + 4 * k))) ==> ok
        }),
    decreases mfs::bb_for(x.total) - c,
{
    let bb = mfs::bb_for(x.total);
    if c < bb {
        let b = mfs_cow::map_block(x, copy, c);
        assert(b == (m.bmp_start(copy) + c) as u32);
        match m.rd(b) {
            None => {},
            Some(d) => {
                reveal(MfsView::with_bitmap_block);
                let s = m.with_bitmap_block(c, d);
                assert(covers(d, x, c));
                assert(within(x, s, (c + 1) * 32768)) by {
                    assert forall|i: int|
                        0 <= i < (c + 1) * 32768 && x.bmp[i] implies #[trigger] s.bmp[i] by {
                        assert((c + 1) * 32768 <= s.bmp.len());
                        if i < c * 32768 {
                            assert(m.bmp[i]);
                        } else {
                            let k = i - c * 32768;
                            assert(x.bmp[c * 32768 + k]);
                            assert(mfs::bit_of(d, k));
                        }
                    }
                }
                if mfs::crc32(d) == bytes::le32(head, 24 + 4 * c) {
                    assert(near_disk(s, x, copy)) by {
                        assert forall|k: int| 0 <= k < bb implies (s.rd(
                            #[trigger] mfs_cow::map_block(x, copy, k),
                        ) matches Some(e) ==> covers(e, x, k)) by {
                            assert(s.rd(mfs_cow::map_block(x, copy, k)) == m.rd(mfs_cow::map_block(x, copy, k)));
                        }
                        assert(s.rd(copy as u32) == m.rd(copy as u32));
                    }
                    lemma_bitmap_from(s, x, head, copy, c + 1);
                    assert forall|k: int| c + 1 <= k < bb implies s.rd(
                        #[trigger] mfs_cow::map_block(x, copy, k),
                    ) == m.rd(mfs_cow::map_block(x, copy, k)) by {}
                }
            },
        }
    }
}

/// The two states agree on all that a superblock says, and on the inode table.
pub open spec fn agrees(u: MfsView, x: MfsView) -> bool {
    &&& u.total == x.total
    &&& u.alloc_next == x.alloc_next
    &&& u.gen == x.gen
    &&& u.snaps == x.snaps
    &&& u.primary == x.primary
    &&& u.itab == x.itab
    &&& u.itab_mem == x.itab_mem
    &&& u.ino_count == x.ino_count
    &&& u.ino_hint == x.ino_hint
}

/// Only what a superblock says, the bitmap and the inode table may differ.
pub open spec fn same_place(m: MfsView, u: MfsView) -> bool {
    &&& u.store == m.store
    &&& u.vol == m.vol
    &&& u.sectors == m.sectors
    &&& u.now == m.now
}

/// A state that can be mounted again: the index of the inode table is on the volume and
/// says what the one in memory does, and the file system fits on the volume.
pub open spec fn complete(m: MfsView, x: MfsView) -> bool {
    &&& mfs_cow::sound(x)
    &&& x.itab != 0
    &&& m.load(x.itab, MFS_MAGIC_ITABX) matches Some(i) && forall|k: int|
        0 <= k < 1022 ==> #[trigger] mfs::slot(i, k) == x.itab_mem[k]
    &&& x.total != 0
    &&& x.ino_hint > MFS_ROOT_INO
    &&& m.sectors == 0 || x.total * 8 <= m.sectors
}

/// A superblock adopted.
proof fn lemma_adopted(m: MfsView, x: MfsView)
    requires
        mfs_cow::sound(m),
        complete(m, x),
    ensures
        m.usable(x.super_block()),
        ({
            let u = m.adopted(x.super_block());
            &&& mfs_cow::sound(u)
            &&& agrees(u, x)
            &&& same_place(m, u)
            &&& u.tab_idx == u32::MAX
        }),
{
    lemma_super_fields(x);
    let b = x.super_block();
    reveal(MfsView::itab_reload);
    let u = m.adopted(b);
    let v = MfsView {
        total: x.total,
        bmp: m.widened(x.total),
        alloc_next: x.alloc_next,
        gen: x.gen,
        itab: x.itab,
        ino_count: x.ino_count,
        ino_hint: x.ino_hint,
        primary: x.primary,
        snaps: x.snaps,
        ..m
    };
    assert(u == v.itab_reload().0);
    assert(v.load(x.itab, MFS_MAGIC_ITABX) == m.load(x.itab, MFS_MAGIC_ITABX));
    assert(u.itab_mem =~= x.itab_mem);
}

/// Copy `copy` tried, where the volume holds the superblock of `x` there.
proof fn lemma_load_near(m: MfsView, x: MfsView, copy: int, f: Found)
    requires
        mfs_cow::sound(m),
        complete(m, x),
        0 <= copy <= 1,
        near_disk(m, x, copy),
        !(f.any && (x.gen < f.gen || (x.gen == f.gen && f.bitmap))),
    ensures
        ({
            let (u, g) = m.load_copy(copy, f);
            &&& mfs_cow::sound(u)
            &&& agrees(u, x)
            &&& same_place(m, u)
            &&& u.tab_idx == u32::MAX
            &&& g.any
            &&& g.gen == x.gen
            &&& g.bitmap ==> within(x, u, mfs::bb_for(x.total) * 32768)
            &&& on_disk(m, x, copy) ==> g.bitmap
        }),
{
    reveal(MfsView::load_copy);
    reveal(MfsView::load_bitmap);
    lemma_super_fields(x);
    lemma_adopted(m, x);
    let v = m.adopted(x.super_block());
    assert(near_disk(v, x, copy)) by {
        assert forall|k: int| 0 <= k < mfs::bb_for(x.total) implies (v.rd(
            #[trigger] mfs_cow::map_block(x, copy, k),
        ) matches Some(e) ==> covers(e, x, k)) by {
            assert(v.rd(mfs_cow::map_block(x, copy, k)) == m.rd(mfs_cow::map_block(x, copy, k)));
        }
        assert(v.rd(copy as u32) == m.rd(copy as u32));
    }
    assert(v.rd((2 + copy) as u32) == m.rd((2 + copy) as u32));
    match v.load((2 + copy) as u32, MFS_MAGIC_BMPHDR) {
        None => {
            if on_disk(m, x, copy) {
                lemma_header_fields(x);
            }
        },
        Some(h) => {
            lemma_bitmap_from(v, x, h, copy, 0);
            if on_disk(m, x, copy) {
                lemma_header_fields(x);
                assert(h == x.bmp_header());
                assert forall|k: int| 0 <= k < mfs::bb_for(x.total) implies (v.rd(
                    #[trigger] mfs_cow::map_block(x, copy, k),
                ) matches Some(d) && mfs::crc32(d) == bytes::le32(h, 24 + 4 * k)) by {
                    assert(m.rd(mfs_cow::map_block(x, copy, k)) == Some(mfs::packed(x.bmp, k)));
                    assert(v.rd(mfs_cow::map_block(x, copy, k)) == m.rd(mfs_cow::map_block(x, copy, k)));
                }
            }
        },
    }
}

/// A whole copy is near.
proof fn lemma_whole_is_near(m: MfsView, x: MfsView, copy: int)
    requires
        mfs_cow::sound(x),
        on_disk(m, x, copy),
    ensures
        near_disk(m, x, copy),
{
    assert forall|c: int| 0 <= c < mfs::bb_for(x.total) implies (m.rd(
        #[trigger] mfs_cow::map_block(x, copy, c),
    ) matches Some(d) ==> covers(d, x, c)) by {
        lemma_covers(x, x, c);
    }
}

/// More blocks marked in use.
pub open spec fn fuller(s: MfsView, t: MfsView) -> bool {
    &&& t == (MfsView { bmp: t.bmp, free: t.free, dirty: t.dirty, ..s })
    &&& t.bmp.len() == s.bmp.len()
    &&& t.dirty.len() == s.dirty.len()
    &&& forall|b: int| 0 <= b < s.bmp.len() && s.bmp[b] ==> #[trigger] t.bmp[b]
}

/// Marking one after the other.
proof fn lemma_fuller_trans(s: MfsView, t: MfsView, u: MfsView)
    requires
        fuller(s, t),
        fuller(t, u),
    ensures
        fuller(s, u),
{
    assert forall|b: int| 0 <= b < s.bmp.len() && s.bmp[b] implies #[trigger] u.bmp[b] by {
        assert(t.bmp[b]);
    }
}

/// Marking a range.
pub proof fn lemma_set_range(s: MfsView, b: int, end: int)
    requires
        mfs_cow::sound(s),
    ensures
        fuller(s, s.set_range(b, end)),
    decreases end - b,
{
    if b < end {
        let t = s.bmp_set(b as u32);
        lemma_set_range(t, b + 1, end);
        lemma_fuller_trans(s, t, t.set_range(b + 1, end));
    }
}

/// Marking the table blocks of an index.
proof fn lemma_mark_slots(s: MfsView, x: Seq<u8>, k: int)
    requires
        mfs_cow::sound(s),
    ensures
        fuller(s, s.mark_slots(x, k)),
    decreases 1022 - k,
{
    if k < 1022 {
        if mfs::slot(x, k) != 0 {
            let t = s.bmp_set(mfs::slot(x, k));
            lemma_mark_slots(t, x, k + 1);
            lemma_fuller_trans(s, t, t.mark_slots(x, k + 1));
        } else {
            lemma_mark_slots(s, x, k + 1);
        }
    }
}

/// Marking an inode table.
proof fn lemma_mark_itab(s: MfsView, itab: u32)
    requires
        mfs_cow::sound(s),
    ensures
        fuller(s, s.mark_itab(itab)),
{
    reveal(MfsView::mark_itab);
    if itab != 0 {
        let t = s.bmp_set(itab);
        match t.load(itab, MFS_MAGIC_ITABX) {
            None => {},
            Some(x) => {
                lemma_mark_slots(t, x, 0);
                lemma_fuller_trans(s, t, t.mark_slots(x, 0));
            },
        }
    }
}

/// Marking the tables of the snapshots.
proof fn lemma_mark_snaps(s: MfsView, i: int)
    requires
        mfs_cow::sound(s),
    ensures
        fuller(s, s.mark_snaps(i)),
    decreases s.snaps.len() - i,
{
    if i < s.snaps.len() {
        let t = s.mark_itab(s.snaps[i].itab);
        lemma_mark_itab(s, s.snaps[i].itab);
        if t.snaps == s.snaps {
            lemma_mark_snaps(t, i + 1);
            lemma_fuller_trans(s, t, t.mark_snaps(i + 1));
        }
    }
}

/// The state `x` is mounted again: all that it had in use is in use, its inode table is the
/// one in memory, and the volume is that of `m`.
pub open spec fn resumes(m: MfsView, x: MfsView, u: MfsView) -> bool {
    &&& mfs_cow::sound(u)
    &&& agrees(u, x)
    &&& same_place(m, u)
    &&& u.tab_idx == u32::MAX
    &&& within(x, u, mfs::bb_for(x.total) * 32768)
}

/// The last part of mounting.
proof fn lemma_settle(m: MfsView, x: MfsView, s: MfsView)
    requires
        resumes(m, x, s),
    ensures
        ({
            let t = s.recount().set_range(0, mfs::data_start(s.total));
            resumes(m, x, t.mark_itab(t.itab).mark_snaps(0))
        }),
{
    let r = s.recount();
    let t = r.set_range(0, mfs::data_start(s.total));
    lemma_set_range(r, 0, mfs::data_start(s.total));
    lemma_mark_itab(t, t.itab);
    let w = t.mark_itab(t.itab);
    lemma_mark_snaps(w, 0);
    let u = w.mark_snaps(0);
    lemma_fuller_trans(r, t, w);
    lemma_fuller_trans(r, w, u);
    assert(within(x, u, mfs::bb_for(x.total) * 32768)) by {
        assert forall|b: int| 0 <= b < mfs::bb_for(x.total) * 32768 && x.bmp[b] implies
            #[trigger] u.bmp[b] by {
            assert(s.bmp[b]);
            assert(r.bmp[b]);
        }
    }
}

/// A copy that is not newer than `x`, or cannot be used.
pub open spec fn not_newer(m: MfsView, x: MfsView, copy: int) -> bool {
    m.rd(copy as u32) matches Some(b) ==> !mfs_vol::is_super(b) || bytes::le64(b, 32) <= x.gen
        || !m.usable(b)
}

/// Law: a volume whose first copy is whole, and whose second is not newer, mounts as the
/// state of the first.
pub proof fn law_first_copy_mounts(m: MfsView, x: MfsView)
    requires
        mfs_cow::sound(m),
        complete(m, x),
        on_disk(m, x, 0),
        not_newer(m, x, 1),
    ensures
        m.load_state().1,
        resumes(m, x, m.load_state().0),
{
    reveal(MfsView::load_state);
    let f0 = Found { any: false, gen: 0, bitmap: false };
    lemma_whole_is_near(m, x, 0);
    lemma_load_near(m, x, 0, f0);
    let (s1, f1) = m.load_copy(0, f0);
    lemma_skip_second(m, x, s1, f1);
    lemma_settle(m, x, s1);
}

/// The second copy is left alone where the first gave as much.
proof fn lemma_skip_second(m: MfsView, x: MfsView, s1: MfsView, f1: Found)
    requires
        not_newer(m, x, 1),
        same_place(m, s1),
        f1.any,
        f1.gen == x.gen,
        f1.bitmap,
    ensures
        s1.load_copy(1, f1) == (s1, f1),
{
    reveal(MfsView::load_copy);
    assert(s1.rd(1) == m.rd(1));
    match s1.rd(1) {
        None => {},
        Some(b) => {
            assert(s1.load(bytes::le32(b, 40), MFS_MAGIC_ITABX) == m.load(
                bytes::le32(b, 40),
                MFS_MAGIC_ITABX,
            ));
        },
    }
}

/// The first copy tried and found wanting leaves the volume as it is.
proof fn lemma_first_fails(m: MfsView)
    requires
        mfs_cow::sound(m),
    ensures
        ({
            let (s, f) = m.load_copy(0, Found { any: false, gen: 0, bitmap: false });
            mfs_cow::sound(s) && same_place(m, s)
        }),
{
    reveal(MfsView::load_copy);
    reveal(MfsView::load_bitmap);
    reveal(MfsView::itab_reload);
    match m.rd(0) {
        None => {},
        Some(b) => {
            if mfs_vol::is_super(b) && m.usable(b) {
                let v = m.adopted(b);
                assert(mfs_cow::sound(v));
                match v.load(2, MFS_MAGIC_BMPHDR) {
                    None => {},
                    Some(h) => {
                        lemma_bitmap_frame(v, h, 0, 0);
                    },
                }
            }
        },
    }
}

/// Loading a bitmap changes nothing else.
proof fn lemma_bitmap_frame(m: MfsView, head: Seq<u8>, copy: int, c: int)
    ensures
        ({
            let (u, ok) = m.bitmap_from(head, copy, c);
            u == (MfsView { bmp: u.bmp, ..m }) && u.bmp.len() == m.bmp.len()
        }),
    decreases mfs::bb_for(m.total) - c,
{
    if c < mfs::bb_for(m.total) {
        match m.rd((m.bmp_start(copy) + c) as u32) {
            None => {},
            Some(d) => {
                reveal(MfsView::with_bitmap_block);
                lemma_bitmap_frame(m.with_bitmap_block(c, d), head, copy, c + 1);
            },
        }
    }
}

/// Law: a volume whose second copy is whole, and whose first is damaged or older, mounts as
/// the state of the second.
pub proof fn law_second_copy_mounts(m: MfsView, x: MfsView)
    requires
        mfs_cow::sound(m),
        complete(m, x),
        on_disk(m, x, 1),
        m.rd(0) matches Some(b) ==> !mfs_vol::is_super(b) || bytes::le64(b, 32) < x.gen
            || !m.usable(b),
    ensures
        m.load_state().1,
        resumes(m, x, m.load_state().0),
{
    reveal(MfsView::load_state);
    let f0 = Found { any: false, gen: 0, bitmap: false };
    lemma_first_fails(m);
    let (s1, f1) = m.load_copy(0, f0);
    assert(f1.any ==> f1.gen < x.gen) by {
        reveal(MfsView::load_copy);
    }
    lemma_second(m, x, s1, f1);
    lemma_settle(m, x, s1.load_copy(1, f1).0);
}

/// The second copy taken.
proof fn lemma_second(m: MfsView, x: MfsView, s1: MfsView, f1: Found)
    requires
        mfs_cow::sound(s1),
        same_place(m, s1),
        complete(m, x),
        on_disk(m, x, 1),
        !(f1.any && (x.gen < f1.gen || (x.gen == f1.gen && f1.bitmap))),
    ensures
        resumes(m, x, s1.load_copy(1, f1).0),
        s1.load_copy(1, f1).1.any,
        s1.load_copy(1, f1).1.bitmap,
{
    assert(on_disk(s1, x, 1)) by {
        assert forall|c: int| 0 <= c < mfs::bb_for(x.total) implies s1.rd(
            #[trigger] mfs_cow::map_block(x, 1, c),
        ) == Some(mfs::packed(x.bmp, c)) by {
            assert(s1.rd(mfs_cow::map_block(x, 1, c)) == m.rd(mfs_cow::map_block(x, 1, c)));
        }
        assert(s1.rd(1) == m.rd(1));
        assert(s1.rd(3) == m.rd(3));
    }
    assert(s1.load(x.itab, MFS_MAGIC_ITABX) == m.load(x.itab, MFS_MAGIC_ITABX));
    assert(complete(s1, x));
    lemma_whole_is_near(s1, x, 1);
    lemma_load_near(s1, x, 1, f1);
}

/// A commit of `s` cut short over the committed state `x`: either the superblock of the
/// first copy is still that of `x`, each bitmap block of that copy is as it was or as it was
/// to be, and the second copy is not touched; or the first copy is whole and new, and the
/// second is not newer.
pub open spec fn torn(m: MfsView, x: MfsView, s: MfsView) -> bool {
    ||| {
        &&& m.rd(0) == Some(x.super_block())
        &&& forall|c: int|
            0 <= c < mfs::bb_for(x.total) ==> m.rd(#[trigger] mfs_cow::map_block(x, 0, c)) == Some(
                mfs::packed(x.bmp, c),
            ) || m.rd(mfs_cow::map_block(x, 0, c)) == Some(mfs::packed(s.bmp, c))
        &&& on_disk(m, x, 1)
    }
    ||| {
        &&& on_disk(m, next_gen(s), 0)
        &&& not_newer(m, next_gen(s), 1)
    }
}

/// Law: a commit cut short at any point leaves a volume that mounts, either as the state
/// committed before or as the new one; it is never a mixture.
pub proof fn law_torn_commit(m: MfsView, x: MfsView, s: MfsView)
    requires
        mfs_cow::sound(m),
        complete(m, x),
        complete(m, next_gen(s)),
        s.total == x.total,
        within(x, s, mfs::bb_for(x.total) * 32768),
        torn(m, x, s),
    ensures
        m.load_state().1,
        resumes(m, x, m.load_state().0) || resumes(m, next_gen(s), m.load_state().0),
{
    let f0 = Found { any: false, gen: 0, bitmap: false };
    if on_disk(m, next_gen(s), 0) && not_newer(m, next_gen(s), 1) {
        law_first_copy_mounts(m, next_gen(s));
    } else {
        reveal(MfsView::load_state);
        assert(near_disk(m, x, 0)) by {
            assert forall|c: int| 0 <= c < mfs::bb_for(x.total) implies (m.rd(
                #[trigger] mfs_cow::map_block(x, 0, c),
            ) matches Some(d) ==> covers(d, x, c)) by {
                lemma_covers(x, x, c);
                lemma_covers(s, x, c);
            }
        }
        lemma_load_near(m, x, 0, f0);
        let (s1, f1) = m.load_copy(0, f0);
        if f1.bitmap {
            lemma_super_fields(x);
            lemma_skip_second(m, x, s1, f1);
            lemma_settle(m, x, s1);
        } else {
            lemma_second(m, x, s1, f1);
            lemma_settle(m, x, s1.load_copy(1, f1).0);
        }
    }
}

/// The slots of an index.
proof fn lemma_index_slots(b: Seq<u8>, mem: Seq<u32>, k: int)
    requires
        b.len() == 4096,
        mem.len() == 1022,
        0 <= k <= 1022,
    ensures
        mfs_itab::index_from(b, mem, k).len() == 4096,
        forall|j: int|
            0 <= j < 1022 ==> #[trigger] mfs::slot(mfs_itab::index_from(b, mem, k), j) == if j < k {
                mfs::slot(b, j)
            } else {
                mem[j]
            },
    decreases 1022 - k,
{
    if k < 1022 {
        let c = mfs::with_slot(b, k, mem[k]);
        mfs_cow::lemma_slots(b, k, mem[k]);
        lemma_index_slots(c, mem, k + 1);
        let r = mfs_itab::index_from(c, mem, k + 1);
        assert forall|j: int| 0 <= j < 1022 implies #[trigger] mfs::slot(r, j) == if j < k {
            mfs::slot(b, j)
        } else {
            mem[j]
        } by {
            if j < k {
                assert(mfs::slot(c, j) == mfs::slot(b, j));
            }
        }
    }
}

/// Everything is on the volume: mounted again, the file system is as it is now.
pub open spec fn settled(s: MfsView) -> bool {
    &&& mfs_cow::in_sync(s)
    &&& on_disk(s, s, 0)
    &&& on_disk(s, s, 1)
    &&& complete(s, s)
}

/// A file system that can be committed so that it mounts again.
pub open spec fn mountable(s: MfsView) -> bool {
    &&& mfs_cow::in_sync(s)
    &&& s.total != 0
    &&& s.ino_hint > MFS_ROOT_INO
    &&& s.sectors == 0 || s.total * 8 <= s.sectors
}

/// A copy of a state is one of every state with the same images.
proof fn lemma_same_disk(m: MfsView, s: MfsView, t: MfsView, copy: int)
    requires
        on_disk(m, s, copy),
        t == (MfsView { store: t.store, dirty: t.dirty, ..s }),
    ensures
        on_disk(m, t, copy),
{
    lemma_same_images(s, t);
    assert forall|c: int| 0 <= c < mfs::bb_for(t.total) implies m.rd(
        #[trigger] mfs_cow::map_block(t, copy, c),
    ) == Some(mfs::packed(t.bmp, c)) by {
        assert(mfs_cow::map_block(t, copy, c) == mfs_cow::map_block(s, copy, c));
    }
}

/// The index written and committed: everything is on the volume.
pub proof fn lemma_itab_flush_settles(s: MfsView)
    requires
        mfs_cow::sound(s),
        mountable(s),
        s.itab_flush().1,
    ensures
        settled(s.itab_flush().0),
        mountable(s.itab_flush().0),
        s.itab_flush().0.vol == s.vol,
        s.itab_flush().0.sectors == s.sectors,
{
    reveal(MfsView::itab_flush);
    let seal = mfs::sealed(bytes::zeros(4096), MFS_MAGIC_ITABX);
    mfs_cow::lemma_sealed_slots(bytes::zeros(4096), MFS_MAGIC_ITABX);
    lemma_index_slots(seal, s.itab_mem, 0);
    let d = mfs_itab::index_from(seal, s.itab_mem, 0);
    mfs_cow::lemma_sealed_slots(d, MFS_MAGIC_ITABX);
    mfs_cow::lemma_commit(s, d, MFS_MAGIC_ITABX);
    let (t1, r) = s.commit(d, MFS_MAGIC_ITABX);
    let b = r->Some_0;
    let t2 = MfsView { itab: b, ..t1 };
    assert(mfs_cow::in_sync(t2)) by {
        reveal(mfs_cow::in_sync);
        assert forall|e: int, c: int|
            0 <= e <= 1 && 0 <= c < mfs::bb_for(t2.total) && !t2.dirty[c] implies t2.rd(
            #[trigger] mfs_cow::map_block(t2, e, c),
        ) == Some(mfs::packed(t2.bmp, c)) by {
            assert(mfs_cow::map_block(t2, e, c) == mfs_cow::map_block(t1, e, c));
        }
    }
    law_commit_is_whole(t2);
    mfs_cow::lemma_flush(t2);
    let t = t2.flush().0;
    reveal(MfsView::flush);
    assert(t == (MfsView { store: t.store, dirty: t.dirty, ..next_gen(t2) })) by {
        lemma_flush_copy(next_gen(t2), 0);
        lemma_flush_copy(next_gen(t2).flush_copy(0).0, 1);
    }
    lemma_same_disk(t, next_gen(t2), t, 0);
    lemma_same_disk(t, next_gen(t2), t, 1);
    assert(mfs_cow::held(t1, b));
    assert(mfs_cow::held(t2, b));
    mfs_laws::lemma_load(t2, t, b, MFS_MAGIC_ITABX);
    assert(t2.load(b, MFS_MAGIC_ITABX) == t1.load(b, MFS_MAGIC_ITABX));
    let i = mfs::sealed(d, MFS_MAGIC_ITABX);
    assert(t.load(b, MFS_MAGIC_ITABX) == Some(i));
    assert forall|k: int| 0 <= k < 1022 implies #[trigger] mfs::slot(i, k) == t.itab_mem[k] by {
        assert(mfs::slot(i, k) == mfs::slot(d, k));
    }
}

/// A state committed: everything is on the volume.
pub proof fn lemma_flush_settles(s: MfsView)
    requires
        mountable(s),
        complete(s, s),
        mfs_cow::held(s, s.itab),
        s.flush().1,
    ensures
        settled(s.flush().0),
        mountable(s.flush().0),
        s.flush().0.vol == s.vol,
        s.flush().0.sectors == s.sectors,
{
    law_commit_is_whole(s);
    mfs_cow::lemma_flush(s);
    let t = s.flush().0;
    reveal(MfsView::flush);
    assert(t == (MfsView { store: t.store, dirty: t.dirty, ..next_gen(s) })) by {
        lemma_flush_copy(next_gen(s), 0);
        lemma_flush_copy(next_gen(s).flush_copy(0).0, 1);
    }
    lemma_same_disk(t, next_gen(s), t, 0);
    lemma_same_disk(t, next_gen(s), t, 1);
    mfs_laws::lemma_load(s, t, s.itab, MFS_MAGIC_ITABX);
}

/// What is all on a volume is loaded from it.
pub proof fn lemma_settled_mounts(x: MfsView, m: MfsView)
    requires
        settled(x),
        mfs_cow::sound(m),
        m.store == x.store,
        m.vol == x.vol,
        m.sectors == x.sectors,
    ensures
        m.load_state().1,
        resumes(m, x, m.load_state().0),
{
    lemma_settled_elsewhere(x, m);
    lemma_super_fields(x);
    law_first_copy_mounts(m, x);
}

/// An object moved: everything is on the volume.
pub proof fn lemma_itab_set_settles(s: MfsView, ino: u32, blk: u32)
    requires
        mfs_cow::table_ok(s),
        mfs_cow::good_ino(ino),
        mountable(s),
        s.itab_set(ino, blk).1,
    ensures
        settled(s.itab_set(ino, blk).0),
        mountable(s.itab_set(ino, blk).0),
        s.itab_set(ino, blk).0.vol == s.vol,
        s.itab_set(ino, blk).0.sectors == s.sectors,
{
    reveal(MfsView::itab_set);
    let k = ino as int / 1022;
    let j = ino as int % 1022;
    assert(0 <= k < 1022 && 0 <= j < 1022);
    let t = s.itab_mem[k];
    let v = if t == 0 {
        bytes::zeros(4096)
    } else if s.tab_idx == k {
        s.tab_buf
    } else {
        s.rd(t)->Some_0
    };
    if t != 0 {
        mfs_cow::lemma_block_len(s, t);
    }
    let w = mfs::with_slot(v, j, blk);
    mfs_cow::lemma_slots(v, j, blk);
    mfs_cow::lemma_commit(s, w, MFS_MAGIC_ITAB);
    let (s1, r) = s.commit(w, MFS_MAGIC_ITAB);
    let s3 = MfsView {
        tab_buf: mfs::sealed(w, MFS_MAGIC_ITAB),
        tab_idx: k as u32,
        itab_mem: s1.itab_mem.update(k, r->Some_0),
        ..s1
    };
    assert(mfs_cow::in_sync(s3)) by {
        reveal(mfs_cow::in_sync);
        assert forall|e: int, c: int|
            0 <= e <= 1 && 0 <= c < mfs::bb_for(s3.total) && !s3.dirty[c] implies s3.rd(
            #[trigger] mfs_cow::map_block(s3, e, c),
        ) == Some(mfs::packed(s3.bmp, c)) by {
            assert(mfs_cow::map_block(s3, e, c) == mfs_cow::map_block(s1, e, c));
        }
    }
    mfs_cow::lemma_sealed_slots(w, MFS_MAGIC_ITAB);
    lemma_itab_flush_settles(s3);
}

/// An object written: everything is on the volume.
pub proof fn lemma_object_settles(s: MfsView, ino: u32, data: Seq<u8>, magic: u32)
    requires
        mfs_cow::table_ok(s),
        mfs_cow::good_ino(ino),
        data.len() == 4096,
        mountable(s),
        s.commit_object(ino, data, magic).1,
    ensures
        settled(s.commit_object(ino, data, magic).0),
        mountable(s.commit_object(ino, data, magic).0),
        s.commit_object(ino, data, magic).0.vol == s.vol,
        s.commit_object(ino, data, magic).0.sectors == s.sectors,
{
    reveal(MfsView::commit_object);
    mfs_cow::lemma_commit(s, data, magic);
    let s1 = s.commit(data, magic).0;
    mfs_cow::lemma_obj_stable(s, s1);
    lemma_itab_set_settles(s1, ino, s.commit(data, magic).1->Some_0);
}

/// Law: a write that succeeds is on the volume: mounted again, even by a service that has
/// seen nothing of it, the file reads as written.
pub proof fn law_write_is_durable(
    s: MfsView,
    ino: u32,
    a: Seq<u8>,
    offset: u64,
    data: Seq<u8>,
    m: MfsView,
) -> (c: Seq<u8>)
    requires
        mfs_laws::file_ok(s, ino, a),
        mountable(s),
        s.write_file(ino, offset, data).1,
        mfs_cow::sound(m),
        m.store == s.write_file(ino, offset, data).0.store,
        m.vol == s.vol,
        m.sectors == s.sectors,
    ensures
        settled(s.write_file(ino, offset, data).0),
        m.load_state().1,
        mfs_laws::file_ok(m.load_state().0, ino, c),
        mfs_laws::content(m.load_state().0, c) == tmpfs::overwritten(
            mfs_laws::content(s, a),
            offset as int,
            data,
        ),
{
    let c = mfs_laws::law_write_reads_back(s, ino, a, offset, data);
    let x = s.write_file(ino, offset, data).0;
    lemma_write_settles(s, ino, a, offset, data);
    lemma_settled_elsewhere(x, m);
    law_committed_is_mounted(x, m, ino, c);
    c
}

/// What is on a volume is there for every service.
proof fn lemma_settled_elsewhere(x: MfsView, m: MfsView)
    requires
        settled(x),
        m.store == x.store,
        m.vol == x.vol,
        m.sectors == x.sectors,
    ensures
        complete(m, x),
        on_disk(m, x, 0),
        on_disk(m, x, 1),
{
    assert(m.load(x.itab, MFS_MAGIC_ITABX) == x.load(x.itab, MFS_MAGIC_ITABX));
    assert forall|e: int, c: int| 0 <= e <= 1 && 0 <= c < mfs::bb_for(x.total) implies m.rd(
        #[trigger] mfs_cow::map_block(x, e, c),
    ) == Some(mfs::packed(x.bmp, c)) by {
        assert(m.rd(mfs_cow::map_block(x, e, c)) == x.rd(mfs_cow::map_block(x, e, c)));
    }
    assert(m.rd(0) == x.rd(0) && m.rd(1) == x.rd(1) && m.rd(2) == x.rd(2) && m.rd(3) == x.rd(3));
}

/// A write ends with everything on the volume.
proof fn lemma_write_settles(s: MfsView, ino: u32, a: Seq<u8>, offset: u64, data: Seq<u8>)
    requires
        mfs_laws::file_ok(s, ino, a),
        mountable(s),
        s.write_file(ino, offset, data).1,
    ensures
        settled(s.write_file(ino, offset, data).0),
        s.write_file(ino, offset, data).0.vol == s.vol,
        s.write_file(ino, offset, data).0.sectors == s.sectors,
{
    reveal(MfsView::write_file);
    mfs_laws::lemma_object(s, ino);
    let t = s.object_block(ino).0;
    mfs_cow::lemma_buffer_only(s, t);
    mfs_laws::lemma_file_elsewhere(s, t, ino, a);
    lemma_same_sync(s, t);
    let w = mfs_file::writer(a);
    mfs_laws::lemma_writer(t, a);
    assert(mfs_laws::holes_after(t, w)) by {
        assert forall|bj: int|
            mfs_file::file_nblocks(w.a) <= bj < MFS_FILE_MAX_BLOCKS implies #[trigger] mfs_laws::amap(
            t,
            w,
            mfs_laws::at(bj),
        ) == 0 by {
            mfs_laws::lemma_at(bj, bj);
            assert(mfs_laws::mapv(t, a, mfs_laws::at(bj)) == 0);
        }
    }
    mfs_laws::lemma_write_from(t, w, offset as int, data, 0);
    let (t1, r1) = t.write_from(w, offset as int, data, 0);
    let v = r1->Some_0;
    let size = mfs_file::most(offset + data.len(), mfs_file::file_size(a) as int) as u64;
    let nb = mfs_file::file_nblocks(v.a);
    mfs_cow::lemma_obj_stable(t, t1);
    assert(s.write_file(ino, offset, data).0 == t1.finish(ino, v, size, nb).0);
    lemma_finish_settles(t1, ino, v, size, nb);
}

/// Finishing a change of a file ends with everything on the volume.
pub proof fn lemma_finish_settles(s: MfsView, ino: u32, w: WriterView, size: u64, nblocks: u32)
    requires
        mfs_laws::wok(s, w),
        mfs_cow::table_ok(s),
        mfs_cow::good_ino(ino),
        mountable(s),
        s.finish(ino, w, size, nblocks).1,
    ensures
        settled(s.finish(ino, w, size, nblocks).0),
        s.finish(ino, w, size, nblocks).0.vol == s.vol,
        s.finish(ino, w, size, nblocks).0.sectors == s.sectors,
{
    reveal(MfsView::finish);
    mfs_laws::lemma_ind_flush(s, w);
    let (t, r) = s.ind_flush(w);
    let v = r->Some_0;
    let data = mfs_dir::touched(
        bytes::put32(bytes::put64(v.a, 8, size), 16, nblocks),
        false,
        t.now,
    );
    assert(data.len() == 4096);
    mfs_cow::lemma_obj_stable(s, t);
    assert(mountable(t));
    assert(t.commit_object(ino, data, MFS_MAGIC_FILE) == s.finish(ino, w, size, nblocks));
    lemma_object_settles(t, ino, data, MFS_MAGIC_FILE);
}

/// The buffered table block plays no part in the bitmap.
proof fn lemma_same_sync(s: MfsView, t: MfsView)
    requires
        mfs_cow::in_sync(s),
        mfs_cow::same_but_buffer(s, t),
    ensures
        mfs_cow::in_sync(t),
{
    reveal(mfs_cow::in_sync);
    assert forall|e: int, c: int|
        0 <= e <= 1 && 0 <= c < mfs::bb_for(t.total) && !t.dirty[c] implies t.rd(
        #[trigger] mfs_cow::map_block(t, e, c),
    ) == Some(mfs::packed(t.bmp, c)) by {
        assert(mfs_cow::map_block(t, e, c) == mfs_cow::map_block(s, e, c));
    }
}

/// Law: a commit that fails on the way has left the volume torn, so that it mounts as before
/// or as the new state. `x` is the state committed before, whole in both copies.
pub proof fn law_failed_commit(s: MfsView, x: MfsView)
    requires
        mfs_cow::sound(s),
        synced(s, 0),
        s.total == x.total,
        on_disk(s, x, 0),
        on_disk(s, x, 1),
        x.snaps.len() <= MFS_MAX_SNAP,
        s.snaps.len() <= MFS_MAX_SNAP,
        x.gen <= next_gen(s).gen,
        !s.flush().1,
    ensures
        torn(s.flush().0, x, s),
{
    reveal(MfsView::flush);
    let s0 = next_gen(s);
    let t = s.flush().0;
    assert(synced(s0, 0)) by {
        assert forall|c: int| 0 <= c < mfs::bb_for(s0.total) && !s0.dirty[c] implies s0.rd(
            #[trigger] mfs_cow::map_block(s0, 0, c),
        ) == Some(mfs::packed(s0.bmp, c)) by {
            assert(mfs_cow::map_block(s0, 0, c) == mfs_cow::map_block(s, 0, c));
        }
    }
    lemma_flush_copy(s0, 0);
    let (s1, ok1) = s0.flush_copy(0);
    assert forall|e: int, c: int| #[trigger] mfs_cow::map_block(x, e, c) == mfs_cow::map_block(s0, e, c) by {}
    assert(s0.rd(0) == s.rd(0));
    assert(s0.rd(1) == s.rd(1));
    assert(s0.rd(3) == s.rd(3));
    if !ok1 {
        assert forall|c: int| 0 <= c < mfs::bb_for(x.total) implies t.rd(
            #[trigger] mfs_cow::map_block(x, 0, c),
        ) == Some(mfs::packed(x.bmp, c)) || t.rd(mfs_cow::map_block(x, 0, c)) == Some(
            mfs::packed(s.bmp, c),
        ) by {
            assert(mfs_cow::map_block(x, 0, c) == mfs_cow::map_block(s0, 0, c));
            assert(s0.rd(mfs_cow::map_block(x, 0, c)) == s.rd(mfs_cow::map_block(x, 0, c)));
        }
        assert(on_disk(t, x, 1)) by {
            assert forall|c: int| 0 <= c < mfs::bb_for(x.total) implies t.rd(
                #[trigger] mfs_cow::map_block(x, 1, c),
            ) == Some(mfs::packed(x.bmp, c)) by {
                assert(mfs_cow::map_block(x, 1, c) == mfs_cow::map_block(s0, 1, c));
                assert(s0.rd(mfs_cow::map_block(x, 1, c)) == s.rd(mfs_cow::map_block(x, 1, c)));
            }
        }
    } else {
        lemma_flush_copy(s1, 1);
        assert(copy_kept(s1, t, 0));
        assert(on_disk(t, s0, 0)) by {
            assert forall|c: int| 0 <= c < mfs::bb_for(s0.total) implies t.rd(
                #[trigger] mfs_cow::map_block(s0, 0, c),
            ) == Some(mfs::packed(s0.bmp, c)) by {
                assert(mfs_cow::map_block(s0, 0, c) == mfs_cow::map_block(s1, 0, c));
            }
        }
        lemma_super_fields(x);
        assert(t.rd(1) == Some(x.super_block()));
    }
}

/// Law: what was committed is there when the volume is mounted again: the same files, with
/// the same bytes.
pub proof fn law_committed_is_mounted(x: MfsView, m: MfsView, ino: u32, a: Seq<u8>)
    requires
        mfs_cow::sound(m),
        m.store == x.store,
        m.vol == x.vol,
        complete(m, x),
        on_disk(m, x, 0),
        on_disk(m, x, 1),
        mfs_laws::file_ok(x, ino, a),
    ensures
        m.load_state().1,
        mfs_cow::stable(x, m.load_state().0),
        mfs_laws::file_ok(m.load_state().0, ino, a),
        mfs_laws::content(m.load_state().0, a) == mfs_laws::content(x, a),
{
    lemma_super_fields(x);
    law_first_copy_mounts(m, x);
    lemma_resumed(m, x, m.load_state().0);
    mfs_laws::lemma_file_elsewhere(x, m.load_state().0, ino, a);
}

/// A state mounted again: what was in use is kept, and the objects are where they were.
pub proof fn lemma_resumed(m: MfsView, x: MfsView, u: MfsView)
    requires
        m.store == x.store,
        m.vol == x.vol,
        resumes(m, x, u),
        mfs_cow::table_ok(x),
    ensures
        mfs_cow::stable(x, u),
        mfs_cow::table_ok(u),
        forall|i: u32|
            mfs_cow::good_ino(i) ==> #[trigger] mfs_cow::obj(u, i) == mfs_cow::obj(x, i),
{
    assert forall|b: u32| mfs_cow::held(x, b) implies #[trigger] mfs_cow::held(u, b) && u.rd(b)
        == x.rd(b) by {
        assert(b < mfs::bb_for(x.total) * 32768);
        assert(u.bmp[b as int]);
    }
    assert forall|k: int| 0 <= k < 1022 && #[trigger] u.itab_mem[k] != 0 implies mfs_cow::held(
        u,
        u.itab_mem[k],
    ) && u.load(u.itab_mem[k], MFS_MAGIC_ITAB) is Some by {
        assert(x.itab_mem[k] != 0);
        mfs_laws::lemma_load(x, u, x.itab_mem[k], MFS_MAGIC_ITAB);
    }
    assert forall|i: u32| mfs_cow::good_ino(i) implies #[trigger] mfs_cow::obj(u, i)
        == mfs_cow::obj(x, i) by {
        let k = i as int / 1022;
        assert(0 <= k < 1022);
        if x.itab_mem[k] != 0 {
            mfs_laws::lemma_load(x, u, x.itab_mem[k], MFS_MAGIC_ITAB);
        }
    }
}

} // verus!
