//! MorionFS: copy on write. What the bitmap holds is never overwritten.
use vstd::prelude::*;

use crate::bytes;
use crate::disk;
use crate::mfs;
use crate::mfs::{MfsView, MFS_MAGIC_ITAB, MFS_MAGIC_ITABX, MFS_INO_MAX, MFS_MAX_BLOCKS,
    MFS_MAX_BMP_DATA_BLOCKS, MFS_MAX_SNAP, MFS_SLOTS};
use crate::mfs_itab;

verus! {

/// The tables in memory have the sizes that a mounted volume needs.
pub open spec fn sound(s: MfsView) -> bool {
    &&& s.store.wf()
    &&& s.total <= MFS_MAX_BLOCKS
    &&& s.bmp.len() >= mfs::bb_for(s.total) * 32768
    &&& s.dirty.len() == MFS_MAX_BMP_DATA_BLOCKS
    &&& s.snaps.len() <= MFS_MAX_SNAP
    &&& s.itab_mem.len() == MFS_SLOTS
    &&& s.tab_buf.len() == 4096
}

/// A block of the data area that is in use.
pub open spec fn held(s: MfsView, b: u32) -> bool {
    mfs::data_start(s.total) <= b < s.total && s.bmp[b as int]
}

/// What copying on write keeps: the volume and its size are the same, and every block in use
/// is still in use and holds what it held.
pub open spec fn stable(s: MfsView, t: MfsView) -> bool {
    &&& sound(t)
    &&& t.vol == s.vol
    &&& t.total == s.total
    &&& forall|b: u32| held(s, b) ==> #[trigger] held(t, b) && t.rd(b) == s.rd(b)
}

/// Block `c` of the bitmap in copy `copy`.
pub open spec fn map_block(x: MfsView, copy: int, c: int) -> u32 {
    (x.bmp_start(copy) + c) as u32
}

/// Where the bitmap blocks are.
pub proof fn lemma_map_block(x: MfsView, copy: int, c: int)
    requires
        x.total <= MFS_MAX_BLOCKS,
        0 <= copy <= 1,
        0 <= c < mfs::bb_for(x.total),
    ensures
        copy == 0 ==> map_block(x, copy, c) == 4 + c,
        copy == 1 ==> map_block(x, copy, c) == 4 + mfs::bb_for(x.total) + c,
        map_block(x, copy, c) < mfs::data_start(x.total),
        map_block(x, copy, c) < MFS_MAX_BLOCKS,
{
    let bb = mfs::bb_for(x.total);
    assert(copy * bb == if copy == 0 {
        0
    } else {
        bb
    }) by (nonlinear_arith)
        requires
            0 <= copy <= 1,
    ;
}

/// The bitmap blocks that are not to be written again are on the volume, in both copies.
#[verifier::opaque]
pub open spec fn in_sync(s: MfsView) -> bool {
    forall|e: int, c: int|
        0 <= e <= 1 && 0 <= c < mfs::bb_for(s.total) && !s.dirty[c] ==> s.rd(
            #[trigger] map_block(s, e, c),
        ) == Some(mfs::packed(s.bmp, c))
}

/// A bitmap block without a bit that was set.
proof fn lemma_packed_elsewhere(m: Seq<bool>, b: int, v: bool, c: int)
    requires
        0 <= b < m.len(),
        0 <= c,
        (c + 1) * 32768 <= m.len(),
        c != b / 32768,
    ensures
        mfs::packed(m.update(b, v), c) == mfs::packed(m, c),
{
    let n = m.update(b, v);
    assert forall|k: int| 0 <= k < 4096 implies mfs::packed(n, c)[k] == mfs::packed(m, c)[k] by {
        let o = c * 32768 + 8 * k;
        assert(b < o || b >= o + 8);
        assert(mfs::byte_at(n, o) == mfs::byte_at(m, o));
    }
    assert(mfs::packed(n, c) =~= mfs::packed(m, c));
}

/// Nothing changed is stable.
pub proof fn lemma_stable_refl(s: MfsView)
    requires
        sound(s),
    ensures
        stable(s, s),
{
}

/// Stable steps one after the other.
pub proof fn lemma_stable_trans(s: MfsView, t: MfsView, u: MfsView)
    requires
        stable(s, t),
        stable(t, u),
    ensures
        stable(s, u),
{
    assert forall|b: u32| held(s, b) implies #[trigger] held(u, b) && u.rd(b) == s.rd(b) by {
        assert(held(t, b));
        assert(t.rd(b) == s.rd(b));
        assert(held(u, b));
        assert(u.rd(b) == t.rd(b));
    }
}

/// A block written: it reads back, every other block stays.
pub proof fn lemma_wr(s: MfsView, b: u32, data: Seq<u8>)
    requires
        s.store.wf(),
        data.len() == 4096,
        b < MFS_MAX_BLOCKS,
    ensures
        s.wr(b, data).0 == (MfsView { store: s.wr(b, data).0.store, ..s }),
        s.wr(b, data).0.store.wf(),
        s.wr(b, data).1 ==> s.wr(b, data).0.rd(b) == Some(data),
        !s.wr(b, data).1 ==> s.wr(b, data).0 == s,
        forall|c: u32|
            c != b && c < MFS_MAX_BLOCKS ==> #[trigger] s.wr(b, data).0.rd(c) == s.rd(c),
{
    let t = s.wr(b, data).0;
    disk::lemma_write_wf(s.store, s.vol, bytes::w32(b * 8), data);
    if s.wr(b, data).1 {
        disk::law_read_after_write(s.store, s.vol, bytes::w32(b * 8), data);
    }
    assert forall|c: u32| c != b && c < MFS_MAX_BLOCKS implies #[trigger] t.rd(c) == s.rd(c) by {
        disk::law_write_frame(
            s.store,
            s.vol,
            bytes::w32(b * 8),
            data,
            s.vol,
            bytes::w32(c * 8),
            8,
        );
    }
}

/// The first free block is free.
proof fn lemma_first_free(m: Seq<bool>, b: int, end: int)
    ensures
        match mfs::first_free(m, b, end) {
            Some(x) => b <= x < end && !m[x],
            None => forall|i: int| b <= i < end ==> #[trigger] m[i],
        },
    decreases end - b,
{
    if b < end && m[b] {
        lemma_first_free(m, b + 1, end);
    }
}

/// Law: only a block of the data area that is free is ever taken, one is taken wherever there
/// is one, and it is in use from then on. Nothing on the volume changes.
pub proof fn law_alloc_takes_free(s: MfsView)
    requires
        sound(s),
    ensures
        s.alloc_block().1 matches Some(b) ==> mfs::data_start(s.total) <= b < s.total
            && !s.bmp[b as int] && s.alloc_block().0.bmp == s.bmp.update(b as int, true),
        s.alloc_block().1 is None ==> s.alloc_block().0 == s && forall|b: int|
            mfs::data_start(s.total) <= b < s.total ==> #[trigger] s.bmp[b],
        s.alloc_block().1 matches Some(b) ==> s.alloc_block().0.dirty == s.dirty.update(
            b as int / 32768,
            true,
        ),
        s.alloc_block().0.store == s.store,
        stable(s, s.alloc_block().0),
        s.alloc_block().0 == (MfsView {
            bmp: s.alloc_block().0.bmp,
            free: s.alloc_block().0.free,
            dirty: s.alloc_block().0.dirty,
            alloc_next: s.alloc_block().0.alloc_next,
            ..s
        }),
{
    reveal(MfsView::alloc_block);
    let ds = mfs::data_start(s.total);
    let from = s.alloc_from();
    lemma_first_free(s.bmp, from, s.total as int);
    lemma_first_free(s.bmp, ds, from);
    if s.pick_block() is None && s.total > ds {
        assert forall|b: int| ds <= b < s.total implies #[trigger] s.bmp[b] by {
            if b < from {
            } else {
            }
        }
    }
}

/// A block committed: it is new, and reads back; what was in use stays.
pub proof fn lemma_commit(s: MfsView, data: Seq<u8>, magic: u32)
    requires
        sound(s),
        data.len() == 4096,
    ensures
        stable(s, s.commit(data, magic).0),
        s.commit(data, magic).0 == (MfsView {
            store: s.commit(data, magic).0.store,
            bmp: s.commit(data, magic).0.bmp,
            free: s.commit(data, magic).0.free,
            dirty: s.commit(data, magic).0.dirty,
            alloc_next: s.commit(data, magic).0.alloc_next,
            ..s
        }),
        s.commit(data, magic).1 matches Some(b) ==> !held(s, b) && b != 0 && held(
            s.commit(data, magic).0,
            b,
        ) && s.commit(data, magic).0.rd(b) == Some(mfs::sealed(data, magic)) && s.commit(
            data,
            magic,
        ).0.load(b, magic) == Some(mfs::sealed(data, magic)),
        in_sync(s) ==> in_sync(s.commit(data, magic).0),
{
    reveal(MfsView::commit);
    law_alloc_takes_free(s);
    let (t, r) = s.alloc_block();
    if r is Some {
        let b = r->Some_0;
        let d = mfs::sealed(data, magic);
        mfs::law_sealed_is_ok(data, magic);
        lemma_wr(t, b, d);
        let u = t.wr(b, d).0;
        assert forall|c: u32| held(s, c) implies #[trigger] held(u, c) && u.rd(c) == s.rd(c) by {
            assert(held(t, c));
            assert(c != b);
            assert(u.rd(c) == t.rd(c));
        }
        if in_sync(s) {
            lemma_commit_sync(s, t, u, b);
        }
    }
}

/// A block taken and written keeps the bitmap blocks in order.
proof fn lemma_commit_sync(s: MfsView, t: MfsView, u: MfsView, b: u32)
    requires
        sound(s),
        in_sync(s),
        mfs::data_start(s.total) <= b < s.total,
        t.store == s.store,
        t.vol == s.vol,
        t.total == s.total,
        t.bmp == s.bmp.update(b as int, true),
        t.dirty == s.dirty.update(b as int / 32768, true),
        u == (MfsView { store: u.store, ..t }),
        forall|c: u32| c != b && c < MFS_MAX_BLOCKS ==> #[trigger] u.rd(c) == t.rd(c),
    ensures
        in_sync(u),
{
    reveal(in_sync);
    assert forall|e: int, c: int|
        0 <= e <= 1 && 0 <= c < mfs::bb_for(u.total) && !u.dirty[c] implies u.rd(
        #[trigger] map_block(u, e, c),
    ) == Some(mfs::packed(u.bmp, c)) by {
        lemma_map_block(u, e, c);
        let k = map_block(u, e, c);
        assert(k == map_block(s, e, c));
        assert(u.rd(k) == t.rd(k));
        assert(t.rd(k) == s.rd(k));
        assert(0 <= b as int / 32768 < s.dirty.len());
        assert(c != b as int / 32768);
        assert(!s.dirty[c]);
        lemma_packed_elsewhere(s.bmp, b as int, true, c);
    }
}

/// Writing below the data area keeps what is in use.
proof fn lemma_wr_below(s: MfsView, b: u32, data: Seq<u8>)
    requires
        sound(s),
        data.len() == 4096,
        b < mfs::data_start(s.total),
    ensures
        stable(s, s.wr(b, data).0),
        s.wr(b, data).0 == (MfsView { store: s.wr(b, data).0.store, ..s }),
{
    lemma_wr(s, b, data);
    let t = s.wr(b, data).0;
    assert forall|c: u32| held(s, c) implies #[trigger] held(t, c) && t.rd(c) == s.rd(c) by {
        assert(c != b);
    }
}

/// The bitmap written.
proof fn lemma_flush_data(s: MfsView, copy: int, c: int)
    requires
        sound(s),
        0 <= copy <= 1,
        0 <= c,
    ensures
        stable(s, s.flush_data(copy, c).0),
        s.flush_data(copy, c).0 == (MfsView { store: s.flush_data(copy, c).0.store, ..s }),
    decreases mfs::bb_for(s.total) - c,
{
    reveal_with_fuel(MfsView::flush_data, 1);
    let bb = mfs::bb_for(s.total);
    if c < bb {
        if !s.dirty[c] {
            lemma_flush_data(s, copy, c + 1);
        } else {
            let b = (s.bmp_start(copy) + c) as u32;
            assert(copy * bb <= bb) by (nonlinear_arith)
                requires
                    0 <= copy <= 1,
                    0 <= bb,
            ;
            assert(0 <= copy * bb) by (nonlinear_arith)
                requires
                    0 <= copy,
                    0 <= bb,
            ;
            let d = mfs::packed(s.bmp, c);
            if copy == 0 {
                assert(copy * bb == 0) by (nonlinear_arith)
                    requires
                        copy == 0,
                ;
            }
            lemma_wr_below(s, b, d);
            let t = s.wr(b, d).0;
            if s.wr(b, d).1 {
                lemma_flush_data(t, copy, c + 1);
                lemma_stable_trans(s, t, t.flush_data(copy, c + 1).0);
            }
        }
    } else {
        lemma_stable_refl(s);
    }
}

/// The length of a superblock and of a bitmap header.
pub proof fn lemma_super_len(s: MfsView)
    ensures
        s.super_block().len() == 4096,
        s.bmp_header().len() == 4096,
{
    reveal(MfsView::super_block);
    reveal(MfsView::bmp_header);
    lemma_snaps_len(s, s.super_fields(), 0);
    lemma_crcs_len(
        s,
        bytes::put32(
            bytes::put32(bytes::put64(bytes::zeros(4096), 8, s.gen), 16, s.total),
            20,
            mfs::bb_for(s.total) as u32,
        ),
        0,
    );
}

/// Records keep the length of a block.
proof fn lemma_snaps_len(s: MfsView, b: Seq<u8>, i: int)
    ensures
        s.with_snaps(b, i).len() == b.len(),
    decreases s.snaps.len() - i,
{
    if i < s.snaps.len() {
        let o = 56 + 24 * i;
        let x = s.snaps[i];
        lemma_snaps_len(
            s,
            bytes::put32(
                bytes::put32(
                    bytes::put32(bytes::put64(b, o, x.gen), o + 8, x.itab),
                    o + 12,
                    x.ino_hint,
                ),
                o + 16,
                x.alloc_next,
            ),
            i + 1,
        );
    }
}

/// Checksums keep the length of a block.
proof fn lemma_crcs_len(s: MfsView, b: Seq<u8>, c: int)
    ensures
        s.with_crcs(b, c).len() == b.len(),
    decreases mfs::bb_for(s.total) - c,
{
    if c < mfs::bb_for(s.total) {
        lemma_crcs_len(
            s,
            bytes::put32(b, 24 + 4 * c, mfs::crc32(mfs::packed(s.bmp, c))),
            c + 1,
        );
    }
}

/// One copy written.
proof fn lemma_flush_copy(s: MfsView, copy: int)
    requires
        sound(s),
        0 <= copy <= 1,
    ensures
        stable(s, s.flush_copy(copy).0),
        s.flush_copy(copy).0 == (MfsView { store: s.flush_copy(copy).0.store, ..s }),
{
    reveal(MfsView::flush_copy);
    lemma_flush_data(s, copy, 0);
    let (s1, ok1) = s.flush_data(copy, 0);
    if ok1 {
        lemma_super_len(s1);
        lemma_wr_below(s1, (2 + copy) as u32, s1.bmp_header());
        let (s2, ok2) = s1.wr((2 + copy) as u32, s1.bmp_header());
        lemma_stable_trans(s, s1, s2);
        if ok2 {
            lemma_super_len(s2);
            lemma_wr_below(s2, copy as u32, s2.super_block());
            lemma_stable_trans(s, s2, s2.wr(copy as u32, s2.super_block()).0);
        }
    }
}

/// A generation committed writes nothing that is in use.
pub proof fn lemma_flush(s: MfsView)
    requires
        sound(s),
    ensures
        stable(s, s.flush().0),
        s.flush().0 == (MfsView {
            store: s.flush().0.store,
            gen: s.flush().0.gen,
            dirty: s.flush().0.dirty,
            ..s
        }),
{
    reveal(MfsView::flush);
    let s0 = MfsView { gen: ((s.gen + 1) % 0x1_0000_0000_0000_0000) as u64, ..s };
    lemma_flush_copy(s0, 0);
    let (s1, ok1) = s0.flush_copy(0);
    assert(stable(s, s1)) by {
        assert forall|b: u32| held(s, b) implies #[trigger] held(s1, b) && s1.rd(b) == s.rd(b) by {
            assert(held(s0, b));
            assert(s0.rd(b) == s.rd(b));
            assert(held(s1, b));
            assert(s1.rd(b) == s0.rd(b));
        }
    }
    if ok1 {
        lemma_flush_copy(s1, 1);
        let (s2, ok2) = s1.flush_copy(1);
        lemma_stable_trans(s, s1, s2);
        let t = s.flush().0;
        assert(stable(s, t)) by {
            assert forall|b: u32| held(s, b) implies #[trigger] held(t, b) && t.rd(b) == s.rd(b) by {
                assert(held(s2, b));
            }
        }
    }
}

/// A slot of a block of numbers.
pub proof fn lemma_slots(b: Seq<u8>, i: int, v: u32)
    requires
        b.len() == 4096,
        0 <= i < 1022,
    ensures
        mfs::with_slot(b, i, v).len() == 4096,
        mfs::slot(mfs::with_slot(b, i, v), i) == v,
        forall|j: int|
            0 <= j < 1022 && j != i ==> #[trigger] mfs::slot(mfs::with_slot(b, i, v), j)
                == mfs::slot(b, j),
{
    bytes::law_put32_reads_back(b, 8 + 4 * i, v);
}

/// Sealing a block keeps its slots.
pub proof fn lemma_sealed_slots(b: Seq<u8>, magic: u32)
    requires
        b.len() == 4096,
    ensures
        mfs::sealed(b, magic).len() == 4096,
        forall|j: int|
            0 <= j < 1022 ==> #[trigger] mfs::slot(mfs::sealed(b, magic), j) == mfs::slot(b, j),
        forall|o: int|
            8 <= o <= 4092 ==> #[trigger] bytes::le32(mfs::sealed(b, magic), o) == bytes::le32(
                b,
                o,
            ),
{
    let s = mfs::sealed(b, magic);
    assert forall|k: int| 8 <= k < 4096 implies s[k] == b[k] by {}
    assert forall|o: int| 8 <= o <= 4092 implies #[trigger] bytes::le32(s, o) == bytes::le32(
        b,
        o,
    ) by {
        assert(s[o] == b[o] && s[o + 1] == b[o + 1] && s[o + 2] == b[o + 2] && s[o + 3] == b[o + 3]);
    }
}

/// All zeros.
pub proof fn lemma_zero_slots()
    ensures
        bytes::zeros(4096).len() == 4096,
        forall|j: int| 0 <= j < 1022 ==> #[trigger] mfs::slot(bytes::zeros(4096), j) == 0,
{
}

/// The inode table in memory agrees with the volume: every table block is in use and
/// readable, and the one in memory is what the volume holds.
pub open spec fn table_ok(s: MfsView) -> bool {
    &&& sound(s)
    &&& forall|k: int|
        0 <= k < 1022 && #[trigger] s.itab_mem[k] != 0 ==> held(s, s.itab_mem[k]) && s.load(
            s.itab_mem[k],
            MFS_MAGIC_ITAB,
        ) is Some
    &&& s.tab_idx < 1022 && s.itab_mem[s.tab_idx as int] != 0 ==> s.load(
        s.itab_mem[s.tab_idx as int],
        MFS_MAGIC_ITAB,
    ) == Some(s.tab_buf)
}

/// The block of object `ino`, 0 for none.
pub open spec fn obj(s: MfsView, ino: u32) -> u32 {
    let t = s.itab_mem[ino as int / 1022];
    if t == 0 {
        0
    } else {
        mfs::slot(s.load(t, MFS_MAGIC_ITAB)->Some_0, ino as int % 1022)
    }
}

/// A number that an object can have.
pub open spec fn good_ino(ino: u32) -> bool {
    0 < ino < MFS_INO_MAX
}

/// Only the buffered table block may differ.
pub open spec fn same_but_buffer(s: MfsView, t: MfsView) -> bool {
    t == (MfsView { tab_idx: t.tab_idx, tab_buf: t.tab_buf, ..s })
}

/// Looking up an object.
pub proof fn lemma_ino_block(s: MfsView, ino: u32)
    requires
        table_ok(s),
        good_ino(ino),
    ensures
        s.ino_block(ino).1 == Some(obj(s, ino)),
        same_but_buffer(s, s.ino_block(ino).0),
        table_ok(s.ino_block(ino).0),
        stable(s, s.ino_block(ino).0),
{
    reveal(MfsView::ino_block);
    let k = ino as int / 1022;
    assert(0 <= k < 1022);
    let t = s.ino_block(ino).0;
    if s.itab_mem[k] != 0 && s.tab_idx != k {
        assert(s.load(s.itab_mem[k], MFS_MAGIC_ITAB) is Some);
        lemma_block_len(s, s.itab_mem[k]);
    }
    lemma_buffer_only(s, t);
}

/// A block has 4096 bytes.
pub proof fn lemma_block_len(s: MfsView, b: u32)
    requires
        s.store.wf(),
    ensures
        s.rd(b) matches Some(v) ==> v.len() == 4096,
{
}

/// The buffered table block plays no part in what is in use.
pub proof fn lemma_buffer_only(s: MfsView, t: MfsView)
    requires
        sound(s),
        same_but_buffer(s, t),
        t.tab_buf.len() == 4096,
    ensures
        stable(s, t),
        forall|b: u32, m: u32| #[trigger] t.load(b, m) == s.load(b, m),
        forall|b: u32| #[trigger] t.rd(b) == s.rd(b),
        forall|b: u32| #[trigger] held(t, b) == held(s, b),
        forall|i: u32| #[trigger] obj(t, i) == obj(s, i),
{
}

/// Objects stay where they are while what is in use is kept and the index stays.
pub proof fn lemma_obj_stable(s: MfsView, t: MfsView)
    requires
        table_ok(s),
        stable(s, t),
        t.itab_mem == s.itab_mem,
        t.tab_idx == s.tab_idx,
        t.tab_buf == s.tab_buf,
    ensures
        table_ok(t),
        forall|i: u32| good_ino(i) ==> #[trigger] obj(t, i) == obj(s, i),
{
    assert forall|k: int| 0 <= k < 1022 && #[trigger] t.itab_mem[k] != 0 implies held(
        t,
        t.itab_mem[k],
    ) && t.load(t.itab_mem[k], MFS_MAGIC_ITAB) == s.load(s.itab_mem[k], MFS_MAGIC_ITAB) by {
        assert(s.itab_mem[k] != 0);
        assert(held(s, s.itab_mem[k]));
        assert(held(t, s.itab_mem[k]));
    }
    assert forall|i: u32| good_ino(i) implies #[trigger] obj(t, i) == obj(s, i) by {
        assert(0 <= i as int / 1022 < 1022);
        assert(t.itab_mem[i as int / 1022] == s.itab_mem[i as int / 1022]);
    }
}

/// The index block written.
proof fn lemma_index_len(b: Seq<u8>, mem: Seq<u32>, k: int)
    requires
        b.len() == 4096,
    ensures
        mfs_itab::index_from(b, mem, k).len() == 4096,
    decreases mem.len() - k,
{
    if k < mem.len() {
        lemma_index_len(mfs::with_slot(b, k, mem[k]), mem, k + 1);
    }
}

/// The index committed.
pub proof fn lemma_itab_flush(s: MfsView)
    requires
        table_ok(s),
    ensures
        stable(s, s.itab_flush().0),
        table_ok(s.itab_flush().0),
        s.itab_flush().0.itab_mem == s.itab_mem,
        s.itab_flush().0.tab_idx == s.tab_idx,
        s.itab_flush().0.tab_buf == s.tab_buf,
        s.itab_flush().0.now == s.now,
        s.itab_flush().0.snaps == s.snaps,
        forall|i: u32| good_ino(i) ==> #[trigger] obj(s.itab_flush().0, i) == obj(s, i),
        s.itab_flush().1 ==> held(s.itab_flush().0, s.itab_flush().0.itab),
{
    reveal(MfsView::itab_flush);
    let seal = mfs::sealed(bytes::zeros(4096), MFS_MAGIC_ITABX);
    lemma_sealed_slots(bytes::zeros(4096), MFS_MAGIC_ITABX);
    lemma_index_len(seal, s.itab_mem, 0);
    let d = mfs_itab::index_from(seal, s.itab_mem, 0);
    lemma_commit(s, d, MFS_MAGIC_ITABX);
    let (t, r) = s.commit(d, MFS_MAGIC_ITABX);
    if r is Some {
        let t2 = MfsView { itab: r->Some_0, ..t };
        assert(stable(s, t2)) by {
            assert forall|b: u32| held(s, b) implies #[trigger] held(t2, b) && t2.rd(b) == s.rd(
                b,
            ) by {
                assert(held(t, b));
            }
        }
        lemma_flush(t2);
        lemma_stable_trans(s, t2, t2.flush().0);
        assert(held(t, r->Some_0));
        assert(held(t2, r->Some_0));
        assert(held(t2.flush().0, r->Some_0));
    }
    lemma_obj_stable(s, s.itab_flush().0);
}

/// Moving an object changes that object alone.
pub proof fn lemma_itab_set(s: MfsView, ino: u32, blk: u32)
    requires
        table_ok(s),
        good_ino(ino),
    ensures
        stable(s, s.itab_set(ino, blk).0),
        s.itab_set(ino, blk).0.now == s.now,
        s.itab_set(ino, blk).0.snaps == s.snaps,
        s.itab_set(ino, blk).1 ==> table_ok(s.itab_set(ino, blk).0) && obj(
            s.itab_set(ino, blk).0,
            ino,
        ) == blk && (forall|i: u32|
            good_ino(i) && i != ino ==> #[trigger] obj(s.itab_set(ino, blk).0, i) == obj(s, i))
            && held(s.itab_set(ino, blk).0, s.itab_set(ino, blk).0.itab),
{
    reveal(MfsView::itab_set);
    let k = ino as int / 1022;
    let j = ino as int % 1022;
    assert(0 <= k < 1022 && 0 <= j < 1022);
    let t = s.itab_mem[k];
    let v = if t == 0 {
        bytes::zeros(4096)
    } else if s.tab_idx == k {
        s.tab_buf
    } else {
        s.rd(t)->Some_0
    };
    if t != 0 {
        assert(s.load(t, MFS_MAGIC_ITAB) is Some);
        lemma_block_len(s, t);
        assert(v == s.load(t, MFS_MAGIC_ITAB)->Some_0);
    }
    lemma_zero_slots();
    let w = mfs::with_slot(v, j, blk);
    lemma_slots(v, j, blk);
    lemma_commit(s, w, MFS_MAGIC_ITAB);
    lemma_sealed_slots(w, MFS_MAGIC_ITAB);
    let (s1, r) = s.commit(w, MFS_MAGIC_ITAB);
    let s2 = MfsView { tab_buf: mfs::sealed(w, MFS_MAGIC_ITAB), ..s1 };
    assert(stable(s, s2)) by {
        assert forall|b: u32| held(s, b) implies #[trigger] held(s2, b) && s2.rd(b) == s.rd(b) by {
            assert(held(s1, b));
        }
    }
    if r is Some {
        let b = r->Some_0;
        let s3 = MfsView { tab_idx: k as u32, itab_mem: s2.itab_mem.update(k, b), ..s2 };
        assert(stable(s, s3)) by {
            assert forall|c: u32| held(s, c) implies #[trigger] held(s3, c) && s3.rd(c) == s.rd(
                c,
            ) by {
                assert(held(s1, c));
            }
        }
        assert(held(s1, b));
        assert(held(s3, b));
        assert(s3.load(b, MFS_MAGIC_ITAB) == s1.load(b, MFS_MAGIC_ITAB));
        assert forall|q: int| 0 <= q < 1022 && #[trigger] s3.itab_mem[q] != 0 implies held(
            s3,
            s3.itab_mem[q],
        ) && s3.load(s3.itab_mem[q], MFS_MAGIC_ITAB) is Some && (q != k ==> s3.load(
            s3.itab_mem[q],
            MFS_MAGIC_ITAB,
        ) == s.load(s.itab_mem[q], MFS_MAGIC_ITAB)) by {
            if q != k {
                assert(s.itab_mem[q] != 0);
                assert(held(s, s.itab_mem[q]));
                assert(held(s3, s.itab_mem[q]));
            }
        }
        assert(table_ok(s3));
        assert(obj(s3, ino) == blk);
        assert forall|i: u32| good_ino(i) && i != ino implies #[trigger] obj(s3, i) == obj(s, i) by {
            let q = i as int / 1022;
            assert(0 <= q < 1022);
            if q == k {
                let p = i as int % 1022;
                assert(p != j);
                assert(mfs::slot(mfs::sealed(w, MFS_MAGIC_ITAB), p) == mfs::slot(w, p));
                assert(mfs::slot(w, p) == mfs::slot(v, p));
            } else {
                assert(s3.itab_mem[q] == s.itab_mem[q]);
            }
        }
        lemma_itab_flush(s3);
        let u = s3.itab_flush().0;
        lemma_stable_trans(s, s3, u);
        assert forall|i: u32| good_ino(i) && i != ino implies #[trigger] obj(u, i) == obj(s, i) by {
            assert(obj(u, i) == obj(s3, i));
        }
        assert(obj(u, ino) == obj(s3, ino));
    }
}

/// An object written anew: only that object moves, to a block that holds what was written.
pub proof fn lemma_commit_object(s: MfsView, ino: u32, data: Seq<u8>, magic: u32)
    requires
        table_ok(s),
        good_ino(ino),
        data.len() == 4096,
    ensures
        stable(s, s.commit_object(ino, data, magic).0),
        s.commit_object(ino, data, magic).0.now == s.now,
        s.commit_object(ino, data, magic).0.snaps == s.snaps,
        s.commit_object(ino, data, magic).1 ==> ({
            let t = s.commit_object(ino, data, magic).0;
            &&& table_ok(t)
            &&& obj(t, ino) != 0
            &&& held(t, obj(t, ino))
            &&& t.load(obj(t, ino), magic) == Some(mfs::sealed(data, magic))
            &&& forall|i: u32| good_ino(i) && i != ino ==> #[trigger] obj(t, i) == obj(s, i)
        }),
{
    reveal(MfsView::commit_object);
    lemma_commit(s, data, magic);
    let (s1, r) = s.commit(data, magic);
    if r is Some {
        let b = r->Some_0;
        lemma_obj_stable(s, s1);
        lemma_itab_set(s1, ino, b);
        let t = s1.itab_set(ino, b).0;
        lemma_stable_trans(s, s1, t);
        assert(held(s1, b));
        assert(held(t, b));
        if s1.itab_set(ino, b).1 {
            assert forall|i: u32| good_ino(i) && i != ino implies #[trigger] obj(t, i) == obj(
                s,
                i,
            ) by {
                assert(obj(t, i) == obj(s1, i));
            }
        }
    }
}

/// The search for a number for a new object.
proof fn lemma_ino_search(s: MfsView, ino: int, blk: u32, left: nat)
    requires
        table_ok(s),
        0 < ino < MFS_INO_MAX,
    ensures
        stable(s, s.ino_search(ino, blk, left).0),
        s.ino_search(ino, blk, left).0.snaps == s.snaps,
        s.ino_search(ino, blk, left).0.now == s.now,
        s.ino_search(ino, blk, left).1 matches Some(n) ==> ({
            let t = s.ino_search(ino, blk, left).0;
            &&& good_ino(n)
            &&& obj(s, n) == 0
            &&& table_ok(t)
            &&& obj(t, n) == blk
            &&& forall|i: u32| good_ino(i) && i != n ==> #[trigger] obj(t, i) == obj(s, i)
        }),
    decreases left,
{
    reveal_with_fuel(MfsView::ino_search, 1);
    if left > 0 {
        lemma_ino_block(s, ino as u32);
        let (t, r) = s.ino_block(ino as u32);
        lemma_buffer_only(s, t);
        if r == Some(0u32) {
            lemma_itab_set(t, ino as u32, blk);
            let (u, ok) = t.itab_set(ino as u32, blk);
            lemma_stable_trans(s, t, u);
            let f = s.ino_search(ino, blk, left).0;
            if ok {
                assert(stable(s, f)) by {
                    assert forall|b: u32| held(s, b) implies #[trigger] held(f, b) && f.rd(b)
                        == s.rd(b) by {
                        assert(held(u, b));
                    }
                }
                assert forall|i: u32| good_ino(i) && i != ino as u32 implies #[trigger] obj(f, i)
                    == obj(s, i) by {
                    assert(obj(u, i) == obj(t, i));
                    assert(obj(t, i) == obj(s, i));
                    assert(obj(f, i) == obj(u, i));
                }
                assert(obj(f, ino as u32) == obj(u, ino as u32));
                assert forall|q: int| 0 <= q < 1022 && #[trigger] f.itab_mem[q] != 0 implies held(
                    f,
                    f.itab_mem[q],
                ) && f.load(f.itab_mem[q], MFS_MAGIC_ITAB) is Some by {
                    assert(u.itab_mem[q] != 0);
                    assert(held(u, u.itab_mem[q]));
                }
            }
        } else {
            lemma_ino_search(t, MfsView::next_ino(ino), blk, (left - 1) as nat);
            let u = t.ino_search(MfsView::next_ino(ino), blk, (left - 1) as nat).0;
            lemma_stable_trans(s, t, u);
            if t.ino_search(MfsView::next_ino(ino), blk, (left - 1) as nat).1 is Some {
                let n = t.ino_search(MfsView::next_ino(ino), blk, (left - 1) as nat).1->Some_0;
                assert forall|i: u32| good_ino(i) && i != n implies #[trigger] obj(u, i) == obj(
                    s,
                    i,
                ) by {
                    assert(obj(u, i) == obj(t, i));
                    assert(obj(t, i) == obj(s, i));
                }
                assert(obj(t, n) == obj(s, n));
            }
        }
    } else {
        lemma_stable_refl(s);
    }
}

/// Law: a new object gets a number that no object has; every other number keeps its object.
pub proof fn law_new_number(s: MfsView, blk: u32)
    requires
        table_ok(s),
    ensures
        stable(s, s.ino_alloc(blk).0),
        s.ino_alloc(blk).1 matches Some(n) ==> ({
            let t = s.ino_alloc(blk).0;
            &&& good_ino(n)
            &&& obj(s, n) == 0
            &&& table_ok(t)
            &&& obj(t, n) == blk
            &&& forall|i: u32| good_ino(i) && i != n ==> #[trigger] obj(t, i) == obj(s, i)
        }),
{
    reveal(MfsView::ino_alloc);
    lemma_ino_search(
        s,
        mfs::clamp(s.ino_hint as int, mfs::MFS_ROOT_INO + 1, MFS_INO_MAX - 1),
        blk,
        MFS_INO_MAX as nat,
    );
}

} // verus!
