//! What holds of ext2 volumes: where the blocks of a file are, and what reading it gives.
use vstd::prelude::*;

use crate::bytes;
use crate::disk::StoreView;
use crate::ext2;
use crate::ext2::{is_dir_mode, Ext2View, GeoView, InodeView};

verus! {

/// Disk block `b` can be read and holds the bytes `c`.
pub open spec fn on_disk(e: Ext2View, b: u32, c: Seq<u8>) -> bool {
    let per = e.geo.block_size as int / 512;
    b * per <= u32::MAX && e.store.read(e.vol, (b * per) as u32, per) == Some(c)
}

/// Number `i` of a block of block numbers.
pub open spec fn number(c: Seq<u8>, i: int) -> u32 {
    bytes::le32(c, 4 * i)
}

/// Block `n` of a file is disk block `d`, one of the first twelve.
pub open spec fn direct(ino: InodeView, n: int, d: u32) -> bool {
    0 <= n < 12 && ino.block[n] == d
}

/// Block `n` of a file is disk block `d`, by slot `j` of the block `c` that the inode names.
pub open spec fn single(e: Ext2View, ino: InodeView, c: Seq<u8>, j: int, n: int, d: u32) -> bool {
    &&& ino.block[12] != 0
    &&& on_disk(e, ino.block[12], c)
    &&& 0 <= j < e.geo.block_size as int / 4
    &&& n == 12 + j
    &&& d == number(c, j)
}

/// Block `n` of a file is disk block `d`, by slot `j` of the block `mid` that slot `i` of the
/// block `top` names that the inode names.
pub open spec fn double(
    e: Ext2View,
    ino: InodeView,
    top: Seq<u8>,
    i: int,
    mid: Seq<u8>,
    j: int,
    n: int,
    d: u32,
) -> bool {
    let ptrs = e.geo.block_size as int / 4;
    &&& ino.block[13] != 0
    &&& on_disk(e, ino.block[13], top)
    &&& 0 <= i < ptrs
    &&& number(top, i) != 0
    &&& on_disk(e, number(top, i), mid)
    &&& 0 <= j < ptrs
    &&& n == 12 + ptrs + i * ptrs + j
    &&& d == number(mid, j)
}

/// Block `n` of a file is disk block `d`; 0 stands for a hole.
pub open spec fn is_block(e: Ext2View, ino: InodeView, n: int, d: u32) -> bool {
    ||| direct(ino, n, d)
    ||| exists|c: Seq<u8>, j: int| single(e, ino, c, j, n, d)
    ||| exists|top: Seq<u8>, i: int, mid: Seq<u8>, j: int| double(e, ino, top, i, mid, j, n, d)
}

/// Nothing is stored of block `n` of a file: the block that would lead to it is missing.
pub open spec fn no_block(e: Ext2View, ino: InodeView, n: int) -> bool {
    let ptrs = e.geo.block_size as int / 4;
    ||| 12 <= n < 12 + ptrs && ino.block[12] == 0
    ||| 12 + ptrs <= n < 12 + ptrs + ptrs * ptrs && ino.block[13] == 0
    ||| exists|top: Seq<u8>, i: int, j: int|
        ino.block[13] != 0 && #[trigger] on_disk(e, ino.block[13], top) && 0 <= i < ptrs && 0 <= j
            < ptrs && n == #[trigger] (12 + ptrs + i * ptrs + j) && number(top, i) == 0
}

/// Block sizes.
pub proof fn lemma_size(e: Ext2View)
    requires
        e.geo.wf(),
    ensures
        1024 <= e.geo.block_size <= 65536,
        e.geo.block_size as int % 1024 == 0,
        e.geo.block_size as int / 512 * 512 == e.geo.block_size,
{
    let s = crate::ext2::block_sizes();
    let k = choose|k: int| 0 <= k < s.len() && s[k] == e.geo.block_size;
    assert(s[k] == e.geo.block_size);
}

/// A quotient and a remainder.
proof fn lemma_split(i: int, j: int, m: int)
    requires
        0 <= i < m,
        0 <= j < m,
    ensures
        (i * m + j) / m == i,
        (i * m + j) % m == j,
        0 <= i * m + j < m * m,
{
    vstd::arithmetic::div_mod::lemma_fundamental_div_mod_converse(i * m + j, m, i, j);
    assert(0 <= i * m && i * m + m <= m * m) by (nonlinear_arith)
        requires
            0 <= i,
            i + 1 <= m,
    ;
}

/// A block read.
pub proof fn lemma_rd(e: Ext2View, b: u32, c: Seq<u8>)
    requires
        on_disk(e, b, c),
        e.geo.wf(),
    ensures
        e.rd(b) == Some(c),
{
    lemma_size(e);
    let per = e.geo.block_size / 512;
    assert(0 <= b * per) by (nonlinear_arith);
    assert(bytes::w32(b * per) == b * per);
}

/// Law: the blocks of a file are those of its block tree. The first twelve are named in the
/// inode. Then come those that the slots of one block name, one after the other; then, for each
/// slot of a second block, those that the slots of the block name that it names. A slot that
/// holds 0 is a hole.
pub proof fn law_block_tree(e: Ext2View, ino: InodeView, n: int, d: u32)
    requires
        e.geo.wf(),
        is_block(e, ino, n, d),
    ensures
        e.map(ino, n) == if d == 0 {
            None
        } else {
            Some(d)
        },
{
    lemma_size(e);
    let ptrs = e.geo.block_size as int / 4;
    if direct(ino, n, d) {
    } else if exists|c: Seq<u8>, j: int| single(e, ino, c, j, n, d) {
        let (c, j) = choose|c: Seq<u8>, j: int| single(e, ino, c, j, n, d);
        lemma_rd(e, ino.block[12], c);
    } else {
        let (top, i, mid, j) = choose|top: Seq<u8>, i: int, mid: Seq<u8>, j: int|
            double(e, ino, top, i, mid, j, n, d);
        lemma_rd(e, ino.block[13], top);
        lemma_rd(e, number(top, i), mid);
        lemma_split(i, j, ptrs);
    }
}

/// Law: where the block is missing that would lead to a block of a file, that block is a hole.
pub proof fn law_missing_is_hole(e: Ext2View, ino: InodeView, n: int)
    requires
        e.geo.wf(),
        no_block(e, ino, n),
    ensures
        e.map(ino, n) is None,
{
    lemma_size(e);
    let ptrs = e.geo.block_size as int / 4;
    if 12 <= n < 12 + ptrs && ino.block[12] == 0 {
    } else if 12 + ptrs <= n < 12 + ptrs + ptrs * ptrs && ino.block[13] == 0 {
    } else {
        let (top, i, j) = choose|top: Seq<u8>, i: int, j: int|
            ino.block[13] != 0 && #[trigger] on_disk(e, ino.block[13], top) && 0 <= i < ptrs && 0
                <= j < ptrs && n == #[trigger] (12 + ptrs + i * ptrs + j) && number(top, i) == 0;
        lemma_rd(e, ino.block[13], top);
        lemma_split(i, j, ptrs);
    }
}

/// Byte `k` of a file by the block that it is in.
pub open spec fn is_byte(e: Ext2View, ino: InodeView, k: int, v: u8) -> bool {
    let bs = e.geo.block_size as int;
    match e.map(ino, k / bs) {
        None => v == 0,
        Some(d) => e.rd(d) matches Some(c) && v == c[k % bs],
    }
}

/// Positions within one block.
proof fn lemma_near(pos: int, bs: int, x: int)
    requires
        bs > 0,
        0 <= pos,
        0 <= x < bs - pos % bs,
    ensures
        (pos + x) / bs == pos / bs,
        (pos + x) % bs == pos % bs + x,
{
    vstd::arithmetic::div_mod::lemma_fundamental_div_mod(pos, bs);
    assert(bs * (pos / bs) == pos / bs * bs) by (nonlinear_arith);
    vstd::arithmetic::div_mod::lemma_fundamental_div_mod_converse(
        pos + x,
        bs,
        pos / bs,
        pos % bs + x,
    );
}

/// Reading on from a position.
proof fn lemma_read_from(e: Ext2View, ino: InodeView, pos: int, end: int)
    requires
        e.geo.wf(),
        e.store.wf(),
        0 <= pos <= end,
    ensures
        e.read_from(ino, pos, end) matches Some(v) ==> v.len() == end - pos && forall|k: int|
            pos <= k < end ==> is_byte(e, ino, k, #[trigger] v[k - pos]),
        (forall|n: int|
            pos / (e.geo.block_size as int) <= n && n * e.geo.block_size < end ==> (
            #[trigger] e.map(ino, n) matches Some(d) ==> e.rd(d) is Some)) ==> e.read_from(
            ino,
            pos,
            end,
        ) is Some,
    decreases end - pos,
{
    lemma_size(e);
    let bs = e.geo.block_size as int;
    if pos < end {
        let boff = pos % bs;
        let n = if end - pos <= bs - boff {
            end - pos
        } else {
            bs - boff
        };
        lemma_read_from(e, ino, pos + n, end);
        vstd::arithmetic::div_mod::lemma_fundamental_div_mod(pos, bs);
        assert(bs * (pos / bs) == pos / bs * bs) by (nonlinear_arith);
        assert(pos / bs <= (pos + n) / bs) by (nonlinear_arith)
            requires
                bs > 0,
                n >= 0,
        ;
        if forall|m: int|
            pos / bs <= m && m * bs < end ==> (#[trigger] e.map(ino, m) matches Some(d) ==> e.rd(
                d,
            ) is Some) {
            assert(pos / bs * bs < end);
            assert(e.map(ino, pos / bs) matches Some(d) ==> e.rd(d) is Some);
        }
        if e.read_from(ino, pos, end) is Some {
            let v = e.read_from(ino, pos, end)->Some_0;
            let rest = e.read_from(ino, pos + n, end)->Some_0;
            let head = match e.map(ino, pos / bs) {
                None => bytes::zeros(n),
                Some(d) => e.rd(d)->Some_0.subrange(boff, boff + n),
            };
            assert(head.len() == n);
            assert(v == head + rest);
            assert forall|k: int| pos <= k < end implies is_byte(e, ino, k, #[trigger] v[k - pos]) by {
                if k < pos + n {
                    lemma_near(pos, bs, k - pos);
                    assert(v[k - pos] == head[k - pos]);
                } else {
                    assert(v[k - pos] == rest[k - (pos + n)]);
                }
            }
        }
    }
}

/// Law: reading a file gives as many bytes from the offset on as were asked for and the file has.
/// Each of them is the byte of the disk block that holds it: byte `k` of the file is byte
/// `k % bs` of the block with number `k / bs`; where that is a hole, it is zero.
pub proof fn law_read_gives_blocks(
    e: Ext2View,
    num: u32,
    ino: InodeView,
    offset: u32,
    count: u32,
    k: int,
    n: int,
    d: u32,
    c: Seq<u8>,
)
    requires
        e.geo.wf(),
        e.store.wf(),
        e.inode(num) == Some(ino),
        !is_dir_mode(ino.mode),
        offset <= k < offset + count,
        k < ino.size,
        n * e.geo.block_size <= k < n * e.geo.block_size + e.geo.block_size,
        is_block(e, ino, n, d),
        d != 0 ==> on_disk(e, d, c),
    ensures
        e.read(num, offset, count) matches Some(v) ==> {
            &&& v.len() == if count <= ino.size - offset {
                count as int
            } else {
                ino.size - offset
            }
            &&& v[k - offset] == if d == 0 {
                0
            } else {
                c[k - n * e.geo.block_size]
            }
        },
{
    lemma_size(e);
    let bs = e.geo.block_size as int;
    let end = if count <= ino.size - offset {
        offset + count
    } else {
        ino.size as int
    };
    lemma_read_from(e, ino, offset as int, end);
    law_block_tree(e, ino, n, d);
    vstd::arithmetic::div_mod::lemma_fundamental_div_mod_converse(k, bs, n, k - n * bs);
    if d != 0 {
        lemma_rd(e, d, c);
    }
    if e.read(num, offset, count) is Some {
        let v = e.read(num, offset, count)->Some_0;
        assert(is_byte(e, ino, k, v[k - offset]));
    }
}

/// Law: reading one whole block of a file gives the bytes of its disk block, or zeros where it
/// is a hole.
pub proof fn law_read_one_block(
    e: Ext2View,
    num: u32,
    ino: InodeView,
    offset: u32,
    n: int,
    d: u32,
    c: Seq<u8>,
)
    requires
        e.geo.wf(),
        e.store.wf(),
        e.inode(num) == Some(ino),
        !is_dir_mode(ino.mode),
        0 <= n,
        offset == n * e.geo.block_size,
        offset + e.geo.block_size <= ino.size,
        is_block(e, ino, n, d),
        d != 0 ==> on_disk(e, d, c),
    ensures
        e.read(num, offset, e.geo.block_size) == Some(
            if d == 0 {
                bytes::zeros(e.geo.block_size as int)
            } else {
                c
            },
        ),
{
    lemma_size(e);
    let bs = e.geo.block_size as int;
    law_block_tree(e, ino, n, d);
    vstd::arithmetic::div_mod::lemma_fundamental_div_mod_converse(offset as int, bs, n, 0);
    if d != 0 {
        lemma_rd(e, d, c);
        assert(c.len() == bs);
        assert(c.subrange(0, bs) + Seq::<u8>::empty() =~= c);
    } else {
        assert(bytes::zeros(bs) + Seq::<u8>::empty() =~= bytes::zeros(bs));
    }
    assert(e.read_from(ino, offset + bs, offset + bs) == Some(Seq::<u8>::empty()));
}

/// An address in whole blocks and bytes.
proof fn lemma_address(t: int, off: int, bs: int)
    requires
        0 <= t,
        0 <= off,
        0 < bs,
    ensures
        (t * bs + off) / bs == t + off / bs,
        (t * bs + off) % bs == off % bs,
        (t + off / bs) * bs + off % bs == t * bs + off,
        0 <= off % bs < bs,
        0 <= off / bs,
{
    vstd::arithmetic::div_mod::lemma_fundamental_div_mod(off, bs);
    let q = off / bs;
    assert(bs * q == q * bs) by (nonlinear_arith);
    assert((t + q) * bs == t * bs + q * bs) by (nonlinear_arith);
    vstd::arithmetic::div_mod::lemma_fundamental_div_mod_converse(
        t * bs + off,
        bs,
        t + q,
        off % bs,
    );
    assert(0 <= q) by (nonlinear_arith)
        requires
            q == off / bs,
            0 <= off,
            0 < bs,
    ;
}

/// Law: the inodes of a group lie one after the other from the first block of its table on: the
/// `x`th of group `g` starts `x` inode sizes behind it, and what is read of it are its mode, its
/// size and its fifteen block numbers there. They are numbered group by group, from 1 on.
pub proof fn law_inode_place(e: Ext2View, num: u32, g: int, x: int)
    requires
        e.geo.wf(),
        e.store.wf(),
        e.vol < e.store.disks.len(),
        0 <= g < e.geo.table.len(),
        0 <= x < e.geo.per_group,
        num == 1 + g * e.geo.per_group + x,
        ({
            let bs = e.geo.block_size as int;
            let at = e.geo.table[g] * bs + x * e.geo.inode_size;
            &&& at % bs + e.geo.inode_size <= bs
            &&& at / bs * (bs / 512) <= u32::MAX
            &&& e.store.can(e.vol, at / bs * (bs / 512), bs / 512)
        }),
    ensures
        ({
            let data = e.store.disks[e.vol as int].data;
            let at = e.geo.table[g] * e.geo.block_size + x * e.geo.inode_size;
            &&& e.inode(num) is Some
            &&& e.inode(num)->Some_0.mode == bytes::le16(data, at)
            &&& e.inode(num)->Some_0.size == bytes::le32(data, at + 4)
            &&& e.inode(num)->Some_0.block.len() == 15
            &&& forall|k: int|
                0 <= k < 15 ==> #[trigger] e.inode(num)->Some_0.block[k] == bytes::le32(
                    data,
                    at + 40 + 4 * k,
                )
        }),
{
    lemma_size(e);
    let bs = e.geo.block_size as int;
    let per = e.geo.per_group as int;
    let off = x * e.geo.inode_size;
    let t = e.geo.table[g] as int;
    let data = e.store.disks[e.vol as int].data;
    assert(0 <= off) by (nonlinear_arith)
        requires
            off == x * e.geo.inode_size,
            0 <= x,
    ;
    vstd::arithmetic::div_mod::lemma_fundamental_div_mod_converse(num - 1, per, g, x);
    lemma_address(t, off, bs);
    let blk = t + off / bs;
    let at = t * bs + off;
    let w = bs / 512;
    assert(blk <= blk * w) by (nonlinear_arith)
        requires
            blk >= 0,
            w >= 1,
    ;
    assert(bytes::w32(blk * w) == blk * w);
    let lba = blk * w;
    assert(lba * 512 == blk * bs) by (nonlinear_arith)
        requires
            lba == blk * w,
            w * 512 == bs,
    ;
    let b = e.store.get(e.vol, lba, w);
    assert((blk as u32) * (e.geo.block_size / 512) == lba);
    assert(e.rd(blk as u32) == Some(b));
    let within = off % bs;
    assert(b.len() == bs) by {
        assert((lba + w) * 512 == lba * 512 + bs);
    }
    assert forall|i: int| 0 <= i < bs implies #[trigger] b[i] == data[blk * bs + i] by {}
    assert(e.inode(num) == Some(crate::ext2::inode_at(b, within)));
    assert(bytes::le16(b, within) == bytes::le16(data, at));
    assert(bytes::le32(b, within + 4) == bytes::le32(data, at + 4));
    assert forall|k: int| 0 <= k < 15 implies #[trigger] crate::ext2::inode_at(b, within).block[k]
        == bytes::le32(data, at + 40 + 4 * k) by {}
}

/// Group descriptors lie one after the other, 32 bytes each.
proof fn lemma_table(
    store: StoreView,
    vol: u64,
    bs: u32,
    groups: int,
    first: int,
    blk: int,
    table: Seq<u32>,
)
    requires
        store.wf(),
        1024 <= bs <= 65536,
        bs as int % 1024 == 0,
        0 <= first <= blk,
        groups <= 4096,
        (first + 128) * (bs as int / 512) <= u32::MAX,
        table.len() <= groups,
        table.len() < groups ==> table.len() == (blk - first) * (bs as int / 32),
        forall|g: int|
            0 <= g < table.len() ==> #[trigger] table[g] == bytes::le32(
                store.disks[vol as int].data,
                first * bs + 32 * g + 8,
            ),
    ensures
        ext2::table_from(store, vol, bs, groups, blk, table) matches Some(t) ==> t.len() == groups
            && forall|g: int|
            0 <= g < t.len() ==> #[trigger] t[g] == bytes::le32(
                store.disks[vol as int].data,
                first * bs + 32 * g + 8,
            ),
    decreases groups - table.len(),
{
    if table.len() < groups {
        let per = bs as int / 512;
        let m = bs as int / 32;
        let x = blk - first;
        let data = store.disks[vol as int].data;
        assert(x < 128) by (nonlinear_arith)
            requires
                x * m < 4096,
                m >= 32,
                0 <= x,
        ;
        assert(blk * per <= (first + 128) * per && blk <= blk * per) by (nonlinear_arith)
            requires
                0 <= blk <= first + 128,
                per >= 1,
        ;
        let lba = blk * per;
        assert(bytes::w32(blk) == blk);
        assert(bytes::w32(bytes::w32(blk) * (bs / 512)) == lba);
        assert(lba * 512 == blk * bs) by (nonlinear_arith)
            requires
                lba == blk * per,
                per * 512 == bs,
        ;
        if store.read(vol, lba as u32, per) is Some {
            let b = store.read(vol, lba as u32, per)->Some_0;
            let left = groups - table.len();
            let n = if left <= m {
                left
            } else {
                m
            };
            let more = Seq::new(n as nat, |k: int| bytes::le32(b, k * 32 + 8));
            let t2 = table + more;
            assert(b.len() == bs) by {
                assert((lba + per) * 512 == lba * 512 + bs);
            }
            assert forall|i: int| 0 <= i < bs implies #[trigger] b[i] == data[blk * bs + i] by {}
            assert(32 * (x * m) == x * bs) by (nonlinear_arith)
                requires
                    32 * m == bs,
            ;
            assert(first * bs + x * bs == blk * bs) by (nonlinear_arith)
                requires
                    first + x == blk,
            ;
            assert((x + 1) * m == x * m + m) by (nonlinear_arith);
            assert forall|g: int| 0 <= g < t2.len() implies #[trigger] t2[g] == bytes::le32(
                data,
                first * bs + 32 * g + 8,
            ) by {
                if g >= table.len() {
                    let k = g - table.len();
                    assert(t2[g] == more[k]);
                    assert(k * 32 + 12 <= bs);
                    assert(bytes::le32(b, k * 32 + 8) == bytes::le32(data, blk * bs + k * 32 + 8));
                } else {
                    assert(t2[g] == table[g]);
                }
            }
            lemma_table(store, vol, bs, groups, first, blk + 1, t2);
        }
    }
}

/// Law: what is said of the layout of a mounted volume is what its superblock, 1024 bytes from
/// its start, and its group descriptors say, which lie in the block after the superblock's: the
/// block size is 1024 times a power of two, there are just enough groups for the blocks that
/// there are, and the tables of inodes are where the descriptors have them. The root, inode 2,
/// is a directory.
pub proof fn law_layout(store: StoreView, vol: u64, geo: GeoView)
    requires
        store.wf(),
        vol < store.disks.len(),
        ext2::layout(store, vol) == Some(geo),
        (bytes::le32(store.disks[vol as int].data, 1024int + 0x14) + 129) * (geo.block_size as int
            / 512) <= u32::MAX,
    ensures
        ({
            let data = store.disks[vol as int].data;
            let log = bytes::le32(data, 1024int + 0x18) as nat;
            let blocks = bytes::le32(data, 1024int + 4) as int;
            let each = bytes::le32(data, 1024int + 0x20) as int;
            let first = bytes::le32(data, 1024int + 0x14) as int;
            let e = Ext2View { store, vol, geo };
            &&& bytes::le16(data, 1024int + 0x38) == 0xEF53
            &&& geo.wf()
            &&& geo.block_size == 1024 * vstd::arithmetic::power2::pow2(log)
            &&& geo.per_group == bytes::le32(data, 1024int + 0x28)
            &&& geo.inode_size == if bytes::le32(data, 1024int + 0x4C) != 0 && bytes::le16(
                data,
                1024int + 0x58,
            ) >= 128 {
                bytes::le16(data, 1024int + 0x58) as int
            } else {
                128
            }
            &&& (geo.table.len() - 1) * each < blocks <= geo.table.len() * each
            &&& forall|g: int|
                0 <= g < geo.table.len() ==> #[trigger] geo.table[g] == bytes::le32(
                    data,
                    (first + 1) * geo.block_size + 32 * g + 8,
                )
            &&& e.inode(2) matches Some(i) && i.mode / 0x1000 == 4
        }),
{
    let data = store.disks[vol as int].data;
    let sb = store.read(vol, 2, 2)->Some_0;
    assert forall|i: int| 0 <= i < 1024 implies #[trigger] sb[i] == data[1024 + i] by {}
    assert(sb.len() == 1024);
    assert(bytes::le32(sb, 4) == bytes::le32(data, 1024int + 4));
    assert(bytes::le32(sb, 0x14) == bytes::le32(data, 1024int + 0x14));
    assert(bytes::le32(sb, 0x18) == bytes::le32(data, 1024int + 0x18));
    assert(bytes::le32(sb, 0x20) == bytes::le32(data, 1024int + 0x20));
    assert(bytes::le32(sb, 0x28) == bytes::le32(data, 1024int + 0x28));
    assert(bytes::le16(sb, 0x38) == bytes::le16(data, 1024int + 0x38));
    assert(bytes::le32(sb, 0x4C) == bytes::le32(data, 1024int + 0x4C));
    assert(bytes::le16(sb, 0x58) == bytes::le16(data, 1024int + 0x58));
    let log = bytes::le32(sb, 0x18);
    let sizes = ext2::block_sizes();
    assert(sizes[log as int] == geo.block_size);
    assert(sizes.contains(geo.block_size));
    assert(geo.block_size == 1024 * vstd::arithmetic::power2::pow2(log as nat)) by {
        vstd::arithmetic::power2::lemma2_to64();
    }
    let groups = ext2::groups_of(sb);
    let first = bytes::le32(sb, 0x14) + 1;
    lemma_table(store, vol, geo.block_size, groups, first, first, Seq::empty());
    let blocks = bytes::le32(sb, 4) as int;
    let each = bytes::le32(sb, 0x20) as int;
    vstd::arithmetic::div_mod::lemma_fundamental_div_mod(blocks + each - 1, each);
    assert(each * groups == groups * each) by (nonlinear_arith);
    assert((groups - 1) * each == groups * each - each) by (nonlinear_arith);
}

/// Law: a superblock is taken exactly where it has the two magic bytes, blocks of 1 to 64 KiB, blocks
/// at all, groups with blocks and inodes, and no more than 4096 groups.
pub proof fn law_super_taken(sb: Seq<u8>)
    ensures
        ({
            let blocks = bytes::le32(sb, 4);
            let each = bytes::le32(sb, 0x20);
            ext2::super_ok(sb) <==> sb[0x38] == 0x53 && sb[0x39] == 0xEF && bytes::le32(sb, 0x18) <= 6
                && blocks > 0 && each > 0 && bytes::le32(sb, 0x28) > 0 && blocks <= 4096 * each
        }),
{
    let blocks = bytes::le32(sb, 4) as int;
    let each = bytes::le32(sb, 0x20) as int;
    assert(bytes::le16(sb, 0x38) == 0xEF53 <==> sb[0x38] == 0x53 && sb[0x39] == 0xEF);
    if blocks > 0 && each > 0 {
        let g = (blocks + each - 1) / each;
        assert(g >= 1 && (g <= 4096 <==> blocks <= 4096 * each)) by (nonlinear_arith)
            requires
                blocks > 0,
                each > 0,
                g == (blocks + each - 1) / each,
        ;
    }
}

} // verus!
