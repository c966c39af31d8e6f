//! What holds of the metadata of files and directories on a MorionFS: what a new one has, what
//! changes with its content and with its permissions, and how blocks are told to be sound.
use vstd::prelude::*;

use crate::bytes;
use crate::mfs;
use crate::mfs::{MfsSnap, MfsView, MFS_MAGIC_DIR, MFS_MAGIC_FILE};
use crate::mfs_cow;
use crate::mfs_dir;
use crate::mfs_laws;
use crate::mfs_list;
use crate::mfs_moves;
use crate::mfs_path;
use crate::mfs_srv;
use crate::mfs_srv::MfsSrvView;
use crate::mfs_vol;
use crate::mfs_ways;
use crate::vfs::{ReplyView, Request};

verus! {

/// The register after one bit: shifted to the right, and the polynomial taken in where a one was
/// shifted out.
pub open spec fn shifted(x: u32) -> u32 {
    (x >> 1u32) ^ (if x & 1 == 1 {
        0xEDB8_8320u32
    } else {
        0
    })
}

/// The registers of eight bits.
pub open spec fn registers(t: Seq<u32>) -> bool {
    t.len() == 9 && forall|k: int| 0 <= k < 8 ==> t[k + 1] == shifted(#[trigger] t[k])
}

/// One bit.
proof fn lemma_bit(x: u32)
    ensures
        mfs::crc_bit(x) == shifted(x),
{
    assert((x >> 1u32) ^ 0 == x >> 1u32 && (x & 1 != 0) == (x & 1 == 1)) by (bit_vector);
}

/// The register does not depend on what follows.
proof fn lemma_prefix(s: Seq<u8>, b: u8, n: int)
    requires
        0 <= n <= s.len(),
    ensures
        mfs::crc_reg(s.push(b), n) == mfs::crc_reg(s, n),
    decreases n,
{
    if n > 0 {
        lemma_prefix(s, b, n - 1);
        assert(s.push(b)[n - 1] == s[n - 1]);
    }
}

/// Law: the checksum of a block is CRC-32: that of nothing is 0, and one more byte is taken into the
/// register, which is the checksum with its bits turned, bit by bit, the lowest first.
pub proof fn law_crc(s: Seq<u8>, b: u8, t: Seq<u32>)
    requires
        registers(t),
        t[0] == !mfs::crc32(s) ^ (b as u32),
    ensures
        mfs::crc32(Seq::empty()) == 0,
        mfs::crc32(s.push(b)) == !t[8],
{
    let r = mfs::crc_reg(s, s.len() as int);
    assert(!(!r) == r) by (bit_vector);
    assert(!0xFFFF_FFFFu32 == 0) by (bit_vector);
    lemma_prefix(s, b, s.len() as int);
    lemma_bit(t[0]);
    lemma_bit(t[1]);
    lemma_bit(t[2]);
    lemma_bit(t[3]);
    lemma_bit(t[4]);
    lemma_bit(t[5]);
    lemma_bit(t[6]);
    lemma_bit(t[7]);
    assert(t[1] == shifted(t[0]) && t[2] == shifted(t[1]) && t[3] == shifted(t[2]) && t[4]
        == shifted(t[3]));
    assert(t[5] == shifted(t[4]) && t[6] == shifted(t[5]) && t[7] == shifted(t[6]) && t[8]
        == shifted(t[7]));
}

/// Law: a block holds its kind in its first four bytes and the checksum of all but the first eight
/// in the next four; nothing else of it changes when they are written.
pub proof fn law_header(b: Seq<u8>, magic: u32, k: int)
    requires
        b.len() == 4096,
        8 <= k < 4096,
    ensures
        bytes::le32(mfs::sealed(b, magic), 0) == magic,
        bytes::le32(mfs::sealed(b, magic), 4) == mfs::crc32(b.subrange(8, 4096)),
        mfs::sealed(b, magic)[k] == b[k],
        mfs::block_ok(b, magic) <==> bytes::le32(b, 0) == magic && bytes::le32(b, 4) == mfs::crc32(
            b.subrange(8, 4096),
        ),
{
    let t = bytes::put32(b, 0, magic);
    bytes::law_put32_reads_back(b, 0, magic);
    bytes::law_put32_reads_back(t, 4, mfs::crc32(b.subrange(8, 4096)));
    let s = mfs::sealed(b, magic);
    assert(s[0] == t[0] && s[1] == t[1] && s[2] == t[2] && s[3] == t[3]);
}

/// Where the metadata of a node are: at byte 16 of a directory, at byte 4056 of a file or a link.
pub open spec fn meta_at(is_dir: bool) -> int {
    if is_dir {
        16
    } else {
        4056
    }
}

/// The metadata of node `b`: mode, owner, number of names, and the times of the last change of
/// content, of the last change at all, and of the last access.
pub open spec fn meta_is(
    b: Seq<u8>,
    is_dir: bool,
    mode: int,
    owner: u16,
    nlink: u32,
    mtime: u64,
    ctime: u64,
    atime: u64,
) -> bool {
    let o = meta_at(is_dir);
    &&& bytes::le16(b, o) == mode
    &&& bytes::le16(b, o + 2) == owner
    &&& bytes::le32(b, o + 4) == nlink
    &&& bytes::le64(b, o + 8) == mtime
    &&& bytes::le64(b, o + 16) == ctime
    &&& bytes::le64(b, o + 24) == atime
}

/// The two nodes agree but for `n` bytes at `o`.
pub open spec fn but_at(a: Seq<u8>, b: Seq<u8>, o: int, n: int) -> bool {
    a.len() == b.len() && forall|k: int|
        0 <= k < a.len() && !(o <= k < o + n) ==> #[trigger] b[k] == a[k]
}

/// Eight bytes that were not written.
proof fn lemma_kept64(a: Seq<u8>, b: Seq<u8>, o: int, n: int, p: int)
    requires
        but_at(a, b, o, n),
        0 <= p,
        p + 8 <= a.len(),
        p + 8 <= o || o + n <= p,
    ensures
        bytes::le64(b, p) == bytes::le64(a, p),
{
    assert(b[p] == a[p] && b[p + 1] == a[p + 1] && b[p + 2] == a[p + 2] && b[p + 3] == a[p + 3]);
    assert(b[p + 4] == a[p + 4] && b[p + 5] == a[p + 5] && b[p + 6] == a[p + 6] && b[p + 7] == a[p
        + 7]);
}

/// Four bytes that were not written.
proof fn lemma_kept32(a: Seq<u8>, b: Seq<u8>, o: int, n: int, p: int)
    requires
        but_at(a, b, o, n),
        0 <= p,
        p + 4 <= a.len(),
        p + 4 <= o || o + n <= p,
    ensures
        bytes::le32(b, p) == bytes::le32(a, p),
        bytes::le16(b, p) == bytes::le16(a, p),
        bytes::le16(b, p + 2) == bytes::le16(a, p + 2),
{
    assert(b[p] == a[p] && b[p + 1] == a[p + 1] && b[p + 2] == a[p + 2] && b[p + 3] == a[p + 3]);
}

/// Law: when the content of a file or a directory changes, it is noted as changed at that time, the
/// content and the node; its mode, its owner, its number of names, its time of access and all other
/// bytes stay.
pub proof fn law_content_changed(b: Seq<u8>, is_dir: bool, now: u64)
    requires
        b.len() == 4096,
    ensures
        ({
            let o = meta_at(is_dir);
            meta_is(
                mfs_dir::touched(b, is_dir, now),
                is_dir,
                bytes::le16(b, o) as int,
                bytes::le16(b, o + 2),
                bytes::le32(b, o + 4),
                now,
                now,
                bytes::le64(b, o + 24),
            )
        }),
        but_at(b, mfs_dir::touched(b, is_dir, now), meta_at(is_dir) + 8, 16),
{
    let o = meta_at(is_dir);
    let b1 = bytes::put64(b, o + 8, now);
    let b2 = bytes::put64(b1, o + 16, now);
    bytes::law_put64_reads_back(b, o + 8, now);
    bytes::law_put64_reads_back(b1, o + 16, now);
    assert(but_at(b, b1, o + 8, 8));
    assert(but_at(b1, b2, o + 16, 8));
    assert forall|k: int| 0 <= k < 4096 && !(o + 8 <= k < o + 24) implies #[trigger] b2[k]
        == b[k] by {
        assert(b2[k] == b1[k]);
        assert(b1[k] == b[k]);
    }
    lemma_kept64(b1, b2, o + 16, 8, o + 8);
    lemma_kept64(b, b2, o + 8, 16, o + 24);
    lemma_kept32(b, b2, o + 8, 16, o);
    lemma_kept32(b, b2, o + 8, 16, o + 4);
}

/// Law: a change of permissions takes the lowest twelve bits of the mode that was asked for, keeps
/// the type, and is noted as a change of the node, not of its content; everything else stays.
pub proof fn law_permissions_changed(b: Seq<u8>, is_dir: bool, mode: u16, now: u64)
    requires
        b.len() == 4096,
    ensures
        ({
            let o = meta_at(is_dir);
            let c = mfs_dir::with_ctime(mfs_dir::with_mode(b, is_dir, mode), is_dir, now);
            &&& c.len() == 4096
            &&& meta_is(
                c,
                is_dir,
                bytes::le16(b, o) as int / 4096 * 4096 + mode as int % 4096,
                bytes::le16(b, o + 2),
                bytes::le32(b, o + 4),
                bytes::le64(b, o + 8),
                now,
                bytes::le64(b, o + 24),
            )
            &&& forall|k: int|
                0 <= k < 4096 && !(o <= k < o + 2) && !(o + 16 <= k < o + 24) ==> #[trigger] c[k]
                    == b[k]
        }),
{
    let o = meta_at(is_dir);
    let m = mfs_dir::joined_mode(bytes::le16(b, o), mode);
    let b1 = bytes::put16(b, o, m);
    let b2 = bytes::put64(b1, o + 16, now);
    bytes::law_put16_reads_back(b, o, m);
    bytes::law_put64_reads_back(b1, o + 16, now);
    assert(but_at(b, b1, o, 2));
    assert(but_at(b1, b2, o + 16, 8));
    assert forall|k: int|
        0 <= k < 4096 && !(o <= k < o + 2) && !(o + 16 <= k < o + 24) implies #[trigger] b2[k]
        == b[k] by {
        assert(b2[k] == b1[k]);
        assert(b1[k] == b[k]);
    }
    lemma_kept32(b1, b2, o + 16, 8, o);
    assert(b1[o + 2] == b[o + 2] && b1[o + 3] == b[o + 3]);
    lemma_kept32(b, b1, o, 2, o + 4);
    lemma_kept32(b1, b2, o + 16, 8, o + 4);
    lemma_kept64(b, b1, o, 2, o + 8);
    lemma_kept64(b1, b2, o + 16, 8, o + 8);
    lemma_kept64(b, b1, o, 2, o + 24);
    lemma_kept64(b1, b2, o + 16, 8, o + 24);
}

/// The metadata written into a node.
proof fn lemma_meta(b: Seq<u8>, is_dir: bool, ftype: u16, owner: u16, mode: u16, now: u64)
    requires
        b.len() == 4096,
    ensures
        ({
            let c = mfs_dir::with_meta(b, is_dir, ftype, owner, mode, now);
            &&& meta_is(
                c,
                is_dir,
                ftype as int / 4096 * 4096 + mode as int % 4096,
                owner,
                1,
                now,
                now,
                now,
            )
            &&& but_at(b, c, meta_at(is_dir), 32)
        }),
{
    let o = meta_at(is_dir);
    let m = mfs_dir::joined_mode(ftype, mode);
    let b1 = bytes::put16(b, o, m);
    let b2 = bytes::put16(b1, o + 2, owner);
    let b3 = bytes::put32(b2, o + 4, 1);
    let b4 = mfs_dir::touched(b3, is_dir, now);
    let b5 = bytes::put64(b4, o + 24, now);
    bytes::law_put16_reads_back(b, o, m);
    bytes::law_put16_reads_back(b1, o + 2, owner);
    bytes::law_put32_reads_back(b2, o + 4, 1);
    law_content_changed(b3, is_dir, now);
    bytes::law_put64_reads_back(b4, o + 24, now);
    assert(b5 == mfs_dir::with_meta(b, is_dir, ftype, owner, mode, now));
    assert(but_at(b4, b5, o + 24, 8));
    assert(but_at(b2, b3, o + 4, 4));
    lemma_kept32(b4, b5, o + 24, 8, o);
    lemma_kept32(b4, b5, o + 24, 8, o + 4);
    lemma_kept64(b4, b5, o + 24, 8, o + 8);
    lemma_kept64(b4, b5, o + 24, 8, o + 16);
    lemma_kept32(b2, b3, o + 4, 4, o);
    assert(b2[o] == b1[o] && b2[o + 1] == b1[o + 1]);
    assert forall|k: int| 0 <= k < 4096 && !(o <= k < o + 32) implies #[trigger] b5[k] == b[k] by {
        assert(b5[k] == b4[k]);
        assert(b4[k] == b3[k]);
        assert(b3[k] == b2[k]);
        assert(b2[k] == b1[k]);
        assert(b1[k] == b[k]);
    }
}

/// Law: a new file has the mode 0644 and a new directory 0755, with its type, the owner that made
/// it, one name, and the time at which it was made for all its times; a new link has the mode 0777.
pub proof fn law_new_node(owner: u16, now: u64, target: Seq<u8>)
    requires
        target.len() <= 4000,
    ensures
        meta_is(
            mfs_path::new_node(false, owner, now),
            false,
            0x8000int + 0o644,
            owner,
            1,
            now,
            now,
            now,
        ),
        bytes::le64(mfs_path::new_node(false, owner, now), 8) == 0,
        meta_is(
            mfs_path::new_node(true, owner, now),
            true,
            0x4000int + 0o755,
            owner,
            1,
            now,
            now,
            now,
        ),
        meta_is(
            mfs_path::link_node(target, owner, now),
            false,
            0xA000int + 0o777,
            owner,
            1,
            now,
            now,
            now,
        ),
        bytes::le64(mfs_path::link_node(target, owner, now), 8) == target.len(),
        forall|k: int|
            0 <= k < target.len() ==> #[trigger] mfs_path::link_node(target, owner, now)[16 + k]
                == target[k],
{
    let z = bytes::zeros(4096);
    assert(z.len() == 4096);
    lemma_meta(z, false, 0x8000, owner, 0o644, now);
    lemma_kept64(z, mfs_path::new_node(false, owner, now), 4056, 32, 8);
    let d = mfs_dir::empty_dir(z);
    assert(d.len() == 4096);
    lemma_meta(d, true, 0x4000, owner, 0o755, now);
    let n = target.len() as u64;
    let l1 = bytes::put64(z, 8, n);
    bytes::law_put64_reads_back(z, 8, n);
    let l2 = bytes::splice(l1, 16, target);
    assert(l2.len() == 4096);
    lemma_meta(l2, false, 0xA000, owner, 0o777, now);
    let l = mfs_path::link_node(target, owner, now);
    lemma_kept64(l2, l, 4056, 32, 8);
    assert(but_at(l1, l2, 16, target.len() as int));
    lemma_kept64(l1, l2, 16, target.len() as int, 8);
    assert forall|k: int| 0 <= k < target.len() implies #[trigger] l[16 + k] == target[k] by {
        assert(l[16 + k] == l2[16 + k]);
    }
}

/// Law: `chmod` of a file gives it the permissions that were asked for and keeps its type, its
/// owner, its names, its content and the times of its content and of its last access; every other
/// object stays where it is. The new node is handed back.
pub proof fn law_chmod(
    s: MfsView,
    p: Seq<u8>,
    c: Seq<u8>,
    ino: u32,
    a: Seq<u8>,
    mode: u16,
) -> (n: Seq<u8>)
    requires
        mfs_path::raw_normal(p) == Some(c),
        1 < c.len() <= mfs_path::MFS_PATH_MAX,
        mfs_ways::clear(s, c),
        mfs_ways::leads(s, c) == Some((ino, 1u32)),
        mfs_laws::file_ok(s, ino, a),
        s.chmod(p, mode).1,
    ensures
        ({
            let t = s.chmod(p, mode).0;
            &&& mfs_laws::file_ok(t, ino, n)
            &&& mfs_list::node_bytes(t, ino) == Some(n)
            &&& mfs_laws::content(t, n) == mfs_laws::content(s, a)
            &&& meta_is(
                n,
                false,
                bytes::le16(a, 4056) as int / 4096 * 4096 + mode as int % 4096,
                bytes::le16(a, 4058),
                bytes::le32(a, 4060),
                bytes::le64(a, 4064),
                t.now,
                bytes::le64(a, 4080),
            )
            &&& forall|i: u32|
                mfs_cow::good_ino(i) && i != ino ==> #[trigger] mfs_cow::obj(t, i) == mfs_cow::obj(
                    s,
                    i,
                )
        }),
{
    reveal(MfsView::chmod);
    mfs_ways::law_resolve(s, c, true);
    let u = s.resolve(c, true).0;
    mfs_ways::lemma_alike(s, u);
    mfs_laws::lemma_file_elsewhere(s, u, ino, a);
    mfs_laws::lemma_object(u, ino);
    let v = u.object_block(ino).0;
    mfs_cow::lemma_buffer_only(u, v);
    mfs_laws::lemma_file_elsewhere(u, v, ino, a);
    assert(mfs::block_ok(a, MFS_MAGIC_FILE));
    if mfs::block_ok(a, MFS_MAGIC_DIR) {
        mfs::law_one_kind(a, MFS_MAGIC_DIR, MFS_MAGIC_FILE);
    }
    assert(a.len() == 4096);
    let b = mfs_dir::with_ctime(mfs_dir::with_mode(a, false, mode), false, v.now);
    law_permissions_changed(a, false, mode, v.now);
    mfs_moves::lemma_renode(v, ino, a, b);
    mfs_cow::lemma_commit_object(v, ino, b, MFS_MAGIC_FILE);
    let t = s.chmod(p, mode).0;
    let n = mfs::sealed(b, MFS_MAGIC_FILE);
    assert(t == v.commit_object(ino, b, MFS_MAGIC_FILE).0);
    assert forall|k: int| 8 <= k < 4096 implies #[trigger] n[k] == b[k] by {}
    assert(but_at(b, n, 0, 8));
    lemma_kept32(b, n, 0, 8, 4056);
    lemma_kept32(b, n, 0, 8, 4060);
    lemma_kept64(b, n, 0, 8, 4064);
    lemma_kept64(b, n, 0, 8, 4072);
    lemma_kept64(b, n, 0, 8, 4080);
    assert forall|i: u32| mfs_cow::good_ino(i) && i != ino implies #[trigger] mfs_cow::obj(t, i)
        == mfs_cow::obj(s, i) by {
        assert(mfs_cow::obj(t, i) == mfs_cow::obj(v, i));
        assert(mfs_cow::obj(v, i) == mfs_cow::obj(u, i));
        assert(mfs_cow::obj(u, i) == mfs_cow::obj(s, i));
    }
    n
}

/// Law: a snapshot is put behind those that there are, of which the first is left out where there
/// are eight already; it names the present state.
pub proof fn law_snapshots(s: MfsView, i: int)
    requires
        s.snaps.len() <= 8,
    ensures
        ({
            let t = s.with_snapshot();
            let n = s.snaps.len();
            &&& t.len() == if n < 8 {
                n + 1
            } else {
                8
            }
            &&& t.last().gen == s.gen && t.last().itab == s.itab && t.last().ino_hint == s.ino_hint
                && t.last().alloc_next == s.alloc_next
            &&& 0 <= i < t.len() - 1 ==> t[i] == if n < 8 {
                s.snaps[i]
            } else {
                s.snaps[i + 1]
            }
        }),
{
}

/// Law: the list of snapshots has 24 bytes for each, in their order: its generation, its table, the
/// number and the block at which a search for a free one starts.
pub proof fn law_snapshot_list(snaps: Seq<MfsSnap>, i: int, k: int)
    requires
        0 <= i <= k < snaps.len(),
    ensures
        ({
            let b = mfs_srv::snaps_bytes(snaps, i);
            let o = 24 * (k - i);
            &&& b.len() == 24 * (snaps.len() - i)
            &&& bytes::le64(b, o) == snaps[k].gen
            &&& bytes::le32(b, o + 8) == snaps[k].itab
            &&& bytes::le32(b, o + 12) == snaps[k].ino_hint
            &&& bytes::le32(b, o + 16) == snaps[k].alloc_next
        }),
    decreases k - i,
{
    let b = mfs_srv::snaps_bytes(snaps, i);
    let head = mfs_srv::snap_bytes(snaps[i]);
    let rest = mfs_srv::snaps_bytes(snaps, i + 1);
    assert(b == head + rest);
    lemma_snap(snaps[i]);
    lemma_snaps_len(snaps, i + 1);
    if i == k {
        lemma_head(head, rest);
    } else {
        law_snapshot_list(snaps, i + 1, k);
        lemma_tail(head, rest, 24 * (k - i - 1));
    }
}

/// How long the list is.
proof fn lemma_snaps_len(snaps: Seq<MfsSnap>, i: int)
    requires
        0 <= i <= snaps.len(),
    ensures
        mfs_srv::snaps_bytes(snaps, i).len() == 24 * (snaps.len() - i),
    decreases snaps.len() - i,
{
    if i < snaps.len() {
        lemma_snap(snaps[i]);
        lemma_snaps_len(snaps, i + 1);
    }
}

/// Four bytes of a number.
proof fn lemma_bytes32(v: u32)
    ensures
        bytes::bytes32(v).len() == 4,
        bytes::le32(bytes::bytes32(v), 0) == v,
{
    let z = bytes::zeros(4);
    bytes::law_put32_reads_back(z, 0, v);
    assert(bytes::put32(z, 0, v) =~= bytes::bytes32(v));
}

/// Eight bytes of a number.
proof fn lemma_bytes64(v: u64)
    ensures
        bytes::bytes64(v).len() == 8,
        bytes::le64(bytes::bytes64(v), 0) == v,
{
    let z = bytes::zeros(8);
    bytes::law_put64_reads_back(z, 0, v);
    assert(bytes::put64(z, 0, v) =~= bytes::bytes64(v));
}

/// One record.
proof fn lemma_snap(s: MfsSnap)
    ensures
        ({
            let h = mfs_srv::snap_bytes(s);
            &&& h.len() == 24
            &&& bytes::le64(h, 0) == s.gen
            &&& bytes::le32(h, 8) == s.itab
            &&& bytes::le32(h, 12) == s.ino_hint
            &&& bytes::le32(h, 16) == s.alloc_next
        }),
{
    let h = mfs_srv::snap_bytes(s);
    lemma_bytes64(s.gen);
    lemma_bytes32(s.itab);
    lemma_bytes32(s.ino_hint);
    lemma_bytes32(s.alloc_next);
    let g = bytes::bytes64(s.gen);
    let t = bytes::bytes32(s.itab);
    let i = bytes::bytes32(s.ino_hint);
    let a = bytes::bytes32(s.alloc_next);
    assert(h[0] == g[0] && h[1] == g[1] && h[2] == g[2] && h[3] == g[3]);
    assert(h[4] == g[4] && h[5] == g[5] && h[6] == g[6] && h[7] == g[7]);
    assert(h[8] == t[0] && h[9] == t[1] && h[10] == t[2] && h[11] == t[3]);
    assert(h[12] == i[0] && h[13] == i[1] && h[14] == i[2] && h[15] == i[3]);
    assert(h[16] == a[0] && h[17] == a[1] && h[18] == a[2] && h[19] == a[3]);
}

/// Numbers of the first record.
proof fn lemma_head(head: Seq<u8>, rest: Seq<u8>)
    requires
        head.len() == 24,
    ensures
        bytes::le64(head + rest, 0) == bytes::le64(head, 0),
        bytes::le32(head + rest, 8) == bytes::le32(head, 8),
        bytes::le32(head + rest, 12) == bytes::le32(head, 12),
        bytes::le32(head + rest, 16) == bytes::le32(head, 16),
{
}

/// Numbers of a later record.
proof fn lemma_tail(head: Seq<u8>, rest: Seq<u8>, o: int)
    requires
        head.len() == 24,
        0 <= o,
        o + 24 <= rest.len(),
    ensures
        bytes::le64(head + rest, 24 + o) == bytes::le64(rest, o),
        bytes::le32(head + rest, 24 + o + 8) == bytes::le32(rest, o + 8),
        bytes::le32(head + rest, 24 + o + 12) == bytes::le32(rest, o + 12),
        bytes::le32(head + rest, 24 + o + 16) == bytes::le32(rest, o + 16),
{
    let b = head + rest;
    assert forall|k: int| 0 <= k < rest.len() implies #[trigger] rest[k] == b[24 + k] by {}
    assert(rest[o] == b[24 + o] && rest[o + 1] == b[24 + (o + 1)]);
    assert(rest[o + 2] == b[24 + (o + 2)] && rest[o + 3] == b[24 + (o + 3)]);
    assert(rest[o + 4] == b[24 + (o + 4)] && rest[o + 5] == b[24 + (o + 5)]);
    assert(rest[o + 6] == b[24 + (o + 6)] && rest[o + 7] == b[24 + (o + 7)]);
    assert(rest[o + 8] == b[24 + (o + 8)] && rest[o + 9] == b[24 + (o + 9)]);
    assert(rest[o + 10] == b[24 + (o + 10)] && rest[o + 11] == b[24 + (o + 11)]);
    assert(rest[o + 12] == b[24 + (o + 12)] && rest[o + 13] == b[24 + (o + 13)]);
    assert(rest[o + 14] == b[24 + (o + 14)] && rest[o + 15] == b[24 + (o + 15)]);
    assert(rest[o + 16] == b[24 + (o + 16)] && rest[o + 17] == b[24 + (o + 17)]);
    assert(rest[o + 18] == b[24 + (o + 18)] && rest[o + 19] == b[24 + (o + 19)]);
}

/// Law: asked how full it is, a volume says how many blocks it has, and in the lower 32 bits how many
/// of them are free.
pub proof fn law_usage(s: MfsSrvView)
    ensures
        s.on_volume(Request::Usage).1 matches ReplyView::Value(v) && v / 0x1_0000_0000 == s.fs.total
            && v % 0x1_0000_0000 == s.fs.free,
        s.on_volume(Request::Usage).0 == s.fs,
{
    reveal(MfsSrvView::on_volume);
}

/// Law: a new file system takes as many blocks of eight sectors as its volume has, at least 64 and
/// at most 33357824, and 4096 where the size of the volume is not known.
pub proof fn law_format_blocks(sectors: u32)
    ensures
        mfs_vol::format_blocks(sectors) == if sectors == 0 {
            4096
        } else if sectors < 512 {
            64
        } else if sectors < 266862592 {
            sectors as int / 8
        } else {
            33357824
        },
{
}

/// Law: block `b` of a volume is its eight sectors from `8 * b` on.
pub proof fn law_block(s: MfsView, b: u32, y: int)
    requires
        s.store.wf(),
        s.store.can(s.vol, b * 8, 8),
        b < 0x1000_0000,
        0 <= y < 4096,
    ensures
        s.rd(b) matches Some(d) && d.len() == 4096 && d[y] == s.store.disks[s.vol as int].data[4096
            * b + y],
{
}

} // verus!
