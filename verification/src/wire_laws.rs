//! What holds of messages byte by byte: where each number of a request and of an answer stands, and
//! which request an operation is.
use vstd::prelude::*;

use crate::bytes;
use crate::mount::MountReqView;
use crate::path;
use crate::vfs::{DirEntryView, ReplyView, RequestView, Stat};
use crate::volume::VolumeDesc;
use crate::wire;

verus! {

/// `q` is the text at the start of `p`: what stands before the first 0 byte, or all of it.
pub open spec fn text_of(p: Seq<u8>, q: Seq<u8>) -> bool {
    &&& q.len() <= p.len()
    &&& forall|i: int| 0 <= i < q.len() ==> #[trigger] q[i] == p[i] && q[i] != 0
    &&& q.len() == p.len() || p[q.len() as int] == 0
}

/// Where a text ends.
proof fn lemma_end(p: Seq<u8>, q: Seq<u8>, i: int)
    requires
        text_of(p, q),
        0 <= i <= q.len(),
    ensures
        path::nul_at(p, i) == q.len(),
    decreases q.len() - i,
{
    if i < q.len() {
        assert(q[i] == p[i]);
        lemma_end(p, q, i + 1);
    }
}

/// A text.
proof fn lemma_text(p: Seq<u8>, q: Seq<u8>)
    requires
        text_of(p, q),
    ensures
        wire::text(p) == q,
{
    lemma_end(p, q, 0);
    assert(p.subrange(0, q.len() as int) =~= q);
}

/// Law: the operations on a path in the message are these: 1 opens, 6 makes a file, 7 a directory,
/// 8 removes a file, 9 a directory. The path ends before the first 0 byte.
pub proof fn law_path_operations(p: Seq<u8>, q: Seq<u8>, mem: Seq<u8>)
    requires
        text_of(p, q),
    ensures
        wire::request_from(1, p, mem) == (RequestView::Open { path: q }),
        wire::request_from(6, p, mem) == (RequestView::Creat { path: q }),
        wire::request_from(7, p, mem) == (RequestView::Mkdir { path: q }),
        wire::request_from(8, p, mem) == (RequestView::Unlink { path: q }),
        wire::request_from(9, p, mem) == (RequestView::Rmdir { path: q }),
{
    lemma_text(p, q);
}

/// Law: the operations on an open file are these: 2 reads, 3 writes, 4 lists, 5 closes, 12 sets the
/// size. The descriptor is in the first four bytes, the number of bytes in the next four, the offset
/// or the size at byte 8, and where the bytes are or go at byte 16.
pub proof fn law_file_operations(p: Seq<u8>, mem: Seq<u8>)
    ensures
        wire::request_from(2, p, mem) == (RequestView::Read {
            fd: bytes::le32(p, 0),
            count: bytes::le32(p, 4),
            offset: bytes::le64(p, 8),
        }),
        wire::request_from(3, p, mem) == (RequestView::Write {
            fd: bytes::le32(p, 0),
            offset: bytes::le64(p, 8),
            data: mem,
        }),
        wire::request_from(4, p, mem) == (RequestView::Readdir { fd: bytes::le32(p, 0) }),
        wire::request_from(5, p, mem) == (RequestView::Close { fd: bytes::le32(p, 0) }),
        wire::request_from(12, p, mem) == (RequestView::Truncate {
            fd: bytes::le32(p, 0),
            size: bytes::le64(p, 8),
        }),
        wire::fetch_spec(3, p) matches Some(f) && f.addr == bytes::le64(p, 16) && f.len == bytes::le32(
            p,
            4,
        ),
        wire::result_spec(2, p) == bytes::le64(p, 16),
        wire::result_spec(4, p) == bytes::le64(p, 16),
{
}

/// Law: the operations on a path in the caller's page are these: 10 and 11 tell of a file, the second
/// without following a link, 17 reads a link, 14 sets the mode that is at byte 8. The page is the
/// one named first; of it the first 95 bytes count. The result goes where the path was.
pub proof fn law_page_operations(p: Seq<u8>, q: Seq<u8>, mem: Seq<u8>)
    requires
        mem.len() >= 95,
        text_of(mem.subrange(0, 95), q),
    ensures
        wire::request_from(10, p, mem) == (RequestView::Stat { path: q }),
        wire::request_from(11, p, mem) == (RequestView::Lstat { path: q }),
        wire::request_from(17, p, mem) == (RequestView::Readlink { path: q }),
        wire::request_from(14, p, mem) == (RequestView::Chmod {
            path: q,
            mode: bytes::le16(p, 8),
        }),
        forall|op: u64|
            op == 10 || op == 11 || op == 17 || op == 14 || op == 13 || op == 15 || op == 16 ==> (
            #[trigger] wire::fetch_spec(op, p) matches Some(f) && f.addr == bytes::le64(p, 0) && f.len
                == 4096),
        wire::result_spec(10, p) == bytes::le64(p, 0),
        wire::result_spec(11, p) == bytes::le64(p, 0),
        wire::result_spec(17, p) == bytes::le64(p, 0),
        wire::result_spec(19, p) == bytes::le64(p, 0),
{
    lemma_text(mem.subrange(0, 95), q);
    if mem.len() == 95 {
        assert(mem.subrange(0, 95) =~= mem);
    }
}

/// Law: the operations on two paths are these: 13 renames the first to the second, 15 names the
/// object of the first by the second too, 16 makes the second a link that holds the first. The
/// lengths of the two are at bytes 8 and 12; in the page one byte is between them. What does not
/// fit 96 bytes is no request.
pub proof fn law_pair_operations(p: Seq<u8>, mem: Seq<u8>, a: Seq<u8>, b: Seq<u8>, mid: u8)
    requires
        bytes::le32(p, 8) == a.len(),
        bytes::le32(p, 12) == b.len(),
        a.push(mid) + b == mem.subrange(0, (a.len() + 1 + b.len()) as int),
        a.len() + 1 + b.len() <= mem.len(),
    ensures
        a.len() + 1 + b.len() <= 96 ==> {
            &&& wire::request_from(13, p, mem) == (RequestView::Rename { from: a, to: b })
            &&& wire::request_from(15, p, mem) == (RequestView::Link { target: a, path: b })
            &&& wire::request_from(16, p, mem) == (RequestView::Symlink { target: a, path: b })
        },
        a.len() + 1 + b.len() > 96 ==> {
            &&& wire::request_from(13, p, mem) is Unknown
            &&& wire::request_from(15, p, mem) is Unknown
            &&& wire::request_from(16, p, mem) is Unknown
        },
{
    let n = a.len() as int;
    let m = (n + 1 + b.len()) as int;
    let j = a.push(mid) + b;
    assert forall|i: int| 0 <= i < m implies #[trigger] mem[i] == j[i] by {
        assert(mem.subrange(0, m)[i] == mem[i]);
    }
    assert(mem.subrange(0, n) =~= a);
    assert(mem.subrange(n + 1, m) =~= b);
}

/// Law: the operations on a whole volume are these: 18 takes a snapshot, 19 lists them, 20 brings
/// one back, 21 collects blocks, 22 tells how full it is, 23 makes a file system. What has another
/// number is no request.
pub proof fn law_volume_operations(op: u64, p: Seq<u8>, mem: Seq<u8>)
    ensures
        wire::request_from(18, p, mem) is Snapshot,
        wire::request_from(19, p, mem) is SnapshotList,
        wire::request_from(20, p, mem) == (RequestView::SnapshotRestore {
            index: bytes::le32(p, 0),
        }),
        wire::request_from(21, p, mem) is CollectGarbage,
        wire::request_from(22, p, mem) is Usage,
        wire::request_from(23, p, mem) == (RequestView::MakeFs { vol: bytes::le64(p, 0) }),
        op == 0 || op > 23 ==> wire::request_from(op, p, mem) is Unknown,
        op == 0 || op > 23 ==> wire::fetch_spec(op, p) is None && wire::result_spec(op, p) == 0,
{
}

/// Law: the operations of the mount service are these: 32 asks for a path, 33 mounts under a name of
/// at most 24 bytes that stands behind the domain, 34 mounts a volume, 35 takes a mount away.
pub proof fn law_mount_operations(op: u64, p: Seq<u8>, q: Seq<u8>, r: Seq<u8>)
    requires
        p.len() == 96,
        text_of(p, q),
        text_of(p.subrange(8, 32), r),
    ensures
        wire::mount_from(32, p) == (MountReqView::Lookup { path: q }),
        wire::mount_from(33, p) == (MountReqView::Mount { domain: bytes::le64(p, 0), prefix: r }),
        wire::mount_from(34, p) == (MountReqView::MountVolume {
            domain: bytes::le64(p, 0),
            vol: bytes::le64(p, 8),
        }),
        wire::mount_from(35, p) == (MountReqView::Unmount { prefix: q }),
        op < 32 || op > 35 ==> wire::mount_from(op, p) is Unknown,
{
    lemma_text(p, q);
    lemma_text(p.subrange(8, 32), r);
}

/// Law: what is told of a file is 48 bytes: the size, at byte 8 whether it is a directory, at 10 the
/// mode, at 12 the owner, at 16 the number of names, and from 24 on the three times, of the last
/// change of the content, of the object, and of the last use.
pub proof fn law_stat_bytes(s: Stat)
    ensures
        ({
            let b = wire::stat_image(s);
            &&& b.len() == 48
            &&& bytes::le64(b, 0) == s.size
            &&& b[8] == if s.is_dir {
                1
            } else {
                0int
            }
            &&& bytes::le16(b, 10) == s.mode
            &&& bytes::le16(b, 12) == s.owner
            &&& bytes::le32(b, 16) == s.nlink
            &&& bytes::le64(b, 24) == s.mtime
            &&& bytes::le64(b, 32) == s.ctime
            &&& bytes::le64(b, 40) == s.atime
            &&& wire::answer_image(ReplyView::StatOf(s)) == (48u64, b)
        }),
{
    wire::law_stat_reads_back(s);
    let t = wire::stat_from(wire::stat_image(s));
    assert(t.size == s.size && t.mode == s.mode && t.owner == s.owner && t.nlink == s.nlink);
    assert(t.mtime == s.mtime && t.ctime == s.ctime && t.atime == s.atime);
    let b0 = bytes::put64(bytes::zeros(48), 0, s.size);
    let b1 = b0.update(8, wire::flag(s.is_dir));
    assert(wire::stat_image(s)[8] == b1[8]);
}

/// Law: an entry of a listing is 112 bytes: the short name, at byte 11 whether it is a directory, at
/// 12 the length of the long name, at 14 the mode, at 16 the owner, at 20 the number of names, at 24
/// the size, at 32 the time, and from 40 on the long name.
pub proof fn law_entry_bytes(e: DirEntryView)
    requires
        e.name.len() == 11,
        e.long.len() <= 64,
    ensures
        ({
            let b = wire::entry_image(e);
            &&& b.len() == 112
            &&& b.subrange(0, 11) == e.name
            &&& b[11] == if e.is_dir {
                1
            } else {
                0int
            }
            &&& b[12] == e.long.len()
            &&& bytes::le16(b, 14) == e.mode
            &&& bytes::le16(b, 16) == e.owner
            &&& bytes::le32(b, 20) == e.nlink
            &&& bytes::le64(b, 24) == e.size
            &&& bytes::le64(b, 32) == e.mtime
            &&& b.subrange(40, (40 + e.long.len()) as int) == e.long
        }),
{
    wire::law_entry_reads_back(e);
    let b = wire::entry_image(e);
    let t = wire::entry_from(b);
    assert(t.name == e.name && t.long == e.long && t.mode == e.mode && t.owner == e.owner);
    assert(t.nlink == e.nlink && t.size == e.size && t.mtime == e.mtime);
    let b1 = bytes::splice(bytes::zeros(112), 0, e.name);
    let b2 = b1.update(11, wire::flag(e.is_dir)).update(12, e.long.len() as u8);
    assert(b[11] == b2[11] && b[12] == b2[12]);
}

/// Law: a volume in the list of volumes is 24 bytes: its number, its disk, its first sector, how many
/// sectors it has, and which file system.
pub proof fn law_volume_bytes(b: Seq<u8>, i: int)
    requires
        0 <= i,
        24 * i + 24 <= b.len(),
    ensures
        i < wire::descs_from(b).len(),
        ({
            let d: VolumeDesc = wire::descs_from(b)[i];
            &&& d.id == bytes::le32(b, 24 * i)
            &&& d.nsid == bytes::le32(b, 24 * i + 4)
            &&& d.start_lba == bytes::le32(b, 24 * i + 8)
            &&& d.sectors == bytes::le32(b, 24 * i + 12)
            &&& d.kind == bytes::le32(b, 24 * i + 16)
        }),
{
    let c = b.subrange(i * 24, i * 24 + 24);
    assert forall|k: int| 0 <= k < 24 implies #[trigger] c[k] == b[24 * i + k] by {}
    assert(c == b.subrange(i * wire::DESC_LEN, i * wire::DESC_LEN + wire::DESC_LEN));
    assert(bytes::le32(c, 0) == bytes::le32(b, 24 * i));
    assert(bytes::le32(c, 4) == bytes::le32(b, 24 * i + 4));
    assert(bytes::le32(c, 8) == bytes::le32(b, 24 * i + 8));
    assert(bytes::le32(c, 12) == bytes::le32(b, 24 * i + 12));
    assert(bytes::le32(c, 16) == bytes::le32(b, 24 * i + 16));
}

/// Entry `i` of a listing stands where it should.
proof fn lemma_entry_at(l: Seq<DirEntryView>, i: int)
    requires
        0 <= i < l.len(),
    ensures
        wire::listing_image(l).len() == 112 * l.len(),
        wire::listing_image(l).subrange(112 * i, 112 * i + 112) == wire::entry_image(l[i]),
    decreases l.len(),
{
    wire::lemma_listing_len(l);
    wire::lemma_listing_len(l.drop_last());
    let b = wire::listing_image(l);
    let a = wire::listing_image(l.drop_last());
    if i < l.len() - 1 {
        lemma_entry_at(l.drop_last(), i);
        assert(b.subrange(112 * i, 112 * i + 112) =~= a.subrange(112 * i, 112 * i + 112));
    } else {
        assert(b.subrange(112 * i, 112 * i + 112) =~= wire::entry_image(l[i]));
    }
}

/// Law: an answer is a word and the bytes that go into the caller's page: all ones for failure, a
/// number as it is, and for bytes how many they are. A listing is its first 36 entries, 112 bytes
/// each, one after the other.
pub proof fn law_answers(v: u64, d: Seq<u8>, l: Seq<DirEntryView>, i: int)
    ensures
        wire::answer_image(ReplyView::Fail) == (0xFFFF_FFFF_FFFF_FFFFu64, Seq::<u8>::empty()),
        wire::answer_image(ReplyView::Value(v)) == (v, Seq::<u8>::empty()),
        wire::answer_image(ReplyView::Data(d)) == (d.len() as u64, d),
        ({
            let (n, b) = wire::answer_image(ReplyView::Entries(l));
            &&& n == b.len()
            &&& b.len() == 112 * if l.len() <= 36 {
                l.len() as int
            } else {
                36
            }
            &&& 0 <= i < l.len() && i < 36 ==> b.subrange(112 * i, 112 * i + 112)
                == wire::entry_image(l[i])
        }),
{
    let m = if l.len() <= 36 {
        l
    } else {
        l.subrange(0, 36)
    };
    wire::lemma_listing_len(m);
    if 0 <= i < l.len() && i < 36 {
        lemma_entry_at(m, i);
    }
}

/// Law: the tag of a request is the operation and, 32 bits up, the encoding of the volume; the first
/// word of a request to the block service is the operation and, 8 bits up, the volume. The sector,
/// the number of sectors and the place of the bytes follow.
pub proof fn law_words(op: u64, vol: u64, p: Seq<u8>)
    requires
        op < 0x100,
        vol < 0x1_0000_0000,
    ensures
        wire::joined_spec(vol, op) == vol * 0x1_0000_0000 + op,
        wire::block_from(p).0.op == bytes::le64(p, 0),
        wire::block_from(p).0.lba == bytes::le64(p, 8),
        wire::block_from(p).0.count == bytes::le64(p, 16),
        wire::block_from(p).1 == bytes::le64(p, 24),
{
}

} // verus!
