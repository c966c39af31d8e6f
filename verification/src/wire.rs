//! Messages between domains: the numbers of the operations, and the layout of requests, of
//! directory entries and of what is told of a file.
use vstd::prelude::*;

use crate::bytes;
use crate::domain;
use crate::mount::{MountReq, MountReqView, MOUNT_PREFIX_MAX};
use crate::nvme::BlockReq;
use crate::path;
use crate::vfs::{
    DirEntry, DirEntryView, Reply, ReplyView, Request, RequestView, Stat, DIR_LONG_MAX, PAYLOAD_LEN,
    RESULT_MAX_ENTRIES,
};
use crate::volume::VolumeDesc;

verus! {

pub const OPEN: u64 = 1;

pub const READ: u64 = 2;

pub const WRITE: u64 = 3;

pub const READDIR: u64 = 4;

pub const CLOSE: u64 = 5;

pub const CREAT: u64 = 6;

pub const MKDIR: u64 = 7;

pub const UNLINK: u64 = 8;

pub const RMDIR: u64 = 9;

pub const STAT: u64 = 10;

pub const LSTAT: u64 = 11;

pub const TRUNCATE: u64 = 12;

pub const RENAME: u64 = 13;

pub const CHMOD: u64 = 14;

pub const LINK: u64 = 15;

pub const SYMLINK: u64 = 16;

pub const READLINK: u64 = 17;

pub const SNAP: u64 = 18;

pub const SNAP_LIST: u64 = 19;

pub const SNAP_RESTORE: u64 = 20;

pub const GC: u64 = 21;

pub const USAGE: u64 = 22;

pub const MKFS: u64 = 23;

pub const LOOKUP: u64 = 32;

pub const MOUNT: u64 = 33;

pub const MOUNT_VOL: u64 = 34;

pub const UMOUNT: u64 = 35;

/// Bytes of the page in which paths and results are handed over.
pub const PAGE: usize = 4096;

/// Bytes of a short name in a listing.
pub const SHORT_LEN: usize = 11;

/// Bytes of an entry in a listing.
pub const ENTRY_LEN: usize = 112;

/// Bytes of a volume in the list of volumes.
pub const DESC_LEN: usize = 24;

/// Bytes of what is told of a file.
pub const STAT_LEN: usize = 48;

/// The word that stands for failure.
pub const FAIL: u64 = 0xFFFF_FFFF_FFFF_FFFF;

/// Two 32-bit numbers in one word: the tag of a request holds the operation below the encoding
/// of the volume, the handle of a file its descriptor below the domain of its service.
pub open spec fn joined_spec(hi: u64, lo: u64) -> u64 {
    (hi % 0x1_0000_0000 * 0x1_0000_0000 + lo % 0x1_0000_0000) as u64
}

/// Two 32-bit numbers in one word.
pub fn joined(hi: u64, lo: u64) -> (r: u64)
    ensures
        r == joined_spec(hi, lo),
{
    hi % 0x1_0000_0000 * 0x1_0000_0000 + lo % 0x1_0000_0000
}

/// The upper number of a word.
pub fn upper(w: u64) -> (r: u64)
    ensures
        r == w / 0x1_0000_0000,
{
    w / 0x1_0000_0000
}

/// The lower number of a word.
pub fn lower(w: u64) -> (r: u64)
    ensures
        r == w % 0x1_0000_0000,
{
    w % 0x1_0000_0000
}

/// Law: two numbers of 32 bits are got back from the word that holds them.
pub proof fn law_joined_reads_back(hi: u64, lo: u64)
    requires
        hi <= u32::MAX,
        lo <= u32::MAX,
    ensures
        joined_spec(hi, lo) / 0x1_0000_0000 == hi,
        joined_spec(hi, lo) % 0x1_0000_0000 == lo,
{
}

/// At most the first `n` bytes.
pub open spec fn cut(b: Seq<u8>, n: int) -> Seq<u8> {
    if b.len() <= n {
        b
    } else {
        b.subrange(0, n)
    }
}

/// A flag as a byte.
pub open spec fn flag(v: bool) -> u8 {
    if v {
        1
    } else {
        0
    }
}

/// The bytes of an entry in a listing: the short name, whether it is a directory, the length of
/// the long name, mode, owner, number of names, size, time, and the long name.
pub open spec fn entry_image(e: DirEntryView) -> Seq<u8> {
    let l = cut(e.long, DIR_LONG_MAX as int);
    let b1 = bytes::splice(bytes::zeros(112), 0, cut(e.name, SHORT_LEN as int));
    let b2 = b1.update(11, flag(e.is_dir)).update(12, l.len() as u8);
    let b3 = bytes::put16(bytes::put16(b2, 14, e.mode), 16, e.owner);
    let b4 = bytes::put64(bytes::put64(bytes::put32(b3, 20, e.nlink), 24, e.size), 32, e.mtime);
    bytes::splice(b4, 40, l)
}

/// The length of the long name in the bytes of an entry.
pub open spec fn long_len(b: Seq<u8>) -> int {
    if b[12] <= DIR_LONG_MAX {
        b[12] as int
    } else {
        DIR_LONG_MAX as int
    }
}

/// The entry that bytes of a listing say.
pub open spec fn entry_from(b: Seq<u8>) -> DirEntryView {
    DirEntryView {
        name: b.subrange(0, SHORT_LEN as int),
        long: b.subrange(40, 40 + long_len(b)),
        size: bytes::le64(b, 24),
        is_dir: b[11] != 0,
        mode: bytes::le16(b, 14),
        owner: bytes::le16(b, 16),
        nlink: bytes::le32(b, 20),
        mtime: bytes::le64(b, 32),
    }
}

/// An entry that a listing can hold whole.
pub open spec fn fits(e: DirEntryView) -> bool {
    e.name.len() == SHORT_LEN && e.long.len() <= DIR_LONG_MAX
}

/// The bytes of what is told of a file.
pub open spec fn stat_image(s: Stat) -> Seq<u8> {
    let b1 = bytes::put64(bytes::zeros(48), 0, s.size).update(8, flag(s.is_dir));
    let b2 = bytes::put32(bytes::put16(bytes::put16(b1, 10, s.mode), 12, s.owner), 16, s.nlink);
    bytes::put64(bytes::put64(bytes::put64(b2, 24, s.mtime), 32, s.ctime), 40, s.atime)
}

/// What bytes tell of a file.
pub open spec fn stat_from(b: Seq<u8>) -> Stat {
    Stat {
        size: bytes::le64(b, 0),
        is_dir: b[8] != 0,
        mode: bytes::le16(b, 10),
        owner: bytes::le16(b, 12),
        nlink: bytes::le32(b, 16),
        mtime: bytes::le64(b, 24),
        ctime: bytes::le64(b, 32),
        atime: bytes::le64(b, 40),
    }
}

/// What lies at `off` is that of another buffer.
proof fn lemma_same_fields(a: Seq<u8>, b: Seq<u8>, off: int, n: int)
    requires
        0 <= off,
        off + n <= a.len(),
        a.len() == b.len(),
        forall|i: int| off <= i < off + n ==> a[i] == b[i],
    ensures
        n == 2 ==> bytes::le16(a, off) == bytes::le16(b, off),
        n == 4 ==> bytes::le32(a, off) == bytes::le32(b, off),
        n == 8 ==> bytes::le64(a, off) == bytes::le64(b, off),
{
}

/// Law: an entry whose names fit reads back from its bytes as it is.
pub proof fn law_entry_reads_back(e: DirEntryView)
    requires
        fits(e),
    ensures
        entry_image(e).len() == ENTRY_LEN,
        entry_from(entry_image(e)) == e,
{
    let l = e.long;
    let b1 = bytes::splice(bytes::zeros(112), 0, e.name);
    let b2 = b1.update(11, flag(e.is_dir)).update(12, l.len() as u8);
    let c1 = bytes::put16(b2, 14, e.mode);
    let c2 = bytes::put16(c1, 16, e.owner);
    let c3 = bytes::put32(c2, 20, e.nlink);
    let c4 = bytes::put64(c3, 24, e.size);
    let c5 = bytes::put64(c4, 32, e.mtime);
    let r = entry_image(e);
    assert(r == bytes::splice(c5, 40, l));
    bytes::law_put16_reads_back(b2, 14, e.mode);
    bytes::law_put16_reads_back(c1, 16, e.owner);
    bytes::law_put32_reads_back(c2, 20, e.nlink);
    bytes::law_put64_reads_back(c3, 24, e.size);
    bytes::law_put64_reads_back(c4, 32, e.mtime);
    lemma_same_fields(r, c1, 14, 2);
    lemma_same_fields(r, c2, 16, 2);
    lemma_same_fields(r, c3, 20, 4);
    lemma_same_fields(r, c4, 24, 8);
    lemma_same_fields(r, c5, 32, 8);
    assert(r[11] == b2[11]);
    assert(r[12] == b2[12]);
    assert(r.subrange(0, 11) =~= e.name);
    assert(r.subrange(40, (40 + l.len()) as int) =~= l);
}

/// Law: what is told of a file reads back from its bytes as it is.
pub proof fn law_stat_reads_back(s: Stat)
    ensures
        stat_image(s).len() == STAT_LEN,
        stat_from(stat_image(s)) == s,
{
    let b0 = bytes::put64(bytes::zeros(48), 0, s.size);
    let b1 = b0.update(8, flag(s.is_dir));
    let c1 = bytes::put16(b1, 10, s.mode);
    let c2 = bytes::put16(c1, 12, s.owner);
    let c3 = bytes::put32(c2, 16, s.nlink);
    let c4 = bytes::put64(c3, 24, s.mtime);
    let c5 = bytes::put64(c4, 32, s.ctime);
    let r = stat_image(s);
    assert(r == bytes::put64(c5, 40, s.atime));
    bytes::law_put64_reads_back(bytes::zeros(48), 0, s.size);
    bytes::law_put16_reads_back(b1, 10, s.mode);
    bytes::law_put16_reads_back(c1, 12, s.owner);
    bytes::law_put32_reads_back(c2, 16, s.nlink);
    bytes::law_put64_reads_back(c3, 24, s.mtime);
    bytes::law_put64_reads_back(c4, 32, s.ctime);
    bytes::law_put64_reads_back(c5, 40, s.atime);
    lemma_same_fields(r, b0, 0, 8);
    lemma_same_fields(r, c1, 10, 2);
    lemma_same_fields(r, c2, 12, 2);
    lemma_same_fields(r, c3, 16, 4);
    lemma_same_fields(r, c4, 24, 8);
    lemma_same_fields(r, c5, 32, 8);
    assert(r[8] == b1[8]);
}

/// The bytes of a listing: its entries one after the other.
pub open spec fn listing_image(l: Seq<DirEntryView>) -> Seq<u8>
    decreases l.len(),
{
    if l.len() == 0 {
        Seq::empty()
    } else {
        listing_image(l.drop_last()) + entry_image(l.last())
    }
}

/// The entries of a listing: as many as its bytes hold whole.
pub open spec fn listing_from(b: Seq<u8>) -> Seq<DirEntryView> {
    Seq::new(
        (b.len() / ENTRY_LEN as nat) as nat,
        |i: int| entry_from(b.subrange(i * ENTRY_LEN, i * ENTRY_LEN + ENTRY_LEN)),
    )
}

/// The bytes of an entry have one length, and so have those of a listing.
pub proof fn lemma_listing_len(l: Seq<DirEntryView>)
    ensures
        listing_image(l).len() == l.len() * ENTRY_LEN,
    decreases l.len(),
{
    if l.len() > 0 {
        lemma_listing_len(l.drop_last());
    }
}

/// Law: a listing whose names fit reads back from its bytes as it is.
pub proof fn law_listing_reads_back(l: Seq<DirEntryView>)
    requires
        forall|i: int| 0 <= i < l.len() ==> fits(#[trigger] l[i]),
    ensures
        listing_from(listing_image(l)) == l,
    decreases l.len(),
{
    let b = listing_image(l);
    lemma_listing_len(l);
    if l.len() > 0 {
        let m = l.drop_last();
        let a = listing_image(m);
        lemma_listing_len(m);
        assert forall|i: int| 0 <= i < m.len() implies fits(#[trigger] m[i]) by {
            assert(m[i] == l[i]);
        }
        law_listing_reads_back(m);
        assert forall|i: int| 0 <= i < l.len() implies #[trigger] listing_from(b)[i] == l[i] by {
            let p = b.subrange(i * ENTRY_LEN, i * ENTRY_LEN + ENTRY_LEN);
            if i < m.len() {
                assert(p =~= a.subrange(i * ENTRY_LEN, i * ENTRY_LEN + ENTRY_LEN));
                assert(listing_from(a)[i] == m[i]);
            } else {
                law_entry_reads_back(l.last());
                assert(p =~= entry_image(l.last()));
            }
        }
    }
    assert(listing_from(b) =~= l);
}

/// The bytes of a volume in the list of volumes.
pub open spec fn desc_image(d: VolumeDesc) -> Seq<u8> {
    let b1 = bytes::put32(bytes::put32(bytes::zeros(24), 0, d.id), 4, d.nsid);
    bytes::put32(bytes::put32(bytes::put32(b1, 8, d.start_lba), 12, d.sectors), 16, d.kind)
}

/// The volume that bytes of the list say.
pub open spec fn desc_from(b: Seq<u8>) -> VolumeDesc {
    VolumeDesc {
        id: bytes::le32(b, 0),
        nsid: bytes::le32(b, 4),
        start_lba: bytes::le32(b, 8),
        sectors: bytes::le32(b, 12),
        kind: bytes::le32(b, 16),
    }
}

/// The bytes of a list of volumes.
pub open spec fn descs_image(l: Seq<VolumeDesc>) -> Seq<u8>
    decreases l.len(),
{
    if l.len() == 0 {
        Seq::empty()
    } else {
        descs_image(l.drop_last()) + desc_image(l.last())
    }
}

/// The volumes of a list: as many as its bytes hold whole.
pub open spec fn descs_from(b: Seq<u8>) -> Seq<VolumeDesc> {
    Seq::new(
        (b.len() / DESC_LEN as nat) as nat,
        |i: int| desc_from(b.subrange(i * DESC_LEN, i * DESC_LEN + DESC_LEN)),
    )
}

/// A volume reads back from its bytes.
proof fn lemma_desc(d: VolumeDesc)
    ensures
        desc_image(d).len() == DESC_LEN,
        desc_from(desc_image(d)) == d,
{
    let z = bytes::zeros(24);
    let b1 = bytes::put32(z, 0, d.id);
    let b2 = bytes::put32(b1, 4, d.nsid);
    let b3 = bytes::put32(b2, 8, d.start_lba);
    let b4 = bytes::put32(b3, 12, d.sectors);
    let r = desc_image(d);
    bytes::law_put32_reads_back(z, 0, d.id);
    bytes::law_put32_reads_back(b1, 4, d.nsid);
    bytes::law_put32_reads_back(b2, 8, d.start_lba);
    bytes::law_put32_reads_back(b3, 12, d.sectors);
    bytes::law_put32_reads_back(b4, 16, d.kind);
    lemma_same_fields(r, b1, 0, 4);
    lemma_same_fields(r, b2, 4, 4);
    lemma_same_fields(r, b3, 8, 4);
    lemma_same_fields(r, b4, 12, 4);
}

/// Law: a list of volumes reads back from its bytes as it is.
pub proof fn law_volumes_read_back(l: Seq<VolumeDesc>)
    ensures
        descs_image(l).len() == l.len() * DESC_LEN,
        descs_from(descs_image(l)) == l,
    decreases l.len(),
{
    let b = descs_image(l);
    if l.len() > 0 {
        let m = l.drop_last();
        let a = descs_image(m);
        law_volumes_read_back(m);
        lemma_desc(l.last());
        assert forall|i: int| 0 <= i < l.len() implies #[trigger] descs_from(b)[i] == l[i] by {
            let p = b.subrange(i * DESC_LEN, i * DESC_LEN + DESC_LEN);
            if i < m.len() {
                assert(p =~= a.subrange(i * DESC_LEN, i * DESC_LEN + DESC_LEN));
                assert(descs_from(a)[i] == m[i]);
            } else {
                assert(p =~= desc_image(l.last()));
            }
        }
    }
    assert(descs_from(b) =~= l);
}

/// The bytes of a list of volumes.
pub fn desc_bytes(l: &Vec<VolumeDesc>) -> (r: Vec<u8>)
    ensures
        r@ == descs_image(l@),
{
    let mut out: Vec<u8> = Vec::new();
    let mut i: usize = 0;
    assert(l@.subrange(0, 0) =~= Seq::empty());
    while i < l.len()
        invariant
            i <= l.len(),
            out@ == descs_image(l@.subrange(0, i as int)),
        decreases l.len() - i,
    {
        let mut b: Vec<u8> = bytes::zero_vec(DESC_LEN);
        bytes::write_u32(&mut b, 0, l[i].id);
        bytes::write_u32(&mut b, 4, l[i].nsid);
        bytes::write_u32(&mut b, 8, l[i].start_lba);
        bytes::write_u32(&mut b, 12, l[i].sectors);
        bytes::write_u32(&mut b, 16, l[i].kind);
        out.append(&mut b);
        i = i + 1;
        proof {
            let m = l@.subrange(0, i as int);
            assert(m.drop_last() =~= l@.subrange(0, i - 1));
            assert(m.last() == l@[i - 1]);
        }
    }
    assert(l@.subrange(0, l@.len() as int) =~= l@);
    out
}

/// The volumes of a list.
pub fn descs_of(b: &[u8]) -> (r: Vec<VolumeDesc>)
    ensures
        r@ == descs_from(b@),
{
    let mut out: Vec<VolumeDesc> = Vec::new();
    let mut at: usize = 0;
    while b.len() - at >= DESC_LEN
        invariant
            at <= b.len(),
            at == out.len() * DESC_LEN,
            forall|i: int|
                0 <= i < out.len() ==> #[trigger] out@[i] == desc_from(
                    b@.subrange(i * DESC_LEN, i * DESC_LEN + DESC_LEN),
                ),
        decreases b.len() - at,
    {
        let p: Vec<u8> = bytes::slice_copy(b, at, at + DESC_LEN);
        out.push(
            VolumeDesc {
                id: bytes::read_u32(&p, 0),
                nsid: bytes::read_u32(&p, 4),
                start_lba: bytes::read_u32(&p, 8),
                sectors: bytes::read_u32(&p, 12),
                kind: bytes::read_u32(&p, 16),
            },
        );
        at = at + DESC_LEN;
    }
    assert(out@ =~= descs_from(b@));
    out
}

/// The body of a request to the block service: the operation below the volume, the first
/// sector, the number of sectors, and where the bytes are.
pub open spec fn block_body(op: u64, vol: u64, lba: u64, count: u64, buf: u64) -> Seq<u8> {
    let word = (vol % 0x100_0000_0000_0000 * 0x100 + op % 0x100) as u64;
    four_words(word, lba, count, buf)
}

/// Four words.
#[verifier::opaque]
pub open spec fn four_words(a: u64, b: u64, c: u64, d: u64) -> Seq<u8> {
    let x = bytes::put64(bytes::put64(bytes::zeros(32), 0, a), 8, b);
    bytes::put64(bytes::put64(x, 16, c), 24, d)
}

/// Four words read back, in a message too.
proof fn lemma_four_words(a: u64, b: u64, c: u64, d: u64)
    ensures
        bytes::le64(domain::body(four_words(a, b, c, d)), 0) == a,
        bytes::le64(domain::body(four_words(a, b, c, d)), 8) == b,
        bytes::le64(domain::body(four_words(a, b, c, d)), 16) == c,
        bytes::le64(domain::body(four_words(a, b, c, d)), 24) == d,
{
    reveal(four_words);
    let z = bytes::zeros(32);
    let b1 = bytes::put64(z, 0, a);
    let b2 = bytes::put64(b1, 8, b);
    let b3 = bytes::put64(b2, 16, c);
    let r = four_words(a, b, c, d);
    bytes::law_put64_reads_back(z, 0, a);
    bytes::law_put64_reads_back(b1, 8, b);
    bytes::law_put64_reads_back(b2, 16, c);
    bytes::law_put64_reads_back(b3, 24, d);
    lemma_same_fields(r, b1, 0, 8);
    lemma_same_fields(r, b2, 8, 8);
    lemma_same_fields(r, b3, 16, 8);
    lemma_body(r, 0, 8);
    lemma_body(r, 8, 8);
    lemma_body(r, 16, 8);
    lemma_body(r, 24, 8);
}

/// The body of a request to the block service.
pub fn block_request(op: u64, vol: u64, lba: u64, count: u64, buf: u64) -> (r: Vec<u8>)
    ensures
        r@ == block_body(op, vol, lba, count, buf),
{
    let mut b: Vec<u8> = bytes::zero_vec(32);
    bytes::write_u64(&mut b, 0, vol % 0x100_0000_0000_0000 * 0x100 + op % 0x100);
    bytes::write_u64(&mut b, 8, lba);
    bytes::write_u64(&mut b, 16, count);
    bytes::write_u64(&mut b, 24, buf);
    proof {
        reveal(four_words);
    }
    b
}

/// The request to the block service with the message body `p`, and where its bytes are.
pub open spec fn block_from(p: Seq<u8>) -> (BlockReq, u64) {
    (
        BlockReq { op: bytes::le64(p, 0), lba: bytes::le64(p, 8), count: bytes::le64(p, 16) },
        bytes::le64(p, 24),
    )
}

/// The request to the block service with the message body `p`, and where its bytes are.
pub fn block_request_of(p: &[u8]) -> (r: (BlockReq, u64))
    requires
        p.len() == PAYLOAD_LEN,
    ensures
        r == block_from(p@),
{
    (
        BlockReq {
            op: bytes::read_u64(p, 0),
            lba: bytes::read_u64(p, 8),
            count: bytes::read_u64(p, 16),
        },
        bytes::read_u64(p, 24),
    )
}

/// The operation and the volume of a request in one word.
proof fn lemma_block_word(op: u64, vol: u64, word: u64)
    requires
        op < 0x100,
        vol < 0x100_0000_0000_0000,
        word == vol % 0x100_0000_0000_0000 * 0x100 + op % 0x100,
    ensures
        word % 0x100 == op,
        word / 0x100 == vol,
{
}

/// The words of a request.
proof fn lemma_block_from(p: Seq<u8>, a: u64, b: u64, c: u64, d: u64)
    requires
        bytes::le64(p, 0) == a,
        bytes::le64(p, 8) == b,
        bytes::le64(p, 16) == c,
        bytes::le64(p, 24) == d,
    ensures
        block_from(p) == (BlockReq { op: a, lba: b, count: c }, d),
{
}

/// Law: a request to the block service is read by it as the caller made it, where the operation
/// is a byte and the volume has at most 56 bits.
pub proof fn law_block_request_reads_back(op: u64, vol: u64, lba: u64, count: u64, buf: u64)
    requires
        op < 0x100,
        vol < 0x100_0000_0000_0000,
    ensures
        ({
            let (q, at) = block_from(domain::body(block_body(op, vol, lba, count, buf)));
            &&& q.op % 0x100 == op
            &&& q.op / 0x100 == vol
            &&& q.lba == lba
            &&& q.count == count
            &&& at == buf
        }),
{
    let word = (vol % 0x100_0000_0000_0000 * 0x100 + op % 0x100) as u64;
    lemma_block_word(op, vol, word);
    lemma_four_words(word, lba, count, buf);
    lemma_block_from(domain::body(four_words(word, lba, count, buf)), word, lba, count, buf);
}

/// A copy of at most the first `n` bytes.
fn cut_copy(b: &[u8], n: usize) -> (r: Vec<u8>)
    ensures
        r@ == cut(b@, n as int),
{
    if b.len() <= n {
        vstd::slice::slice_to_vec(b)
    } else {
        bytes::slice_copy(b, 0, n)
    }
}

/// The bytes of an entry in a listing.
pub fn entry_bytes(e: &DirEntry) -> (r: Vec<u8>)
    ensures
        r@ == entry_image(e@),
{
    let mut b: Vec<u8> = bytes::zero_vec(ENTRY_LEN);
    let name: Vec<u8> = cut_copy(&e.name, SHORT_LEN);
    let long: Vec<u8> = cut_copy(&e.long, DIR_LONG_MAX);
    bytes::copy_into(&mut b, 0, &name, 0, name.len());
    assert(name@.subrange(0, name@.len() as int) =~= name@);
    b.set(11, if e.is_dir { 1 } else { 0 });
    b.set(12, long.len() as u8);
    bytes::write_u16(&mut b, 14, e.mode);
    bytes::write_u16(&mut b, 16, e.owner);
    bytes::write_u32(&mut b, 20, e.nlink);
    bytes::write_u64(&mut b, 24, e.size);
    bytes::write_u64(&mut b, 32, e.mtime);
    bytes::copy_into(&mut b, 40, &long, 0, long.len());
    assert(long@.subrange(0, long@.len() as int) =~= long@);
    b
}

/// An entry out of a listing.
pub fn entry_of(b: &[u8]) -> (r: DirEntry)
    requires
        b.len() == ENTRY_LEN,
    ensures
        r@ == entry_from(b@),
{
    let n: usize = if b[12] as usize <= DIR_LONG_MAX {
        b[12] as usize
    } else {
        DIR_LONG_MAX
    };
    DirEntry {
        name: bytes::slice_copy(b, 0, SHORT_LEN),
        long: bytes::slice_copy(b, 40, 40 + n),
        size: bytes::read_u64(b, 24),
        is_dir: b[11] != 0,
        mode: bytes::read_u16(b, 14),
        owner: bytes::read_u16(b, 16),
        nlink: bytes::read_u32(b, 20),
        mtime: bytes::read_u64(b, 32),
    }
}

/// The entries of a listing.
pub fn entries_of(b: &[u8]) -> (r: Vec<DirEntry>)
    ensures
        crate::vfs::entries_view(r@) == listing_from(b@),
{
    let mut out: Vec<DirEntry> = Vec::new();
    let mut at: usize = 0;
    while b.len() - at >= ENTRY_LEN
        invariant
            at <= b.len(),
            at == out.len() * ENTRY_LEN,
            forall|i: int|
                0 <= i < out.len() ==> #[trigger] out@[i]@ == entry_from(
                    b@.subrange(i * ENTRY_LEN, i * ENTRY_LEN + ENTRY_LEN),
                ),
        decreases b.len() - at,
    {
        let p: Vec<u8> = bytes::slice_copy(b, at, at + ENTRY_LEN);
        out.push(entry_of(&p));
        at = at + ENTRY_LEN;
    }
    assert(crate::vfs::entries_view(out@) =~= listing_from(b@));
    out
}

/// The bytes of what is told of a file.
pub fn stat_bytes(s: &Stat) -> (r: Vec<u8>)
    ensures
        r@ == stat_image(*s),
{
    let mut b: Vec<u8> = bytes::zero_vec(STAT_LEN);
    bytes::write_u64(&mut b, 0, s.size);
    b.set(8, if s.is_dir { 1 } else { 0 });
    bytes::write_u16(&mut b, 10, s.mode);
    bytes::write_u16(&mut b, 12, s.owner);
    bytes::write_u32(&mut b, 16, s.nlink);
    bytes::write_u64(&mut b, 24, s.mtime);
    bytes::write_u64(&mut b, 32, s.ctime);
    bytes::write_u64(&mut b, 40, s.atime);
    b
}

/// What is told of a file.
pub fn stat_of(b: &[u8]) -> (r: Stat)
    requires
        b.len() == STAT_LEN,
    ensures
        r == stat_from(b@),
{
    Stat {
        size: bytes::read_u64(b, 0),
        is_dir: b[8] != 0,
        mode: bytes::read_u16(b, 10),
        owner: bytes::read_u16(b, 12),
        nlink: bytes::read_u32(b, 16),
        mtime: bytes::read_u64(b, 24),
        ctime: bytes::read_u64(b, 32),
        atime: bytes::read_u64(b, 40),
    }
}

/// How an answer travels: the word of the message, and the bytes of the caller's page. Of a
/// listing only as many entries as a page holds.
pub open spec fn answer_image(r: ReplyView) -> (u64, Seq<u8>) {
    match r {
        ReplyView::Fail => (FAIL, Seq::empty()),
        ReplyView::Value(v) => (v, Seq::empty()),
        ReplyView::Data(d) => (d.len() as u64, d),
        ReplyView::Entries(l) => {
            let b = listing_image(
                if l.len() <= RESULT_MAX_ENTRIES {
                    l
                } else {
                    l.subrange(0, RESULT_MAX_ENTRIES as int)
                },
            );
            (b.len() as u64, b)
        },
        ReplyView::StatOf(s) => (STAT_LEN as u64, stat_image(s)),
    }
}

/// How an answer travels.
pub fn answer_of(r: Reply) -> (a: (u64, Vec<u8>))
    ensures
        (a.0, a.1@) == answer_image(r@),
{
    match r {
        Reply::Fail => (FAIL, Vec::new()),
        Reply::Value(v) => (v, Vec::new()),
        Reply::Data(d) => (d.len() as u64, d),
        Reply::Entries(l) => {
            let n: usize = if l.len() <= RESULT_MAX_ENTRIES {
                l.len()
            } else {
                RESULT_MAX_ENTRIES
            };
            let ghost all = crate::vfs::entries_view(l@);
            let mut b: Vec<u8> = Vec::new();
            let mut i: usize = 0;
            assert(all.subrange(0, 0) =~= Seq::empty());
            while i < n
                invariant
                    i <= n <= l.len(),
                    all == crate::vfs::entries_view(l@),
                    b@ == listing_image(all.subrange(0, i as int)),
                decreases n - i,
            {
                let mut e: Vec<u8> = entry_bytes(&l[i]);
                b.append(&mut e);
                i = i + 1;
                proof {
                    let m = all.subrange(0, i as int);
                    assert(m.drop_last() =~= all.subrange(0, i - 1));
                    assert(m.last() == all[i - 1]);
                }
            }
            assert(all.subrange(0, n as int) =~= if all.len() <= RESULT_MAX_ENTRIES {
                all
            } else {
                all.subrange(0, RESULT_MAX_ENTRIES as int)
            });
            (b.len() as u64, b)
        },
        Reply::StatOf(s) => {
            let b: Vec<u8> = stat_bytes(&s);
            (STAT_LEN as u64, b)
        },
    }
}

/// Where a request finds the bytes that do not travel in the message.
#[derive(Clone, Copy, Debug, PartialEq, Eq, Structural)]
pub struct Fetch {
    pub addr: u64,
    pub len: usize,
}

/// Which bytes of the caller's memory a request needs: the page with its paths, or the data to
/// write.
pub open spec fn fetch_spec(op: u64, p: Seq<u8>) -> Option<Fetch> {
    if op == WRITE {
        Some(Fetch { addr: bytes::le64(p, 16), len: bytes::le32(p, 4) as usize })
    } else if op == STAT || op == LSTAT || op == READLINK || op == CHMOD || op == RENAME || op
        == LINK || op == SYMLINK {
        Some(Fetch { addr: bytes::le64(p, 0), len: PAGE })
    } else {
        None
    }
}

/// Which bytes of the caller's memory a request needs.
pub fn fetch_of(op: u64, p: &[u8]) -> (r: Option<Fetch>)
    requires
        p.len() == PAYLOAD_LEN,
    ensures
        r == fetch_spec(op, p@),
{
    if op == WRITE {
        Some(Fetch { addr: bytes::read_u64(p, 16), len: bytes::read_u32(p, 4) as usize })
    } else if op == STAT || op == LSTAT || op == READLINK || op == CHMOD || op == RENAME || op
        == LINK || op == SYMLINK {
        Some(Fetch { addr: bytes::read_u64(p, 0), len: PAGE })
    } else {
        None
    }
}

/// Where the result of a request goes, 0 for nowhere.
pub open spec fn result_spec(op: u64, p: Seq<u8>) -> u64 {
    if op == READ || op == READDIR {
        bytes::le64(p, 16)
    } else if op == STAT || op == LSTAT || op == READLINK || op == SNAP_LIST {
        bytes::le64(p, 0)
    } else {
        0
    }
}

/// Where the result of a request goes, 0 for nowhere.
pub fn result_at(op: u64, p: &[u8]) -> (r: u64)
    requires
        p.len() == PAYLOAD_LEN,
    ensures
        r == result_spec(op, p@),
{
    if op == READ || op == READDIR {
        bytes::read_u64(p, 16)
    } else if op == STAT || op == LSTAT || op == READLINK || op == SNAP_LIST {
        bytes::read_u64(p, 0)
    } else {
        0
    }
}

/// The path before the first 0 byte.
pub open spec fn text(p: Seq<u8>) -> Seq<u8> {
    p.subrange(0, path::nul_at(p, 0))
}

/// The path at the start of a page.
pub open spec fn page_text(mem: Seq<u8>) -> Seq<u8> {
    text(cut(mem, PAYLOAD_LEN - 1))
}

/// The two paths at the start of a page.
pub open spec fn pair_spec(p: Seq<u8>, mem: Seq<u8>) -> Option<(Seq<u8>, Seq<u8>)> {
    let a = bytes::le32(p, 8);
    let b = bytes::le32(p, 12);
    if a + 1 + b <= PAYLOAD_LEN && a + 1 + b <= mem.len() {
        Some((mem.subrange(0, a as int), mem.subrange(a + 1, a + 1 + b)))
    } else {
        None
    }
}

/// The request with the message body `p`, where `mem` are the bytes that it needs of the
/// caller's memory.
pub open spec fn request_from(op: u64, p: Seq<u8>, mem: Seq<u8>) -> RequestView {
    let fd = bytes::le32(p, 0);
    let at = bytes::le64(p, 8);
    if op == OPEN {
        RequestView::Open { path: text(p) }
    } else if op == CREAT {
        RequestView::Creat { path: text(p) }
    } else if op == MKDIR {
        RequestView::Mkdir { path: text(p) }
    } else if op == UNLINK {
        RequestView::Unlink { path: text(p) }
    } else if op == RMDIR {
        RequestView::Rmdir { path: text(p) }
    } else if op == READ {
        RequestView::Read { fd, count: bytes::le32(p, 4), offset: at }
    } else if op == WRITE {
        RequestView::Write { fd, offset: at, data: mem }
    } else if op == READDIR {
        RequestView::Readdir { fd }
    } else if op == CLOSE {
        RequestView::Close { fd }
    } else if op == TRUNCATE {
        RequestView::Truncate { fd, size: at }
    } else if op == STAT {
        RequestView::Stat { path: page_text(mem) }
    } else if op == LSTAT {
        RequestView::Lstat { path: page_text(mem) }
    } else if op == READLINK {
        RequestView::Readlink { path: page_text(mem) }
    } else if op == CHMOD {
        RequestView::Chmod { path: page_text(mem), mode: bytes::le16(p, 8) }
    } else if op == RENAME {
        match pair_spec(p, mem) {
            Some(x) => RequestView::Rename { from: x.0, to: x.1 },
            None => RequestView::Unknown,
        }
    } else if op == LINK {
        match pair_spec(p, mem) {
            Some(x) => RequestView::Link { target: x.0, path: x.1 },
            None => RequestView::Unknown,
        }
    } else if op == SYMLINK {
        match pair_spec(p, mem) {
            Some(x) => RequestView::Symlink { target: x.0, path: x.1 },
            None => RequestView::Unknown,
        }
    } else if op == SNAP {
        RequestView::Snapshot
    } else if op == SNAP_LIST {
        RequestView::SnapshotList
    } else if op == SNAP_RESTORE {
        RequestView::SnapshotRestore { index: fd }
    } else if op == GC {
        RequestView::CollectGarbage
    } else if op == USAGE {
        RequestView::Usage
    } else if op == MKFS {
        RequestView::MakeFs { vol: bytes::le64(p, 0) }
    } else {
        RequestView::Unknown
    }
}

/// The request with the message body `p`.
pub fn request_of(op: u64, p: &[u8], mem: &[u8]) -> (r: Request)
    requires
        p.len() == PAYLOAD_LEN,
    ensures
        r@ == request_from(op, p@, mem@),
{
    let fd: u32 = bytes::read_u32(p, 0);
    let at: u64 = bytes::read_u64(p, 8);
    if op == OPEN {
        Request::Open { path: path::payload_path(p) }
    } else if op == CREAT {
        Request::Creat { path: path::payload_path(p) }
    } else if op == MKDIR {
        Request::Mkdir { path: path::payload_path(p) }
    } else if op == UNLINK {
        Request::Unlink { path: path::payload_path(p) }
    } else if op == RMDIR {
        Request::Rmdir { path: path::payload_path(p) }
    } else if op == READ {
        Request::Read { fd, count: bytes::read_u32(p, 4), offset: at }
    } else if op == WRITE {
        Request::Write { fd, offset: at, data: vstd::slice::slice_to_vec(mem) }
    } else if op == READDIR {
        Request::Readdir { fd }
    } else if op == CLOSE {
        Request::Close { fd }
    } else if op == TRUNCATE {
        Request::Truncate { fd, size: at }
    } else if op == STAT {
        Request::Stat { path: path::page_path(mem) }
    } else if op == LSTAT {
        Request::Lstat { path: path::page_path(mem) }
    } else if op == READLINK {
        Request::Readlink { path: path::page_path(mem) }
    } else if op == CHMOD {
        Request::Chmod { path: path::page_path(mem), mode: bytes::read_u16(p, 8) }
    } else if op == RENAME {
        match path::two_paths(mem, bytes::read_u32(p, 8), bytes::read_u32(p, 12)) {
            Some((from, to)) => Request::Rename { from, to },
            None => Request::Unknown,
        }
    } else if op == LINK {
        match path::two_paths(mem, bytes::read_u32(p, 8), bytes::read_u32(p, 12)) {
            Some((target, path)) => Request::Link { target, path },
            None => Request::Unknown,
        }
    } else if op == SYMLINK {
        match path::two_paths(mem, bytes::read_u32(p, 8), bytes::read_u32(p, 12)) {
            Some((target, path)) => Request::Symlink { target, path },
            None => Request::Unknown,
        }
    } else if op == SNAP {
        Request::Snapshot
    } else if op == SNAP_LIST {
        Request::SnapshotList
    } else if op == SNAP_RESTORE {
        Request::SnapshotRestore { index: fd }
    } else if op == GC {
        Request::CollectGarbage
    } else if op == USAGE {
        Request::Usage
    } else if op == MKFS {
        Request::MakeFs { vol: bytes::read_u64(p, 0) }
    } else {
        Request::Unknown
    }
}

/// The body of a request on an open file.
pub open spec fn fd_body(fd: u32, count: u32, offset: u64, page: u64) -> Seq<u8> {
    let b = bytes::put32(bytes::put32(bytes::zeros(24), 0, fd), 4, count);
    bytes::put64(bytes::put64(b, 8, offset), 16, page)
}

/// The body of a request on an open file.
pub fn fd_request(fd: u32, count: u32, offset: u64, page: u64) -> (r: Vec<u8>)
    ensures
        r@ == fd_body(fd, count, offset, page),
{
    let mut b: Vec<u8> = bytes::zero_vec(24);
    bytes::write_u32(&mut b, 0, fd);
    bytes::write_u32(&mut b, 4, count);
    bytes::write_u64(&mut b, 8, offset);
    bytes::write_u64(&mut b, 16, page);
    b
}

/// The body of a request whose path is in a page.
pub open spec fn page_body(page: u64, aux: u64) -> Seq<u8> {
    bytes::put64(bytes::put64(bytes::zeros(16), 0, page), 8, aux)
}

/// The body of a request whose path is in a page.
pub fn page_request(page: u64, aux: u64) -> (r: Vec<u8>)
    ensures
        r@ == page_body(page, aux),
{
    let mut b: Vec<u8> = bytes::zero_vec(16);
    bytes::write_u64(&mut b, 0, page);
    bytes::write_u64(&mut b, 8, aux);
    b
}

/// What the page of a request with one path starts with.
pub open spec fn one_path(p: Seq<u8>) -> Seq<u8> {
    p + seq![0u8]
}

/// What the page of a request with two paths starts with.
pub open spec fn both_paths(a: Seq<u8>, b: Seq<u8>) -> Seq<u8> {
    a + seq![0u8] + b
}

/// What the page of a request with two paths starts with, and the body of the request. `None`
/// where the paths do not fit one message.
pub fn pair_request(page: u64, a: &[u8], b: &[u8]) -> (r: Option<(Vec<u8>, Vec<u8>)>)
    ensures
        r is Some <==> a@.len() + 1 + b@.len() <= PAYLOAD_LEN,
        r matches Some((body, start)) ==> start@ == both_paths(a@, b@) && body@ == pair_body(
            page,
            a@.len() as u32,
            b@.len() as u32,
        ),
{
    if a.len() >= PAYLOAD_LEN || b.len() > PAYLOAD_LEN - 1 - a.len() {
        return None;
    }
    let mut start: Vec<u8> = vstd::slice::slice_to_vec(a);
    start.push(0);
    let mut second: Vec<u8> = vstd::slice::slice_to_vec(b);
    start.append(&mut second);
    let mut body: Vec<u8> = bytes::zero_vec(16);
    bytes::write_u64(&mut body, 0, page);
    bytes::write_u32(&mut body, 8, a.len() as u32);
    bytes::write_u32(&mut body, 12, b.len() as u32);
    assert(start@ =~= both_paths(a@, b@));
    Some((body, start))
}

/// The body of a request with two paths.
pub open spec fn pair_body(page: u64, a: u32, b: u32) -> Seq<u8> {
    bytes::put32(bytes::put32(bytes::put64(bytes::zeros(16), 0, page), 8, a), 12, b)
}

/// The body of a request that carries one number.
pub open spec fn number_body(v: u64) -> Seq<u8> {
    bytes::put64(bytes::zeros(8), 0, v)
}

/// The body of a request that carries one number.
pub fn number_request(v: u64) -> (r: Vec<u8>)
    ensures
        r@ == number_body(v),
{
    let mut b: Vec<u8> = bytes::zero_vec(8);
    bytes::write_u64(&mut b, 0, v);
    b
}

/// The request to the mount service with the message body `p`.
pub open spec fn mount_from(op: u64, p: Seq<u8>) -> MountReqView {
    if op == LOOKUP {
        MountReqView::Lookup { path: text(p) }
    } else if op == MOUNT {
        MountReqView::Mount {
            domain: bytes::le64(p, 0),
            prefix: text(p.subrange(8, 8 + MOUNT_PREFIX_MAX)),
        }
    } else if op == MOUNT_VOL {
        MountReqView::MountVolume { domain: bytes::le64(p, 0), vol: bytes::le64(p, 8) }
    } else if op == UMOUNT {
        MountReqView::Unmount { prefix: text(p) }
    } else {
        MountReqView::Unknown
    }
}

/// The request to the mount service with the message body `p`.
pub fn mount_request_of(op: u64, p: &[u8]) -> (r: MountReq)
    requires
        p.len() == PAYLOAD_LEN,
    ensures
        r@ == mount_from(op, p@),
{
    if op == LOOKUP {
        MountReq::Lookup { path: path::payload_path(p) }
    } else if op == MOUNT {
        let prefix: Vec<u8> = bytes::slice_copy(p, 8, 8 + MOUNT_PREFIX_MAX);
        MountReq::Mount { domain: bytes::read_u64(p, 0), prefix: path::payload_path(&prefix) }
    } else if op == MOUNT_VOL {
        MountReq::MountVolume { domain: bytes::read_u64(p, 0), vol: bytes::read_u64(p, 8) }
    } else if op == UMOUNT {
        MountReq::Unmount { prefix: path::payload_path(p) }
    } else {
        MountReq::Unknown
    }
}

/// A message body has the fields of what it carries.
proof fn lemma_body(d: Seq<u8>, off: int, n: int)
    requires
        0 <= off,
        0 <= n,
        off + n <= d.len() <= PAYLOAD_LEN,
    ensures
        domain::body(d).len() == PAYLOAD_LEN,
        n == 2 ==> bytes::le16(domain::body(d), off) == bytes::le16(d, off),
        n == 4 ==> bytes::le32(domain::body(d), off) == bytes::le32(d, off),
        n == 8 ==> bytes::le64(domain::body(d), off) == bytes::le64(d, off),
{
}

/// Law: a request on an open file is read by the service as the caller made it, and its data
/// and result are in the caller's page.
pub proof fn law_fd_request_reads_back(fd: u32, count: u32, offset: u64, page: u64, mem: Seq<u8>)
    ensures
        ({
            let p = domain::body(fd_body(fd, count, offset, page));
            &&& request_from(READ, p, mem) == (RequestView::Read { fd, offset, count })
            &&& request_from(WRITE, p, mem) == (RequestView::Write { fd, offset, data: mem })
            &&& request_from(READDIR, p, mem) == (RequestView::Readdir { fd })
            &&& request_from(CLOSE, p, mem) == (RequestView::Close { fd })
            &&& request_from(TRUNCATE, p, mem) == (RequestView::Truncate { fd, size: offset })
            &&& fetch_spec(WRITE, p) == Some(Fetch { addr: page, len: count as usize })
            &&& result_spec(READ, p) == page
            &&& result_spec(READDIR, p) == page
        }),
{
    let b1 = bytes::put32(bytes::zeros(24), 0, fd);
    let b2 = bytes::put32(b1, 4, count);
    let b3 = bytes::put64(b2, 8, offset);
    let d = fd_body(fd, count, offset, page);
    bytes::law_put32_reads_back(bytes::zeros(24), 0, fd);
    bytes::law_put32_reads_back(b1, 4, count);
    bytes::law_put64_reads_back(b2, 8, offset);
    bytes::law_put64_reads_back(b3, 16, page);
    lemma_same_fields(d, b1, 0, 4);
    lemma_same_fields(d, b2, 4, 4);
    lemma_same_fields(d, b3, 8, 8);
    lemma_body(d, 0, 4);
    lemma_body(d, 4, 4);
    lemma_body(d, 8, 8);
    lemma_body(d, 16, 8);
}

/// The path before the first 0 byte is one without such a byte.
proof fn lemma_text(p: Seq<u8>, q: Seq<u8>, i: int)
    requires
        0 <= i <= q.len() <= p.len(),
        forall|k: int| 0 <= k < q.len() ==> p[k] == q[k] && q[k] != 0,
        q.len() < p.len() ==> p[q.len() as int] == 0,
    ensures
        path::nul_at(p, i) == q.len(),
    decreases q.len() - i,
{
    if i < q.len() {
        lemma_text(p, q, i + 1);
    }
}

/// Law: a request with one path in the message is read by the service as the caller made it,
/// where the path has no 0 byte and fits the message.
pub proof fn law_path_request_reads_back(q: Seq<u8>, mem: Seq<u8>)
    requires
        q.len() <= PAYLOAD_LEN,
        forall|k: int| 0 <= k < q.len() ==> q[k] != 0,
    ensures
        ({
            let p = domain::body(q);
            &&& request_from(OPEN, p, mem) == (RequestView::Open { path: q })
            &&& request_from(CREAT, p, mem) == (RequestView::Creat { path: q })
            &&& request_from(MKDIR, p, mem) == (RequestView::Mkdir { path: q })
            &&& request_from(UNLINK, p, mem) == (RequestView::Unlink { path: q })
            &&& request_from(RMDIR, p, mem) == (RequestView::Rmdir { path: q })
        }),
{
    let p = domain::body(q);
    lemma_text(p, q, 0);
    assert(text(p) =~= q);
}

/// Law: a request that carries one number is read by the service as the caller made it.
pub proof fn law_number_request_reads_back(v: u64, mem: Seq<u8>)
    ensures
        ({
            let p = domain::body(number_body(v));
            &&& request_from(MKFS, p, mem) == (RequestView::MakeFs { vol: v })
            &&& request_from(SNAP_RESTORE, p, mem) == (RequestView::SnapshotRestore {
                index: (v % 0x1_0000_0000) as u32,
            })
            &&& result_spec(SNAP_LIST, p) == v
        }),
{
    let d = number_body(v);
    bytes::law_put64_reads_back(bytes::zeros(8), 0, v);
    lemma_body(d, 0, 8);
    lemma_body(d, 0, 4);
}

/// Law: a request to the mount service is read by it as the caller made it.
pub proof fn law_mount_request_reads_back(q: Seq<u8>, domain: u64, vol: u64)
    requires
        q.len() <= PAYLOAD_LEN,
        forall|k: int| 0 <= k < q.len() ==> q[k] != 0,
    ensures
        mount_from(LOOKUP, domain::body(q)) == (MountReqView::Lookup { path: q }),
        mount_from(UMOUNT, domain::body(q)) == (MountReqView::Unmount { prefix: q }),
        mount_from(MOUNT_VOL, domain::body(page_body(domain, vol))) == (MountReqView::MountVolume {
            domain,
            vol,
        }),
        q.len() <= MOUNT_PREFIX_MAX ==> mount_from(MOUNT, domain::body(number_body(domain) + q))
            == (MountReqView::Mount { domain, prefix: q }),
{
    let p = domain::body(q);
    lemma_text(p, q, 0);
    assert(text(p) =~= q);
    let b1 = bytes::put64(bytes::zeros(16), 0, domain);
    let d = page_body(domain, vol);
    bytes::law_put64_reads_back(bytes::zeros(16), 0, domain);
    bytes::law_put64_reads_back(b1, 8, vol);
    lemma_same_fields(d, b1, 0, 8);
    lemma_body(d, 0, 8);
    lemma_body(d, 8, 8);
    if q.len() <= MOUNT_PREFIX_MAX {
        let m = number_body(domain);
        let e = m + q;
        bytes::law_put64_reads_back(bytes::zeros(8), 0, domain);
        assert(bytes::le64(e, 0) == bytes::le64(m, 0));
        lemma_body(e, 0, 8);
        let s = domain::body(e).subrange(8, 8 + MOUNT_PREFIX_MAX);
        assert forall|k: int| 0 <= k < q.len() implies s[k] == q[k] && q[k] != 0 by {
            assert(e[8 + k] == q[k]);
        }
        lemma_text(s, q, 0);
        assert(text(s) =~= q);
    }
}

/// The fields of a request whose path is in a page.
proof fn lemma_page_fields(page: u64, aux: u64)
    ensures
        bytes::le64(domain::body(page_body(page, aux)), 0) == page,
        bytes::le16(domain::body(page_body(page, aux)), 8) == aux % 0x1_0000,
{
    let b1 = bytes::put64(bytes::zeros(16), 0, page);
    let d = page_body(page, aux);
    bytes::law_put64_reads_back(bytes::zeros(16), 0, page);
    bytes::law_put64_reads_back(b1, 8, aux);
    lemma_same_fields(d, b1, 0, 8);
    lemma_body(d, 0, 8);
    lemma_body(d, 8, 2);
    lemma_low_field(d, 8);
}

/// The low half of a field's low half.
proof fn lemma_low_field(b: Seq<u8>, off: int)
    requires
        0 <= off,
        off + 8 <= b.len(),
    ensures
        bytes::le16(b, off) == bytes::le64(b, off) % 0x1_0000,
{
}

/// Law: a request whose path is in the caller's page is read by the service as the caller made
/// it, where the path has no 0 byte and is shorter than a message, and its result goes to that
/// page.
pub proof fn law_page_request_reads_back(page: u64, aux: u64, q: Seq<u8>, mem: Seq<u8>)
    requires
        q.len() < PAYLOAD_LEN,
        forall|k: int| 0 <= k < q.len() ==> q[k] != 0,
        mem.len() == PAGE,
        mem.subrange(0, (q.len() + 1) as int) == one_path(q),
    ensures
        ({
            let p = domain::body(page_body(page, aux));
            &&& request_from(STAT, p, mem) == (RequestView::Stat { path: q })
            &&& request_from(LSTAT, p, mem) == (RequestView::Lstat { path: q })
            &&& request_from(READLINK, p, mem) == (RequestView::Readlink { path: q })
            &&& request_from(CHMOD, p, mem) == (RequestView::Chmod {
                path: q,
                mode: (aux % 0x1_0000) as u16,
            })
            &&& fetch_spec(STAT, p) == Some(Fetch { addr: page, len: PAGE })
            &&& fetch_spec(LSTAT, p) == Some(Fetch { addr: page, len: PAGE })
            &&& fetch_spec(READLINK, p) == Some(Fetch { addr: page, len: PAGE })
            &&& fetch_spec(CHMOD, p) == Some(Fetch { addr: page, len: PAGE })
            &&& result_spec(STAT, p) == page
            &&& result_spec(LSTAT, p) == page
            &&& result_spec(READLINK, p) == page
        }),
{
    lemma_page_fields(page, aux);
    lemma_page_text(q, mem);
}

/// The path of a request in a page.
proof fn lemma_page_text(q: Seq<u8>, mem: Seq<u8>)
    requires
        q.len() < PAYLOAD_LEN,
        forall|k: int| 0 <= k < q.len() ==> q[k] != 0,
        mem.len() == PAGE,
        mem.subrange(0, (q.len() + 1) as int) == one_path(q),
    ensures
        page_text(mem) == q,
{
    let c = cut(mem, PAYLOAD_LEN - 1);
    let s = mem.subrange(0, (q.len() + 1) as int);
    assert forall|k: int| 0 <= k < q.len() implies c[k] == q[k] && q[k] != 0 by {
        assert(s[k] == mem[k]);
    }
    assert(s[q.len() as int] == mem[q.len() as int]);
    lemma_text(c, q, 0);
    assert(text(c) =~= q);
}

/// Law: a request with two paths in the caller's page is read by the service as the caller made
/// it, where both fit one message.
pub proof fn law_pair_request_reads_back(page: u64, a: Seq<u8>, b: Seq<u8>, mem: Seq<u8>)
    requires
        a.len() + 1 + b.len() <= PAYLOAD_LEN,
        mem.len() == PAGE,
        mem.subrange(0, (a.len() + 1 + b.len()) as int) == both_paths(a, b),
    ensures
        ({
            let p = domain::body(pair_body(page, a.len() as u32, b.len() as u32));
            &&& request_from(RENAME, p, mem) == (RequestView::Rename { from: a, to: b })
            &&& request_from(LINK, p, mem) == (RequestView::Link { target: a, path: b })
            &&& request_from(SYMLINK, p, mem) == (RequestView::Symlink { target: a, path: b })
            &&& fetch_spec(RENAME, p) == Some(Fetch { addr: page, len: PAGE })
            &&& fetch_spec(LINK, p) == Some(Fetch { addr: page, len: PAGE })
            &&& fetch_spec(SYMLINK, p) == Some(Fetch { addr: page, len: PAGE })
        }),
{
    let x = a.len() as u32;
    let y = b.len() as u32;
    let b1 = bytes::put64(bytes::zeros(16), 0, page);
    let b2 = bytes::put32(b1, 8, x);
    let d = pair_body(page, x, y);
    bytes::law_put64_reads_back(bytes::zeros(16), 0, page);
    bytes::law_put32_reads_back(b1, 8, x);
    bytes::law_put32_reads_back(b2, 12, y);
    lemma_same_fields(d, b1, 0, 8);
    lemma_same_fields(d, b2, 8, 4);
    lemma_body(d, 0, 8);
    lemma_body(d, 8, 4);
    lemma_body(d, 12, 4);
    let s = both_paths(a, b);
    let n = a.len() + 1 + b.len();
    assert(mem.subrange(0, a.len() as int) =~= a) by {
        assert forall|k: int| 0 <= k < a.len() implies mem[k] == a[k] by {
            assert(mem.subrange(0, n as int)[k] == s[k]);
        }
    }
    assert(mem.subrange((a.len() + 1) as int, n as int) =~= b) by {
        assert forall|k: int| 0 <= k < b.len() implies mem[a.len() + 1 + k] == b[k] by {
            assert(mem.subrange(0, n as int)[a.len() + 1 + k] == s[a.len() + 1 + k]);
        }
    }
}

} // verus!
