//! MorionFS: the block format, the free-block bitmap and the commit of a new
//! generation.
//!
//! A block is 4096 bytes: magic, CRC-32 of the rest, 4088 bytes of payload. Blocks
//! 0 and 1 hold two copies of the superblock, 2 and 3 the headers of two copies of
//! the bitmap, then come the bitmap copies and the data area. Changed blocks are
//! always written to free places; a commit then writes bitmap, header and
//! superblock of either copy in turn.
use vstd::prelude::*;

use crate::bytes;
use crate::disk::{Store, StoreView};

verus! {

/// Bytes per block.
pub const MFS_BLOCK: usize = 4096;

/// Bytes of the block header.
pub const MFS_HDR: usize = 8;

/// Bytes of the payload.
pub const MFS_PAYLOAD: usize = 4088;

/// 32-bit numbers in a payload.
pub const MFS_SLOTS: usize = 1022;

/// Blocks of a volume whose size is not known.
pub const MFS_DEFAULT_TOTAL_BLOCKS: u32 = 4096;

/// Fewest blocks of a file system.
pub const MFS_MIN_TOTAL_BLOCKS: u32 = 64;

/// Most snapshots.
pub const MFS_MAX_SNAP: usize = 8;

/// Superblock magic.
pub const MFS_MAGIC_SUPER: u32 = 0x4D46_5338;

/// Format version.
pub const MFS_VERSION: u32 = 8;

/// Bitmap header magic.
pub const MFS_MAGIC_BMPHDR: u32 = 0x4D46_4248;

/// Directory block magic.
pub const MFS_MAGIC_DIR: u32 = 0x4D46_4449;

/// Directory extension index magic.
pub const MFS_MAGIC_DIDX: u32 = 0x4D46_5849;

/// File node magic.
pub const MFS_MAGIC_FILE: u32 = 0x4D46_464C;

/// Symbolic link node magic.
pub const MFS_MAGIC_LINK: u32 = 0x4D46_534C;

/// Data block magic.
pub const MFS_MAGIC_DATA: u32 = 0x4D46_4441;

/// Single indirect block magic.
pub const MFS_MAGIC_IND: u32 = 0x4D46_494E;

/// Double indirect block magic.
pub const MFS_MAGIC_IND2: u32 = 0x4D46_4932;

/// Triple indirect block magic.
pub const MFS_MAGIC_IND3: u32 = 0x4D46_4933;

/// Inode table block magic.
pub const MFS_MAGIC_ITAB: u32 = 0x4D46_4954;

/// Inode table index magic.
pub const MFS_MAGIC_ITABX: u32 = 0x4D46_4958;

/// One more than the largest inode number.
pub const MFS_INO_MAX: u32 = 1_044_484;

/// Inode number of the root directory.
pub const MFS_ROOT_INO: u32 = 1;

/// Blocks that one bitmap block describes.
pub const MFS_BMP_BLOCK_SPAN: u32 = 32768;

/// Most bitmap blocks.
pub const MFS_MAX_BMP_DATA_BLOCKS: u32 = 1018;

/// Most blocks of a file system.
pub const MFS_MAX_BLOCKS: u32 = 33_357_824;

/// One step of the CRC: the register shifted by one bit.
pub open spec fn crc_bit(c: u32) -> u32 {
    if c & 1 != 0 {
        (c >> 1) ^ 0xEDB8_8320
    } else {
        c >> 1
    }
}

/// The register after one more byte.
pub open spec fn crc_byte(c: u32, b: u8) -> u32 {
    crc_bit(
        crc_bit(crc_bit(crc_bit(crc_bit(crc_bit(crc_bit(crc_bit(c ^ (b as u32)))))))),
    )
}

/// The register after the first `n` bytes.
pub open spec fn crc_reg(s: Seq<u8>, n: int) -> u32
    decreases n,
{
    if n <= 0 {
        0xFFFF_FFFF
    } else {
        crc_byte(crc_reg(s, n - 1), s[n - 1])
    }
}

/// CRC-32 (IEEE 802.3, reflected).
pub open spec fn crc32(s: Seq<u8>) -> u32 {
    !crc_reg(s, s.len() as int)
}

/// The payload of a block.
pub open spec fn payload(b: Seq<u8>) -> Seq<u8> {
    b.subrange(8, 4096)
}

/// A block with its header written.
pub open spec fn sealed(b: Seq<u8>, magic: u32) -> Seq<u8> {
    bytes::put32(bytes::put32(b, 0, magic), 4, crc32(payload(b)))
}

/// Whether a block has the given magic and its CRC is right.
pub open spec fn block_ok(b: Seq<u8>, magic: u32) -> bool {
    bytes::le32(b, 0) == magic && crc32(payload(b)) == bytes::le32(b, 4)
}

/// Law: a block whose header was written is accepted, and its payload is as it was.
pub proof fn law_sealed_is_ok(b: Seq<u8>, magic: u32)
    requires
        b.len() == 4096,
    ensures
        block_ok(sealed(b, magic), magic),
        payload(sealed(b, magic)) == payload(b),
        sealed(b, magic).len() == 4096,
{
    let s = sealed(b, magic);
    assert(payload(s) =~= payload(b));
    let t = bytes::put32(b, 0, magic);
    bytes::law_put32_reads_back(b, 0, magic);
    bytes::law_put32_reads_back(t, 4, crc32(payload(b)));
    assert(bytes::le32(s, 0) == bytes::le32(t, 0));
}

/// Law: no block is accepted as two kinds at once.
pub proof fn law_one_kind(b: Seq<u8>, m1: u32, m2: u32)
    requires
        block_ok(b, m1),
        block_ok(b, m2),
    ensures
        m1 == m2,
{
}

/// Slot `i` of a block that holds 32-bit numbers.
pub open spec fn slot(b: Seq<u8>, i: int) -> u32 {
    bytes::le32(b, 8 + 4 * i)
}

/// A block with slot `i` set.
pub open spec fn with_slot(b: Seq<u8>, i: int, v: u32) -> Seq<u8> {
    bytes::put32(b, 8 + 4 * i, v)
}

/// Bitmap blocks for a file system of `total` blocks.
pub open spec fn bb_for(total: u32) -> int {
    (total + 32767) / 32768
}

/// First block of the data area.
pub open spec fn data_start(total: u32) -> int {
    4 + 2 * bb_for(total)
}

/// 1 for a block in use.
pub open spec fn bit(u: bool) -> int {
    if u {
        1
    } else {
        0
    }
}

/// The bitmap byte of blocks `o` to `o + 7`, the first in its lowest bit.
pub open spec fn byte_at(m: Seq<bool>, o: int) -> u8 {
    (bit(m[o]) + 2 * bit(m[o + 1]) + 4 * bit(m[o + 2]) + 8 * bit(m[o + 3]) + 16 * bit(m[o + 4]) + 32
        * bit(m[o + 5]) + 64 * bit(m[o + 6]) + 128 * bit(m[o + 7])) as u8
}

/// Bitmap block `c`.
pub open spec fn packed(m: Seq<bool>, c: int) -> Seq<u8> {
    Seq::new(4096, |k: int| byte_at(m, c * 32768 + 8 * k))
}

/// Bit `i` of a bitmap block.
pub open spec fn bit_of(b: Seq<u8>, i: int) -> bool {
    bytes::bit_at(b[i / 8], i % 8)
}

/// A bitmap with its block `c` taken from disk.
pub open spec fn unpacked(m: Seq<bool>, c: int, b: Seq<u8>) -> Seq<bool> {
    Seq::new(
        m.len(),
        |i: int|
            if c * 32768 <= i < (c + 1) * 32768 {
                bit_of(b, i - c * 32768)
            } else {
                m[i]
            },
    )
}

/// Law: a bitmap block read back from disk is the one that was written.
pub proof fn law_bitmap_reads_back(m: Seq<bool>, c: int)
    requires
        0 <= c,
        (c + 1) * 32768 <= m.len(),
    ensures
        unpacked(m, c, packed(m, c)) == m,
{
    let b = packed(m, c);
    assert forall|i: int| 0 <= i < m.len() implies unpacked(m, c, b)[i] == m[i] by {
        if c * 32768 <= i < (c + 1) * 32768 {
            let k = (i - c * 32768) / 8;
            let j = (i - c * 32768) % 8;
            let o = c * 32768 + 8 * k;
            assert(b[k] == byte_at(m, o));
            assert(i == o + j);
            bytes::lemma_byte_bits(
                bit(m[o]),
                bit(m[o + 1]),
                bit(m[o + 2]),
                bit(m[o + 3]),
                bit(m[o + 4]),
                bit(m[o + 5]),
                bit(m[o + 6]),
                bit(m[o + 7]),
            );
        }
    }
    assert(unpacked(m, c, b) =~= m);
}

/// A snapshot: the inode table and the cursors of a generation.
#[derive(Clone, Copy)]
pub struct MfsSnap {
    pub gen: u64,
    pub itab: u32,
    pub ino_hint: u32,
    pub alloc_next: u32,
}

/// The state of a mounted file system: the volumes, and what is held in memory of
/// the current one.
#[verifier::ext_equal]
pub struct MfsView {
    pub store: StoreView,
    /// Current volume, and its size in sectors (0 where not known).
    pub vol: u64,
    pub sectors: u32,
    /// Blocks of the file system.
    pub total: u32,
    /// Which blocks are in use (the window may reach beyond `total`).
    pub bmp: Seq<bool>,
    /// Which bitmap blocks differ from the disk.
    pub dirty: Seq<bool>,
    pub free: u32,
    /// Where the search for a free block starts.
    pub alloc_next: u32,
    pub gen: u64,
    pub snaps: Seq<MfsSnap>,
    /// Primary volume serial, 0 for none.
    pub primary: u64,
    /// Block of the inode table index, and its slots.
    pub itab: u32,
    pub itab_mem: Seq<u32>,
    /// Number of the inode table block in `tab_buf`; `u32::MAX` for none.
    pub tab_idx: u32,
    pub tab_buf: Seq<u8>,
    pub ino_count: u32,
    pub ino_hint: u32,
    /// The time, in seconds since 1970.
    pub now: u64,
}

/// The first free block from `b` on, before `end`.
pub open spec fn first_free(m: Seq<bool>, b: int, end: int) -> Option<int>
    decreases end - b,
{
    if b >= end {
        None
    } else if !m[b] {
        Some(b)
    } else {
        first_free(m, b + 1, end)
    }
}

/// Free blocks among the first `n`.
pub open spec fn count_free(m: Seq<bool>, n: int) -> int
    decreases n,
{
    if n <= 0 {
        0
    } else {
        count_free(m, n - 1) + (1 - bit(m[n - 1]))
    }
}

/// A number kept between two bounds.
pub open spec fn clamp(v: int, lo: int, hi: int) -> int {
    if v < lo {
        lo
    } else if v > hi {
        hi
    } else {
        v
    }
}

impl MfsView {
    /// A service that has not mounted anything yet.
    pub open spec fn init(store: StoreView, vol: u64, sectors: u32) -> MfsView {
        MfsView {
            store,
            vol,
            sectors,
            total: 0,
            bmp: Seq::empty(),
            dirty: Seq::new(MFS_MAX_BMP_DATA_BLOCKS as nat, |i: int| false),
            free: 0,
            alloc_next: 0,
            gen: 0,
            snaps: Seq::empty(),
            primary: 0,
            itab: 0,
            itab_mem: Seq::new(MFS_SLOTS as nat, |i: int| 0u32),
            tab_idx: u32::MAX,
            tab_buf: bytes::zeros(4096),
            ino_count: 0,
            ino_hint: MFS_ROOT_INO,
            now: 0,
        }
    }

    /// Reads block `b`.
    pub open spec fn rd(self, b: u32) -> Option<Seq<u8>> {
        self.store.read(self.vol, bytes::w32(b * 8), 8)
    }

    /// Reads block `b`, which must be of the given kind.
    pub open spec fn load(self, b: u32, magic: u32) -> Option<Seq<u8>> {
        match self.rd(b) {
            Some(v) => if block_ok(v, magic) {
                Some(v)
            } else {
                None
            },
            None => None,
        }
    }

    /// Writes block `b`.
    pub open spec fn wr(self, b: u32, data: Seq<u8>) -> (MfsView, bool) {
        let (store, ok) = self.store.write(self.vol, bytes::w32(b * 8), data);
        (MfsView { store, ..self }, ok)
    }

    /// Block `b` marked in use.
    pub open spec fn bmp_set(self, b: u32) -> MfsView {
        if b >= self.total || self.bmp[b as int] {
            self
        } else {
            MfsView {
                bmp: self.bmp.update(b as int, true),
                free: if self.free == 0 {
                    0
                } else {
                    (self.free - 1) as u32
                },
                dirty: self.dirty.update(b as int / 32768, true),
                ..self
            }
        }
    }

    /// Block `b` marked free.
    pub open spec fn bmp_clear(self, b: u32) -> MfsView {
        if b >= self.total || !self.bmp[b as int] {
            self
        } else {
            MfsView {
                bmp: self.bmp.update(b as int, false),
                free: bytes::w32(self.free + 1),
                dirty: self.dirty.update(b as int / 32768, true),
                ..self
            }
        }
    }

    /// Where the search for a free block starts.
    pub open spec fn alloc_from(self) -> int {
        clamp(self.alloc_next as int, data_start(self.total), self.total as int)
    }

    /// A free block of the data area: the first from the cursor on, else the first
    /// before it.
    pub open spec fn pick_block(self) -> Option<int> {
        if self.total <= data_start(self.total) {
            None
        } else {
            match first_free(self.bmp, self.alloc_from(), self.total as int) {
                Some(b) => Some(b),
                None => first_free(self.bmp, data_start(self.total), self.alloc_from()),
            }
        }
    }

    /// A free block taken; the cursor moves past it.
    #[verifier::opaque]
    pub open spec fn alloc_block(self) -> (MfsView, Option<u32>) {
        match self.pick_block() {
            None => (self, None),
            Some(b) => (
                MfsView { alloc_next: (b + 1) as u32, ..self.bmp_set(b as u32) },
                Some(b as u32),
            ),
        }
    }

    /// A block written to a free place.
    #[verifier::opaque]
    pub open spec fn commit(self, data: Seq<u8>, magic: u32) -> (MfsView, Option<u32>) {
        let (s, r) = self.alloc_block();
        match r {
            None => (s, None),
            Some(b) => {
                let (t, ok) = s.wr(b, sealed(data, magic));
                if ok {
                    (t, Some(b))
                } else {
                    (t, None)
                }
            },
        }
    }

    /// The snapshot records of a superblock, those from `i` on written.
    pub open spec fn with_snaps(self, b: Seq<u8>, i: int) -> Seq<u8>
        decreases self.snaps.len() - i,
    {
        if i >= self.snaps.len() {
            b
        } else {
            let o = 56 + 24 * i;
            let s = self.snaps[i];
            self.with_snaps(
                bytes::put32(
                    bytes::put32(
                        bytes::put32(bytes::put64(b, o, s.gen), o + 8, s.itab),
                        o + 12,
                        s.ino_hint,
                    ),
                    o + 16,
                    s.alloc_next,
                ),
                i + 1,
            )
        }
    }

    /// The fixed fields of a superblock.
    pub open spec fn super_fields(self) -> Seq<u8> {
        bytes::put32(
            bytes::put32(
                bytes::put64(
                    bytes::put32(
                        bytes::put32(
                            bytes::put32(
                                bytes::put32(
                                    bytes::put32(
                                        bytes::put32(bytes::zeros(4096), 8, MFS_VERSION),
                                        12,
                                        4096,
                                    ),
                                    16,
                                    self.total,
                                ),
                                20,
                                self.ino_count,
                            ),
                            24,
                            self.alloc_next,
                        ),
                        28,
                        self.snaps.len() as u32,
                    ),
                    32,
                    self.gen,
                ),
                40,
                self.itab,
            ),
            44,
            self.ino_hint,
        )
    }

    /// The superblock.
    #[verifier::opaque]
    pub open spec fn super_block(self) -> Seq<u8> {
        sealed(
            bytes::put64(self.with_snaps(self.super_fields(), 0), 264, self.primary),
            MFS_MAGIC_SUPER,
        )
    }

    /// The CRCs of the bitmap blocks from `c` on written into a header.
    pub open spec fn with_crcs(self, b: Seq<u8>, c: int) -> Seq<u8>
        decreases bb_for(self.total) - c,
    {
        if c >= bb_for(self.total) {
            b
        } else {
            self.with_crcs(bytes::put32(b, 24 + 4 * c, crc32(packed(self.bmp, c))), c + 1)
        }
    }

    /// The bitmap header.
    #[verifier::opaque]
    pub open spec fn bmp_header(self) -> Seq<u8> {
        sealed(
            self.with_crcs(
                bytes::put32(
                    bytes::put32(
                        bytes::put64(bytes::zeros(4096), 8, self.gen),
                        16,
                        self.total,
                    ),
                    20,
                    bb_for(self.total) as u32,
                ),
                0,
            ),
            MFS_MAGIC_BMPHDR,
        )
    }

    /// First bitmap block of copy `copy`.
    pub open spec fn bmp_start(self, copy: int) -> int {
        4 + copy * bb_for(self.total)
    }

    /// The changed bitmap blocks from `c` on written to copy `copy`.
    #[verifier::opaque]
    pub open spec fn flush_data(self, copy: int, c: int) -> (MfsView, bool)
        decreases bb_for(self.total) - c,
    {
        if c >= bb_for(self.total) {
            (self, true)
        } else if !self.dirty[c] {
            self.flush_data(copy, c + 1)
        } else {
            let (s, ok) = self.wr((self.bmp_start(copy) + c) as u32, packed(self.bmp, c));
            if ok && s.total == self.total {
                s.flush_data(copy, c + 1)
            } else {
                (s, false)
            }
        }
    }

    /// One copy written: bitmap, header, superblock.
    #[verifier::opaque]
    pub open spec fn flush_copy(self, copy: int) -> (MfsView, bool) {
        let (s1, ok1) = self.flush_data(copy, 0);
        if !ok1 {
            (s1, false)
        } else {
            let (s2, ok2) = s1.wr((2 + copy) as u32, s1.bmp_header());
            if !ok2 {
                (s2, false)
            } else {
                s2.wr(copy as u32, s2.super_block())
            }
        }
    }

    /// A new generation committed: both copies written, one after the other.
    #[verifier::opaque]
    pub open spec fn flush(self) -> (MfsView, bool) {
        let s0 = MfsView { gen: ((self.gen + 1) % 0x1_0000_0000_0000_0000) as u64, ..self };
        let (s1, ok1) = s0.flush_copy(0);
        if !ok1 {
            (s1, false)
        } else {
            let (s2, ok2) = s1.flush_copy(1);
            if !ok2 {
                (s2, false)
            } else {
                (
                    MfsView {
                        dirty: Seq::new(MFS_MAX_BMP_DATA_BLOCKS as nat, |i: int| false),
                        ..s2
                    },
                    true,
                )
            }
        }
    }

    /// Blocks `b` to `end - 1` marked in use.
    pub open spec fn set_range(self, b: int, end: int) -> MfsView
        decreases end - b,
    {
        if b >= end {
            self
        } else {
            self.bmp_set(b as u32).set_range(b + 1, end)
        }
    }

    /// The free blocks counted anew.
    pub open spec fn recount(self) -> MfsView {
        MfsView { free: count_free(self.bmp, self.total as int) as u32, ..self }
    }

    /// The bitmap window widened to describe `total` blocks.
    pub open spec fn widened(self, total: u32) -> Seq<bool> {
        let n = bb_for(total) * 32768;
        if self.bmp.len() >= n {
            self.bmp
        } else {
            Seq::new(
                n as nat,
                |i: int|
                    if i < self.bmp.len() {
                        self.bmp[i]
                    } else {
                        false
                    },
            )
        }
    }
}

/// A mounted file system.
#[derive(Clone)]
pub struct Mfs {
    pub store: Store,
    pub vol: u64,
    pub sectors: u32,
    pub total: u32,
    pub bmp: Vec<bool>,
    pub dirty: Vec<bool>,
    pub free: u32,
    pub alloc_next: u32,
    pub gen: u64,
    pub snaps: Vec<MfsSnap>,
    pub primary: u64,
    pub itab: u32,
    pub itab_mem: Vec<u32>,
    pub tab_idx: u32,
    pub tab_buf: Vec<u8>,
    pub ino_count: u32,
    pub ino_hint: u32,
    pub now: u64,
}

/// CRC-32 of a buffer.
pub fn mfs_crc32(s: &[u8]) -> (r: u32)
    ensures
        r == crc32(s@),
{
    let mut c: u32 = 0xFFFF_FFFF;
    let mut i: usize = 0;
    while i < s.len()
        invariant
            i <= s.len(),
            c == crc_reg(s@, i as int),
        decreases s.len() - i,
    {
        c = c ^ (s[i] as u32);
        let ghost start = c;
        let mut k: u8 = 0;
        while k < 8
            invariant
                k <= 8,
                c == crc_bits(start, k as int),
            decreases 8 - k,
        {
            if c & 1 != 0 {
                c = (c >> 1) ^ 0xEDB8_8320;
            } else {
                c = c >> 1;
            }
            k = k + 1;
        }
        proof {
            reveal_with_fuel(crc_bits, 9);
        }
        i = i + 1;
    }
    !c
}

/// The register after `k` shifts.
pub open spec fn crc_bits(c: u32, k: int) -> u32
    decreases k,
{
    if k <= 0 {
        c
    } else {
        crc_bit(crc_bits(c, k - 1))
    }
}

/// Writes the header of a block.
pub fn mfs_seal(b: &mut Vec<u8>, magic: u32)
    requires
        old(b).len() == MFS_BLOCK,
    ensures
        final(b)@ == sealed(old(b)@, magic),
        final(b).len() == MFS_BLOCK,
{
    bytes::write_u32(b, 0, magic);
    let p: Vec<u8> = bytes::slice_copy(b, 8, 4096);
    assert(p@ =~= payload(old(b)@));
    let crc: u32 = mfs_crc32(&p);
    bytes::write_u32(b, 4, crc);
}

/// Whether a block has the given magic and its CRC is right.
pub fn mfs_ok(b: &Vec<u8>, magic: u32) -> (r: bool)
    requires
        b.len() == MFS_BLOCK,
    ensures
        r == block_ok(b@, magic),
{
    if bytes::read_u32(b, 0) != magic {
        return false;
    }
    let p: Vec<u8> = bytes::slice_copy(b, 8, 4096);
    mfs_crc32(&p) == bytes::read_u32(b, 4)
}

/// Bit `i` of a bitmap block.
pub fn mfs_bit(b: &Vec<u8>, i: usize) -> (r: bool)
    requires
        b.len() == MFS_BLOCK,
        i < 32768,
    ensures
        r == bit_of(b@, i as int),
{
    bytes::get_bit(b[i / 8], i % 8)
}

/// Bitmap blocks for a file system of `total` blocks.
pub fn mfs_bb_for(total: u32) -> (r: u32)
    ensures
        r == bb_for(total),
{
    ((total as u64 + 32767) / 32768) as u32
}

impl Mfs {
    pub open spec fn view(&self) -> MfsView {
        MfsView {
            store: self.store@,
            vol: self.vol,
            sectors: self.sectors,
            total: self.total,
            bmp: self.bmp@,
            dirty: self.dirty@,
            free: self.free,
            alloc_next: self.alloc_next,
            gen: self.gen,
            snaps: self.snaps@,
            primary: self.primary,
            itab: self.itab,
            itab_mem: self.itab_mem@,
            tab_idx: self.tab_idx,
            tab_buf: self.tab_buf@,
            ino_count: self.ino_count,
            ino_hint: self.ino_hint,
            now: self.now,
        }
    }

    /// Sizes of the tables: the bitmap window covers the file system, there are at most
    /// eight snapshots, the index has all its slots.
    pub open spec fn inv(&self) -> bool {
        &&& self.store@.wf()
        &&& self.total <= MFS_MAX_BLOCKS
        &&& self.bmp@.len() >= bb_for(self.total) * 32768
        &&& self.dirty@.len() == MFS_MAX_BMP_DATA_BLOCKS
        &&& self.snaps@.len() <= MFS_MAX_SNAP
        &&& self.itab_mem@.len() == MFS_SLOTS
        &&& self.tab_buf@.len() == MFS_BLOCK
    }

    /// A service that has not mounted anything yet.
    pub fn new(store: Store, vol: u64, sectors: u32) -> (r: Mfs)
        requires
            store@.wf(),
        ensures
            r.inv(),
            r@ == MfsView::init(store@, vol, sectors),
    {
        let dirty: Vec<bool> = vec![false; 1018];
        let itab_mem: Vec<u32> = vec![0u32; 1022];
        let r = Mfs {
            store,
            vol,
            sectors,
            total: 0,
            bmp: Vec::new(),
            dirty,
            free: 0,
            alloc_next: 0,
            gen: 0,
            snaps: Vec::new(),
            primary: 0,
            itab: 0,
            itab_mem,
            tab_idx: u32::MAX,
            tab_buf: bytes::zero_vec(4096),
            ino_count: 0,
            ino_hint: MFS_ROOT_INO,
            now: 0,
        };
        assert(r@.bmp =~= Seq::empty());
        assert(r@.snaps =~= Seq::empty());
        assert(r@.dirty =~= Seq::new(MFS_MAX_BMP_DATA_BLOCKS as nat, |i: int| false));
        assert(r@.itab_mem =~= Seq::new(MFS_SLOTS as nat, |i: int| 0u32));
        r
    }

    /// Reads block `b`.
    pub fn mfs_read_blk(&self, b: u32) -> (r: Option<Vec<u8>>)
        requires
            self.inv(),
        ensures
            bytes::opt(r) == self@.rd(b),
            r matches Some(v) ==> v.len() == MFS_BLOCK,
    {
        let lba: u32 = ((b as u64 * 8) % 0x1_0000_0000) as u32;
        self.store.read(self.vol, lba, 8)
    }

    /// Reads block `b`, which must be of the given kind.
    pub fn load(&self, b: u32, magic: u32) -> (r: Option<Vec<u8>>)
        requires
            self.inv(),
        ensures
            bytes::opt(r) == self@.load(b, magic),
            r matches Some(v) ==> v.len() == MFS_BLOCK,
    {
        match self.mfs_read_blk(b) {
            Some(v) => {
                if mfs_ok(&v, magic) {
                    Some(v)
                } else {
                    None
                }
            },
            None => None,
        }
    }

    /// Writes block `b`.
    pub fn mfs_write_blk(&mut self, b: u32, data: &Vec<u8>) -> (r: bool)
        requires
            old(self).inv(),
            data.len() == MFS_BLOCK,
        ensures
            final(self).inv(),
            (final(self)@, r) == old(self)@.wr(b, data@),
    {
        let lba: u32 = ((b as u64 * 8) % 0x1_0000_0000) as u32;
        self.store.write(self.vol, lba, data)
    }

    /// Whether block `b` is in use.
    pub fn mfs_bmp_get(&self, b: u32) -> (r: bool)
        requires
            self.inv(),
        ensures
            r == (b < self.total && self@.bmp[b as int]),
    {
        if b >= self.total {
            return false;
        }
        self.bmp[b as usize]
    }

    /// Marks block `b` in use.
    pub fn mfs_bmp_set(&mut self, b: u32)
        requires
            old(self).inv(),
        ensures
            final(self).inv(),
            final(self)@ == old(self)@.bmp_set(b),
    {
        if b >= self.total || self.bmp[b as usize] {
            return;
        }
        self.bmp.set(b as usize, true);
        self.free = self.free.saturating_sub(1);
        self.dirty.set((b / 32768) as usize, true);
    }

    /// Marks block `b` free.
    pub fn mfs_bmp_clear(&mut self, b: u32)
        requires
            old(self).inv(),
        ensures
            final(self).inv(),
            final(self)@ == old(self)@.bmp_clear(b),
    {
        if b >= self.total || !self.bmp[b as usize] {
            return;
        }
        self.bmp.set(b as usize, false);
        self.free = if self.free == 0xFFFF_FFFF {
            0
        } else {
            self.free + 1
        };
        self.dirty.set((b / 32768) as usize, true);
    }

    /// Counts the free blocks anew.
    pub fn mfs_bmp_recount(&mut self)
        requires
            old(self).inv(),
        ensures
            final(self).inv(),
            final(self)@ == old(self)@.recount(),
    {
        let mut n: u32 = 0;
        let mut b: u32 = 0;
        while b < self.total
            invariant
                self.inv(),
                *self == *old(self),
                b <= self.total,
                n == count_free(self.bmp@, b as int),
                n <= b,
            decreases self.total - b,
        {
            if !self.bmp[b as usize] {
                n = n + 1;
            }
            b = b + 1;
        }
        self.free = n;
    }

    /// First block of the data area.
    pub fn mfs_data_start(&self) -> (r: u32)
        requires
            self.inv(),
        ensures
            r == data_start(self.total),
    {
        4 + 2 * mfs_bb_for(self.total)
    }

    /// Takes a free block.
    #[verifier::loop_isolation(false)]
    pub fn mfs_alloc_block(&mut self) -> (r: Option<u32>)
        requires
            old(self).inv(),
        ensures
            final(self).inv(),
            (final(self)@, r) == old(self)@.alloc_block(),
    {
        proof {
            reveal(MfsView::alloc_block);
        }
        let total: u32 = self.total;
        let start: u32 = self.mfs_data_start();
        if total <= start {
            return None;
        }
        let hint: u32 = if self.alloc_next < start {
            start
        } else if self.alloc_next > total {
            total
        } else {
            self.alloc_next
        };
        let mut b: u32 = hint;
        while b < total
            invariant
                hint <= b <= total,
                *self == *old(self),
                first_free(self.bmp@, b as int, total as int) == first_free(
                    self.bmp@,
                    hint as int,
                    total as int,
                ),
            decreases total - b,
        {
            if !self.mfs_bmp_get(b) {
                return Some(self.mfs_bmp_take(b));
            }
            b = b + 1;
        }
        b = start;
        while b < hint
            invariant
                start <= b <= hint,
                *self == *old(self),
                first_free(self.bmp@, b as int, hint as int) == first_free(
                    self.bmp@,
                    start as int,
                    hint as int,
                ),
            decreases hint - b,
        {
            if !self.mfs_bmp_get(b) {
                return Some(self.mfs_bmp_take(b));
            }
            b = b + 1;
        }
        None
    }

    /// Takes block `b` and moves the cursor past it.
    fn mfs_bmp_take(&mut self, b: u32) -> (r: u32)
        requires
            old(self).inv(),
            b < old(self).total,
        ensures
            final(self).inv(),
            r == b,
            final(self)@ == (MfsView { alloc_next: (b + 1) as u32, ..old(self)@.bmp_set(b) }),
    {
        self.mfs_bmp_set(b);
        self.alloc_next = b + 1;
        b
    }

    /// Writes a block of the given kind to a free place.
    pub fn mfs_commit(&mut self, data: &mut Vec<u8>, magic: u32) -> (r: Option<u32>)
        requires
            old(self).inv(),
            old(data).len() == MFS_BLOCK,
        ensures
            final(self).inv(),
            (final(self)@, r) == old(self)@.commit(old(data)@, magic),
            final(data)@ == sealed(old(data)@, magic),
            final(data).len() == MFS_BLOCK,
    {
        proof {
            reveal(MfsView::commit);
        }
        mfs_seal(data, magic);
        let b: u32 = match self.mfs_alloc_block() {
            Some(b) => b,
            None => {
                return None;
            },
        };
        if !self.mfs_write_blk(b, data) {
            return None;
        }
        Some(b)
    }

    /// The superblock.
    pub fn mfs_build_super(&self) -> (r: Vec<u8>)
        requires
            self.inv(),
        ensures
            r@ == self@.super_block(),
            r.len() == MFS_BLOCK,
    {
        proof {
            reveal(MfsView::super_block);
        }
        let mut b: Vec<u8> = bytes::zero_vec(4096);
        bytes::write_u32(&mut b, 8, MFS_VERSION);
        bytes::write_u32(&mut b, 12, 4096);
        bytes::write_u32(&mut b, 16, self.total);
        bytes::write_u32(&mut b, 20, self.ino_count);
        bytes::write_u32(&mut b, 24, self.alloc_next);
        bytes::write_u32(&mut b, 28, self.snaps.len() as u32);
        bytes::write_u64(&mut b, 32, self.gen);
        bytes::write_u32(&mut b, 40, self.itab);
        bytes::write_u32(&mut b, 44, self.ino_hint);
        let mut i: usize = 0;
        while i < self.snaps.len()
            invariant
                i <= self.snaps.len() <= MFS_MAX_SNAP,
                b.len() == MFS_BLOCK,
                self@.with_snaps(b@, i as int) == self@.with_snaps(self@.super_fields(), 0),
            decreases self.snaps.len() - i,
        {
            let s: MfsSnap = self.snaps[i];
            let o: usize = 56 + 24 * i;
            bytes::write_u64(&mut b, o, s.gen);
            bytes::write_u32(&mut b, o + 8, s.itab);
            bytes::write_u32(&mut b, o + 12, s.ino_hint);
            bytes::write_u32(&mut b, o + 16, s.alloc_next);
            i = i + 1;
        }
        bytes::write_u64(&mut b, 264, self.primary);
        mfs_seal(&mut b, MFS_MAGIC_SUPER);
        b
    }

    /// Bitmap block `c`.
    #[verifier::loop_isolation(false)]
    #[verifier::spinoff_prover]
    #[verifier::rlimit(60)]
    fn pack_block(&self, c: u32) -> (r: Vec<u8>)
        requires
            self.inv(),
            c < bb_for(self.total),
        ensures
            r@ == packed(self@.bmp, c as int),
            r.len() == MFS_BLOCK,
    {
        let mut out: Vec<u8> = Vec::new();
        let mut k: usize = 0;
        let base: usize = c as usize * 32768;
        while k < 4096
            invariant
                k <= 4096,
                out.len() == k,
                out@ =~= packed(self@.bmp, c as int).subrange(0, k as int),
            decreases 4096 - k,
        {
            let o: usize = base + 8 * k;
            let mut v: u8 = 0;
            if self.bmp[o] {
                v = v + 1;
            }
            if self.bmp[o + 1] {
                v = v + 2;
            }
            if self.bmp[o + 2] {
                v = v + 4;
            }
            if self.bmp[o + 3] {
                v = v + 8;
            }
            if self.bmp[o + 4] {
                v = v + 16;
            }
            if self.bmp[o + 5] {
                v = v + 32;
            }
            if self.bmp[o + 6] {
                v = v + 64;
            }
            if self.bmp[o + 7] {
                v = v + 128;
            }
            assert(v == byte_at(self@.bmp, o as int));
            out.push(v);
            k = k + 1;
        }
        assert(packed(self@.bmp, c as int).subrange(0, 4096) =~= packed(self@.bmp, c as int));
        out
    }

    /// The bitmap header.
    pub fn mfs_build_bmp_header(&self) -> (r: Vec<u8>)
        requires
            self.inv(),
        ensures
            r@ == self@.bmp_header(),
            r.len() == MFS_BLOCK,
    {
        proof {
            reveal(MfsView::bmp_header);
        }
        let bb: u32 = mfs_bb_for(self.total);
        let mut b: Vec<u8> = bytes::zero_vec(4096);
        bytes::write_u64(&mut b, 8, self.gen);
        bytes::write_u32(&mut b, 16, self.total);
        bytes::write_u32(&mut b, 20, bb);
        let ghost b0 = b@;
        let mut c: u32 = 0;
        while c < bb
            invariant
                self.inv(),
                c <= bb <= 1018,
                bb == bb_for(self.total),
                b.len() == MFS_BLOCK,
                self@.with_crcs(b@, c as int) == self@.with_crcs(b0, 0),
            decreases bb - c,
        {
            let p: Vec<u8> = self.pack_block(c);
            let crc: u32 = mfs_crc32(&p);
            bytes::write_u32(&mut b, 24 + 4 * c as usize, crc);
            c = c + 1;
        }
        mfs_seal(&mut b, MFS_MAGIC_BMPHDR);
        b
    }

    /// Writes one copy: bitmap, header, superblock.
    #[verifier::loop_isolation(false)]
    fn flush_copy(&mut self, copy: u32) -> (r: bool)
        requires
            old(self).inv(),
            copy < 2,
        ensures
            final(self).inv(),
            (final(self)@, r) == old(self)@.flush_copy(copy as int),
            final(self).total == old(self).total,
    {
        proof {
            reveal(MfsView::flush_data);
            reveal(MfsView::flush_copy);
        }
        let bb: u32 = mfs_bb_for(self.total);
        let start: u32 = if copy == 0 {
            4
        } else {
            4 + bb
        };
        let ghost goal = old(self)@.flush_data(copy as int, 0);
        let mut c: u32 = 0;
        while c < bb
            invariant
                c <= bb,
                self.inv(),
                self.total == old(self).total,
                self@.flush_data(copy as int, c as int) == goal,
            decreases bb - c,
        {
            if self.dirty[c as usize] {
                let p: Vec<u8> = self.pack_block(c);
                if !self.mfs_write_blk(start + c, &p) {
                    return false;
                }
            }
            c = c + 1;
        }
        let head: Vec<u8> = self.mfs_build_bmp_header();
        if !self.mfs_write_blk(2 + copy, &head) {
            return false;
        }
        let sb: Vec<u8> = self.mfs_build_super();
        self.mfs_write_blk(copy, &sb)
    }

    /// Commits a new generation.
    pub fn mfs_bmp_flush(&mut self) -> (r: bool)
        requires
            old(self).inv(),
        ensures
            final(self).inv(),
            (final(self)@, r) == old(self)@.flush(),
            final(self).total == old(self).total,
    {
        proof {
            reveal(MfsView::flush);
        }
        self.gen = if self.gen == u64::MAX {
            0
        } else {
            self.gen + 1
        };
        if !self.flush_copy(0) {
            return false;
        }
        if !self.flush_copy(1) {
            return false;
        }
        self.dirty = vec![false; 1018];
        assert(self@.dirty =~= Seq::new(MFS_MAX_BMP_DATA_BLOCKS as nat, |i: int| false));
        true
    }

    /// Marks blocks `b` to `end - 1` in use.
    pub fn set_range(&mut self, b: u32, end: u32)
        requires
            old(self).inv(),
        ensures
            final(self).inv(),
            final(self)@ == old(self)@.set_range(b as int, end as int),
            final(self).total == old(self).total,
    {
        let mut i: u32 = b;
        while i < end
            invariant
                self.inv(),
                self.total == old(self).total,
                self@.set_range(i as int, end as int) == old(self)@.set_range(
                    b as int,
                    end as int,
                ),
            decreases end - i,
        {
            self.mfs_bmp_set(i);
            i = i + 1;
        }
    }

    /// Widens the bitmap window to describe `total` blocks, and takes that size.
    pub fn set_total(&mut self, total: u32)
        requires
            old(self).inv(),
            total <= MFS_MAX_BLOCKS,
        ensures
            final(self).inv(),
            final(self)@ == (MfsView { total, bmp: old(self)@.widened(total), ..old(self)@ }),
    {
        let n: usize = mfs_bb_for(total) as usize * 32768;
        while self.bmp.len() < n
            invariant
                n == bb_for(total) * 32768,
                self.bmp@ =~= (if old(self).bmp@.len() >= n {
                    old(self).bmp@
                } else {
                    Seq::new(
                        self.bmp@.len(),
                        |i: int|
                            if i < old(self).bmp@.len() {
                                old(self).bmp@[i]
                            } else {
                                false
                            },
                    )
                }),
                self.bmp.len() >= old(self).bmp.len(),
                old(self).bmp.len() < n ==> self.bmp.len() <= n,
                self@ == (MfsView { bmp: self.bmp@, ..old(self)@ }),
                self.inv(),
            decreases n - self.bmp.len(),
        {
            self.bmp.push(false);
        }
        self.total = total;
    }
}

} // verus!
