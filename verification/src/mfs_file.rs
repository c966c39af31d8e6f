//! MorionFS: files.
//!
//! A file node holds the first block numbers itself; further ones stand in single,
//! double and triple indirect blocks. A block number of 0 is a hole, which reads as
//! zeros. Writing puts every changed block to a free place; the last single indirect
//! block is kept in memory between two blocks of one write.
use vstd::prelude::*;

use crate::bytes;
use crate::mfs;
use crate::mfs::{
    Mfs, MfsView, MFS_BLOCK, MFS_MAGIC_DATA, MFS_MAGIC_FILE, MFS_MAGIC_IND, MFS_MAGIC_IND2,
    MFS_MAGIC_IND3,
};
use crate::mfs_dir;

verus! {

/// Data bytes per block.
pub const MFS_DATA_CAP: usize = 4088;

/// Most blocks of a file.
pub const MFS_FILE_MAX_BLOCKS: u64 = 1_068_509_159;

/// Most bytes of a file.
pub const MFS_FILE_MAX_BYTES: u64 = 4_368_065_441_992;

/// Where a file node names the single indirect block.
pub const MFS_FILE_IND1_OFF: usize = 4044;

/// Where a file node names the double indirect block.
pub const MFS_FILE_IND2_OFF: usize = 4048;

/// Where a file node names the triple indirect block.
pub const MFS_FILE_IND3_OFF: usize = 4052;

/// First block behind the direct ones.
pub const MFS_DIRECT_END: u64 = 1005;

/// First block behind those of the single indirect block.
pub const MFS_IND1_END: u64 = 2027;

/// First block behind those of the double indirect block.
pub const MFS_IND2_END: u64 = 1_046_511;

/// Where the number of a file's block stands: `kind` 0 in the node, 1 to 3 behind so many
/// indirect blocks, in which the slots lead to it.
#[derive(Clone, Copy)]
pub struct MfsMapPlan {
    pub kind: u32,
    pub slot3: usize,
    pub slot2: usize,
    pub slot1: usize,
}

/// Size of a file.
pub open spec fn file_size(a: Seq<u8>) -> u64 {
    bytes::le64(a, 8)
}

/// Number of blocks of a file, holes counted.
pub open spec fn file_nblocks(a: Seq<u8>) -> u32 {
    bytes::le32(a, 16)
}

/// The place of block `bi` of a file.
pub open spec fn plan(bi: int) -> Option<MfsMapPlan> {
    if bi < MFS_DIRECT_END {
        Some(MfsMapPlan { kind: 0, slot3: 0, slot2: 0, slot1: bi as usize })
    } else if bi < MFS_IND1_END {
        Some(MfsMapPlan { kind: 1, slot3: 0, slot2: 0, slot1: (bi - MFS_DIRECT_END) as usize })
    } else if bi < MFS_IND2_END {
        let i = bi - MFS_IND1_END;
        Some(
            MfsMapPlan {
                kind: 2,
                slot3: 0,
                slot2: (i / 1022) as usize,
                slot1: (i % 1022) as usize,
            },
        )
    } else if bi < MFS_FILE_MAX_BLOCKS {
        let i = bi - MFS_IND2_END;
        let rest = i % 1_044_484;
        Some(
            MfsMapPlan {
                kind: 3,
                slot3: (i / 1_044_484) as usize,
                slot2: (rest / 1022) as usize,
                slot1: (rest % 1022) as usize,
            },
        )
    } else {
        None
    }
}

/// The block that a place is for.
pub open spec fn planned(p: MfsMapPlan) -> int {
    if p.kind == 0 {
        p.slot1 as int
    } else if p.kind == 1 {
        MFS_DIRECT_END + p.slot1
    } else if p.kind == 2 {
        MFS_IND1_END + p.slot2 * 1022 + p.slot1
    } else {
        MFS_IND2_END + p.slot3 * 1_044_484 + p.slot2 * 1022 + p.slot1
    }
}

/// Law: each block up to the limit has a place of its own, within the slots there are.
pub proof fn law_plan_is_exact(bi: int)
    requires
        0 <= bi,
    ensures
        plan(bi) is Some <==> bi < MFS_FILE_MAX_BLOCKS,
        plan(bi) matches Some(p) ==> planned(p) == bi && p.slot3 < 1022 && p.slot2 < 1022
            && p.slot1 < 1022 && p.kind <= 3 && (p.kind == 0 ==> p.slot1 < 1005),
{
}

/// A file node opened for writing, and the single indirect block in memory.
#[verifier::ext_equal]
pub struct WriterView {
    /// The node.
    pub a: Seq<u8>,
    /// Kind of the block in memory: 0 for none, else 1 or 2.
    pub kind: u32,
    /// Its slot in the double indirect block.
    pub slot2: usize,
    /// Whether it differs from the disk.
    pub dirty: bool,
    pub b: Seq<u8>,
}

/// A node with the number at `off` set.
pub open spec fn with_ptr(a: Seq<u8>, off: usize, b: u32) -> Seq<u8> {
    bytes::put32(a, off as int, b)
}

/// A node with its direct slots from `i` to `end - 1` cleared.
pub open spec fn without_direct(a: Seq<u8>, i: int, end: int) -> Seq<u8>
    decreases end - i,
{
    if i >= end {
        a
    } else {
        without_direct(bytes::put32(a, 24 + 4 * i, 0), i + 1, end)
    }
}

/// The smaller of two numbers.
pub open spec fn least(a: int, b: int) -> int {
    if a <= b {
        a
    } else {
        b
    }
}

/// The larger of two numbers.
pub open spec fn most(a: int, b: int) -> int {
    if a >= b {
        a
    } else {
        b
    }
}

/// Bytes of block `pos / 4088` from `pos` on, at most `left`.
pub open spec fn piece(pos: int, left: int) -> int {
    least(4088 - pos % 4088, left)
}

impl MfsView {
    /// Slot `i` of indirect block `blk`; of a block that is not there, 0.
    pub open spec fn through(self, blk: u32, magic: u32, i: usize) -> Option<u32> {
        if blk == 0 {
            Some(0)
        } else {
            match self.load(blk, magic) {
                None => None,
                Some(b) => Some(mfs::slot(b, i as int)),
            }
        }
    }

    /// Block `blk`; a block that is not there is all zeros.
    pub open spec fn fresh(self, blk: u32, magic: u32) -> Option<Seq<u8>> {
        if blk == 0 {
            Some(bytes::zeros(4096))
        } else {
            self.load(blk, magic)
        }
    }

    /// The disk block behind a place.
    pub open spec fn map_at(self, a: Seq<u8>, p: MfsMapPlan) -> Option<u32> {
        if p.kind == 0 {
            Some(bytes::le32(a, 24 + 4 * p.slot1))
        } else if p.kind == 1 {
            self.through(bytes::le32(a, 4044), MFS_MAGIC_IND, p.slot1)
        } else if p.kind == 2 {
            match self.through(bytes::le32(a, 4048), MFS_MAGIC_IND2, p.slot2) {
                None => None,
                Some(l1) => self.through(l1, MFS_MAGIC_IND, p.slot1),
            }
        } else {
            match self.through(bytes::le32(a, 4052), MFS_MAGIC_IND3, p.slot3) {
                None => None,
                Some(l2) => match self.through(l2, MFS_MAGIC_IND2, p.slot2) {
                    None => None,
                    Some(l1) => self.through(l1, MFS_MAGIC_IND, p.slot1),
                },
            }
        }
    }

    /// The disk block of block `bi` of a file, 0 for a hole.
    #[verifier::opaque]
    pub open spec fn file_map(self, a: Seq<u8>, bi: int) -> Option<u32> {
        match plan(bi) {
            None => None,
            Some(p) => self.map_at(a, p),
        }
    }

    /// The 4088 bytes of block `bi` of a file.
    pub open spec fn file_block(self, a: Seq<u8>, bi: int) -> Option<Seq<u8>> {
        let db = if bi >= file_nblocks(a) {
            Some(0u32)
        } else {
            self.file_map(a, bi)
        };
        match db {
            None => None,
            Some(b) => match self.fresh(b, MFS_MAGIC_DATA) {
                None => None,
                Some(c) => Some(mfs::payload(c)),
            },
        }
    }

    /// Bytes `pos` to `end - 1` of a file.
    pub open spec fn read_from(self, a: Seq<u8>, pos: int, end: int) -> Option<Seq<u8>>
        decreases end - pos,
    {
        if pos >= end {
            Some(Seq::empty())
        } else {
            let n = piece(pos, end - pos);
            match self.file_block(a, pos / 4088) {
                None => None,
                Some(c) => match self.read_from(a, pos + n, end) {
                    None => None,
                    Some(rest) => Some(c.subrange(pos % 4088, pos % 4088 + n) + rest),
                },
            }
        }
    }

    /// At most `count` bytes of file `ino` from `offset` on.
    #[verifier::opaque]
    pub open spec fn read_file(self, ino: u32, offset: u64, count: u32) -> (
        MfsView,
        Option<Seq<u8>>,
    ) {
        let (s, r) = self.object_block(ino);
        match r {
            None => (s, None),
            Some(blk) => match s.load(blk, MFS_MAGIC_FILE) {
                None => (s, None),
                Some(a) => if offset >= file_size(a) {
                    (s, Some(Seq::empty()))
                } else {
                    (
                        s,
                        s.read_from(
                            a,
                            offset as int,
                            offset + least(count as int, file_size(a) - offset),
                        ),
                    )
                },
            },
        }
    }

    /// The block in memory written, and what names it.
    #[verifier::opaque]
    pub open spec fn ind_flush(self, w: WriterView) -> (MfsView, Option<WriterView>) {
        if w.kind == 0 || !w.dirty {
            (self, Some(w))
        } else {
            let (s, r) = self.commit(w.b, MFS_MAGIC_IND);
            match r {
                None => (s, None),
                Some(l1) => if w.kind == 1 {
                    (
                        s,
                        Some(
                            WriterView {
                                a: with_ptr(w.a, MFS_FILE_IND1_OFF, l1),
                                b: mfs::sealed(w.b, MFS_MAGIC_IND),
                                dirty: false,
                                ..w
                            },
                        ),
                    )
                } else {
                    let l2 = bytes::le32(w.a, 4048);
                    if l2 == 0 {
                        (s, None)
                    } else {
                        match s.load(l2, MFS_MAGIC_IND2) {
                            None => (s, None),
                            Some(b2) => {
                                let c2 = mfs::with_slot(b2, w.slot2 as int, l1);
                                let (s2, r2) = s.commit(c2, MFS_MAGIC_IND2);
                                match r2 {
                                    None => (s2, None),
                                    Some(n2) => (
                                        s2,
                                        Some(
                                            WriterView {
                                                a: with_ptr(w.a, MFS_FILE_IND2_OFF, n2),
                                                b: mfs::sealed(c2, MFS_MAGIC_IND2),
                                                kind: 0,
                                                dirty: false,
                                                ..w
                                            },
                                        ),
                                    ),
                                }
                            },
                        }
                    }
                },
            }
        }
    }

    /// The single indirect block of place `p` of kind 1 or 2 fetched.
    #[verifier::opaque]
    pub open spec fn ind_fetch(self, w: WriterView, p: MfsMapPlan) -> (
        MfsView,
        Option<WriterView>,
    ) {
        if p.kind == 1 {
            match self.fresh(bytes::le32(w.a, 4044), MFS_MAGIC_IND) {
                None => (self, None),
                Some(b) => (
                    self,
                    Some(WriterView { b, kind: p.kind, slot2: p.slot2, dirty: false, ..w }),
                ),
            }
        } else if bytes::le32(w.a, 4048) == 0 {
            let (s, r) = self.commit(bytes::zeros(4096), MFS_MAGIC_IND2);
            match r {
                None => (s, None),
                Some(l2) => (
                    s,
                    Some(
                        WriterView {
                            a: with_ptr(w.a, MFS_FILE_IND2_OFF, l2),
                            b: bytes::zeros(4096),
                            kind: p.kind,
                            slot2: p.slot2,
                            dirty: false,
                        },
                    ),
                ),
            }
        } else {
            match self.through(bytes::le32(w.a, 4048), MFS_MAGIC_IND2, p.slot2) {
                None => (self, None),
                Some(l1) => match self.fresh(l1, MFS_MAGIC_IND) {
                    None => (self, None),
                    Some(b) => (
                        self,
                        Some(WriterView { b, kind: p.kind, slot2: p.slot2, dirty: false, ..w }),
                    ),
                },
            }
        }
    }

    /// The single indirect block of place `p` of kind 1 or 2 in memory.
    #[verifier::opaque]
    pub open spec fn ind_load(self, w: WriterView, p: MfsMapPlan) -> (MfsView, Option<WriterView>) {
        if w.kind == p.kind && w.slot2 == p.slot2 {
            (self, Some(w))
        } else {
            match self.ind_flush(w) {
                (s, None) => (s, None),
                (s, Some(w1)) => s.ind_fetch(w1, p),
            }
        }
    }

    /// The disk block of block `bi` of a file opened for writing.
    #[verifier::opaque]
    pub open spec fn ind_peek(self, w: WriterView, bi: int) -> (MfsView, Option<(WriterView, u32)>) {
        match plan(bi) {
            None => (self, None),
            Some(p) => if p.kind == 0 {
                (self, Some((w, bytes::le32(w.a, 24 + 4 * p.slot1))))
            } else if p.kind == 3 {
                match self.ind_flush(w) {
                    (s, None) => (s, None),
                    (s, Some(w1)) => match s.map_at(w1.a, p) {
                        None => (s, None),
                        Some(db) => (
                            s,
                            Some((WriterView { kind: 0, slot2: 0, dirty: false, ..w1 }, db)),
                        ),
                    },
                }
            } else {
                match self.ind_load(w, p) {
                    (s, None) => (s, None),
                    (s, Some(w1)) => (s, Some((w1, mfs::slot(w1.b, p.slot1 as int)))),
                }
            },
        }
    }

    /// Slot `i` of indirect block `blk` set to `v`, in a new block.
    pub open spec fn relink(self, blk: u32, magic: u32, i: usize, v: u32) -> (MfsView, Option<u32>) {
        match self.fresh(blk, magic) {
            None => (self, None),
            Some(b) => self.commit(mfs::with_slot(b, i as int, v), magic),
        }
    }

    /// Place `p` of kind 3 set to disk block `db`: the three indirect blocks on the way
    /// are written anew.
    #[verifier::opaque]
    pub open spec fn ind_link3(self, a: Seq<u8>, p: MfsMapPlan, db: u32) -> (
        MfsView,
        Option<Seq<u8>>,
    ) {
        let l3 = bytes::le32(a, 4052);
        match self.through(l3, MFS_MAGIC_IND3, p.slot3) {
            None => (self, None),
            Some(l2) => match self.through(l2, MFS_MAGIC_IND2, p.slot2) {
                None => (self, None),
                Some(l1) => match self.relink(l1, MFS_MAGIC_IND, p.slot1, db) {
                    (s1, None) => (s1, None),
                    (s1, Some(n1)) => match s1.relink(l2, MFS_MAGIC_IND2, p.slot2, n1) {
                        (s2, None) => (s2, None),
                        (s2, Some(n2)) => match s2.relink(l3, MFS_MAGIC_IND3, p.slot3, n2) {
                            (s3, None) => (s3, None),
                            (s3, Some(n3)) => (s3, Some(with_ptr(a, MFS_FILE_IND3_OFF, n3))),
                        },
                    },
                },
            },
        }
    }

    /// Block `bi` of a file opened for writing set to disk block `db`.
    #[verifier::opaque]
    pub open spec fn ind_link(self, w: WriterView, bi: int, db: u32) -> (
        MfsView,
        Option<WriterView>,
    ) {
        match plan(bi) {
            None => (self, None),
            Some(p) => if p.kind == 0 {
                (self, Some(WriterView { a: bytes::put32(w.a, 24 + 4 * p.slot1, db), ..w }))
            } else if p.kind == 3 {
                match self.ind_link3(w.a, p, db) {
                    (s, None) => (s, None),
                    (s, Some(a)) => (s, Some(WriterView { a, ..w })),
                }
            } else if w.kind != p.kind || w.slot2 != p.slot2 {
                (self, None)
            } else {
                (
                    self,
                    Some(
                        WriterView {
                            b: mfs::with_slot(w.b, p.slot1 as int, db),
                            dirty: true,
                            ..w
                        },
                    ),
                )
            },
        }
    }

    /// `data` put into block `bi` of a file from byte `boff` on.
    #[verifier::opaque]
    pub open spec fn write_block(self, w: WriterView, bi: int, boff: int, data: Seq<u8>) -> (
        MfsView,
        Option<WriterView>,
    ) {
        match self.ind_peek(w, bi) {
            (s, None) => (s, None),
            (s, Some((w1, db))) => match s.fresh(db, MFS_MAGIC_DATA) {
                None => (s, None),
                Some(c) => match s.commit(bytes::splice(c, 8 + boff, data), MFS_MAGIC_DATA) {
                    (s1, None) => (s1, None),
                    (s1, Some(nb)) => match s1.ind_link(w1, bi, nb) {
                        (s2, None) => (s2, None),
                        (s2, Some(w2)) => (
                            s2,
                            Some(
                                if bi >= file_nblocks(w2.a) {
                                    WriterView { a: bytes::put32(w2.a, 16, (bi + 1) as u32), ..w2 }
                                } else {
                                    w2
                                },
                            ),
                        ),
                    },
                },
            },
        }
    }

    /// `data` from byte `done` on put into a file; byte 0 of it goes to `offset`.
    pub open spec fn write_from(self, w: WriterView, offset: int, data: Seq<u8>, done: int) -> (
        MfsView,
        Option<WriterView>,
    )
        decreases data.len() - done,
    {
        if done >= data.len() {
            (self, Some(w))
        } else {
            let pos = offset + done;
            let n = piece(pos, data.len() - done);
            match self.write_block(w, pos / 4088, pos % 4088, data.subrange(done, done + n)) {
                (s, None) => (s, None),
                (s, Some(w1)) => s.write_from(w1, offset, data, done + n),
            }
        }
    }

    /// A file node and its indirect blocks written.
    #[verifier::opaque]
    pub open spec fn finish(self, ino: u32, w: WriterView, size: u64, nblocks: u32) -> (
        MfsView,
        bool,
    ) {
        match self.ind_flush(w) {
            (s, None) => (s, false),
            (s, Some(w1)) => s.commit_object(
                ino,
                mfs_dir::touched(
                    bytes::put32(bytes::put64(w1.a, 8, size), 16, nblocks),
                    false,
                    s.now,
                ),
                MFS_MAGIC_FILE,
            ),
        }
    }

    /// `data` written into file `ino` from `offset` on.
    #[verifier::opaque]
    pub open spec fn write_file(self, ino: u32, offset: u64, data: Seq<u8>) -> (MfsView, bool) {
        let (s, r) = self.object_block(ino);
        match r {
            None => (s, false),
            Some(blk) => match s.load(blk, MFS_MAGIC_FILE) {
                None => (s, false),
                Some(a) => {
                    let end = offset + data.len();
                    if end > MFS_FILE_MAX_BYTES {
                        (s, false)
                    } else {
                        match s.write_from(writer(a), offset as int, data, 0) {
                            (s1, None) => (s1, false),
                            (s1, Some(w)) => s1.finish(
                                ino,
                                w,
                                most(end, file_size(a) as int) as u64,
                                file_nblocks(w.a),
                            ),
                        }
                    }
                },
            },
        }
    }

    /// Block `bi` of a file made a hole.
    #[verifier::opaque]
    pub open spec fn unmap(self, w: WriterView, bi: int) -> (MfsView, Option<WriterView>) {
        match self.ind_peek(w, bi) {
            (s, None) => (s, None),
            (s, Some((w1, db))) => if db == 0 {
                (s, Some(w1))
            } else {
                s.ind_link(w1, bi, 0)
            },
        }
    }

    /// Blocks `b` to `end - 1` of a file made holes.
    pub open spec fn unmap_range(self, w: WriterView, b: int, end: int) -> (
        MfsView,
        Option<WriterView>,
    )
        decreases end - b,
    {
        if b >= end {
            (self, Some(w))
        } else {
            match self.unmap(w, b) {
                (s, None) => (s, None),
                (s, Some(w1)) => s.unmap_range(w1, b + 1, end),
            }
        }
    }

    /// The blocks from `keep` on within one of the indirect areas dropped. The area is from
    /// `start` to `end - 1`, the node names it at `off`; the file had `nb` blocks.
    #[verifier::opaque]
    pub open spec fn drop_area(
        self,
        w: WriterView,
        keep: int,
        nb: int,
        start: int,
        end: int,
        off: usize,
    ) -> (MfsView, Option<WriterView>) {
        if nb <= start {
            (self, Some(w))
        } else if keep <= start {
            (self, Some(WriterView { a: with_ptr(w.a, off, 0), ..w }))
        } else {
            self.unmap_range(w, keep, least(end, nb))
        }
    }

    /// The blocks from `keep` on of a file of `nb` blocks dropped.
    #[verifier::opaque]
    pub open spec fn drop_blocks(self, w: WriterView, keep: int, nb: int) -> (
        MfsView,
        Option<WriterView>,
    ) {
        let w0 = WriterView { a: without_direct(w.a, keep, least(1005, nb)), ..w };
        match self.drop_area(w0, keep, nb, 1005, 2027, MFS_FILE_IND1_OFF) {
            (s1, None) => (s1, None),
            (s1, Some(w1)) => match s1.drop_area(
                w1,
                keep,
                nb,
                2027,
                1_046_511,
                MFS_FILE_IND2_OFF,
            ) {
                (s2, None) => (s2, None),
                (s2, Some(w2)) => match s2.drop_area(
                    w2,
                    keep,
                    nb,
                    1_046_511,
                    nb,
                    MFS_FILE_IND3_OFF,
                ) {
                    (s3, None) => (s3, None),
                    (s3, Some(w3)) => s3.ind_flush(w3),
                },
            },
        }
    }

    /// Block `bi` of a file cleared from byte `tail` on.
    #[verifier::opaque]
    pub open spec fn clear_tail(self, w: WriterView, bi: int, tail: int) -> (
        MfsView,
        Option<WriterView>,
    ) {
        match self.ind_peek(w, bi) {
            (s, None) => (s, None),
            (s, Some((w1, db))) => if db == 0 {
                (s, Some(w1))
            } else {
                match s.load(db, MFS_MAGIC_DATA) {
                    None => (s, None),
                    Some(c) => match s.commit(
                        bytes::splice(c, 8 + tail, bytes::zeros(4088 - tail)),
                        MFS_MAGIC_DATA,
                    ) {
                        (s1, None) => (s1, None),
                        (s1, Some(nb)) => s1.ind_link(w1, bi, nb),
                    },
                }
            },
        }
    }

    /// File `ino` cut or extended to `size` bytes.
    #[verifier::opaque]
    pub open spec fn truncate(self, ino: u32, size: u64) -> (MfsView, bool) {
        let (s, r) = self.object_block(ino);
        match r {
            None => (s, false),
            Some(blk) => match s.load(blk, MFS_MAGIC_FILE) {
                None => (s, false),
                Some(a) => if size == file_size(a) {
                    (s, true)
                } else if size > file_size(a) {
                    s.commit_object(
                        ino,
                        mfs_dir::touched(bytes::put64(a, 8, size), false, s.now),
                        MFS_MAGIC_FILE,
                    )
                } else {
                    let keep = (size + 4087) / 4088;
                    let tail = size as int % 4088;
                    match s.drop_blocks(writer(a), keep, file_nblocks(a) as int) {
                        (s1, None) => (s1, false),
                        (s1, Some(w1)) => if tail == 0 {
                            s1.finish(ino, w1, size, bytes::w32(keep))
                        } else {
                            match s1.clear_tail(w1, keep - 1, tail) {
                                (s2, None) => (s2, false),
                                (s2, Some(w2)) => s2.finish(ino, w2, size, bytes::w32(keep)),
                            }
                        },
                    }
                },
            },
        }
    }
}

/// A file node opened for writing.
pub open spec fn writer(a: Seq<u8>) -> WriterView {
    WriterView { a, kind: 0, slot2: 0, dirty: false, b: bytes::zeros(4096) }
}

/// A file node opened for writing.
pub struct Writer {
    pub a: Vec<u8>,
    pub kind: u32,
    pub slot2: usize,
    pub dirty: bool,
    pub b: Vec<u8>,
}

impl Writer {
    pub open spec fn view(&self) -> WriterView {
        WriterView {
            a: self.a@,
            kind: self.kind,
            slot2: self.slot2,
            dirty: self.dirty,
            b: self.b@,
        }
    }

    /// Both buffers are blocks, and the slot is one.
    pub open spec fn inv(&self) -> bool {
        self.a@.len() == MFS_BLOCK && self.b@.len() == MFS_BLOCK && self.slot2 < 1022
    }
}

/// The place of block `bi` of a file.
pub fn mfs_map_plan(bi: u64) -> (r: Option<MfsMapPlan>)
    ensures
        r == plan(bi as int),
        r matches Some(p) ==> p.slot3 < 1022 && p.slot2 < 1022 && p.slot1 < 1022 && p.kind <= 3 && (
        p.kind == 0 ==> p.slot1 < 1005),
{
    if bi < MFS_DIRECT_END {
        return Some(MfsMapPlan { kind: 0, slot3: 0, slot2: 0, slot1: bi as usize });
    }
    if bi < MFS_IND1_END {
        return Some(
            MfsMapPlan { kind: 1, slot3: 0, slot2: 0, slot1: (bi - MFS_DIRECT_END) as usize },
        );
    }
    if bi < MFS_IND2_END {
        let i: u64 = bi - MFS_IND1_END;
        return Some(
            MfsMapPlan {
                kind: 2,
                slot3: 0,
                slot2: (i / 1022) as usize,
                slot1: (i % 1022) as usize,
            },
        );
    }
    if bi < MFS_FILE_MAX_BLOCKS {
        let i: u64 = bi - MFS_IND2_END;
        let rest: u64 = i % 1_044_484;
        return Some(
            MfsMapPlan {
                kind: 3,
                slot3: (i / 1_044_484) as usize,
                slot2: (rest / 1022) as usize,
                slot1: (rest % 1022) as usize,
            },
        );
    }
    None
}

impl Mfs {
    /// Slot `i` of indirect block `blk`.
    fn through(&self, blk: u32, magic: u32, i: usize) -> (r: Option<u32>)
        requires
            self.inv(),
            i < 1022,
        ensures
            r == self@.through(blk, magic, i),
    {
        if blk == 0 {
            return Some(0);
        }
        match self.load(blk, magic) {
            None => None,
            Some(b) => Some(bytes::read_u32(&b, 8 + 4 * i)),
        }
    }

    /// Block `blk`, all zeros where it is not there.
    fn fresh(&self, blk: u32, magic: u32) -> (r: Option<Vec<u8>>)
        requires
            self.inv(),
        ensures
            bytes::opt(r) == self@.fresh(blk, magic),
            r matches Some(v) ==> v.len() == MFS_BLOCK,
    {
        if blk == 0 {
            return Some(bytes::zero_vec(4096));
        }
        self.load(blk, magic)
    }

    /// The disk block behind a place.
    fn map_at(&self, a: &Vec<u8>, p: MfsMapPlan) -> (r: Option<u32>)
        requires
            self.inv(),
            a.len() == MFS_BLOCK,
            p.slot3 < 1022,
            p.slot2 < 1022,
            p.slot1 < 1022,
            p.kind == 0 ==> p.slot1 < 1005,
        ensures
            r == self@.map_at(a@, p),
    {
        if p.kind == 0 {
            return Some(bytes::read_u32(a, 24 + 4 * p.slot1));
        }
        let l1: u32 = if p.kind == 1 {
            bytes::read_u32(a, 4044)
        } else {
            let l2: u32 = if p.kind == 2 {
                bytes::read_u32(a, 4048)
            } else {
                let l3: u32 = bytes::read_u32(a, 4052);
                match self.through(l3, MFS_MAGIC_IND3, p.slot3) {
                    Some(x) => x,
                    None => {
                        return None;
                    },
                }
            };
            match self.through(l2, MFS_MAGIC_IND2, p.slot2) {
                Some(x) => x,
                None => {
                    return None;
                },
            }
        };
        self.through(l1, MFS_MAGIC_IND, p.slot1)
    }

    /// The disk block of block `bi` of a file.
    pub fn mfs_file_map(&self, a: &Vec<u8>, bi: u64) -> (r: Option<u32>)
        requires
            self.inv(),
            a.len() == MFS_BLOCK,
        ensures
            r == self@.file_map(a@, bi as int),
    {
        proof {
            reveal(MfsView::file_map);
        }
        match mfs_map_plan(bi) {
            None => None,
            Some(p) => self.map_at(a, p),
        }
    }

    /// The bytes of block `bi` of a file, with the header of a block before them.
    fn file_block(&self, a: &Vec<u8>, bi: u64) -> (r: Option<Vec<u8>>)
        requires
            self.inv(),
            a.len() == MFS_BLOCK,
        ensures
            match r {
                Some(c) => c.len() == MFS_BLOCK && self@.file_block(a@, bi as int) == Some(
                    mfs::payload(c@),
                ),
                None => self@.file_block(a@, bi as int) is None,
            },
    {
        let db: u32 = if bi >= bytes::read_u32(a, 16) as u64 {
            0
        } else {
            match self.mfs_file_map(a, bi) {
                Some(x) => x,
                None => {
                    return None;
                },
            }
        };
        self.fresh(db, MFS_MAGIC_DATA)
    }

    /// Reads from file `ino`.
    #[verifier::loop_isolation(false)]
    pub fn mfs_read_file(&mut self, ino: u32, offset: u64, count: u32) -> (r: Option<Vec<u8>>)
        requires
            old(self).inv(),
        ensures
            final(self).inv(),
            (final(self)@, bytes::opt(r)) == old(self)@.read_file(ino, offset, count),
    {
        proof {
            reveal(MfsView::read_file);
        }
        let blk: u32 = match self.object_block(ino) {
            Some(b) => b,
            None => {
                return None;
            },
        };
        let a: Vec<u8> = match self.load(blk, MFS_MAGIC_FILE) {
            Some(a) => a,
            None => {
                return None;
            },
        };
        let size: u64 = bytes::read_u64(&a, 8);
        let mut out: Vec<u8> = Vec::new();
        if offset >= size {
            assert(out@ =~= Seq::empty());
            return Some(out);
        }
        let end: u64 = if size - offset < count as u64 {
            size
        } else {
            offset + count as u64
        };
        let mut pos: u64 = offset;
        let ghost goal = self@.read_from(a@, offset as int, end as int);
        while pos < end
            invariant
                pos <= end,
                match self@.read_from(a@, pos as int, end as int) {
                    None => goal is None,
                    Some(rest) => goal == Some(out@ + rest),
                },
            decreases end - pos,
        {
            let bi: u64 = pos / 4088;
            let boff: usize = (pos % 4088) as usize;
            let n: usize = if end - pos < (4088 - boff) as u64 {
                (end - pos) as usize
            } else {
                4088 - boff
            };
            let c: Vec<u8> = match self.file_block(&a, bi) {
                Some(c) => c,
                None => {
                    return None;
                },
            };
            let mut part: Vec<u8> = bytes::slice_copy(&c, 8 + boff, 8 + boff + n);
            assert(part@ =~= mfs::payload(c@).subrange(boff as int, boff + n));
            let ghost before = out@;
            out.append(&mut part);
            pos = pos + n as u64;
            proof {
                match self@.read_from(a@, pos as int, end as int) {
                    None => {},
                    Some(rest) => {
                        assert(before + (mfs::payload(c@).subrange(boff as int, boff + n) + rest)
                            =~= out@ + rest);
                    },
                }
            }
        }
        assert(out@ + Seq::empty() =~= out@);
        Some(out)
    }

    /// Writes the block in memory, and what names it.
    pub fn mfs_ind_flush(&mut self, w: &mut Writer) -> (r: bool)
        requires
            old(self).inv(),
            old(w).inv(),
        ensures
            final(self).inv(),
            final(w).inv(),
            final(self)@ == old(self)@.ind_flush(old(w)@).0,
            match old(self)@.ind_flush(old(w)@).1 {
                Some(x) => r && final(w)@ == x,
                None => !r,
            },
    {
        proof {
            reveal(MfsView::ind_flush);
        }
        if w.kind == 0 || !w.dirty {
            return true;
        }
        let l1: u32 = match self.mfs_commit(&mut w.b, MFS_MAGIC_IND) {
            Some(x) => x,
            None => {
                return false;
            },
        };
        if w.kind == 1 {
            bytes::write_u32(&mut w.a, MFS_FILE_IND1_OFF, l1);
            w.dirty = false;
            return true;
        }
        let l2: u32 = bytes::read_u32(&w.a, 4048);
        if l2 == 0 {
            return false;
        }
        let mut b2: Vec<u8> = match self.load(l2, MFS_MAGIC_IND2) {
            Some(x) => x,
            None => {
                return false;
            },
        };
        bytes::write_u32(&mut b2, 8 + 4 * w.slot2, l1);
        match self.mfs_commit(&mut b2, MFS_MAGIC_IND2) {
            Some(n2) => {
                bytes::write_u32(&mut w.a, MFS_FILE_IND2_OFF, n2);
                w.b = b2;
                w.kind = 0;
                w.dirty = false;
                true
            },
            None => false,
        }
    }

    /// Fetches the single indirect block of a place of kind 1 or 2.
    fn ind_fetch(&mut self, w: &mut Writer, p: MfsMapPlan) -> (r: bool)
        requires
            old(self).inv(),
            old(w).inv(),
            p.slot2 < 1022,
        ensures
            final(self).inv(),
            final(w).inv(),
            final(self)@ == old(self)@.ind_fetch(old(w)@, p).0,
            match old(self)@.ind_fetch(old(w)@, p).1 {
                Some(x) => r && final(w)@ == x,
                None => !r,
            },
    {
        proof {
            reveal(MfsView::ind_fetch);
        }
        let l1: u32 = if p.kind == 1 {
            bytes::read_u32(&w.a, 4044)
        } else {
            let l2: u32 = bytes::read_u32(&w.a, 4048);
            if l2 == 0 {
                let mut z: Vec<u8> = bytes::zero_vec(4096);
                match self.mfs_commit(&mut z, MFS_MAGIC_IND2) {
                    Some(x) => {
                        bytes::write_u32(&mut w.a, MFS_FILE_IND2_OFF, x);
                    },
                    None => {
                        return false;
                    },
                }
                0
            } else {
                match self.through(l2, MFS_MAGIC_IND2, p.slot2) {
                    Some(x) => x,
                    None => {
                        return false;
                    },
                }
            }
        };
        match self.fresh(l1, MFS_MAGIC_IND) {
            Some(b) => {
                w.b = b;
                w.kind = p.kind;
                w.slot2 = p.slot2;
                w.dirty = false;
                true
            },
            None => false,
        }
    }

    /// Has the single indirect block of a place of kind 1 or 2 in memory.
    pub fn mfs_ind_load(&mut self, w: &mut Writer, p: MfsMapPlan) -> (r: bool)
        requires
            old(self).inv(),
            old(w).inv(),
            p.slot2 < 1022,
        ensures
            final(self).inv(),
            final(w).inv(),
            final(self)@ == old(self)@.ind_load(old(w)@, p).0,
            match old(self)@.ind_load(old(w)@, p).1 {
                Some(x) => r && final(w)@ == x,
                None => !r,
            },
    {
        proof {
            reveal(MfsView::ind_load);
        }
        if w.kind == p.kind && w.slot2 == p.slot2 {
            return true;
        }
        if !self.mfs_ind_flush(w) {
            return false;
        }
        self.ind_fetch(w, p)
    }

    /// The disk block of block `bi` of a file opened for writing.
    pub fn mfs_ind_peek(&mut self, w: &mut Writer, bi: u64) -> (r: Option<u32>)
        requires
            old(self).inv(),
            old(w).inv(),
        ensures
            final(self).inv(),
            final(w).inv(),
            final(self)@ == old(self)@.ind_peek(old(w)@, bi as int).0,
            match old(self)@.ind_peek(old(w)@, bi as int).1 {
                Some((x, db)) => r == Some(db) && final(w)@ == x,
                None => r is None,
            },
    {
        proof {
            reveal(MfsView::ind_peek);
        }
        let p: MfsMapPlan = match mfs_map_plan(bi) {
            Some(p) => p,
            None => {
                return None;
            },
        };
        if p.kind == 0 {
            return Some(bytes::read_u32(&w.a, 24 + 4 * p.slot1));
        }
        if p.kind == 3 {
            if !self.mfs_ind_flush(w) {
                return None;
            }
            w.kind = 0;
            w.slot2 = 0;
            w.dirty = false;
            return self.map_at(&w.a, p);
        }
        if !self.mfs_ind_load(w, p) {
            return None;
        }
        Some(bytes::read_u32(&w.b, 8 + 4 * p.slot1))
    }

    /// Sets slot `i` of indirect block `blk`, in a new block.
    fn relink(&mut self, blk: u32, magic: u32, i: usize, v: u32) -> (r: Option<u32>)
        requires
            old(self).inv(),
            i < 1022,
        ensures
            final(self).inv(),
            (final(self)@, r) == old(self)@.relink(blk, magic, i, v),
    {
        match self.fresh(blk, magic) {
            None => None,
            Some(b0) => {
                let mut b: Vec<u8> = b0;
                bytes::write_u32(&mut b, 8 + 4 * i, v);
                self.mfs_commit(&mut b, magic)
            },
        }
    }

    /// Sets a place of kind 3 to disk block `db`.
    pub fn mfs_ind_link3(&mut self, a: &mut Vec<u8>, p: MfsMapPlan, db: u32) -> (r: bool)
        requires
            old(self).inv(),
            old(a).len() == MFS_BLOCK,
            p.slot3 < 1022,
            p.slot2 < 1022,
            p.slot1 < 1022,
        ensures
            final(self).inv(),
            final(a).len() == MFS_BLOCK,
            final(self)@ == old(self)@.ind_link3(old(a)@, p, db).0,
            match old(self)@.ind_link3(old(a)@, p, db).1 {
                Some(x) => r && final(a)@ == x,
                None => !r,
            },
    {
        proof {
            reveal(MfsView::ind_link3);
        }
        let l3: u32 = bytes::read_u32(a, 4052);
        let l2: u32 = match self.through(l3, MFS_MAGIC_IND3, p.slot3) {
            Some(x) => x,
            None => {
                return false;
            },
        };
        let l1: u32 = match self.through(l2, MFS_MAGIC_IND2, p.slot2) {
            Some(x) => x,
            None => {
                return false;
            },
        };
        let n1: u32 = match self.relink(l1, MFS_MAGIC_IND, p.slot1, db) {
            Some(x) => x,
            None => {
                return false;
            },
        };
        let n2: u32 = match self.relink(l2, MFS_MAGIC_IND2, p.slot2, n1) {
            Some(x) => x,
            None => {
                return false;
            },
        };
        match self.relink(l3, MFS_MAGIC_IND3, p.slot3, n2) {
            Some(n3) => {
                bytes::write_u32(a, MFS_FILE_IND3_OFF, n3);
                true
            },
            None => false,
        }
    }

    /// Sets block `bi` of a file opened for writing to disk block `db`.
    pub fn mfs_ind_link(&mut self, w: &mut Writer, bi: u64, db: u32) -> (r: bool)
        requires
            old(self).inv(),
            old(w).inv(),
        ensures
            final(self).inv(),
            final(w).inv(),
            final(self)@ == old(self)@.ind_link(old(w)@, bi as int, db).0,
            match old(self)@.ind_link(old(w)@, bi as int, db).1 {
                Some(x) => r && final(w)@ == x,
                None => !r,
            },
    {
        proof {
            reveal(MfsView::ind_link);
        }
        let p: MfsMapPlan = match mfs_map_plan(bi) {
            Some(p) => p,
            None => {
                return false;
            },
        };
        if p.kind == 0 {
            bytes::write_u32(&mut w.a, 24 + 4 * p.slot1, db);
            return true;
        }
        if p.kind == 3 {
            return self.mfs_ind_link3(&mut w.a, p, db);
        }
        if w.kind != p.kind || w.slot2 != p.slot2 {
            return false;
        }
        bytes::write_u32(&mut w.b, 8 + 4 * p.slot1, db);
        w.dirty = true;
        true
    }

    /// Puts `n` bytes of `data` from `from` on into block `bi` of a file.
    fn write_block(&mut self, w: &mut Writer, bi: u64, boff: usize, data: &Vec<u8>, from: usize, n:
        usize) -> (r: bool)
        requires
            old(self).inv(),
            old(w).inv(),
            bi < MFS_FILE_MAX_BLOCKS,
            boff + n <= 4088,
            from + n <= data.len(),
        ensures
            final(self).inv(),
            final(w).inv(),
            final(self)@ == old(self)@.write_block(
                old(w)@,
                bi as int,
                boff as int,
                data@.subrange(from as int, from + n),
            ).0,
            match old(self)@.write_block(
                old(w)@,
                bi as int,
                boff as int,
                data@.subrange(from as int, from + n),
            ).1 {
                Some(x) => r && final(w)@ == x,
                None => !r,
            },
    {
        proof {
            reveal(MfsView::write_block);
        }
        let db: u32 = match self.mfs_ind_peek(w, bi) {
            Some(x) => x,
            None => {
                return false;
            },
        };
        let mut c: Vec<u8> = match self.fresh(db, MFS_MAGIC_DATA) {
            Some(c) => c,
            None => {
                return false;
            },
        };
        bytes::copy_into(&mut c, 8 + boff, data, from, n);
        let nb: u32 = match self.mfs_commit(&mut c, MFS_MAGIC_DATA) {
            Some(x) => x,
            None => {
                return false;
            },
        };
        if !self.mfs_ind_link(w, bi, nb) {
            return false;
        }
        if bi >= bytes::read_u32(&w.a, 16) as u64 {
            bytes::write_u32(&mut w.a, 16, (bi + 1) as u32);
        }
        true
    }

    /// Writes a file node and its indirect blocks.
    fn finish(&mut self, ino: u32, w: &mut Writer, size: u64, nblocks: u32) -> (r: bool)
        requires
            old(self).inv(),
            old(w).inv(),
        ensures
            final(self).inv(),
            (final(self)@, r) == old(self)@.finish(ino, old(w)@, size, nblocks),
    {
        proof {
            reveal(MfsView::finish);
        }
        if !self.mfs_ind_flush(w) {
            return false;
        }
        bytes::write_u64(&mut w.a, 8, size);
        bytes::write_u32(&mut w.a, 16, nblocks);
        mfs_dir::mfs_touch(&mut w.a, false, self.now);
        self.mfs_commit_object(ino, &mut w.a, MFS_MAGIC_FILE)
    }

    /// Writes `data` into file `ino` from `offset` on.
    #[verifier::loop_isolation(false)]
    pub fn mfs_write_file(&mut self, ino: u32, offset: u64, data: &Vec<u8>) -> (r: bool)
        requires
            old(self).inv(),
        ensures
            final(self).inv(),
            (final(self)@, r) == old(self)@.write_file(ino, offset, data@),
    {
        proof {
            reveal(MfsView::write_file);
        }
        let blk: u32 = match self.object_block(ino) {
            Some(b) => b,
            None => {
                return false;
            },
        };
        let a: Vec<u8> = match self.load(blk, MFS_MAGIC_FILE) {
            Some(a) => a,
            None => {
                return false;
            },
        };
        let len: u64 = data.len() as u64;
        if offset > MFS_FILE_MAX_BYTES || len > MFS_FILE_MAX_BYTES - offset {
            return false;
        }
        let end: u64 = offset + len;
        let old_size: u64 = bytes::read_u64(&a, 8);
        let mut w = Writer { a, kind: 0, slot2: 0, dirty: false, b: bytes::zero_vec(4096) };
        let ghost goal = self@.write_from(w@, offset as int, data@, 0);
        let mut done: usize = 0;
        while done < data.len()
            invariant
                done <= data.len(),
                self.inv(),
                w.inv(),
                self@.write_from(w@, offset as int, data@, done as int) == goal,
            decreases data.len() - done,
        {
            let pos: u64 = offset + done as u64;
            let bi: u64 = pos / 4088;
            let boff: usize = (pos % 4088) as usize;
            let n: usize = if data.len() - done < 4088 - boff {
                data.len() - done
            } else {
                4088 - boff
            };
            if !self.write_block(&mut w, bi, boff, data, done, n) {
                return false;
            }
            done = done + n;
        }
        let size: u64 = if end > old_size {
            end
        } else {
            old_size
        };
        let nb: u32 = bytes::read_u32(&w.a, 16);
        self.finish(ino, &mut w, size, nb)
    }

    /// Makes block `bi` of a file a hole.
    pub fn mfs_unmap_block(&mut self, w: &mut Writer, bi: u64) -> (r: bool)
        requires
            old(self).inv(),
            old(w).inv(),
        ensures
            final(self).inv(),
            final(w).inv(),
            final(self)@ == old(self)@.unmap(old(w)@, bi as int).0,
            match old(self)@.unmap(old(w)@, bi as int).1 {
                Some(x) => r && final(w)@ == x,
                None => !r,
            },
    {
        proof {
            reveal(MfsView::unmap);
        }
        match self.mfs_ind_peek(w, bi) {
            None => false,
            Some(db) => {
                if db == 0 {
                    true
                } else {
                    self.mfs_ind_link(w, bi, 0)
                }
            },
        }
    }

    /// Drops the blocks from `keep` on within one of the indirect areas.
    #[verifier::loop_isolation(false)]
    fn drop_area(&mut self, w: &mut Writer, keep: u64, nb: u64, start: u64, end: u64, off: usize)
        -> (r: bool)
        requires
            old(self).inv(),
            old(w).inv(),
            off + 4 <= 4096,
        ensures
            final(self).inv(),
            final(w).inv(),
            final(self)@ == old(self)@.drop_area(
                old(w)@,
                keep as int,
                nb as int,
                start as int,
                end as int,
                off,
            ).0,
            match old(self)@.drop_area(
                old(w)@,
                keep as int,
                nb as int,
                start as int,
                end as int,
                off,
            ).1 {
                Some(x) => r && final(w)@ == x,
                None => !r,
            },
    {
        proof {
            reveal(MfsView::drop_area);
        }
        if nb <= start {
            return true;
        }
        if keep <= start {
            bytes::write_u32(&mut w.a, off, 0);
            return true;
        }
        let stop: u64 = if end <= nb {
            end
        } else {
            nb
        };
        let ghost goal = self@.unmap_range(w@, keep as int, stop as int);
        let mut b: u64 = keep;
        while b < stop
            invariant
                self.inv(),
                w.inv(),
                self@.unmap_range(w@, b as int, stop as int) == goal,
            decreases stop - b,
        {
            if !self.mfs_unmap_block(w, b) {
                return false;
            }
            b = b + 1;
        }
        true
    }

    /// Drops the blocks from `keep` on of a file of `nb` blocks.
    #[verifier::loop_isolation(false)]
    fn drop_blocks(&mut self, w: &mut Writer, keep: u64, nb: u64) -> (r: bool)
        requires
            old(self).inv(),
            old(w).inv(),
        ensures
            final(self).inv(),
            final(w).inv(),
            final(self)@ == old(self)@.drop_blocks(old(w)@, keep as int, nb as int).0,
            match old(self)@.drop_blocks(old(w)@, keep as int, nb as int).1 {
                Some(x) => r && final(w)@ == x,
                None => !r,
            },
    {
        proof {
            reveal(MfsView::drop_blocks);
        }
        let stop: u64 = if nb >= 1005 {
            1005
        } else {
            nb
        };
        let ghost goal = without_direct(w@.a, keep as int, stop as int);
        let mut i: u64 = keep;
        while i < stop
            invariant
                w.inv(),
                w@ == (WriterView { a: w.a@, ..old(w)@ }),
                without_direct(w@.a, i as int, stop as int) == goal,
            decreases stop - i,
        {
            bytes::write_u32(&mut w.a, 24 + 4 * (i as usize), 0);
            i = i + 1;
        }
        if !self.drop_area(w, keep, nb, 1005, 2027, MFS_FILE_IND1_OFF) {
            return false;
        }
        if !self.drop_area(w, keep, nb, 2027, 1_046_511, MFS_FILE_IND2_OFF) {
            return false;
        }
        if !self.drop_area(w, keep, nb, 1_046_511, nb, MFS_FILE_IND3_OFF) {
            return false;
        }
        self.mfs_ind_flush(w)
    }

    /// Clears block `bi` of a file from byte `tail` on.
    fn clear_tail(&mut self, w: &mut Writer, bi: u64, tail: usize) -> (r: bool)
        requires
            old(self).inv(),
            old(w).inv(),
            tail <= 4088,
        ensures
            final(self).inv(),
            final(w).inv(),
            final(self)@ == old(self)@.clear_tail(old(w)@, bi as int, tail as int).0,
            match old(self)@.clear_tail(old(w)@, bi as int, tail as int).1 {
                Some(x) => r && final(w)@ == x,
                None => !r,
            },
    {
        proof {
            reveal(MfsView::clear_tail);
        }
        let db: u32 = match self.mfs_ind_peek(w, bi) {
            Some(x) => x,
            None => {
                return false;
            },
        };
        if db == 0 {
            return true;
        }
        let mut c: Vec<u8> = match self.load(db, MFS_MAGIC_DATA) {
            Some(c) => c,
            None => {
                return false;
            },
        };
        bytes::zero_bytes(&mut c, 8 + tail, 4088 - tail);
        match self.mfs_commit(&mut c, MFS_MAGIC_DATA) {
            None => false,
            Some(nb) => self.mfs_ind_link(w, bi, nb),
        }
    }

    /// Cuts or extends file `ino` to `size` bytes.
    pub fn mfs_truncate(&mut self, ino: u32, size: u64) -> (r: bool)
        requires
            old(self).inv(),
        ensures
            final(self).inv(),
            (final(self)@, r) == old(self)@.truncate(ino, size),
    {
        proof {
            reveal(MfsView::truncate);
        }
        let blk: u32 = match self.object_block(ino) {
            Some(b) => b,
            None => {
                return false;
            },
        };
        let mut a: Vec<u8> = match self.load(blk, MFS_MAGIC_FILE) {
            Some(a) => a,
            None => {
                return false;
            },
        };
        let old_size: u64 = bytes::read_u64(&a, 8);
        if size == old_size {
            return true;
        }
        if size > old_size {
            bytes::write_u64(&mut a, 8, size);
            mfs_dir::mfs_touch(&mut a, false, self.now);
            return self.mfs_commit_object(ino, &mut a, MFS_MAGIC_FILE);
        }
        let tail: u64 = size % 4088;
        let keep: u64 = if tail == 0 {
            size / 4088
        } else {
            size / 4088 + 1
        };
        let nb: u32 = bytes::read_u32(&a, 16);
        let mut w = Writer { a, kind: 0, slot2: 0, dirty: false, b: bytes::zero_vec(4096) };
        if !self.drop_blocks(&mut w, keep, nb as u64) {
            return false;
        }
        if tail != 0 {
            if !self.clear_tail(&mut w, keep - 1, tail as usize) {
                return false;
            }
        }
        self.finish(ino, &mut w, size, (keep % 0x1_0000_0000) as u32)
    }
}

} // verus!
