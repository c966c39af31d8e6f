//! MorionFS: the inode table, which maps inode numbers to blocks.
//!
//! An index block holds the blocks of the table, a table block the blocks of the
//! objects. The index is mirrored in memory, and the table block used last is kept.
use vstd::prelude::*;

use crate::bytes;
use crate::mfs;
use crate::mfs::{
    Mfs, MfsView, MFS_BLOCK, MFS_INO_MAX, MFS_MAGIC_ITAB, MFS_MAGIC_ITABX, MFS_ROOT_INO, MFS_SLOTS,
};

verus! {

/// The index block that the mirror stands for, its slots from `k` on written.
pub open spec fn index_from(b: Seq<u8>, mem: Seq<u32>, k: int) -> Seq<u8>
    decreases mem.len() - k,
{
    if k >= mem.len() {
        b
    } else {
        index_from(mfs::with_slot(b, k, mem[k]), mem, k + 1)
    }
}

impl MfsView {
    /// The block of the object with number `ino`, 0 for none; `None` for a number out of
    /// range and for a table block that cannot be read.
    #[verifier::opaque]
    pub open spec fn ino_block(self, ino: u32) -> (MfsView, Option<u32>) {
        let k = ino as int / 1022;
        let j = ino as int % 1022;
        if ino == 0 || ino >= MFS_INO_MAX {
            (self, None)
        } else if self.itab_mem[k] == 0 {
            (self, Some(0))
        } else if self.tab_idx == k {
            (self, Some(mfs::slot(self.tab_buf, j)))
        } else {
            match self.rd(self.itab_mem[k]) {
                None => (self, None),
                Some(v) => if mfs::block_ok(v, MFS_MAGIC_ITAB) {
                    (
                        MfsView { tab_buf: v, tab_idx: k as u32, ..self },
                        Some(mfs::slot(v, j)),
                    )
                } else {
                    (self, None)
                },
            }
        }
    }

    /// The block of an object that exists.
    #[verifier::opaque]
    pub open spec fn object_block(self, ino: u32) -> (MfsView, Option<u32>) {
        let (s, r) = self.ino_block(ino);
        (
            s,
            match r {
                Some(b) => if b != 0 {
                    Some(b)
                } else {
                    None
                },
                None => None,
            },
        )
    }

    /// The mirror loaded from the index block.
    #[verifier::opaque]
    pub open spec fn itab_reload(self) -> (MfsView, bool) {
        if self.itab == 0 {
            (self, false)
        } else {
            match self.load(self.itab, MFS_MAGIC_ITABX) {
                None => (self, false),
                Some(x) => (
                    MfsView {
                        itab_mem: Seq::new(MFS_SLOTS as nat, |k: int| mfs::slot(x, k)),
                        tab_idx: u32::MAX,
                        ..self
                    },
                    true,
                ),
            }
        }
    }

    /// The mirror written to a new index block, and the generation committed.
    #[verifier::opaque]
    pub open spec fn itab_flush(self) -> (MfsView, bool) {
        let (s, r) = self.commit(
            index_from(mfs::sealed(bytes::zeros(4096), MFS_MAGIC_ITABX), self.itab_mem, 0),
            MFS_MAGIC_ITABX,
        );
        match r {
            None => (s, false),
            Some(b) => MfsView { itab: b, ..s }.flush(),
        }
    }

    /// Object `ino` moved to block `blk`, 0 to give the number back.
    #[verifier::opaque]
    pub open spec fn itab_set(self, ino: u32, blk: u32) -> (MfsView, bool) {
        let k = ino as int / 1022;
        let j = ino as int % 1022;
        if ino == 0 || ino >= MFS_INO_MAX {
            (self, false)
        } else {
            let t = self.itab_mem[k];
            let fresh = if t == 0 {
                Some(bytes::zeros(4096))
            } else if self.tab_idx == k {
                Some(self.tab_buf)
            } else {
                self.rd(t)
            };
            match fresh {
                None => (self, false),
                Some(v) => if t != 0 && self.tab_idx != k && !mfs::block_ok(v, MFS_MAGIC_ITAB) {
                    (self, false)
                } else {
                    let w = mfs::with_slot(v, j, blk);
                    let (s, r) = self.commit(w, MFS_MAGIC_ITAB);
                    match r {
                        None => (s, false),
                        Some(b) => MfsView {
                            tab_idx: k as u32,
                            tab_buf: mfs::sealed(w, MFS_MAGIC_ITAB),
                            itab_mem: s.itab_mem.update(k, b),
                            ..s
                        }.itab_flush(),
                    }
                },
            }
        }
    }

    /// The number tried after `ino`.
    pub open spec fn next_ino(ino: int) -> int {
        if ino + 1 >= MFS_INO_MAX {
            MFS_ROOT_INO + 1
        } else {
            ino + 1
        }
    }

    /// A number found for an object in block `blk`, from `ino` on, `left` numbers still
    /// to be tried.
    #[verifier::opaque]
    pub open spec fn ino_search(self, ino: int, blk: u32, left: nat) -> (MfsView, Option<u32>)
        decreases left,
    {
        if left == 0 {
            (self, None)
        } else {
            let (s, r) = self.ino_block(ino as u32);
            if r == Some(0u32) {
                let (t, ok) = s.itab_set(ino as u32, blk);
                if ok {
                    (
                        MfsView {
                            ino_hint: Self::next_ino(ino) as u32,
                            ino_count: bytes::w32(t.ino_count + 1),
                            ..t
                        },
                        Some(ino as u32),
                    )
                } else {
                    (t, None)
                }
            } else {
                s.ino_search(Self::next_ino(ino), blk, (left - 1) as nat)
            }
        }
    }

    /// A number for a new object in block `blk`.
    #[verifier::opaque]
    pub open spec fn ino_alloc(self, blk: u32) -> (MfsView, Option<u32>) {
        self.ino_search(
            mfs::clamp(self.ino_hint as int, MFS_ROOT_INO + 1, MFS_INO_MAX - 1),
            blk,
            MFS_INO_MAX as nat,
        )
    }

    /// A number given back; that of the root never is.
    #[verifier::opaque]
    pub open spec fn free_ino(self, ino: u32) -> (MfsView, bool) {
        if ino <= MFS_ROOT_INO {
            (self, false)
        } else {
            let (s, ok) = self.itab_set(ino, 0);
            if ok {
                (
                    MfsView {
                        ino_count: if s.ino_count == 0 {
                            0
                        } else {
                            (s.ino_count - 1) as u32
                        },
                        ..s
                    },
                    true,
                )
            } else {
                (s, false)
            }
        }
    }

    /// An object written to a new block, and its number moved there.
    #[verifier::opaque]
    pub open spec fn commit_object(self, ino: u32, data: Seq<u8>, magic: u32) -> (MfsView, bool) {
        let (s, r) = self.commit(data, magic);
        match r {
            None => (s, false),
            Some(b) => s.itab_set(ino, b),
        }
    }

    /// An index block and the table blocks it names marked in use.
    pub open spec fn mark_slots(self, x: Seq<u8>, k: int) -> MfsView
        decreases 1022 - k,
    {
        if k >= 1022 {
            self
        } else if mfs::slot(x, k) != 0 {
            self.bmp_set(mfs::slot(x, k)).mark_slots(x, k + 1)
        } else {
            self.mark_slots(x, k + 1)
        }
    }

    /// The blocks of an inode table marked in use.
    #[verifier::opaque]
    pub open spec fn mark_itab(self, itab: u32) -> MfsView {
        if itab == 0 {
            self
        } else {
            let s = self.bmp_set(itab);
            match s.load(itab, MFS_MAGIC_ITABX) {
                None => s,
                Some(x) => s.mark_slots(x, 0),
            }
        }
    }
}

/// Law: where the block of an object cannot be told, because a table block cannot be read or
/// fails its check, nothing changes: what was kept of the table stays as it was.
pub proof fn law_unreadable_table_is_not_kept(s: MfsView, ino: u32)
    requires
        s.ino_block(ino).1 is None,
    ensures
        s.ino_block(ino).0 == s,
{
    reveal(MfsView::ino_block);
}

impl Mfs {
    /// The block of object `ino`, 0 for none.
    pub fn mfs_ino_block(&mut self, ino: u32) -> (r: Option<u32>)
        requires
            old(self).inv(),
        ensures
            final(self).inv(),
            (final(self)@, r) == old(self)@.ino_block(ino),
    {
        proof {
            reveal(MfsView::ino_block);
        }
        if ino == 0 || ino >= MFS_INO_MAX {
            return None;
        }
        let k: u32 = ino / 1022;
        let j: usize = (ino % 1022) as usize;
        let t: u32 = self.itab_mem[k as usize];
        if t == 0 {
            return Some(0);
        }
        if self.tab_idx != k {
            match self.mfs_read_blk(t) {
                None => {
                    return None;
                },
                Some(v) => {
                    if !mfs::mfs_ok(&v, MFS_MAGIC_ITAB) {
                        return None;
                    }
                    self.tab_buf = v;
                    self.tab_idx = k;
                },
            }
        }
        Some(bytes::read_u32(&self.tab_buf, 8 + 4 * j))
    }

    /// The block of an object that exists.
    pub fn object_block(&mut self, ino: u32) -> (r: Option<u32>)
        requires
            old(self).inv(),
        ensures
            final(self).inv(),
            (final(self)@, r) == old(self)@.object_block(ino),
    {
        proof {
            reveal(MfsView::object_block);
        }
        match self.mfs_ino_block(ino) {
            Some(b) => {
                if b != 0 {
                    Some(b)
                } else {
                    None
                }
            },
            None => None,
        }
    }

    /// Loads the mirror from the index block.
    pub fn mfs_itab_reload(&mut self) -> (r: bool)
        requires
            old(self).inv(),
        ensures
            final(self).inv(),
            (final(self)@, r) == old(self)@.itab_reload(),
    {
        proof {
            reveal(MfsView::itab_reload);
        }
        if self.itab == 0 {
            return false;
        }
        let x: Vec<u8> = match self.load(self.itab, MFS_MAGIC_ITABX) {
            Some(x) => x,
            None => {
                return false;
            },
        };
        let mut mem: Vec<u32> = Vec::new();
        let mut k: usize = 0;
        while k < MFS_SLOTS
            invariant
                k <= MFS_SLOTS,
                x.len() == MFS_BLOCK,
                mem@ =~= Seq::new(k as nat, |i: int| mfs::slot(x@, i)),
            decreases MFS_SLOTS - k,
        {
            mem.push(bytes::read_u32(&x, 8 + 4 * k));
            k = k + 1;
        }
        self.itab_mem = mem;
        self.tab_idx = u32::MAX;
        true
    }

    /// Writes the mirror to a new index block and commits the generation.
    pub fn mfs_itab_flush(&mut self) -> (r: bool)
        requires
            old(self).inv(),
        ensures
            final(self).inv(),
            (final(self)@, r) == old(self)@.itab_flush(),
    {
        proof {
            reveal(MfsView::itab_flush);
        }
        let mut x: Vec<u8> = bytes::zero_vec(4096);
        mfs::mfs_seal(&mut x, MFS_MAGIC_ITABX);
        let ghost x0 = x@;
        let mut k: usize = 0;
        while k < MFS_SLOTS
            invariant
                k <= MFS_SLOTS,
                self.inv(),
                x.len() == MFS_BLOCK,
                index_from(x@, self@.itab_mem, k as int) == index_from(x0, self@.itab_mem, 0),
            decreases MFS_SLOTS - k,
        {
            bytes::write_u32(&mut x, 8 + 4 * k, self.itab_mem[k]);
            k = k + 1;
        }
        match self.mfs_commit(&mut x, MFS_MAGIC_ITABX) {
            None => false,
            Some(b) => {
                self.itab = b;
                self.mfs_bmp_flush()
            },
        }
    }

    /// Moves object `ino` to block `blk`.
    pub fn mfs_itab_set(&mut self, ino: u32, blk: u32) -> (r: bool)
        requires
            old(self).inv(),
        ensures
            final(self).inv(),
            (final(self)@, r) == old(self)@.itab_set(ino, blk),
    {
        proof {
            reveal(MfsView::itab_set);
        }
        if ino == 0 || ino >= MFS_INO_MAX {
            return false;
        }
        let k: u32 = ino / 1022;
        let j: usize = (ino % 1022) as usize;
        let t: u32 = self.itab_mem[k as usize];
        let mut buf: Vec<u8> = if t == 0 {
            bytes::zero_vec(4096)
        } else if self.tab_idx == k {
            vstd::slice::slice_to_vec(self.tab_buf.as_slice())
        } else {
            match self.mfs_read_blk(t) {
                Some(v) => {
                    if !mfs::mfs_ok(&v, MFS_MAGIC_ITAB) {
                        return false;
                    }
                    v
                },
                None => {
                    return false;
                },
            }
        };
        bytes::write_u32(&mut buf, 8 + 4 * j, blk);
        match self.mfs_commit(&mut buf, MFS_MAGIC_ITAB) {
            None => false,
            Some(b) => {
                self.tab_buf = buf;
                self.tab_idx = k;
                self.itab_mem.set(k as usize, b);
                self.mfs_itab_flush()
            },
        }
    }

    /// Finds a number for a new object in block `blk`.
    #[verifier::loop_isolation(false)]
    pub fn mfs_ino_alloc_for(&mut self, blk: u32) -> (r: Option<u32>)
        requires
            old(self).inv(),
        ensures
            final(self).inv(),
            (final(self)@, r) == old(self)@.ino_alloc(blk),
    {
        proof {
            reveal(MfsView::ino_search);
            reveal(MfsView::ino_alloc);
        }
        let mut ino: u32 = if self.ino_hint < MFS_ROOT_INO + 1 {
            MFS_ROOT_INO + 1
        } else if self.ino_hint > MFS_INO_MAX - 1 {
            MFS_INO_MAX - 1
        } else {
            self.ino_hint
        };
        let mut left: u32 = MFS_INO_MAX;
        let ghost goal = old(self)@.ino_alloc(blk);
        while left > 0
            invariant
                self.inv(),
                ino < MFS_INO_MAX,
                self@.ino_search(ino as int, blk, left as nat) == goal,
            decreases left,
        {
            let next: u32 = if ino + 1 >= MFS_INO_MAX {
                MFS_ROOT_INO + 1
            } else {
                ino + 1
            };
            let found: bool = match self.mfs_ino_block(ino) {
                Some(b) => b == 0,
                None => false,
            };
            if found {
                if !self.mfs_itab_set(ino, blk) {
                    return None;
                }
                self.ino_hint = next;
                self.ino_count = if self.ino_count == 0xFFFF_FFFF {
                    0
                } else {
                    self.ino_count + 1
                };
                return Some(ino);
            }
            ino = next;
            left = left - 1;
        }
        None
    }

    /// Gives the number of an object back.
    pub fn mfs_free_ino(&mut self, ino: u32) -> (r: bool)
        requires
            old(self).inv(),
        ensures
            final(self).inv(),
            (final(self)@, r) == old(self)@.free_ino(ino),
    {
        proof {
            reveal(MfsView::free_ino);
        }
        if ino <= MFS_ROOT_INO {
            return false;
        }
        if !self.mfs_itab_set(ino, 0) {
            return false;
        }
        self.ino_count = self.ino_count.saturating_sub(1);
        true
    }

    /// Writes an object to a new block and moves its number there.
    pub fn mfs_commit_object(&mut self, ino: u32, data: &mut Vec<u8>, magic: u32) -> (r: bool)
        requires
            old(self).inv(),
            old(data).len() == MFS_BLOCK,
        ensures
            final(self).inv(),
            (final(self)@, r) == old(self)@.commit_object(ino, old(data)@, magic),
            final(data).len() == MFS_BLOCK,
    {
        proof {
            reveal(MfsView::commit_object);
        }
        match self.mfs_commit(data, magic) {
            None => false,
            Some(b) => self.mfs_itab_set(ino, b),
        }
    }

    /// Marks the blocks of an inode table in use.
    pub fn mfs_mark_itab_meta(&mut self, itab: u32)
        requires
            old(self).inv(),
        ensures
            final(self).inv(),
            final(self)@ == old(self)@.mark_itab(itab),
            final(self).snaps@ == old(self).snaps@,
            final(self).itab == old(self).itab,
    {
        proof {
            reveal(MfsView::mark_itab);
        }
        if itab == 0 {
            return;
        }
        self.mfs_bmp_set(itab);
        let x: Vec<u8> = match self.load(itab, MFS_MAGIC_ITABX) {
            Some(x) => x,
            None => {
                return;
            },
        };
        let ghost start = self@;
        let mut k: usize = 0;
        while k < MFS_SLOTS
            invariant
                k <= MFS_SLOTS,
                self.inv(),
                x.len() == MFS_BLOCK,
                self@.mark_slots(x@, k as int) == start.mark_slots(x@, 0),
                self.snaps@ == old(self).snaps@,
                self.itab == old(self).itab,
            decreases MFS_SLOTS - k,
        {
            let t: u32 = bytes::read_u32(&x, 8 + 4 * k);
            if t != 0 {
                self.mfs_bmp_set(t);
            }
            k = k + 1;
        }
    }
}

} // verus!
