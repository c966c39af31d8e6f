//! MorionFS: collection of blocks that nothing reaches.
//!
//! What the current inode table or that of a snapshot reaches stays; the rest of the
//! bitmap is freed. Each root is expanded with its own inode table.
use vstd::prelude::*;

use crate::bytes;
use crate::mfs;
use crate::mfs::{
    Mfs, MfsView, MFS_BLOCK, MFS_INO_MAX, MFS_MAGIC_DIDX, MFS_MAGIC_DIR, MFS_MAGIC_FILE,
    MFS_MAGIC_IND, MFS_MAGIC_IND2, MFS_MAGIC_IND3, MFS_MAGIC_ITAB, MFS_MAGIC_ITABX,
    MFS_MAGIC_LINK, MFS_MAX_BLOCKS, MFS_ROOT_INO, MFS_SLOTS,
};
use crate::mfs_dir;

verus! {

/// Most blocks waiting to be expanded.
pub const MFS_GC_STACK_MAX: usize = 4096;

/// A collection starts when at most one block in this many is free.
pub const MFS_GC_LOW_WATER_DIV: u32 = 16;

/// Direct slots of a file node.
pub const MFS_FILE_DIRECT: usize = 1005;

/// The state of a collection: the blocks that are reached, those that the current root
/// has reached, and those still to be expanded.
#[verifier::ext_equal]
pub struct GcView {
    pub marks: Seq<bool>,
    pub seen: Seq<bool>,
    pub stack: Seq<u32>,
}

impl GcView {
    /// Block `b` reached.
    pub open spec fn mark(self, b: u32) -> GcView {
        if b >= self.marks.len() {
            self
        } else {
            GcView { marks: self.marks.update(b as int, true), ..self }
        }
    }

    /// Block `b` reached, and to be expanded unless the root has reached it before.
    pub open spec fn push(self, b: u32) -> (GcView, bool) {
        if b == 0 || b >= self.marks.len() || self.seen[b as int] {
            (self, true)
        } else if self.stack.len() >= MFS_GC_STACK_MAX {
            (self, false)
        } else {
            (
                GcView {
                    marks: self.marks.update(b as int, true),
                    seen: self.seen.update(b as int, true),
                    stack: self.stack.push(b),
                },
                true,
            )
        }
    }

    /// The blocks in the slots from `i` on pushed.
    pub open spec fn push_slots(self, b: Seq<u8>, i: int) -> (GcView, bool)
        decreases 1022 - i,
    {
        if i >= 1022 {
            (self, true)
        } else {
            let (g, ok) = self.push(mfs::slot(b, i));
            if ok {
                g.push_slots(b, i + 1)
            } else {
                (g, false)
            }
        }
    }

    /// The blocks in `n` numbers from `off` on marked, from the `i`th on.
    pub open spec fn mark_from(self, b: Seq<u8>, off: int, i: int, n: int) -> GcView
        decreases n - i,
    {
        if i >= n {
            self
        } else {
            let c = bytes::le32(b, off + 4 * i);
            if c != 0 {
                self.mark(c).mark_from(b, off, i + 1, n)
            } else {
                self.mark_from(b, off, i + 1, n)
            }
        }
    }

    /// The table blocks that an inode table index names marked, from slot `k` on.
    pub open spec fn mark_tables(self, x: Seq<u8>, k: int) -> (GcView, bool)
        decreases 1022 - k,
    {
        if k >= 1022 {
            (self, true)
        } else {
            let t = mfs::slot(x, k);
            if t == 0 {
                self.mark_tables(x, k + 1)
            } else if t >= self.marks.len() {
                (self, false)
            } else {
                self.mark(t).mark_tables(x, k + 1)
            }
        }
    }

    /// The blocks of a file node: its data blocks marked, its indirect blocks pushed.
    pub open spec fn push_file(self, b: Seq<u8>) -> (GcView, bool) {
        let g = self.mark_from(b, 24, 0, MFS_FILE_DIRECT as int);
        let (g1, ok1) = g.push(bytes::le32(b, 4044));
        if !ok1 {
            (g1, false)
        } else {
            let (g2, ok2) = g1.push(bytes::le32(b, 4048));
            if !ok2 {
                (g2, false)
            } else {
                g2.push(bytes::le32(b, 4052))
            }
        }
    }
}

impl MfsView {
    /// The block of object `ino` by the inode table index `x`.
    pub open spec fn gc_ino_block(self, x: Seq<u8>, ino: u32) -> Option<u32> {
        if ino == 0 || ino >= MFS_INO_MAX {
            None
        } else {
            let t = mfs::slot(x, ino as int / 1022);
            if t == 0 {
                Some(0)
            } else {
                match self.load(t, MFS_MAGIC_ITAB) {
                    None => None,
                    Some(tb) => Some(mfs::slot(tb, ino as int % 1022)),
                }
            }
        }
    }

    /// The objects that a directory block names pushed, from the entry at `off` on.
    pub open spec fn gc_dir(self, x: Seq<u8>, g: GcView, b: Seq<u8>, off: int) -> (GcView, bool)
        decreases 4096 - off,
    {
        if off + 8 > 4096 {
            (g, true)
        } else {
            let (g1, ok) = if mfs_dir::ent_nlen(b, off) != 0 {
                match self.gc_ino_block(x, mfs_dir::ent_ino(b, off)) {
                    None => (g, false),
                    Some(child) => g.push(child),
                }
            } else {
                (g, true)
            };
            if !ok || mfs_dir::ent_bad(b, off) {
                (g1, false)
            } else {
                self.gc_dir(x, g1, b, off + mfs_dir::ent_rec(b, off))
            }
        }
    }

    /// Block `blk` expanded: what it names is marked or pushed. Fails where it cannot be
    /// read or is of no kind that has a place in a tree.
    #[verifier::opaque]
    pub open spec fn gc_expand(self, x: Seq<u8>, g: GcView, blk: u32) -> (GcView, bool) {
        match self.rd(blk) {
            None => (g, false),
            Some(b) => if mfs::block_ok(b, MFS_MAGIC_DIR) {
                let (g1, ok) = self.gc_dir(x, g, b, 56);
                if ok {
                    g1.push(mfs_dir::dir_ext(b))
                } else {
                    (g1, false)
                }
            } else if mfs::block_ok(b, MFS_MAGIC_DIDX) {
                g.push_slots(b, 0)
            } else if mfs::block_ok(b, MFS_MAGIC_FILE) {
                g.push_file(b)
            } else if mfs::block_ok(b, MFS_MAGIC_IND) {
                (g.mark_from(b, 8, 0, 1022), true)
            } else if mfs::block_ok(b, MFS_MAGIC_IND2) {
                g.push_slots(b, 0)
            } else if mfs::block_ok(b, MFS_MAGIC_IND3) {
                g.push_slots(b, 0)
            } else {
                (g, mfs::block_ok(b, MFS_MAGIC_LINK))
            },
        }
    }

    /// Waiting blocks expanded, the last one first, until none is left; at most `fuel` of
    /// them.
    pub open spec fn gc_drain(self, x: Seq<u8>, g: GcView, fuel: nat) -> (GcView, bool)
        decreases fuel,
    {
        if g.stack.len() == 0 {
            (g, true)
        } else if fuel == 0 {
            (g, false)
        } else {
            let (g1, ok) = self.gc_expand(
                x,
                GcView { stack: g.stack.drop_last(), ..g },
                g.stack.last(),
            );
            if ok {
                self.gc_drain(x, g1, (fuel - 1) as nat)
            } else {
                (g1, false)
            }
        }
    }

    /// All that the inode table with index block `itab` reaches.
    #[verifier::opaque]
    pub open spec fn gc_root(self, g: GcView, itab: u32) -> (GcView, bool) {
        if itab == 0 || itab >= g.marks.len() {
            (g, false)
        } else {
            let g1 = g.mark(itab);
            match self.load(itab, MFS_MAGIC_ITABX) {
                None => (g1, false),
                Some(x) => {
                    let (g2, ok2) = g1.mark_tables(x, 0);
                    if !ok2 {
                        (g2, false)
                    } else {
                        let g3 = GcView { seen: Seq::new(g2.marks.len(), |i: int| false), ..g2 };
                        match self.gc_ino_block(x, MFS_ROOT_INO) {
                            None => (g3, false),
                            Some(rb) => if rb == 0 {
                                (g3, false)
                            } else {
                                let (g4, ok4) = g3.push(rb);
                                if ok4 {
                                    self.gc_drain(x, g4, (g4.stack.len() + g4.marks.len()) as nat)
                                } else {
                                    (g4, false)
                                }
                            },
                        }
                    }
                },
            }
        }
    }

    /// All that the snapshots from `i` on reach.
    pub open spec fn gc_snaps(self, g: GcView, i: int) -> (GcView, bool)
        decreases self.snaps.len() - i,
    {
        if i >= self.snaps.len() {
            (g, true)
        } else {
            let (g1, ok) = self.gc_root(g, self.snaps[i].itab);
            if ok {
                self.gc_snaps(g1, i + 1)
            } else {
                (g1, false)
            }
        }
    }

    /// All that is reached: the metadata area, the current root, the snapshots.
    #[verifier::opaque]
    pub open spec fn gc_mark(self) -> (GcView, bool) {
        let n = self.total as nat;
        let g = GcView {
            marks: Seq::new(n, |i: int| i < mfs::data_start(self.total)),
            seen: Seq::new(n, |i: int| false),
            stack: Seq::empty(),
        };
        let (g1, ok) = self.gc_root(g, self.itab);
        if ok {
            self.gc_snaps(g1, 0)
        } else {
            (g1, false)
        }
    }

    /// The bitmap set to the marks, from block `b` on.
    pub open spec fn apply_marks(self, marks: Seq<bool>, b: int) -> MfsView
        decreases marks.len() - b,
    {
        if b >= marks.len() {
            self
        } else if marks[b] {
            self.bmp_set(b as u32).apply_marks(marks, b + 1)
        } else {
            self.bmp_clear(b as u32).apply_marks(marks, b + 1)
        }
    }

    /// A collection: the number of blocks that became free. Where the tree cannot be walked
    /// or the result cannot be written the bitmap stays as it was.
    #[verifier::opaque]
    pub open spec fn gc(self) -> (MfsView, Option<u64>) {
        if self.total == 0 {
            (self, None)
        } else {
            let (g, ok) = self.gc_mark();
            if !ok {
                (self, None)
            } else {
                let free = mfs::count_free(g.marks, self.total as int) as u32;
                let t = MfsView {
                    free,
                    alloc_next: mfs::data_start(self.total) as u32,
                    ..self.apply_marks(g.marks, 0)
                };
                let (u, done) = t.flush();
                if done {
                    (
                        u,
                        Some(
                            if free >= self.free {
                                (free - self.free) as u64
                            } else {
                                0
                            },
                        ),
                    )
                } else {
                    (
                        MfsView {
                            bmp: self.bmp,
                            free: self.free,
                            alloc_next: self.alloc_next,
                            ..u
                        },
                        None,
                    )
                }
            }
        }
    }

    /// A collection where few blocks are free.
    #[verifier::opaque]
    pub open spec fn maybe_gc(self) -> MfsView {
        if self.total == 0 || self.free > self.total / MFS_GC_LOW_WATER_DIV {
            self
        } else {
            self.gc().0
        }
    }
}

/// The state of a collection.
pub struct Gc {
    pub marks: Vec<bool>,
    pub seen: Vec<bool>,
    pub stack: Vec<u32>,
}

impl Gc {
    pub open spec fn view(&self) -> GcView {
        GcView { marks: self.marks@, seen: self.seen@, stack: self.stack@ }
    }

    /// Both bitmaps describe the same blocks, and the stack is within its limit.
    pub open spec fn inv(&self) -> bool {
        &&& self.seen@.len() == self.marks@.len()
        &&& self.marks@.len() <= MFS_MAX_BLOCKS
        &&& self.stack@.len() <= MFS_GC_STACK_MAX
    }

    /// Marks block `b`.
    pub fn mfs_mark_set(&mut self, b: u32)
        requires
            old(self).inv(),
        ensures
            final(self).inv(),
            final(self)@ == old(self)@.mark(b),
            final(self).marks.len() == old(self).marks.len(),
    {
        if (b as usize) < self.marks.len() {
            self.marks.set(b as usize, true);
        }
    }

    /// Marks block `b`, to be expanded unless the root has reached it before.
    pub fn mfs_gc_push(&mut self, b: u32) -> (r: bool)
        requires
            old(self).inv(),
        ensures
            final(self).inv(),
            (final(self)@, r) == old(self)@.push(b),
            final(self).marks.len() == old(self).marks.len(),
    {
        if b == 0 || b as usize >= self.marks.len() || self.seen[b as usize] {
            return true;
        }
        if self.stack.len() >= MFS_GC_STACK_MAX {
            return false;
        }
        self.stack.push(b);
        self.seen.set(b as usize, true);
        self.marks.set(b as usize, true);
        true
    }

    /// Pushes the blocks in all slots.
    #[verifier::loop_isolation(false)]
    fn push_slots(&mut self, b: &Vec<u8>) -> (r: bool)
        requires
            old(self).inv(),
            b.len() == MFS_BLOCK,
        ensures
            final(self).inv(),
            (final(self)@, r) == old(self)@.push_slots(b@, 0),
            final(self).marks.len() == old(self).marks.len(),
    {
        let ghost goal = old(self)@.push_slots(b@, 0);
        let mut i: usize = 0;
        while i < MFS_SLOTS
            invariant
                i <= MFS_SLOTS,
                self.inv(),
                self.marks.len() == old(self).marks.len(),
                self@.push_slots(b@, i as int) == goal,
            decreases MFS_SLOTS - i,
        {
            let c: u32 = bytes::read_u32(b, 8 + 4 * i);
            if !self.mfs_gc_push(c) {
                return false;
            }
            i = i + 1;
        }
        true
    }

    /// Marks the blocks in `n` numbers from `off` on.
    #[verifier::loop_isolation(false)]
    fn mark_from(&mut self, b: &Vec<u8>, off: usize, n: usize)
        requires
            old(self).inv(),
            b.len() == MFS_BLOCK,
            off + 4 * n <= 4096,
        ensures
            final(self).inv(),
            final(self)@ == old(self)@.mark_from(b@, off as int, 0, n as int),
            final(self).marks.len() == old(self).marks.len(),
    {
        let ghost goal = old(self)@.mark_from(b@, off as int, 0, n as int);
        let mut i: usize = 0;
        while i < n
            invariant
                i <= n,
                self.inv(),
                self.marks.len() == old(self).marks.len(),
                self@.mark_from(b@, off as int, i as int, n as int) == goal,
            decreases n - i,
        {
            let c: u32 = bytes::read_u32(b, off + 4 * i);
            if c != 0 {
                self.mfs_mark_set(c);
            }
            i = i + 1;
        }
    }

    /// Marks the table blocks that an inode table index names.
    #[verifier::loop_isolation(false)]
    fn mark_tables(&mut self, x: &Vec<u8>) -> (r: bool)
        requires
            old(self).inv(),
            x.len() == MFS_BLOCK,
        ensures
            final(self).inv(),
            (final(self)@, r) == old(self)@.mark_tables(x@, 0),
            final(self).marks.len() == old(self).marks.len(),
    {
        let ghost goal = old(self)@.mark_tables(x@, 0);
        let mut k: usize = 0;
        while k < MFS_SLOTS
            invariant
                k <= MFS_SLOTS,
                self.inv(),
                self.marks.len() == old(self).marks.len(),
                self@.mark_tables(x@, k as int) == goal,
            decreases MFS_SLOTS - k,
        {
            let t: u32 = bytes::read_u32(x, 8 + 4 * k);
            if t != 0 {
                if t as usize >= self.marks.len() {
                    return false;
                }
                self.mfs_mark_set(t);
            }
            k = k + 1;
        }
        true
    }

    /// Marks and pushes the blocks of a file node.
    fn push_file(&mut self, b: &Vec<u8>) -> (r: bool)
        requires
            old(self).inv(),
            b.len() == MFS_BLOCK,
        ensures
            final(self).inv(),
            (final(self)@, r) == old(self)@.push_file(b@),
            final(self).marks.len() == old(self).marks.len(),
    {
        self.mark_from(b, 24, MFS_FILE_DIRECT);
        let i1: u32 = bytes::read_u32(b, 4044);
        if !self.mfs_gc_push(i1) {
            return false;
        }
        let i2: u32 = bytes::read_u32(b, 4048);
        if !self.mfs_gc_push(i2) {
            return false;
        }
        let i3: u32 = bytes::read_u32(b, 4052);
        self.mfs_gc_push(i3)
    }
}

impl Mfs {
    /// The block of object `ino` by the inode table index `x`.
    pub fn mfs_gc_ino_block(&self, x: &Vec<u8>, ino: u32) -> (r: Option<u32>)
        requires
            self.inv(),
            x.len() == MFS_BLOCK,
        ensures
            r == self@.gc_ino_block(x@, ino),
    {
        if ino == 0 || ino >= MFS_INO_MAX {
            return None;
        }
        let k: usize = (ino / 1022) as usize;
        let j: usize = (ino % 1022) as usize;
        let t: u32 = bytes::read_u32(x, 8 + 4 * k);
        if t == 0 {
            return Some(0);
        }
        match self.load(t, MFS_MAGIC_ITAB) {
            None => None,
            Some(tb) => Some(bytes::read_u32(&tb, 8 + 4 * j)),
        }
    }

    /// Pushes the objects that a directory block names.
    #[verifier::loop_isolation(false)]
    fn gc_dir(&self, x: &Vec<u8>, g: &mut Gc, b: &Vec<u8>) -> (r: bool)
        requires
            self.inv(),
            old(g).inv(),
            x.len() == MFS_BLOCK,
            b.len() == MFS_BLOCK,
        ensures
            final(g).inv(),
            (final(g)@, r) == self@.gc_dir(x@, old(g)@, b@, 56),
            final(g).marks.len() == old(g).marks.len(),
    {
        let ghost goal = self@.gc_dir(x@, old(g)@, b@, 56);
        let mut off: usize = 56;
        while off + 8 <= 4096
            invariant
                off <= 4096,
                g.inv(),
                g.marks.len() == old(g).marks.len(),
                self@.gc_dir(x@, g@, b@, off as int) == goal,
            decreases 4096 - off,
        {
            if b[off + 5] != 0 {
                let ino: u32 = bytes::read_u32(b, off);
                match self.mfs_gc_ino_block(x, ino) {
                    Some(child) => {
                        if !g.mfs_gc_push(child) {
                            return false;
                        }
                    },
                    None => {
                        return false;
                    },
                }
            }
            match mfs_dir::mfs_ent_step(b, off) {
                Some(n) => {
                    off = n;
                },
                None => {
                    return false;
                },
            }
        }
        true
    }

    /// Expands block `blk`.
    fn gc_expand(&self, x: &Vec<u8>, g: &mut Gc, blk: u32) -> (r: bool)
        requires
            self.inv(),
            old(g).inv(),
            x.len() == MFS_BLOCK,
        ensures
            final(g).inv(),
            (final(g)@, r) == self@.gc_expand(x@, old(g)@, blk),
            final(g).marks.len() == old(g).marks.len(),
    {
        proof {
            reveal(MfsView::gc_expand);
        }
        let b: Vec<u8> = match self.mfs_read_blk(blk) {
            Some(b) => b,
            None => {
                return false;
            },
        };
        if mfs::mfs_ok(&b, MFS_MAGIC_DIR) {
            if !self.gc_dir(x, g, &b) {
                return false;
            }
            let ext: u32 = bytes::read_u32(&b, 8);
            g.mfs_gc_push(ext)
        } else if mfs::mfs_ok(&b, MFS_MAGIC_DIDX) {
            g.push_slots(&b)
        } else if mfs::mfs_ok(&b, MFS_MAGIC_FILE) {
            g.push_file(&b)
        } else if mfs::mfs_ok(&b, MFS_MAGIC_IND) {
            g.mark_from(&b, 8, MFS_SLOTS);
            true
        } else if mfs::mfs_ok(&b, MFS_MAGIC_IND2) {
            g.push_slots(&b)
        } else if mfs::mfs_ok(&b, MFS_MAGIC_IND3) {
            g.push_slots(&b)
        } else {
            mfs::mfs_ok(&b, MFS_MAGIC_LINK)
        }
    }

    /// Expands the waiting blocks.
    #[verifier::loop_isolation(false)]
    pub fn mfs_gc_drain(&self, x: &Vec<u8>, g: &mut Gc) -> (r: bool)
        requires
            self.inv(),
            old(g).inv(),
            x.len() == MFS_BLOCK,
        ensures
            final(g).inv(),
            (final(g)@, r) == self@.gc_drain(
                x@,
                old(g)@,
                (old(g)@.stack.len() + old(g)@.marks.len()) as nat,
            ),
            final(g).marks.len() == old(g).marks.len(),
    {
        let mut fuel: u64 = g.stack.len() as u64 + g.marks.len() as u64;
        let ghost goal = self@.gc_drain(x@, old(g)@, fuel as nat);
        loop
            invariant
                g.inv(),
                g.marks.len() == old(g).marks.len(),
                self@.gc_drain(x@, g@, fuel as nat) == goal,
            decreases fuel,
        {
            match g.stack.pop() {
                None => {
                    return true;
                },
                Some(b) => {
                    if fuel == 0 {
                        g.stack.push(b);
                        assert(g@.stack =~= g@.stack.drop_last().push(g@.stack.last()));
                        return false;
                    }
                    if !self.gc_expand(x, g, b) {
                        return false;
                    }
                    fuel = fuel - 1;
                },
            }
        }
    }

    /// Marks all that the inode table with index block `itab` reaches.
    fn gc_root(&self, g: &mut Gc, itab: u32) -> (r: bool)
        requires
            self.inv(),
            old(g).inv(),
        ensures
            final(g).inv(),
            (final(g)@, r) == self@.gc_root(old(g)@, itab),
            final(g).marks.len() == old(g).marks.len(),
    {
        proof {
            reveal(MfsView::gc_root);
        }
        if itab == 0 || itab as usize >= g.marks.len() {
            return false;
        }
        g.mfs_mark_set(itab);
        let x: Vec<u8> = match self.load(itab, MFS_MAGIC_ITABX) {
            Some(x) => x,
            None => {
                return false;
            },
        };
        if !g.mark_tables(&x) {
            return false;
        }
        let n: usize = g.marks.len();
        let clear: Vec<bool> = vec![false; n];
        assert(clear@ =~= Seq::new(n as nat, |i: int| false));
        g.seen = clear;
        match self.mfs_gc_ino_block(&x, MFS_ROOT_INO) {
            None => {
                return false;
            },
            Some(rb) => {
                if rb == 0 {
                    return false;
                }
                if !g.mfs_gc_push(rb) {
                    return false;
                }
                self.mfs_gc_drain(&x, g)
            },
        }
    }

    /// Marks all that is reached.
    #[verifier::loop_isolation(false)]
    fn gc_mark(&self) -> (r: (Gc, bool))
        requires
            self.inv(),
        ensures
            r.0.inv(),
            (r.0@, r.1) == self@.gc_mark(),
            r.0.marks.len() == self.total,
    {
        proof {
            reveal(MfsView::gc_mark);
        }
        let n: usize = self.total as usize;
        let meta: u32 = self.mfs_data_start();
        let mut marks: Vec<bool> = Vec::new();
        let mut i: usize = 0;
        while i < n
            invariant
                i <= n,
                marks@ =~= Seq::new(i as nat, |j: int| j < mfs::data_start(self.total)),
            decreases n - i,
        {
            marks.push(i < meta as usize);
            i = i + 1;
        }
        let seen: Vec<bool> = vec![false; n];
        assert(seen@ =~= Seq::new(n as nat, |i: int| false));
        let mut g = Gc { marks, seen, stack: Vec::new() };
        assert(g@.stack =~= Seq::empty());
        if !self.gc_root(&mut g, self.itab) {
            return (g, false);
        }
        let ghost goal = self@.gc_snaps(g@, 0);
        let mut k: usize = 0;
        while k < self.snaps.len()
            invariant
                k <= self.snaps.len(),
                g.inv(),
                g.marks.len() == self.total,
                self@.gc_snaps(g@, k as int) == goal,
            decreases self.snaps.len() - k,
        {
            if !self.gc_root(&mut g, self.snaps[k].itab) {
                return (g, false);
            }
            k = k + 1;
        }
        (g, true)
    }

    /// Sets the bitmap to the marks, and counts the free blocks.
    #[verifier::loop_isolation(false)]
    fn apply_marks(&mut self, marks: &Vec<bool>) -> (r: u32)
        requires
            old(self).inv(),
            marks.len() == old(self).total,
        ensures
            final(self).inv(),
            final(self)@ == old(self)@.apply_marks(marks@, 0),
            final(self).total == old(self).total,
            r == mfs::count_free(marks@, marks@.len() as int),
    {
        let ghost goal = old(self)@.apply_marks(marks@, 0);
        let mut free: u32 = 0;
        let mut b: usize = 0;
        while b < marks.len()
            invariant
                b <= marks.len(),
                self.inv(),
                self.total == old(self).total,
                self@.apply_marks(marks@, b as int) == goal,
                free == mfs::count_free(marks@, b as int),
                free <= b,
            decreases marks.len() - b,
        {
            if marks[b] {
                self.mfs_bmp_set(b as u32);
            } else {
                self.mfs_bmp_clear(b as u32);
                free = free + 1;
            }
            b = b + 1;
        }
        free
    }

    /// Collects the blocks that nothing reaches.
    pub fn mfs_gc(&mut self) -> (r: Option<u64>)
        requires
            old(self).inv(),
        ensures
            final(self).inv(),
            (final(self)@, r) == old(self)@.gc(),
    {
        proof {
            reveal(MfsView::gc);
        }
        if self.total == 0 {
            return None;
        }
        let (g, ok) = self.gc_mark();
        if !ok {
            return None;
        }
        let before: u32 = self.free;
        let before_next: u32 = self.alloc_next;
        let before_bmp: Vec<bool> = vstd::slice::slice_to_vec(self.bmp.as_slice());
        let free: u32 = self.apply_marks(&g.marks);
        self.free = free;
        self.alloc_next = self.mfs_data_start();
        if !self.mfs_bmp_flush() {
            self.bmp = before_bmp;
            self.free = before;
            self.alloc_next = before_next;
            return None;
        }
        if free >= before {
            Some((free - before) as u64)
        } else {
            Some(0)
        }
    }

    /// Collects where few blocks are free.
    pub fn mfs_maybe_gc(&mut self)
        requires
            old(self).inv(),
        ensures
            final(self).inv(),
            final(self)@ == old(self)@.maybe_gc(),
    {
        proof {
            reveal(MfsView::maybe_gc);
        }
        if self.total == 0 || self.free > self.total / MFS_GC_LOW_WATER_DIV {
            return;
        }
        let _freed: Option<u64> = self.mfs_gc();
    }
}

} // verus!
