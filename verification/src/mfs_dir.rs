//! MorionFS: node metadata and directories.
//!
//! A directory block holds entries of varying length, each with the length up to the
//! next one. What a node block cannot hold goes to further directory blocks, which an
//! index block lists.
use vstd::prelude::*;

use crate::bytes;
use crate::mfs;
use crate::mfs::{Mfs, MfsView, MFS_BLOCK, MFS_MAGIC_DIDX, MFS_MAGIC_DIR, MFS_SLOTS};

verus! {

/// Permissions of a new directory.
pub const MFS_MODE_DIR: u16 = 0o755;

/// Permissions of a new file.
pub const MFS_MODE_FILE: u16 = 0o644;

/// Permissions of a symbolic link.
pub const MFS_MODE_LINK: u16 = 0o777;

/// Longest name.
pub const MFS_NAME_MAX: usize = 255;

/// Entry type of a file.
pub const MFS_TYPE_FILE: u32 = 1;

/// Entry type of a directory.
pub const MFS_TYPE_DIR: u32 = 2;

/// Entry type of a symbolic link.
pub const MFS_TYPE_LINK: u32 = 3;

/// First entry of a directory block.
pub const MFS_DIR_FIRST: usize = 56;

/// Where an entry is: the directory, the block and the offset in it.
#[derive(Clone, Copy)]
pub struct MfsLoc {
    pub dir_ino: u32,
    pub blk: u32,
    pub off: usize,
}

/// No place: that of the root directory, which no entry names.
pub open spec fn no_loc() -> MfsLoc {
    MfsLoc { dir_ino: 0, blk: 0, off: 0 }
}

/// Offset of a node's metadata.
pub open spec fn meta_off(is_dir: bool) -> int {
    if is_dir {
        16
    } else {
        4056
    }
}

/// Mode of a node.
pub open spec fn mode_of(b: Seq<u8>, is_dir: bool) -> u16 {
    bytes::le16(b, meta_off(is_dir))
}

/// Owner of a node.
pub open spec fn owner_of(b: Seq<u8>, is_dir: bool) -> u16 {
    bytes::le16(b, meta_off(is_dir) + 2)
}

/// Number of names of a node.
pub open spec fn nlink_of(b: Seq<u8>, is_dir: bool) -> u32 {
    bytes::le32(b, meta_off(is_dir) + 4)
}

/// Time of the last change of content.
pub open spec fn mtime_of(b: Seq<u8>, is_dir: bool) -> u64 {
    bytes::le64(b, meta_off(is_dir) + 8)
}

/// Time of the last change of content or metadata.
pub open spec fn ctime_of(b: Seq<u8>, is_dir: bool) -> u64 {
    bytes::le64(b, meta_off(is_dir) + 16)
}

/// Time of the last access.
pub open spec fn atime_of(b: Seq<u8>, is_dir: bool) -> u64 {
    bytes::le64(b, meta_off(is_dir) + 24)
}

/// Type bits of `t`, permission bits of `p`.
pub open spec fn joined_mode(t: u16, p: u16) -> u16 {
    (t / 4096 * 4096 + p % 4096) as u16
}

/// A node with its permissions set; its type stays.
pub open spec fn with_mode(b: Seq<u8>, is_dir: bool, p: u16) -> Seq<u8> {
    bytes::put16(b, meta_off(is_dir), joined_mode(mode_of(b, is_dir), p))
}

/// A node with its number of names set.
pub open spec fn with_nlink(b: Seq<u8>, is_dir: bool, n: u32) -> Seq<u8> {
    bytes::put32(b, meta_off(is_dir) + 4, n)
}

/// A node with its time of change of metadata set.
pub open spec fn with_ctime(b: Seq<u8>, is_dir: bool, now: u64) -> Seq<u8> {
    bytes::put64(b, meta_off(is_dir) + 16, now)
}

/// A node whose content changes at `now`.
pub open spec fn touched(b: Seq<u8>, is_dir: bool, now: u64) -> Seq<u8> {
    with_ctime(bytes::put64(b, meta_off(is_dir) + 8, now), is_dir, now)
}

/// The metadata of a new node.
pub open spec fn with_meta(
    b: Seq<u8>,
    is_dir: bool,
    ftype: u16,
    owner: u16,
    mode: u16,
    now: u64,
) -> Seq<u8> {
    bytes::put64(
        touched(
            with_nlink(
                bytes::put16(
                    bytes::put16(b, meta_off(is_dir), joined_mode(ftype, mode)),
                    meta_off(is_dir) + 2,
                    owner,
                ),
                is_dir,
                1,
            ),
            is_dir,
            now,
        ),
        meta_off(is_dir) + 24,
        now,
    )
}

/// Law: a change of permissions keeps the node's type and takes the low twelve bits.
pub proof fn law_chmod_keeps_type(b: Seq<u8>, is_dir: bool, p: u16)
    requires
        b.len() == 4096,
    ensures
        mode_of(with_mode(b, is_dir, p), is_dir) / 4096 == mode_of(b, is_dir) / 4096,
        mode_of(with_mode(b, is_dir, p), is_dir) % 4096 == p % 4096,
{
    bytes::law_put16_reads_back(b, meta_off(is_dir), joined_mode(mode_of(b, is_dir), p));
}

/// Block of the extension index of a directory, 0 for none.
pub open spec fn dir_ext(b: Seq<u8>) -> u32 {
    bytes::le32(b, 8)
}

/// Length of the entry at `off` up to the next one.
pub open spec fn ent_rec(b: Seq<u8>, off: int) -> int {
    bytes::le16(b, off + 6) as int
}

/// Length of the name of the entry at `off`, 0 for a gap.
pub open spec fn ent_nlen(b: Seq<u8>, off: int) -> int {
    b[off + 5] as int
}

/// Inode number of the entry at `off`.
pub open spec fn ent_ino(b: Seq<u8>, off: int) -> u32 {
    bytes::le32(b, off)
}

/// Type of the entry at `off`.
pub open spec fn ent_type(b: Seq<u8>, off: int) -> u32 {
    b[off + 4] as u32
}

/// Name of the entry at `off`, as far as it lies in the block.
pub open spec fn ent_name(b: Seq<u8>, off: int) -> Seq<u8> {
    b.subrange(
        off + 8,
        if off + 8 + ent_nlen(b, off) <= 4096 {
            off + 8 + ent_nlen(b, off)
        } else {
            4096
        },
    )
}

/// Whether the entry at `off` has the name `comp`.
pub open spec fn ent_is(b: Seq<u8>, off: int, comp: Seq<u8>) -> bool {
    ent_nlen(b, off) != 0 && ent_nlen(b, off) == comp.len() && ent_name(b, off) == comp
}

/// Whether the length of the entry at `off` cannot be right.
pub open spec fn ent_bad(b: Seq<u8>, off: int) -> bool {
    ent_rec(b, off) < 12 || off + ent_rec(b, off) > 4096
}

/// Bytes that an entry with a name of `n` bytes takes.
pub open spec fn ent_need(n: int) -> int {
    (n + 11) / 4 * 4
}

/// The header of an entry written.
pub open spec fn ent_head(b: Seq<u8>, off: int, ino: u32, typ: u8, nlen: u8, rec: int) -> Seq<u8> {
    bytes::put16(
        bytes::put32(b, off, ino).update(off + 4, typ).update(off + 5, nlen),
        off + 6,
        rec as u16,
    )
}

/// An entry written.
pub open spec fn ent_filled(
    b: Seq<u8>,
    off: int,
    comp: Seq<u8>,
    ino: u32,
    typ: u32,
    rec: int,
) -> Seq<u8> {
    bytes::splice(ent_head(b, off, ino, typ as u8, comp.len() as u8, rec), off + 8, comp)
}

/// A gap written.
pub open spec fn ent_cleared(b: Seq<u8>, off: int, rec: int) -> Seq<u8> {
    ent_head(b, off, 0, 0, 0, rec)
}

/// Offset of the entry with name `comp`, from `off` on.
pub open spec fn scan(b: Seq<u8>, off: int, comp: Seq<u8>) -> Option<int>
    decreases 4096 - off,
{
    if off + 8 > 4096 {
        None
    } else if ent_is(b, off, comp) {
        Some(off)
    } else if ent_bad(b, off) {
        None
    } else {
        scan(b, off + ent_rec(b, off), comp)
    }
}

/// Bytes that the entry at `off` really takes.
pub open spec fn ent_used(b: Seq<u8>, off: int) -> int {
    if ent_nlen(b, off) == 0 {
        0
    } else {
        ent_need(ent_nlen(b, off))
    }
}

/// The first entry from `off` on with room for `need` bytes behind what it takes.
pub open spec fn slot_for(b: Seq<u8>, off: int, need: int) -> Option<int>
    decreases 4096 - off,
{
    if off + 8 > 4096 || ent_bad(b, off) {
        None
    } else if ent_rec(b, off) >= ent_used(b, off) + need {
        Some(off)
    } else {
        slot_for(b, off + ent_rec(b, off), need)
    }
}

/// Length that a new entry gets out of `avail` bytes.
pub open spec fn ent_take(avail: int, need: int) -> int {
    if avail - need >= 12 {
        need
    } else {
        avail
    }
}

/// A new entry put behind what the entry at `off` takes.
pub open spec fn placed(b: Seq<u8>, off: int, comp: Seq<u8>, child: u32, typ: u32) -> Seq<u8> {
    let used = ent_used(b, off);
    let avail = ent_rec(b, off) - used;
    let take = ent_take(avail, ent_need(comp.len() as int));
    let b1 = if used > 0 {
        bytes::put16(b, off + 6, used as u16)
    } else {
        b
    };
    let b2 = ent_filled(b1, off + used, comp, child, typ, take);
    if take < avail {
        ent_cleared(b2, off + used + take, avail - take)
    } else {
        b2
    }
}

/// Whether a directory block holds an entry, from `off` on.
pub open spec fn has_entry(b: Seq<u8>, off: int) -> bool
    decreases 4096 - off,
{
    if off + 8 > 4096 {
        false
    } else if ent_nlen(b, off) != 0 {
        true
    } else if ent_bad(b, off) {
        false
    } else {
        has_entry(b, off + ent_rec(b, off))
    }
}

/// A directory block without entries.
pub open spec fn empty_dir(b: Seq<u8>) -> Seq<u8> {
    ent_cleared(bytes::put32(bytes::put32(b, 8, 0), 12, 0), 56, 4040)
}

/// The entry before the one at `at`, walking from `off`; outer `None` where the
/// lengths cannot be right.
pub open spec fn prev_entry(b: Seq<u8>, off: int, prev: Option<int>, at: int) -> Option<Option<int>>
    decreases 4096 - off,
{
    if off + 8 > 4096 || off >= at {
        Some(prev)
    } else if ent_bad(b, off) {
        None
    } else {
        prev_entry(b, off + ent_rec(b, off), Some(off), at)
    }
}

/// A directory block without the entry at `at`: its length goes to the entry before it.
pub open spec fn without(b: Seq<u8>, at: int) -> Option<Seq<u8>> {
    match prev_entry(b, 56, None, at) {
        None => None,
        Some(None) => Some(ent_cleared(b, at, ent_rec(b, at))),
        Some(Some(p)) => Some(
            bytes::put16(b, p + 6, ((ent_rec(b, p) + ent_rec(b, at)) % 0x1_0000) as u16),
        ),
    }
}

/// The first slot from `i` on that holds `v`.
pub open spec fn slot_with(b: Seq<u8>, i: int, v: u32) -> Option<int>
    decreases 1022 - i,
{
    if i >= 1022 {
        None
    } else if mfs::slot(b, i) == v {
        Some(i)
    } else {
        slot_with(b, i + 1, v)
    }
}

impl MfsView {
    /// An entry searched for in the further blocks of a directory, from slot `i` on.
    pub open spec fn lookup_ext(self, dir_ino: u32, b: Seq<u8>, i: int, comp: Seq<u8>) -> Option<
        MfsLoc,
    >
        decreases 1022 - i,
    {
        if i >= 1022 {
            None
        } else {
            let blk = mfs::slot(b, i);
            if blk == 0 {
                self.lookup_ext(dir_ino, b, i + 1, comp)
            } else {
                match self.load(blk, MFS_MAGIC_DIR) {
                    None => self.lookup_ext(dir_ino, b, i + 1, comp),
                    Some(c) => match scan(c, 56, comp) {
                        Some(off) => Some(MfsLoc { dir_ino, blk, off: off as usize }),
                        None => self.lookup_ext(dir_ino, b, i + 1, comp),
                    },
                }
            }
        }
    }

    /// Where directory `dir_ino` has the entry `comp`.
    #[verifier::opaque]
    pub open spec fn dir_lookup(self, dir_ino: u32, comp: Seq<u8>) -> (MfsView, Option<MfsLoc>) {
        let (s, r) = self.object_block(dir_ino);
        match r {
            None => (s, None),
            Some(base) => match s.load(base, MFS_MAGIC_DIR) {
                None => (s, None),
                Some(a) => match scan(a, 56, comp) {
                    Some(off) => (s, Some(MfsLoc { dir_ino, blk: base, off: off as usize })),
                    None => if dir_ext(a) == 0 {
                        (s, None)
                    } else {
                        match s.load(dir_ext(a), MFS_MAGIC_DIDX) {
                            None => (s, None),
                            Some(b) => (s, s.lookup_ext(dir_ino, b, 0, comp)),
                        }
                    },
                },
            },
        }
    }

    /// The index block `b` and the node block `a` of a directory committed.
    #[verifier::opaque]
    pub open spec fn commit_index(self, dir_ino: u32, a: Seq<u8>, b: Seq<u8>) -> (MfsView, bool) {
        let (s, r) = self.commit(b, MFS_MAGIC_DIDX);
        match r {
            None => (s, false),
            Some(x) => s.commit_object(dir_ino, bytes::put32(a, 8, x), MFS_MAGIC_DIR),
        }
    }

    /// The changed block `c` of a directory, which was block `loc.blk`, committed.
    #[verifier::opaque]
    pub open spec fn store_loc(self, loc: MfsLoc, c: Seq<u8>) -> (MfsView, bool) {
        let (s1, r1) = self.ino_block(loc.dir_ino);
        if r1 == Some(loc.blk) {
            s1.commit_object(loc.dir_ino, touched(c, true, s1.now), MFS_MAGIC_DIR)
        } else {
            let (s2, r2) = s1.commit(c, MFS_MAGIC_DIR);
            match r2 {
                None => (s2, false),
                Some(nb) => {
                    let (s3, r3) = s2.object_block(loc.dir_ino);
                    match r3 {
                        None => (s3, false),
                        Some(base) => match s3.load(base, MFS_MAGIC_DIR) {
                            None => (s3, false),
                            Some(a) => if dir_ext(a) == 0 {
                                (s3, false)
                            } else {
                                match s3.load(dir_ext(a), MFS_MAGIC_DIDX) {
                                    None => (s3, false),
                                    Some(b) => match slot_with(b, 0, loc.blk) {
                                        None => (s3, false),
                                        Some(i) => s3.commit_index(
                                            loc.dir_ino,
                                            touched(a, true, s3.now),
                                            mfs::with_slot(b, i, nb),
                                        ),
                                    },
                                }
                            },
                        },
                    }
                },
            }
        }
    }

    /// Whether the further blocks of a directory hold an entry, from slot `i` on.
    pub open spec fn ext_has_entry(self, b: Seq<u8>, i: int) -> bool
        decreases 1022 - i,
    {
        if i >= 1022 {
            false
        } else {
            let blk = mfs::slot(b, i);
            let here = if blk == 0 {
                false
            } else {
                match self.load(blk, MFS_MAGIC_DIR) {
                    None => false,
                    Some(c) => has_entry(c, 56),
                }
            };
            here || self.ext_has_entry(b, i + 1)
        }
    }

    /// Whether a directory has no entry; `None` where it cannot be read.
    #[verifier::opaque]
    pub open spec fn dir_is_empty(self, dir_ino: u32) -> (MfsView, Option<bool>) {
        let (s, r) = self.object_block(dir_ino);
        match r {
            None => (s, None),
            Some(base) => match s.load(base, MFS_MAGIC_DIR) {
                None => (s, None),
                Some(a) => if has_entry(a, 56) {
                    (s, Some(false))
                } else if dir_ext(a) == 0 {
                    (s, Some(true))
                } else {
                    match s.load(dir_ext(a), MFS_MAGIC_DIDX) {
                        None => (s, None),
                        Some(b) => (s, Some(!s.ext_has_entry(b, 0))),
                    }
                },
            },
        }
    }

    /// The first further block from slot `i` on with room for `need` bytes: its slot,
    /// its content and the entry behind which there is room.
    pub open spec fn ext_room(self, b: Seq<u8>, i: int, need: int) -> Option<(int, Seq<u8>, int)>
        decreases 1022 - i,
    {
        if i >= 1022 {
            None
        } else {
            let blk = mfs::slot(b, i);
            if blk == 0 {
                self.ext_room(b, i + 1, need)
            } else {
                match self.load(blk, MFS_MAGIC_DIR) {
                    None => self.ext_room(b, i + 1, need),
                    Some(c) => match slot_for(c, 56, need) {
                        Some(off) => Some((i, c, off)),
                        None => self.ext_room(b, i + 1, need),
                    },
                }
            }
        }
    }

    /// An entry put into a further block of a directory with node block `a` and index
    /// block `b`.
    #[verifier::opaque]
    pub open spec fn insert_ext(
        self,
        dir_ino: u32,
        a: Seq<u8>,
        b: Seq<u8>,
        comp: Seq<u8>,
        child: u32,
        typ: u32,
    ) -> (MfsView, bool) {
        let need = ent_need(comp.len() as int);
        match self.ext_room(b, 0, need) {
            Some((i, c, off)) => {
                let (s, r) = self.commit(placed(c, off, comp, child, typ), MFS_MAGIC_DIR);
                match r {
                    None => (s, false),
                    Some(x) => s.commit_index(dir_ino, a, mfs::with_slot(b, i, x)),
                }
            },
            None => {
                let c = empty_dir(bytes::zeros(4096));
                match slot_for(c, 56, need) {
                    None => (self, false),
                    Some(off) => {
                        let (s, r) = self.commit(placed(c, off, comp, child, typ), MFS_MAGIC_DIR);
                        match r {
                            None => (s, false),
                            Some(x) => match slot_with(b, 0, 0) {
                                None => (s, false),
                                Some(i) => s.commit_index(dir_ino, a, mfs::with_slot(b, i, x)),
                            },
                        }
                    },
                }
            },
        }
    }

    /// The entry `comp` for object `child` put into directory `dir_ino`.
    #[verifier::opaque]
    pub open spec fn dir_insert(self, dir_ino: u32, comp: Seq<u8>, child: u32, typ: u32) -> (
        MfsView,
        bool,
    ) {
        if comp.len() == 0 || comp.len() > MFS_NAME_MAX {
            (self, false)
        } else {
            let (s, r) = self.object_block(dir_ino);
            match r {
                None => (s, false),
                Some(base) => match s.load(base, MFS_MAGIC_DIR) {
                    None => (s, false),
                    Some(a0) => {
                        let a = touched(a0, true, s.now);
                        match slot_for(a, 56, ent_need(comp.len() as int)) {
                            Some(off) => s.commit_object(
                                dir_ino,
                                placed(a, off, comp, child, typ),
                                MFS_MAGIC_DIR,
                            ),
                            None => if dir_ext(a) == 0 {
                                let (s1, r1) = s.commit(bytes::zeros(4096), MFS_MAGIC_DIDX);
                                match r1 {
                                    None => (s1, false),
                                    Some(x) => s1.insert_ext(
                                        dir_ino,
                                        bytes::put32(a, 8, x),
                                        mfs::sealed(bytes::zeros(4096), MFS_MAGIC_DIDX),
                                        comp,
                                        child,
                                        typ,
                                    ),
                                }
                            } else {
                                match s.load(dir_ext(a), MFS_MAGIC_DIDX) {
                                    None => (s, false),
                                    Some(b) => s.insert_ext(dir_ino, a, b, comp, child, typ),
                                }
                            },
                        }
                    },
                },
            }
        }
    }

    /// The entry at `loc` removed.
    #[verifier::opaque]
    pub open spec fn dir_delete(self, loc: MfsLoc) -> (MfsView, bool) {
        match self.load(loc.blk, MFS_MAGIC_DIR) {
            None => (self, false),
            Some(c) => match without(c, loc.off as int) {
                None => (self, false),
                Some(d) => self.store_loc(loc, d),
            },
        }
    }
}

/// Offset of a node's metadata.
pub fn mfs_meta_off(is_dir: bool) -> (r: usize)
    ensures
        r == meta_off(is_dir),
{
    if is_dir {
        16
    } else {
        4056
    }
}

/// Type bits of `t`, permission bits of `p`.
fn join_mode(t: u16, p: u16) -> (r: u16)
    ensures
        r == joined_mode(t, p),
{
    t / 4096 * 4096 + p % 4096
}

/// Sets the permissions of a node.
pub fn mfs_set_mode(b: &mut Vec<u8>, is_dir: bool, p: u16)
    requires
        old(b).len() == MFS_BLOCK,
    ensures
        final(b)@ == with_mode(old(b)@, is_dir, p),
        final(b).len() == MFS_BLOCK,
{
    let o: usize = mfs_meta_off(is_dir);
    let m: u16 = join_mode(bytes::read_u16(b, o), p);
    bytes::write_u16(b, o, m);
}

/// Sets the number of names of a node.
pub fn mfs_set_nlink(b: &mut Vec<u8>, is_dir: bool, n: u32)
    requires
        old(b).len() == MFS_BLOCK,
    ensures
        final(b)@ == with_nlink(old(b)@, is_dir, n),
        final(b).len() == MFS_BLOCK,
{
    bytes::write_u32(b, mfs_meta_off(is_dir) + 4, n);
}

/// Notes a change of a node's metadata.
pub fn mfs_touch_ctime(b: &mut Vec<u8>, is_dir: bool, now: u64)
    requires
        old(b).len() == MFS_BLOCK,
    ensures
        final(b)@ == with_ctime(old(b)@, is_dir, now),
        final(b).len() == MFS_BLOCK,
{
    bytes::write_u64(b, mfs_meta_off(is_dir) + 16, now);
}

/// Notes a change of a node's content.
pub fn mfs_touch(b: &mut Vec<u8>, is_dir: bool, now: u64)
    requires
        old(b).len() == MFS_BLOCK,
    ensures
        final(b)@ == touched(old(b)@, is_dir, now),
        final(b).len() == MFS_BLOCK,
{
    bytes::write_u64(b, mfs_meta_off(is_dir) + 8, now);
    bytes::write_u64(b, mfs_meta_off(is_dir) + 16, now);
}

/// Writes the metadata of a new node.
pub fn mfs_init_meta(b: &mut Vec<u8>, is_dir: bool, ftype: u16, owner: u16, mode: u16, now: u64)
    requires
        old(b).len() == MFS_BLOCK,
    ensures
        final(b)@ == with_meta(old(b)@, is_dir, ftype, owner, mode, now),
        final(b).len() == MFS_BLOCK,
{
    let o: usize = mfs_meta_off(is_dir);
    bytes::write_u16(b, o, join_mode(ftype, mode));
    bytes::write_u16(b, o + 2, owner);
    mfs_set_nlink(b, is_dir, 1);
    mfs_touch(b, is_dir, now);
    bytes::write_u64(b, o + 24, now);
}

/// Length of an entry.
pub fn mfs_ent_rec_len(b: &Vec<u8>, off: usize) -> (r: usize)
    requires
        b.len() == MFS_BLOCK,
        off + 8 <= 4096,
    ensures
        r == ent_rec(b@, off as int),
        r <= 65535,
{
    bytes::read_u16(b, off + 6) as usize
}

/// Whether an entry has the name `comp`.
pub fn mfs_ent_name_eq(b: &Vec<u8>, off: usize, comp: &Vec<u8>) -> (r: bool)
    requires
        b.len() == MFS_BLOCK,
        off + 8 <= 4096,
    ensures
        r == ent_is(b@, off as int, comp@),
{
    let n: usize = b[off + 5] as usize;
    if n == 0 || n != comp.len() {
        return false;
    }
    if off + 8 + n > 4096 {
        return false;
    }
    let name: Vec<u8> = bytes::slice_copy(b, off + 8, off + 8 + n);
    bytes::bytes_eq(&name, comp)
}

/// Bytes that an entry with a name of `n` bytes takes.
pub fn mfs_ent_need(n: usize) -> (r: usize)
    requires
        n <= 255,
    ensures
        r == ent_need(n as int),
        n + 8 <= r <= 268,
{
    (n + 11) / 4 * 4
}

/// Writes the header of an entry.
fn ent_write_head(b: &mut Vec<u8>, off: usize, ino: u32, typ: u8, nlen: u8, rec: usize)
    requires
        old(b).len() == MFS_BLOCK,
        off + 8 <= 4096,
        rec <= 65535,
    ensures
        final(b)@ == ent_head(old(b)@, off as int, ino, typ, nlen, rec as int),
        final(b).len() == MFS_BLOCK,
{
    bytes::write_u32(b, off, ino);
    b.set(off + 4, typ);
    b.set(off + 5, nlen);
    bytes::write_u16(b, off + 6, rec as u16);
}

/// Writes an entry.
pub fn mfs_ent_fill(b: &mut Vec<u8>, off: usize, comp: &Vec<u8>, child: u32, typ: u32, rec: usize)
    requires
        old(b).len() == MFS_BLOCK,
        comp.len() <= 255,
        off + 8 + comp.len() <= 4096,
        rec <= 65535,
        typ <= 255,
    ensures
        final(b)@ == ent_filled(old(b)@, off as int, comp@, child, typ, rec as int),
        final(b).len() == MFS_BLOCK,
{
    ent_write_head(b, off, child, typ as u8, comp.len() as u8, rec);
    bytes::copy_into(b, off + 8, comp, 0, comp.len());
    assert(comp@.subrange(0, comp@.len() as int) =~= comp@);
}

/// Writes a gap.
pub fn mfs_ent_clear(b: &mut Vec<u8>, off: usize, rec: usize)
    requires
        old(b).len() == MFS_BLOCK,
        off + 8 <= 4096,
        rec <= 65535,
    ensures
        final(b)@ == ent_cleared(old(b)@, off as int, rec as int),
        final(b).len() == MFS_BLOCK,
{
    ent_write_head(b, off, 0, 0, 0, rec);
}

/// The offset after an entry, `None` where its length cannot be right.
pub fn mfs_ent_step(b: &Vec<u8>, off: usize) -> (r: Option<usize>)
    requires
        b.len() == MFS_BLOCK,
        off + 8 <= 4096,
    ensures
        r == (if ent_bad(b@, off as int) {
            None::<usize>
        } else {
            Some((off + ent_rec(b@, off as int)) as usize)
        }),
        r matches Some(n) ==> off < n <= 4096 && n == off + ent_rec(b@, off as int),
{
    let rl: usize = mfs_ent_rec_len(b, off);
    if rl < 12 || off + rl > 4096 {
        return None;
    }
    Some(off + rl)
}

/// Searches a directory block for a name.
#[verifier::loop_isolation(false)]
pub fn mfs_dir_scan(b: &Vec<u8>, comp: &Vec<u8>) -> (r: Option<usize>)
    requires
        b.len() == MFS_BLOCK,
    ensures
        match r {
            Some(o) => scan(b@, 56, comp@) == Some(o as int) && o + 8 <= 4096,
            None => scan(b@, 56, comp@) is None,
        },
{
    let mut off: usize = MFS_DIR_FIRST;
    let ghost goal = scan(b@, 56, comp@);
    while off + 8 <= 4096
        invariant
            off <= 4096,
            scan(b@, off as int, comp@) == goal,
        decreases 4096 - off,
    {
        if mfs_ent_name_eq(b, off, comp) {
            return Some(off);
        }
        match mfs_ent_step(b, off) {
            Some(n) => {
                off = n;
            },
            None => {
                return None;
            },
        }
    }
    None
}

/// Searches a directory block for an entry with room behind it.
#[verifier::loop_isolation(false)]
pub fn mfs_dir_slot(b: &Vec<u8>, need: usize) -> (r: Option<usize>)
    requires
        b.len() == MFS_BLOCK,
        need <= 268,
    ensures
        match r {
            Some(o) => slot_for(b@, 56, need as int) == Some(o as int) && o + 8 <= 4096
                && !ent_bad(b@, o as int) && ent_rec(b@, o as int) >= ent_used(b@, o as int) + need,
            None => slot_for(b@, 56, need as int) is None,
        },
{
    let mut off: usize = MFS_DIR_FIRST;
    let ghost goal = slot_for(b@, 56, need as int);
    while off + 8 <= 4096
        invariant
            off <= 4096,
            slot_for(b@, off as int, need as int) == goal,
        decreases 4096 - off,
    {
        let next: usize = match mfs_ent_step(b, off) {
            Some(n) => n,
            None => {
                return None;
            },
        };
        let nl: usize = b[off + 5] as usize;
        let used: usize = if nl == 0 {
            0
        } else {
            mfs_ent_need(nl)
        };
        if next - off >= used + need {
            return Some(off);
        }
        off = next;
    }
    None
}

/// Puts a new entry behind the one at `off`.
pub fn mfs_ent_place(b: &mut Vec<u8>, off: usize, comp: &Vec<u8>, child: u32, typ: u32)
    requires
        old(b).len() == MFS_BLOCK,
        off + 8 <= 4096,
        comp.len() <= 255,
        typ <= 255,
        !ent_bad(old(b)@, off as int),
        ent_rec(old(b)@, off as int) >= ent_used(old(b)@, off as int) + ent_need(
            comp@.len() as int,
        ),
    ensures
        final(b)@ == placed(old(b)@, off as int, comp@, child, typ),
        final(b).len() == MFS_BLOCK,
{
    let need: usize = mfs_ent_need(comp.len());
    let rl: usize = mfs_ent_rec_len(b, off);
    let nl: usize = b[off + 5] as usize;
    let used: usize = if nl == 0 {
        0
    } else {
        mfs_ent_need(nl)
    };
    let avail: usize = rl - used;
    let take: usize = if avail - need >= 12 {
        need
    } else {
        avail
    };
    if used > 0 {
        bytes::write_u16(b, off + 6, used as u16);
    }
    mfs_ent_fill(b, off + used, comp, child, typ, take);
    if take < avail {
        mfs_ent_clear(b, off + used + take, avail - take);
    }
}

/// Whether a directory block holds an entry.
#[verifier::loop_isolation(false)]
pub fn mfs_dir_has_entry(b: &Vec<u8>) -> (r: bool)
    requires
        b.len() == MFS_BLOCK,
    ensures
        r == has_entry(b@, 56),
{
    let mut off: usize = MFS_DIR_FIRST;
    let ghost goal = has_entry(b@, 56);
    while off + 8 <= 4096
        invariant
            off <= 4096,
            has_entry(b@, off as int) == goal,
        decreases 4096 - off,
    {
        if b[off + 5] != 0 {
            return true;
        }
        match mfs_ent_step(b, off) {
            Some(n) => {
                off = n;
            },
            None => {
                return false;
            },
        }
    }
    false
}

/// Makes a directory block empty.
pub fn mfs_dir_init_empty(b: &mut Vec<u8>)
    requires
        old(b).len() == MFS_BLOCK,
    ensures
        final(b)@ == empty_dir(old(b)@),
        final(b).len() == MFS_BLOCK,
{
    bytes::write_u32(b, 8, 0);
    bytes::write_u32(b, 12, 0);
    mfs_ent_clear(b, 56, 4040);
}

/// The first slot that holds `v`.
#[verifier::loop_isolation(false)]
fn find_slot(b: &Vec<u8>, v: u32) -> (r: Option<usize>)
    requires
        b.len() == MFS_BLOCK,
    ensures
        match r {
            Some(i) => slot_with(b@, 0, v) == Some(i as int) && i < 1022,
            None => slot_with(b@, 0, v) is None,
        },
{
    let mut i: usize = 0;
    let ghost goal = slot_with(b@, 0, v);
    while i < MFS_SLOTS
        invariant
            i <= MFS_SLOTS,
            slot_with(b@, i as int, v) == goal,
        decreases MFS_SLOTS - i,
    {
        if bytes::read_u32(b, 8 + 4 * i) == v {
            return Some(i);
        }
        i = i + 1;
    }
    None
}

/// Takes the entry at `at` out of a directory block.
#[verifier::loop_isolation(false)]
fn ent_remove(b: &mut Vec<u8>, at: usize) -> (r: bool)
    requires
        old(b).len() == MFS_BLOCK,
        at + 8 <= 4096,
    ensures
        final(b).len() == MFS_BLOCK,
        match without(old(b)@, at as int) {
            Some(d) => r && final(b)@ == d,
            None => !r,
        },
{
    let rl: usize = mfs_ent_rec_len(b, at);
    let mut prev: Option<usize> = None;
    let mut off: usize = MFS_DIR_FIRST;
    let ghost goal = prev_entry(b@, 56, None, at as int);
    while off + 8 <= 4096 && off < at
        invariant
            off <= 4096,
            b@ == old(b)@,
            b.len() == MFS_BLOCK,
            prev_entry(
                b@,
                off as int,
                match prev {
                    Some(p) => Some(p as int),
                    None => None,
                },
                at as int,
            ) == goal,
            prev matches Some(p) ==> p + 8 <= 4096,
        decreases 4096 - off,
    {
        match mfs_ent_step(b, off) {
            Some(n) => {
                prev = Some(off);
                off = n;
            },
            None => {
                return false;
            },
        }
    }
    match prev {
        Some(p) => {
            let prl: usize = mfs_ent_rec_len(b, p);
            bytes::write_u16(b, p + 6, ((prl + rl) % 0x1_0000) as u16);
        },
        None => {
            mfs_ent_clear(b, at, rl);
        },
    }
    true
}

impl Mfs {
    /// Finds the entry `comp` of directory `dir_ino`.
    #[verifier::loop_isolation(false)]
    pub fn mfs_dir_lookup(&mut self, dir_ino: u32, comp: &Vec<u8>) -> (r: Option<MfsLoc>)
        requires
            old(self).inv(),
        ensures
            final(self).inv(),
            (final(self)@, r) == old(self)@.dir_lookup(dir_ino, comp@),
            r matches Some(l) ==> l.off + 8 <= 4096,
    {
        proof {
            reveal(MfsView::dir_lookup);
        }
        let base: u32 = match self.object_block(dir_ino) {
            Some(b) => b,
            None => {
                return None;
            },
        };
        let a: Vec<u8> = match self.load(base, MFS_MAGIC_DIR) {
            Some(a) => a,
            None => {
                return None;
            },
        };
        match mfs_dir_scan(&a, comp) {
            Some(off) => {
                return Some(MfsLoc { dir_ino, blk: base, off });
            },
            None => {},
        }
        let ext: u32 = bytes::read_u32(&a, 8);
        if ext == 0 {
            return None;
        }
        let b: Vec<u8> = match self.load(ext, MFS_MAGIC_DIDX) {
            Some(b) => b,
            None => {
                return None;
            },
        };
        let mut i: usize = 0;
        let ghost goal = self@.lookup_ext(dir_ino, b@, 0, comp@);
        while i < MFS_SLOTS
            invariant
                i <= MFS_SLOTS,
                self@.lookup_ext(dir_ino, b@, i as int, comp@) == goal,
            decreases MFS_SLOTS - i,
        {
            let blk: u32 = bytes::read_u32(&b, 8 + 4 * i);
            if blk != 0 {
                match self.load(blk, MFS_MAGIC_DIR) {
                    Some(c) => {
                        match mfs_dir_scan(&c, comp) {
                            Some(off) => {
                                return Some(MfsLoc { dir_ino, blk, off });
                            },
                            None => {},
                        }
                    },
                    None => {},
                }
            }
            i = i + 1;
        }
        None
    }

    /// Commits the index block and the node block of a directory.
    fn commit_index(&mut self, dir_ino: u32, a: &mut Vec<u8>, b: &mut Vec<u8>) -> (r: bool)
        requires
            old(self).inv(),
            old(a).len() == MFS_BLOCK,
            old(b).len() == MFS_BLOCK,
        ensures
            final(self).inv(),
            (final(self)@, r) == old(self)@.commit_index(dir_ino, old(a)@, old(b)@),
    {
        proof {
            reveal(MfsView::commit_index);
        }
        match self.mfs_commit(b, MFS_MAGIC_DIDX) {
            None => false,
            Some(x) => {
                bytes::write_u32(a, 8, x);
                self.mfs_commit_object(dir_ino, a, MFS_MAGIC_DIR)
            },
        }
    }

    /// Commits the changed block `c` of a directory.
    pub fn mfs_dir_store_loc(&mut self, loc: MfsLoc, c: &mut Vec<u8>) -> (r: bool)
        requires
            old(self).inv(),
            old(c).len() == MFS_BLOCK,
        ensures
            final(self).inv(),
            (final(self)@, r) == old(self)@.store_loc(loc, old(c)@),
    {
        proof {
            reveal(MfsView::store_loc);
        }
        let same: bool = match self.mfs_ino_block(loc.dir_ino) {
            Some(b) => b == loc.blk,
            None => false,
        };
        if same {
            mfs_touch(c, true, self.now);
            return self.mfs_commit_object(loc.dir_ino, c, MFS_MAGIC_DIR);
        }
        let nb: u32 = match self.mfs_commit(c, MFS_MAGIC_DIR) {
            Some(x) => x,
            None => {
                return false;
            },
        };
        let base: u32 = match self.object_block(loc.dir_ino) {
            Some(x) => x,
            None => {
                return false;
            },
        };
        let mut a: Vec<u8> = match self.load(base, MFS_MAGIC_DIR) {
            Some(x) => x,
            None => {
                return false;
            },
        };
        let idx: u32 = bytes::read_u32(&a, 8);
        if idx == 0 {
            return false;
        }
        mfs_touch(&mut a, true, self.now);
        let mut b: Vec<u8> = match self.load(idx, MFS_MAGIC_DIDX) {
            Some(x) => x,
            None => {
                return false;
            },
        };
        match find_slot(&b, loc.blk) {
            Some(i) => {
                bytes::write_u32(&mut b, 8 + 4 * i, nb);
                self.commit_index(loc.dir_ino, &mut a, &mut b)
            },
            None => false,
        }
    }

    /// Whether a directory has no entry.
    #[verifier::loop_isolation(false)]
    pub fn mfs_dir_is_empty(&mut self, dir_ino: u32) -> (r: Option<bool>)
        requires
            old(self).inv(),
        ensures
            final(self).inv(),
            (final(self)@, r) == old(self)@.dir_is_empty(dir_ino),
    {
        proof {
            reveal(MfsView::dir_is_empty);
        }
        let base: u32 = match self.object_block(dir_ino) {
            Some(x) => x,
            None => {
                return None;
            },
        };
        let a: Vec<u8> = match self.load(base, MFS_MAGIC_DIR) {
            Some(x) => x,
            None => {
                return None;
            },
        };
        if mfs_dir_has_entry(&a) {
            return Some(false);
        }
        let ext: u32 = bytes::read_u32(&a, 8);
        if ext == 0 {
            return Some(true);
        }
        let b: Vec<u8> = match self.load(ext, MFS_MAGIC_DIDX) {
            Some(x) => x,
            None => {
                return None;
            },
        };
        let mut i: usize = 0;
        let ghost goal = self@.ext_has_entry(b@, 0);
        while i < MFS_SLOTS
            invariant
                i <= MFS_SLOTS,
                self@.ext_has_entry(b@, i as int) == goal,
            decreases MFS_SLOTS - i,
        {
            let blk: u32 = bytes::read_u32(&b, 8 + 4 * i);
            if blk != 0 {
                match self.load(blk, MFS_MAGIC_DIR) {
                    Some(c) => {
                        if mfs_dir_has_entry(&c) {
                            return Some(false);
                        }
                    },
                    None => {},
                }
            }
            i = i + 1;
        }
        Some(true)
    }

    /// The first further block of a directory with room for `need` bytes.
    #[verifier::loop_isolation(false)]
    fn ext_room(&self, b: &Vec<u8>, need: usize) -> (r: Option<(usize, Vec<u8>, usize)>)
        requires
            self.inv(),
            b.len() == MFS_BLOCK,
            need <= 268,
        ensures
            match r {
                Some((i, c, off)) => self@.ext_room(b@, 0, need as int) == Some(
                    (i as int, c@, off as int),
                ) && i < 1022 && c.len() == MFS_BLOCK && off + 8 <= 4096 && !ent_bad(
                    c@,
                    off as int,
                ) && ent_rec(c@, off as int) >= ent_used(c@, off as int) + need,
                None => self@.ext_room(b@, 0, need as int) is None,
            },
    {
        let mut i: usize = 0;
        let ghost goal = self@.ext_room(b@, 0, need as int);
        while i < MFS_SLOTS
            invariant
                i <= MFS_SLOTS,
                self@.ext_room(b@, i as int, need as int) == goal,
            decreases MFS_SLOTS - i,
        {
            let blk: u32 = bytes::read_u32(b, 8 + 4 * i);
            if blk != 0 {
                match self.load(blk, MFS_MAGIC_DIR) {
                    Some(c) => {
                        match mfs_dir_slot(&c, need) {
                            Some(off) => {
                                return Some((i, c, off));
                            },
                            None => {},
                        }
                    },
                    None => {},
                }
            }
            i = i + 1;
        }
        None
    }

    /// Puts an entry into a further block of a directory.
    fn insert_ext(
        &mut self,
        dir_ino: u32,
        a: &mut Vec<u8>,
        b: &mut Vec<u8>,
        comp: &Vec<u8>,
        child: u32,
        typ: u32,
    ) -> (r: bool)
        requires
            old(self).inv(),
            old(a).len() == MFS_BLOCK,
            old(b).len() == MFS_BLOCK,
            comp.len() <= 255,
            typ <= 255,
        ensures
            final(self).inv(),
            (final(self)@, r) == old(self)@.insert_ext(
                dir_ino,
                old(a)@,
                old(b)@,
                comp@,
                child,
                typ,
            ),
    {
        proof {
            reveal(MfsView::insert_ext);
        }
        let need: usize = mfs_ent_need(comp.len());
        match self.ext_room(b, need) {
            Some((i, c0, off)) => {
                let mut c: Vec<u8> = c0;
                mfs_ent_place(&mut c, off, comp, child, typ);
                match self.mfs_commit(&mut c, MFS_MAGIC_DIR) {
                    None => false,
                    Some(x) => {
                        bytes::write_u32(b, 8 + 4 * i, x);
                        self.commit_index(dir_ino, a, b)
                    },
                }
            },
            None => {
                let mut c: Vec<u8> = bytes::zero_vec(4096);
                mfs_dir_init_empty(&mut c);
                match mfs_dir_slot(&c, need) {
                    None => false,
                    Some(off) => {
                        mfs_ent_place(&mut c, off, comp, child, typ);
                        match self.mfs_commit(&mut c, MFS_MAGIC_DIR) {
                            None => false,
                            Some(x) => match find_slot(b, 0) {
                                None => false,
                                Some(i) => {
                                    bytes::write_u32(b, 8 + 4 * i, x);
                                    self.commit_index(dir_ino, a, b)
                                },
                            },
                        }
                    },
                }
            },
        }
    }

    /// Puts an entry into a directory.
    pub fn mfs_dir_insert(&mut self, dir_ino: u32, comp: &Vec<u8>, child: u32, typ: u32) -> (r:
        bool)
        requires
            old(self).inv(),
            typ <= 255,
        ensures
            final(self).inv(),
            (final(self)@, r) == old(self)@.dir_insert(dir_ino, comp@, child, typ),
    {
        proof {
            reveal(MfsView::dir_insert);
        }
        if comp.len() == 0 || comp.len() > MFS_NAME_MAX {
            return false;
        }
        let need: usize = mfs_ent_need(comp.len());
        let base: u32 = match self.object_block(dir_ino) {
            Some(x) => x,
            None => {
                return false;
            },
        };
        let mut a: Vec<u8> = match self.load(base, MFS_MAGIC_DIR) {
            Some(x) => x,
            None => {
                return false;
            },
        };
        mfs_touch(&mut a, true, self.now);
        match mfs_dir_slot(&a, need) {
            Some(off) => {
                mfs_ent_place(&mut a, off, comp, child, typ);
                return self.mfs_commit_object(dir_ino, &mut a, MFS_MAGIC_DIR);
            },
            None => {},
        }
        let idx: u32 = bytes::read_u32(&a, 8);
        let mut b: Vec<u8>;
        if idx == 0 {
            b = bytes::zero_vec(4096);
            match self.mfs_commit(&mut b, MFS_MAGIC_DIDX) {
                Some(x) => {
                    bytes::write_u32(&mut a, 8, x);
                },
                None => {
                    return false;
                },
            }
        } else {
            b = match self.load(idx, MFS_MAGIC_DIDX) {
                Some(x) => x,
                None => {
                    return false;
                },
            };
        }
        self.insert_ext(dir_ino, &mut a, &mut b, comp, child, typ)
    }

    /// Removes the entry at `loc`.
    pub fn mfs_dir_delete(&mut self, loc: MfsLoc) -> (r: bool)
        requires
            old(self).inv(),
            loc.off + 8 <= 4096,
        ensures
            final(self).inv(),
            (final(self)@, r) == old(self)@.dir_delete(loc),
    {
        proof {
            reveal(MfsView::dir_delete);
        }
        let mut c: Vec<u8> = match self.load(loc.blk, MFS_MAGIC_DIR) {
            Some(x) => x,
            None => {
                return false;
            },
        };
        if !ent_remove(&mut c, loc.off) {
            return false;
        }
        self.mfs_dir_store_loc(loc, &mut c)
    }
}

} // verus!
