//! MorionFS: paths, and what is done to the objects they name.
//!
//! Paths are absolute within the volume and kept in normal form. A symbolic link on the
//! way is put in place of its name and the path walked again from the root.
use vstd::prelude::*;

use crate::bytes;
use crate::mfs;
use crate::mfs::{
    Mfs, MfsView, MFS_BLOCK, MFS_MAGIC_DIDX, MFS_MAGIC_DIR, MFS_MAGIC_FILE, MFS_MAGIC_LINK,
    MFS_ROOT_INO, MFS_SLOTS,
};
use crate::mfs_dir;
use crate::mfs_dir::{
    MfsLoc, MFS_MODE_DIR, MFS_MODE_FILE, MFS_MODE_LINK, MFS_NAME_MAX, MFS_TYPE_DIR, MFS_TYPE_FILE,
    MFS_TYPE_LINK,
};
use crate::mfs_file;
use crate::path;
use crate::tmpfs;
use crate::vfs;
use crate::vfs::{
    DirEntry, DirEntryView, Stat, DIR_LONG_MAX, MODE_FTYPE_DIR, MODE_FTYPE_FILE, MODE_FTYPE_LINK,
    RESULT_MAX_ENTRIES,
};

verus! {

/// Longest path.
pub const MFS_PATH_MAX: usize = 96;

/// Longest target of a symbolic link.
pub const MFS_LINK_MAX: usize = 4040;

/// Most symbolic links on one way.
pub const MFS_SYMLINK_MAX_DEPTH: u32 = 16;

/// The normal form of an absolute path within a volume.
pub open spec fn raw_normal(p: Seq<u8>) -> Option<Seq<u8>> {
    path::plain(p, MFS_NAME_MAX as int, MFS_PATH_MAX as int)
}

/// Where the walk along a path ended.
#[verifier::ext_equal]
pub enum Walk {
    /// The path names nothing.
    Fail,
    /// At an object, named by the entry at `loc`.
    At { ino: u32, loc: MfsLoc },
    /// At a symbolic link to follow: its name is from `start` to `end`; `leaf` is the entry
    /// before it.
    Link { start: usize, end: usize, ino: u32, leaf: MfsLoc },
}

/// A path with the name from `start` to `end` replaced by a link's target.
pub open spec fn with_target(buf: Seq<u8>, start: int, end: int, target: Seq<u8>) -> Seq<u8> {
    if target[0] == 0x2F {
        target + buf.subrange(end, buf.len() as int)
    } else {
        buf.subrange(0, start) + target + buf.subrange(end, buf.len() as int)
    }
}

/// The type that a node's magic says.
pub open spec fn node_type_of(b: Seq<u8>) -> Option<u32> {
    if mfs::block_ok(b, MFS_MAGIC_DIR) {
        Some(MFS_TYPE_DIR)
    } else if mfs::block_ok(b, MFS_MAGIC_FILE) {
        Some(MFS_TYPE_FILE)
    } else if mfs::block_ok(b, MFS_MAGIC_LINK) {
        Some(MFS_TYPE_LINK)
    } else {
        None
    }
}

/// What a node says of its object.
pub open spec fn stat_of(b: Seq<u8>) -> Option<Stat> {
    match node_type_of(b) {
        None => None,
        Some(t) => {
            let is_dir = t == MFS_TYPE_DIR;
            Some(
                Stat {
                    size: if is_dir {
                        0
                    } else {
                        mfs_file::file_size(b)
                    },
                    is_dir,
                    mode: mfs_dir::mode_of(b, is_dir),
                    owner: mfs_dir::owner_of(b, is_dir),
                    nlink: mfs_dir::nlink_of(b, is_dir),
                    mtime: mfs_dir::mtime_of(b, is_dir),
                    ctime: mfs_dir::ctime_of(b, is_dir),
                    atime: mfs_dir::atime_of(b, is_dir),
                },
            )
        },
    }
}

/// The node of a new file or directory.
pub open spec fn new_node(is_dir: bool, owner: u16, now: u64) -> Seq<u8> {
    if is_dir {
        mfs_dir::with_meta(
            mfs_dir::empty_dir(bytes::zeros(4096)),
            true,
            MODE_FTYPE_DIR,
            owner,
            MFS_MODE_DIR,
            now,
        )
    } else {
        mfs_dir::with_meta(bytes::zeros(4096), false, MODE_FTYPE_FILE, owner, MFS_MODE_FILE, now)
    }
}

/// The node of a new symbolic link.
pub open spec fn link_node(target: Seq<u8>, owner: u16, now: u64) -> Seq<u8> {
    mfs_dir::with_meta(
        bytes::splice(bytes::put64(bytes::zeros(4096), 8, target.len() as u64), 16, target),
        false,
        MODE_FTYPE_LINK,
        owner,
        MFS_MODE_LINK,
        now,
    )
}

/// Whether path `d` lies below path `s`.
pub open spec fn is_below(s: Seq<u8>, d: Seq<u8>) -> bool {
    d.len() > s.len() && d.subrange(0, s.len() as int) == s && d[s.len() as int] == 0x2F
}

impl MfsView {
    /// The target of symbolic link `ino`.
    #[verifier::opaque]
    pub open spec fn link_target(self, ino: u32) -> (MfsView, Option<Seq<u8>>) {
        let (s, r) = self.object_block(ino);
        match r {
            None => (s, None),
            Some(blk) => match s.load(blk, MFS_MAGIC_LINK) {
                None => (s, None),
                Some(a) => {
                    let n = mfs_file::file_size(a);
                    if n == 0 || n > MFS_LINK_MAX {
                        (s, None)
                    } else {
                        (s, Some(a.subrange(16, 16 + n)))
                    }
                },
            },
        }
    }

    /// The walk along `buf` from position `i` on in directory `cur`. Links are followed
    /// before the last name, and there too where `follow` says so.
    pub open spec fn walk(self, buf: Seq<u8>, i: int, cur: u32, leaf: MfsLoc, follow: bool) -> (
        MfsView,
        Walk,
    )
        decreases buf.len() - i,
    {
        let end = path::seg_end(buf, i);
        if i >= buf.len() || end <= i || end - i > MFS_NAME_MAX {
            (self, Walk::Fail)
        } else {
            let (s, r) = self.dir_lookup(cur, buf.subrange(i, end));
            match r {
                None => (s, Walk::Fail),
                Some(loc) => match s.load(loc.blk, MFS_MAGIC_DIR) {
                    None => (s, Walk::Fail),
                    Some(c) => {
                        let ino = mfs_dir::ent_ino(c, loc.off as int);
                        let link = mfs_dir::ent_type(c, loc.off as int) == MFS_TYPE_LINK;
                        if ino == 0 {
                            (s, Walk::Fail)
                        } else if link && (end < buf.len() || follow) {
                            (s, Walk::Link { start: i as usize, end: end as usize, ino, leaf })
                        } else if end >= buf.len() {
                            (s, Walk::At { ino, loc })
                        } else {
                            s.walk(buf, end + 1, ino, loc, follow)
                        }
                    },
                },
            }
        }
    }

    /// The path to go on with where link `ino`, whose name is from `start` to `end` on `buf`, is
    /// followed.
    pub open spec fn followed(self, buf: Seq<u8>, start: int, end: int, ino: u32) -> (
        MfsView,
        Option<Seq<u8>>,
    ) {
        match self.link_target(ino) {
            (s, None) => (s, None),
            (s, Some(t)) => {
                let merged = with_target(buf, start, end, t);
                if merged.len() > MFS_PATH_MAX {
                    (s, None)
                } else {
                    (s, raw_normal(merged))
                }
            },
        }
    }

    /// The object that `buf` names, at most `links` links followed.
    pub open spec fn resolve_from(self, buf: Seq<u8>, leaf: MfsLoc, links: nat, follow: bool) -> (
        MfsView,
        Option<(u32, MfsLoc)>,
    )
        decreases links,
    {
        match self.walk(buf, 1, MFS_ROOT_INO, leaf, follow) {
            (s, Walk::Fail) => (s, None),
            (s, Walk::At { ino, loc }) => (s, Some((ino, loc))),
            (s, Walk::Link { start, end, ino, leaf: leaf2 }) => if links == 0 {
                (s, None)
            } else {
                match s.followed(buf, start as int, end as int, ino) {
                    (s2, None) => (s2, None),
                    (s2, Some(b2)) => if b2.len() == 1 {
                        (s2, Some((MFS_ROOT_INO, leaf2)))
                    } else {
                        s2.resolve_from(b2, leaf2, (links - 1) as nat, follow)
                    },
                }
            },
        }
    }

    /// The object that a path in normal form names, and the entry that names it.
    #[verifier::opaque]
    pub open spec fn resolve(self, canon: Seq<u8>, follow: bool) -> (
        MfsView,
        Option<(u32, MfsLoc)>,
    ) {
        if canon.len() > MFS_PATH_MAX {
            (self, None)
        } else if canon.len() == 1 {
            (self, Some((MFS_ROOT_INO, mfs_dir::no_loc())))
        } else {
            self.resolve_from(canon, mfs_dir::no_loc(), MFS_SYMLINK_MAX_DEPTH as nat, follow)
        }
    }

    /// Whether the way along `buf` from position `i` on in directory `cur` is in directory `dir`
    /// at any point.
    pub open spec fn visits(self, buf: Seq<u8>, i: int, cur: u32, dir: u32) -> (MfsView, bool)
        decreases buf.len() - i,
    {
        let end = path::seg_end(buf, i);
        if cur == dir {
            (self, true)
        } else if i >= buf.len() || end <= i || end - i > MFS_NAME_MAX {
            (self, false)
        } else {
            let (s, r) = self.dir_lookup(cur, buf.subrange(i, end));
            match r {
                None => (s, false),
                Some(loc) => match s.load(loc.blk, MFS_MAGIC_DIR) {
                    None => (s, false),
                    Some(c) => {
                        let ino = mfs_dir::ent_ino(c, loc.off as int);
                        if end >= buf.len() {
                            (s, ino == dir)
                        } else {
                            s.visits(buf, end + 1, ino, dir)
                        }
                    },
                },
            }
        }
    }

    /// Whether `dir` is on the way to what `buf` names, its links followed, at most `links`.
    pub open spec fn crosses_from(self, buf: Seq<u8>, dir: u32, links: nat) -> (MfsView, bool)
        decreases links,
    {
        match self.walk(buf, 1, MFS_ROOT_INO, mfs_dir::no_loc(), true) {
            (s, Walk::Fail) => (s, false),
            (s, Walk::At { ino, loc }) => s.visits(buf, 1, MFS_ROOT_INO, dir),
            (s, Walk::Link { start, end, ino, leaf }) => if links == 0 {
                (s, false)
            } else {
                match s.followed(buf, start as int, end as int, ino) {
                    (s2, None) => (s2, false),
                    (s2, Some(b2)) => if b2.len() == 1 {
                        (s2, dir == MFS_ROOT_INO)
                    } else {
                        s2.crosses_from(b2, dir, (links - 1) as nat)
                    },
                }
            },
        }
    }

    /// Whether directory `dir` is what a path in normal form names, or lies on the way to it
    /// from the root.
    #[verifier::opaque]
    pub open spec fn crosses(self, canon: Seq<u8>, dir: u32) -> (MfsView, bool) {
        if canon.len() > MFS_PATH_MAX {
            (self, false)
        } else if canon.len() == 1 {
            (self, dir == MFS_ROOT_INO)
        } else {
            self.crosses_from(canon, dir, MFS_SYMLINK_MAX_DEPTH as nat)
        }
    }

    /// Whether object `ino` of type `typ` is a directory that would come to lie below itself at
    /// path `dc`.
    #[verifier::opaque]
    pub open spec fn rings(self, ino: u32, typ: u32, dc: Seq<u8>) -> (MfsView, bool) {
        if typ == MFS_TYPE_DIR {
            self.crosses(path::pop_segment(dc), ino)
        } else {
            (self, false)
        }
    }

    /// The type of the node in block `blk`.
    pub open spec fn node_type(self, blk: u32) -> Option<u32> {
        match self.rd(blk) {
            None => None,
            Some(b) => node_type_of(b),
        }
    }

    /// What the node in block `blk` says of its object.
    pub open spec fn stat_block(self, blk: u32) -> Option<Stat> {
        match self.rd(blk) {
            None => None,
            Some(b) => stat_of(b),
        }
    }

    /// What is known of the object that path `p` names.
    #[verifier::opaque]
    pub open spec fn stat(self, p: Seq<u8>, follow: bool) -> (MfsView, Option<Stat>) {
        match raw_normal(p) {
            None => (self, None),
            Some(c) => match self.resolve(c, follow) {
                (s, None) => (s, None),
                (s, Some((ino, loc))) => {
                    let (s2, r) = s.ino_block(ino);
                    (
                        s2,
                        s2.stat_block(
                            match r {
                                Some(b) => b,
                                None => 0,
                            },
                        ),
                    )
                },
            },
        }
    }

    /// Whether the object that `canon` names is a directory; `None` where it names none.
    #[verifier::opaque]
    pub open spec fn open_kind(self, canon: Seq<u8>) -> (MfsView, Option<bool>) {
        match self.resolve(canon, true) {
            (s, None) => (s, None),
            (s, Some((ino, loc))) => match s.object_block(ino) {
                (s2, None) => (s2, None),
                (s2, Some(blk)) => (s2, Some(s2.load(blk, MFS_MAGIC_DIR) is Some)),
            },
        }
    }

    /// A node committed, given a number and entered into a directory.
    #[verifier::opaque]
    pub open spec fn add_object(
        self,
        dir_ino: u32,
        comp: Seq<u8>,
        node: Seq<u8>,
        magic: u32,
        typ: u32,
    ) -> (MfsView, bool) {
        match self.commit(node, magic) {
            (s, None) => (s, false),
            (s, Some(obj)) => match s.ino_alloc(obj) {
                (s2, None) => (s2, false),
                (s2, Some(ino)) => s2.dir_insert(dir_ino, comp, ino, typ),
            },
        }
    }

    /// The directory in which path `canon` can be made: it is there, and has no such entry.
    #[verifier::opaque]
    pub open spec fn place_for(self, canon: Seq<u8>) -> (MfsView, Option<u32>) {
        let comp = path::leaf_of(canon);
        if comp.len() == 0 {
            (self, None)
        } else {
            match self.resolve(path::pop_segment(canon), true) {
                (s, None) => (s, None),
                (s, Some((dir, loc))) => match s.dir_lookup(dir, comp) {
                    (s2, Some(l)) => (s2, None),
                    (s2, None) => (s2, Some(dir)),
                },
            }
        }
    }

    /// The file or directory `canon` made; a file that is there is taken.
    #[verifier::opaque]
    pub open spec fn create(self, canon: Seq<u8>, is_dir: bool, owner: u16) -> (MfsView, bool) {
        match self.open_or_none(canon) {
            (s, Some(found)) => (s, !is_dir && found == Some(false)),
            (s, None) => match s.place_for(canon) {
                (s2, None) => (s2, false),
                (s2, Some(dir)) => s2.add_object(
                    dir,
                    path::leaf_of(canon),
                    new_node(is_dir, owner, s2.now),
                    if is_dir {
                        MFS_MAGIC_DIR
                    } else {
                        MFS_MAGIC_FILE
                    },
                    if is_dir {
                        MFS_TYPE_DIR
                    } else {
                        MFS_TYPE_FILE
                    },
                ),
            },
        }
    }

    /// `None` where `canon` names nothing; else whether it names a directory, `None` where
    /// that cannot be told.
    #[verifier::opaque]
    pub open spec fn open_or_none(self, canon: Seq<u8>) -> (MfsView, Option<Option<bool>>) {
        match self.resolve(canon, true) {
            (s, None) => (s, None),
            (s, Some((ino, loc))) => match s.object_block(ino) {
                (s2, None) => (s2, Some(None)),
                (s2, Some(blk)) => (s2, Some(Some(s2.load(blk, MFS_MAGIC_DIR) is Some))),
            },
        }
    }

    /// A symbolic link to `target` made at path `p`.
    #[verifier::opaque]
    pub open spec fn symlink(self, target: Seq<u8>, p: Seq<u8>, owner: u16) -> (MfsView, bool) {
        if target.len() == 0 || target.len() > MFS_LINK_MAX {
            (self, false)
        } else {
            match raw_normal(p) {
                None => (self, false),
                Some(c) => if c.len() == 1 {
                    (self, false)
                } else {
                    match self.resolve(c, false) {
                        (s, Some(x)) => (s, false),
                        (s, None) => match s.place_for(c) {
                            (s2, None) => (s2, false),
                            (s2, Some(dir)) => s2.add_object(
                                dir,
                                path::leaf_of(c),
                                link_node(target, owner, s2.now),
                                MFS_MAGIC_LINK,
                                MFS_TYPE_LINK,
                            ),
                        },
                    }
                },
            }
        }
    }

    /// One name more for file `ino`.
    #[verifier::opaque]
    pub open spec fn bump_nlink(self, ino: u32) -> (MfsView, bool) {
        match self.object_block(ino) {
            (s, None) => (s, false),
            (s, Some(blk)) => match s.load(blk, MFS_MAGIC_FILE) {
                None => (s, false),
                Some(a) => {
                    let n = if mfs_dir::nlink_of(a, false) == 0 {
                        1
                    } else {
                        mfs_dir::nlink_of(a, false) as int
                    };
                    s.commit_object(
                        ino,
                        mfs_dir::with_ctime(
                            mfs_dir::with_nlink(a, false, bytes::w32(n + 1)),
                            false,
                            s.now,
                        ),
                        MFS_MAGIC_FILE,
                    )
                },
            },
        }
    }

    /// The entry for file `ino` made at path `d` in normal form, which must name nothing.
    #[verifier::opaque]
    pub open spec fn link_at(self, ino: u32, d: Seq<u8>) -> (MfsView, bool) {
        let comp = path::leaf_of(d);
        match self.resolve(d, false) {
            (s, Some(x)) => (s, false),
            (s, None) => if comp.len() == 0 {
                (s, false)
            } else {
                match s.resolve(path::pop_segment(d), true) {
                    (s2, None) => (s2, false),
                    (s2, Some((dir, loc))) => match s2.dir_insert(dir, comp, ino, MFS_TYPE_FILE) {
                        (s3, false) => (s3, false),
                        (s3, true) => s3.bump_nlink(ino),
                    },
                }
            },
        }
    }

    /// A second name `dst` given to the file that `src` names.
    #[verifier::opaque]
    pub open spec fn link(self, src: Seq<u8>, dst: Seq<u8>) -> (MfsView, bool) {
        match (raw_normal(src), raw_normal(dst)) {
            (Some(sc), Some(dc)) => if sc.len() == 1 || dc.len() == 1 {
                (self, false)
            } else {
                match self.resolve(sc, true) {
                    (s, None) => (s, false),
                    (s, Some((ino, loc))) => match s.object_block(ino) {
                        (s2, None) => (s2, false),
                        (s2, Some(blk)) => if s2.load(blk, MFS_MAGIC_DIR) is Some {
                            (s2, false)
                        } else {
                            s2.link_at(ino, dc)
                        },
                    },
                }
            },
            _ => (self, false),
        }
    }

    /// The entry at `loc` for object `ino` removed, and the object's number given back.
    #[verifier::opaque]
    pub open spec fn drop_object(self, loc: MfsLoc, ino: u32) -> (MfsView, bool) {
        match self.dir_delete(loc) {
            (s, false) => (s, false),
            (s, true) => s.free_ino(ino),
        }
    }

    /// One name less for file `ino`; with the last one its number is given back.
    #[verifier::opaque]
    pub open spec fn drop_name(self, ino: u32) -> (MfsView, bool) {
        match self.object_block(ino) {
            (s, None) => (s, false),
            (s, Some(blk)) => match s.load(blk, MFS_MAGIC_FILE) {
                None => (s, false),
                Some(a) => if mfs_dir::nlink_of(a, false) > 1 {
                    s.commit_object(
                        ino,
                        mfs_dir::with_ctime(
                            mfs_dir::with_nlink(
                                a,
                                false,
                                (mfs_dir::nlink_of(a, false) - 1) as u32,
                            ),
                            false,
                            s.now,
                        ),
                        MFS_MAGIC_FILE,
                    )
                } else {
                    s.free_ino(ino)
                },
            },
        }
    }

    /// The file, link or (`want_dir`) empty directory at path `p` removed.
    #[verifier::opaque]
    pub open spec fn remove(self, p: Seq<u8>, want_dir: bool) -> (MfsView, bool) {
        match raw_normal(p) {
            None => (self, false),
            Some(c) => if c.len() == 1 {
                (self, false)
            } else {
                match self.resolve(c, false) {
                    (s, None) => (s, false),
                    (s, Some((ino, loc))) => if loc.dir_ino == 0 {
                        (s, false)
                    } else {
                        match s.load(loc.blk, MFS_MAGIC_DIR) {
                            None => (s, false),
                            Some(b) => {
                                let typ = mfs_dir::ent_type(b, loc.off as int);
                                if want_dir != (typ == MFS_TYPE_DIR) {
                                    (s, false)
                                } else if typ == MFS_TYPE_DIR {
                                    match s.dir_is_empty(ino) {
                                        (s2, Some(true)) => s2.drop_object(loc, ino),
                                        (s2, _) => (s2, false),
                                    }
                                } else if typ == MFS_TYPE_LINK {
                                    s.drop_object(loc, ino)
                                } else {
                                    match s.dir_delete(loc) {
                                        (s2, false) => (s2, false),
                                        (s2, true) => s2.drop_name(ino),
                                    }
                                }
                            },
                        }
                    },
                }
            },
        }
    }

    /// Object `ino`, named by the entry at `loc`, made way for one of type `typ`: an object of
    /// another type and a directory that is not empty stay. A file loses the name, and stays
    /// with its other ones.
    #[verifier::opaque]
    pub open spec fn make_way(self, ino: u32, loc: MfsLoc, typ: u32) -> (MfsView, bool) {
        match self.object_block(ino) {
            (s, None) => (s, false),
            (s, Some(blk)) => if s.node_type(blk) != Some(typ) {
                (s, false)
            } else if typ == MFS_TYPE_DIR {
                match s.dir_is_empty(ino) {
                    (s2, Some(true)) => s2.drop_object(loc, ino),
                    (s2, _) => (s2, false),
                }
            } else if typ == MFS_TYPE_FILE {
                match s.dir_delete(loc) {
                    (s2, false) => (s2, false),
                    (s2, true) => s2.drop_name(ino),
                }
            } else {
                s.drop_object(loc, ino)
            },
        }
    }

    /// Object `ino` entered at path `d`, and then its entry at path `s` removed.
    #[verifier::opaque]
    pub open spec fn move_entry(self, ino: u32, typ: u32, sc: Seq<u8>, d: Seq<u8>) -> (
        MfsView,
        bool,
    ) {
        match self.resolve(path::pop_segment(d), true) {
            (s, None) => (s, false),
            (s, Some((dir, l))) => match s.dir_insert(dir, path::leaf_of(d), ino, typ) {
                (s2, false) => (s2, false),
                (s2, true) => match s2.resolve(sc, false) {
                    (s3, None) => (s3, false),
                    (s3, Some((x, loc))) => s3.dir_delete(loc),
                },
            },
        }
    }

    /// Object `ino`, named by the entry at `loc`, moved from path `sc` to path `dc`. What stands
    /// there makes way.
    #[verifier::opaque]
    pub open spec fn rename_to(
        self,
        ino: u32,
        typ: u32,
        loc: MfsLoc,
        sc: Seq<u8>,
        dc: Seq<u8>,
    ) -> (MfsView, bool) {
        match self.resolve(dc, false) {
            (s, None) => s.move_entry(ino, typ, sc, dc),
            (s, Some((gone, at))) => if at == loc {
                (s, true)
            } else {
                match s.make_way(gone, at, typ) {
                    (s2, false) => (s2, false),
                    (s2, true) => s2.move_entry(ino, typ, sc, dc),
                }
            },
        }
    }

    /// The object at path `src` moved to path `dst`. What stands there makes way, even where it
    /// is the object under another of its names; where both paths end at one entry, there is
    /// nothing to do. A directory is not moved below itself, by whatever links the path to it
    /// goes.
    #[verifier::opaque]
    pub open spec fn rename(self, src: Seq<u8>, dst: Seq<u8>) -> (MfsView, bool) {
        match (raw_normal(src), raw_normal(dst)) {
            (Some(sc), Some(dc)) => if sc.len() == 1 || dc.len() == 1 {
                (self, false)
            } else if sc == dc {
                (self, true)
            } else {
                match self.resolve(sc, false) {
                    (s, None) => (s, false),
                    (s, Some((ino, loc))) => match s.object_block(ino) {
                        (s2, None) => (s2, false),
                        (s2, Some(blk)) => match s2.node_type(blk) {
                            None => (s2, false),
                            Some(typ) => if typ == MFS_TYPE_DIR && is_below(sc, dc)
                                || path::leaf_of(dc).len() == 0 {
                                (s2, false)
                            } else {
                                match s2.rings(ino, typ, dc) {
                                    (s2, true) => (s2, false),
                                    (s2, false) => s2.rename_to(ino, typ, loc, sc, dc),
                                }
                            },
                        },
                    },
                }
            },
            _ => (self, false),
        }
    }

    /// The permissions of the object at path `p` set.
    #[verifier::opaque]
    pub open spec fn chmod(self, p: Seq<u8>, mode: u16) -> (MfsView, bool) {
        match raw_normal(p) {
            None => (self, false),
            Some(c) => match self.resolve(c, true) {
                (s, None) => (s, false),
                (s, Some((ino, loc))) => match s.object_block(ino) {
                    (s2, None) => (s2, false),
                    (s2, Some(blk)) => match s2.rd(blk) {
                        None => (s2, false),
                        Some(a) => {
                            let is_dir = mfs::block_ok(a, MFS_MAGIC_DIR);
                            if !is_dir && !mfs::block_ok(a, MFS_MAGIC_FILE) {
                                (s2, false)
                            } else {
                                s2.commit_object(
                                    ino,
                                    mfs_dir::with_ctime(
                                        mfs_dir::with_mode(a, is_dir, mode),
                                        is_dir,
                                        s2.now,
                                    ),
                                    if is_dir {
                                        MFS_MAGIC_DIR
                                    } else {
                                        MFS_MAGIC_FILE
                                    },
                                )
                            }
                        },
                    },
                },
            },
        }
    }

    /// The target of the symbolic link at path `p`, as far as one message carries it.
    #[verifier::opaque]
    pub open spec fn readlink(self, p: Seq<u8>) -> (MfsView, Option<Seq<u8>>) {
        match raw_normal(p) {
            None => (self, None),
            Some(c) => match self.resolve(c, false) {
                (s, None) => (s, None),
                (s, Some((ino, loc))) => if loc.dir_ino == 0 {
                    (s, None)
                } else {
                    match s.load(loc.blk, MFS_MAGIC_DIR) {
                        None => (s, None),
                        Some(b) => if mfs_dir::ent_type(b, loc.off as int) != MFS_TYPE_LINK {
                            (s, None)
                        } else {
                            match s.link_target(ino) {
                                (s2, None) => (s2, None),
                                (s2, Some(t)) => (
                                    s2,
                                    Some(
                                        t.subrange(
                                            0,
                                            mfs_file::least(t.len() as int, vfs::PAYLOAD_LEN - 1),
                                        ),
                                    ),
                                ),
                            }
                        },
                    }
                },
            },
        }
    }

    /// The listing record of the entry at `off`.
    #[verifier::opaque]
    pub open spec fn entry_record(self, b: Seq<u8>, off: int) -> (MfsView, DirEntryView) {
        let name = mfs_dir::ent_name(b, off);
        let is_dir = mfs_dir::ent_type(b, off) == MFS_TYPE_DIR;
        let e = DirEntryView::plain(
            tmpfs::seg_83(name),
            name.subrange(0, mfs_file::least(name.len() as int, DIR_LONG_MAX as int)),
            0,
            is_dir,
        );
        let (s, r) = self.object_block(mfs_dir::ent_ino(b, off));
        match r {
            None => (s, e),
            Some(blk) => match s.rd(blk) {
                None => (s, e),
                Some(a) => (
                    s,
                    DirEntryView {
                        size: if !is_dir && (mfs::block_ok(a, MFS_MAGIC_FILE) || mfs::block_ok(
                            a,
                            MFS_MAGIC_LINK,
                        )) {
                            mfs_file::file_size(a)
                        } else {
                            0
                        },
                        mode: mfs_dir::mode_of(a, is_dir),
                        owner: mfs_dir::owner_of(a, is_dir),
                        nlink: mfs_dir::nlink_of(a, is_dir),
                        mtime: mfs_dir::mtime_of(a, is_dir),
                        ..e
                    },
                ),
            },
        }
    }

    /// The entries of a directory block from `off` on, after `out`.
    pub open spec fn emit(self, b: Seq<u8>, off: int, out: Seq<DirEntryView>) -> (
        MfsView,
        Seq<DirEntryView>,
    )
        decreases 4096 - off,
    {
        if off + 8 > 4096 || out.len() >= RESULT_MAX_ENTRIES {
            (self, out)
        } else {
            let (s, o) = if mfs_dir::ent_nlen(b, off) != 0 {
                let (s1, e) = self.entry_record(b, off);
                (s1, out.push(e))
            } else {
                (self, out)
            };
            if mfs_dir::ent_bad(b, off) {
                (s, o)
            } else {
                s.emit(b, off + mfs_dir::ent_rec(b, off), o)
            }
        }
    }

    /// The entries of the further blocks of a directory from slot `i` on, after `out`.
    pub open spec fn emit_ext(self, b: Seq<u8>, i: int, out: Seq<DirEntryView>) -> (
        MfsView,
        Seq<DirEntryView>,
    )
        decreases 1022 - i,
    {
        if i >= 1022 || out.len() >= RESULT_MAX_ENTRIES {
            (self, out)
        } else {
            let blk = mfs::slot(b, i);
            if blk == 0 {
                self.emit_ext(b, i + 1, out)
            } else {
                match self.load(blk, MFS_MAGIC_DIR) {
                    None => self.emit_ext(b, i + 1, out),
                    Some(c) => {
                        let (s, o) = self.emit(c, 56, out);
                        s.emit_ext(b, i + 1, o)
                    },
                }
            }
        }
    }

    /// The listing of directory `ino`.
    #[verifier::opaque]
    pub open spec fn readdir(self, ino: u32) -> (MfsView, Option<Seq<DirEntryView>>) {
        match self.object_block(ino) {
            (s, None) => (s, None),
            (s, Some(blk)) => match s.load(blk, MFS_MAGIC_DIR) {
                None => (s, None),
                Some(a) => {
                    let (s1, o1) = s.emit(a, 56, Seq::empty());
                    if mfs_dir::dir_ext(a) == 0 {
                        (s1, Some(o1))
                    } else {
                        match s1.load(mfs_dir::dir_ext(a), MFS_MAGIC_DIDX) {
                            None => (s1, Some(o1)),
                            Some(b) => {
                                let (s2, o2) = s1.emit_ext(b, 0, o1);
                                (s2, Some(o2))
                            },
                        }
                    }
                },
            },
        }
    }
}

/// The normal form of an absolute path.
pub fn mfs_normalize(p: &[u8]) -> (r: Option<Vec<u8>>)
    ensures
        bytes::opt(r) == raw_normal(p@),
        r matches Some(v) ==> 1 <= v@.len() <= MFS_PATH_MAX,
{
    path::normalize(p, MFS_NAME_MAX, MFS_PATH_MAX)
}

/// A path without its last segment.
fn parent_path(p: &Vec<u8>) -> (r: Vec<u8>)
    requires
        p.len() >= 1,
    ensures
        r@ == path::pop_segment(p@),
        r.len() >= 1,
        r.len() <= p.len(),
{
    let at: usize = path::leaf_start(p);
    let n: usize = if p.len() <= 1 {
        p.len()
    } else if at > 1 {
        at - 1
    } else {
        1
    };
    let r: Vec<u8> = bytes::slice_copy(p, 0, n);
    assert(r@ =~= path::pop_segment(p@));
    r
}

/// The last segment of a path.
fn leaf_name(p: &Vec<u8>) -> (r: Vec<u8>)
    ensures
        r@ == path::leaf_of(p@),
{
    let at: usize = path::leaf_start(p);
    bytes::slice_copy(p, at, p.len())
}

/// The type that a node's magic says.
fn type_of_node(b: &Vec<u8>) -> (r: Option<u32>)
    requires
        b.len() == MFS_BLOCK,
    ensures
        r == node_type_of(b@),
{
    if mfs::mfs_ok(b, MFS_MAGIC_DIR) {
        Some(MFS_TYPE_DIR)
    } else if mfs::mfs_ok(b, MFS_MAGIC_FILE) {
        Some(MFS_TYPE_FILE)
    } else if mfs::mfs_ok(b, MFS_MAGIC_LINK) {
        Some(MFS_TYPE_LINK)
    } else {
        None
    }
}

/// A path with a name replaced by a link's target.
fn put_target(buf: &Vec<u8>, start: usize, end: usize, target: &Vec<u8>) -> (r: Vec<u8>)
    requires
        start <= end <= buf.len(),
        target.len() >= 1,
    ensures
        r@ == with_target(buf@, start as int, end as int, target@),
{
    let mut out: Vec<u8> = Vec::new();
    if target[0] != 0x2F {
        let mut head: Vec<u8> = bytes::slice_copy(buf, 0, start);
        out.append(&mut head);
    }
    let mut mid: Vec<u8> = bytes::slice_copy(target, 0, target.len());
    out.append(&mut mid);
    let mut rest: Vec<u8> = bytes::slice_copy(buf, end, buf.len());
    out.append(&mut rest);
    assert(out@ =~= with_target(buf@, start as int, end as int, target@));
    out
}

impl Mfs {
    /// The target of symbolic link `ino`.
    pub fn mfs_link_target(&mut self, ino: u32) -> (r: Option<Vec<u8>>)
        requires
            old(self).inv(),
        ensures
            final(self).inv(),
            (final(self)@, bytes::opt(r)) == old(self)@.link_target(ino),
            r matches Some(t) ==> 1 <= t@.len() <= MFS_LINK_MAX,
    {
        proof {
            reveal(MfsView::link_target);
        }
        let blk: u32 = match self.object_block(ino) {
            Some(b) => b,
            None => {
                return None;
            },
        };
        let a: Vec<u8> = match self.load(blk, MFS_MAGIC_LINK) {
            Some(a) => a,
            None => {
                return None;
            },
        };
        let n: u64 = bytes::read_u64(&a, 8);
        if n == 0 || n > MFS_LINK_MAX as u64 {
            return None;
        }
        Some(bytes::slice_copy(&a, 16, 16 + n as usize))
    }

    /// Walks along a path.
    #[verifier::loop_isolation(false)]
    fn walk(&mut self, buf: &Vec<u8>, leaf: MfsLoc, follow: bool) -> (r: Walk)
        requires
            old(self).inv(),
            buf.len() >= 1,
        ensures
            final(self).inv(),
            (final(self)@, r) == old(self)@.walk(buf@, 1, MFS_ROOT_INO, leaf, follow),
            r matches Walk::At { ino, loc } ==> loc.off + 8 <= 4096,
            r matches Walk::Link { start, end, ino, leaf: l } ==> start <= end <= buf@.len() && (
            leaf.off + 8 <= 4096 ==> l.off + 8 <= 4096),
    {
        let ghost goal = old(self)@.walk(buf@, 1, MFS_ROOT_INO, leaf, follow);
        let mut i: usize = 1;
        let mut cur: u32 = MFS_ROOT_INO;
        let mut at: MfsLoc = leaf;
        while i < buf.len()
            invariant
                self.inv(),
                1 <= i <= buf.len() + 1,
                self@.walk(buf@, i as int, cur, at, follow) == goal,
                leaf.off + 8 <= 4096 ==> at.off + 8 <= 4096,
            decreases buf.len() + 1 - i,
        {
            let start: usize = i;
            let mut end: usize = i;
            while end < buf.len() && buf[end] != 0x2F
                invariant
                    start <= end <= buf.len(),
                    path::seg_end(buf@, end as int) == path::seg_end(buf@, start as int),
                decreases buf.len() - end,
            {
                end = end + 1;
            }
            if end == start || end - start > MFS_NAME_MAX {
                return Walk::Fail;
            }
            let comp: Vec<u8> = bytes::slice_copy(buf, start, end);
            let loc: MfsLoc = match self.mfs_dir_lookup(cur, &comp) {
                Some(l) => l,
                None => {
                    return Walk::Fail;
                },
            };
            let c: Vec<u8> = match self.load(loc.blk, MFS_MAGIC_DIR) {
                Some(c) => c,
                None => {
                    return Walk::Fail;
                },
            };
            let ino: u32 = bytes::read_u32(&c, loc.off);
            let link: bool = c[loc.off + 4] as u32 == MFS_TYPE_LINK;
            if ino == 0 {
                return Walk::Fail;
            }
            if link && (end < buf.len() || follow) {
                return Walk::Link { start, end, ino, leaf: at };
            }
            if end >= buf.len() {
                return Walk::At { ino, loc };
            }
            cur = ino;
            at = loc;
            i = end + 1;
        }
        Walk::Fail
    }

    /// Follows a link on a path.
    fn follow(&mut self, buf: &Vec<u8>, start: usize, end: usize, ino: u32) -> (r: Option<Vec<u8>>)
        requires
            old(self).inv(),
            start <= end <= buf.len(),
        ensures
            final(self).inv(),
            (final(self)@, bytes::opt(r)) == old(self)@.followed(
                buf@,
                start as int,
                end as int,
                ino,
            ),
            r matches Some(b) ==> b.len() >= 1,
    {
        let t: Vec<u8> = match self.mfs_link_target(ino) {
            Some(t) => t,
            None => {
                return None;
            },
        };
        let merged: Vec<u8> = put_target(buf, start, end, &t);
        if merged.len() > MFS_PATH_MAX {
            return None;
        }
        mfs_normalize(&merged)
    }

    /// Whether the way along a path without links is in directory `dir` at any point.
    #[verifier::loop_isolation(false)]
    fn visits(&mut self, buf: &Vec<u8>, dir: u32) -> (r: bool)
        requires
            old(self).inv(),
        ensures
            final(self).inv(),
            (final(self)@, r) == old(self)@.visits(buf@, 1, MFS_ROOT_INO, dir),
    {
        let ghost goal = old(self)@.visits(buf@, 1, MFS_ROOT_INO, dir);
        let mut i: usize = 1;
        let mut cur: u32 = MFS_ROOT_INO;
        while cur != dir && i < buf.len()
            invariant
                self.inv(),
                1 <= i <= buf.len() + 1,
                self@.visits(buf@, i as int, cur, dir) == goal,
            decreases buf.len() + 1 - i,
        {
            let start: usize = i;
            let mut end: usize = i;
            while end < buf.len() && buf[end] != 0x2F
                invariant
                    start <= end <= buf.len(),
                    path::seg_end(buf@, end as int) == path::seg_end(buf@, start as int),
                decreases buf.len() - end,
            {
                end = end + 1;
            }
            if end == start || end - start > MFS_NAME_MAX {
                return false;
            }
            let comp: Vec<u8> = bytes::slice_copy(buf, start, end);
            let loc: MfsLoc = match self.mfs_dir_lookup(cur, &comp) {
                Some(l) => l,
                None => {
                    return false;
                },
            };
            let c: Vec<u8> = match self.load(loc.blk, MFS_MAGIC_DIR) {
                Some(c) => c,
                None => {
                    return false;
                },
            };
            let ino: u32 = bytes::read_u32(&c, loc.off);
            if end >= buf.len() {
                return ino == dir;
            }
            cur = ino;
            i = end + 1;
        }
        cur == dir
    }

    /// Whether directory `dir` is what a path in normal form names, or lies on the way to it.
    #[verifier::loop_isolation(false)]
    fn crosses(&mut self, canon: &Vec<u8>, dir: u32) -> (r: bool)
        requires
            old(self).inv(),
            canon.len() >= 1,
        ensures
            final(self).inv(),
            (final(self)@, r) == old(self)@.crosses(canon@, dir),
    {
        proof {
            reveal(MfsView::crosses);
        }
        if canon.len() > MFS_PATH_MAX {
            return false;
        }
        if canon.len() == 1 {
            return dir == MFS_ROOT_INO;
        }
        let mut buf: Vec<u8> = bytes::slice_copy(canon, 0, canon.len());
        assert(buf@ =~= canon@);
        let mut links: u32 = MFS_SYMLINK_MAX_DEPTH;
        let ghost goal = self@.crosses_from(buf@, dir, links as nat);
        loop
            invariant
                self.inv(),
                buf.len() >= 1,
                self@.crosses_from(buf@, dir, links as nat) == goal,
            decreases links,
        {
            match self.walk(&buf, MfsLoc { dir_ino: 0, blk: 0, off: 0 }, true) {
                Walk::Fail => {
                    return false;
                },
                Walk::At { ino: _ino, loc: _loc } => {
                    return self.visits(&buf, dir);
                },
                Walk::Link { start, end, ino, leaf: _leaf } => {
                    if links == 0 {
                        return false;
                    }
                    let b2: Vec<u8> = match self.follow(&buf, start, end, ino) {
                        Some(b) => b,
                        None => {
                            return false;
                        },
                    };
                    if b2.len() == 1 {
                        return dir == MFS_ROOT_INO;
                    }
                    buf = b2;
                    links = links - 1;
                },
            }
        }
    }

    /// The object that a path in normal form names, and the entry that names it.
    #[verifier::loop_isolation(false)]
    pub fn mfs_resolve_ex(&mut self, canon: &Vec<u8>, follow: bool) -> (r: Option<(u32, MfsLoc)>)
        requires
            old(self).inv(),
            canon.len() >= 1,
        ensures
            final(self).inv(),
            (final(self)@, r) == old(self)@.resolve(canon@, follow),
            r matches Some((ino, loc)) ==> loc.off + 8 <= 4096,
    {
        proof {
            reveal(MfsView::resolve);
        }
        let mut leaf = MfsLoc { dir_ino: 0, blk: 0, off: 0 };
        if canon.len() > MFS_PATH_MAX {
            return None;
        }
        if canon.len() == 1 {
            return Some((MFS_ROOT_INO, leaf));
        }
        let mut buf: Vec<u8> = bytes::slice_copy(canon, 0, canon.len());
        assert(buf@ =~= canon@);
        let mut links: u32 = MFS_SYMLINK_MAX_DEPTH;
        let ghost goal = self@.resolve_from(buf@, leaf, links as nat, follow);
        loop
            invariant
                self.inv(),
                buf.len() >= 1,
                leaf.off + 8 <= 4096,
                self@.resolve_from(buf@, leaf, links as nat, follow) == goal,
            decreases links,
        {
            match self.walk(&buf, leaf, follow) {
                Walk::Fail => {
                    return None;
                },
                Walk::At { ino, loc } => {
                    return Some((ino, loc));
                },
                Walk::Link { start, end, ino, leaf: l } => {
                    if links == 0 {
                        return None;
                    }
                    let b2: Vec<u8> = match self.follow(&buf, start, end, ino) {
                        Some(b) => b,
                        None => {
                            return None;
                        },
                    };
                    leaf = l;
                    if b2.len() == 1 {
                        return Some((MFS_ROOT_INO, leaf));
                    }
                    buf = b2;
                    links = links - 1;
                },
            }
        }
    }

    /// Whether block `blk` is a directory node.
    pub fn mfs_is_dir(&self, blk: u32) -> (r: bool)
        requires
            self.inv(),
        ensures
            r == (self@.load(blk, MFS_MAGIC_DIR) is Some),
    {
        self.load(blk, MFS_MAGIC_DIR).is_some()
    }

    /// The type of the node in block `blk`.
    pub fn mfs_node_type(&self, blk: u32) -> (r: Option<u32>)
        requires
            self.inv(),
        ensures
            r == self@.node_type(blk),
    {
        match self.mfs_read_blk(blk) {
            None => None,
            Some(b) => type_of_node(&b),
        }
    }

    /// What the node in block `blk` says of its object.
    pub fn mfs_stat_into(&self, blk: u32) -> (r: Option<Stat>)
        requires
            self.inv(),
        ensures
            r == self@.stat_block(blk),
    {
        let b: Vec<u8> = match self.mfs_read_blk(blk) {
            Some(b) => b,
            None => {
                return None;
            },
        };
        match type_of_node(&b) {
            None => None,
            Some(t) => {
                let is_dir: bool = t == MFS_TYPE_DIR;
                let o: usize = mfs_dir::mfs_meta_off(is_dir);
                let size: u64 = if is_dir {
                    0
                } else {
                    bytes::read_u64(&b, 8)
                };
                Some(
                    Stat {
                        size,
                        is_dir,
                        mode: bytes::read_u16(&b, o),
                        owner: bytes::read_u16(&b, o + 2),
                        nlink: bytes::read_u32(&b, o + 4),
                        mtime: bytes::read_u64(&b, o + 8),
                        ctime: bytes::read_u64(&b, o + 16),
                        atime: bytes::read_u64(&b, o + 24),
                    },
                )
            },
        }
    }

    /// What is known of the object that a path names.
    pub fn mfs_stat(&mut self, p: &Vec<u8>, follow: bool) -> (r: Option<Stat>)
        requires
            old(self).inv(),
        ensures
            final(self).inv(),
            (final(self)@, r) == old(self)@.stat(p@, follow),
    {
        proof {
            reveal(MfsView::stat);
        }
        match mfs_normalize(p) {
            None => None,
            Some(c) => match self.mfs_resolve_ex(&c, follow) {
                None => None,
                Some((ino, _loc)) => {
                    let blk: u32 = match self.mfs_ino_block(ino) {
                        Some(b) => b,
                        None => 0,
                    };
                    self.mfs_stat_into(blk)
                },
            },
        }
    }

    /// Whether the object that a path names is a directory.
    pub fn mfs_open_kind(&mut self, canon: &Vec<u8>) -> (r: Option<bool>)
        requires
            old(self).inv(),
            canon.len() >= 1,
        ensures
            final(self).inv(),
            (final(self)@, r) == old(self)@.open_kind(canon@),
    {
        proof {
            reveal(MfsView::open_kind);
        }
        match self.mfs_resolve_ex(canon, true) {
            None => None,
            Some((ino, _loc)) => match self.object_block(ino) {
                None => None,
                Some(blk) => Some(self.mfs_is_dir(blk)),
            },
        }
    }

    /// Commits a node, gives it a number and enters it into a directory.
    fn add_object(
        &mut self,
        dir_ino: u32,
        comp: &Vec<u8>,
        node: &mut Vec<u8>,
        magic: u32,
        typ: u32,
    ) -> (r: bool)
        requires
            old(self).inv(),
            old(node).len() == MFS_BLOCK,
            typ <= 255,
        ensures
            final(self).inv(),
            (final(self)@, r) == old(self)@.add_object(dir_ino, comp@, old(node)@, magic, typ),
    {
        proof {
            reveal(MfsView::add_object);
        }
        let obj: u32 = match self.mfs_commit(node, magic) {
            Some(b) => b,
            None => {
                return false;
            },
        };
        let ino: u32 = match self.mfs_ino_alloc_for(obj) {
            Some(i) => i,
            None => {
                return false;
            },
        };
        self.mfs_dir_insert(dir_ino, comp, ino, typ)
    }

    /// The directory in which a path can be made.
    fn place_for(&mut self, canon: &Vec<u8>) -> (r: Option<u32>)
        requires
            old(self).inv(),
            canon.len() >= 1,
        ensures
            final(self).inv(),
            (final(self)@, r) == old(self)@.place_for(canon@),
    {
        proof {
            reveal(MfsView::place_for);
        }
        let comp: Vec<u8> = leaf_name(canon);
        if comp.len() == 0 {
            return None;
        }
        let up: Vec<u8> = parent_path(canon);
        let dir: u32 = match self.mfs_resolve_ex(&up, true) {
            Some((d, _loc)) => d,
            None => {
                return None;
            },
        };
        if self.mfs_dir_lookup(dir, &comp).is_some() {
            return None;
        }
        Some(dir)
    }

    /// Whether a path names something, and if so whether that is a directory.
    fn open_or_none(&mut self, canon: &Vec<u8>) -> (r: Option<Option<bool>>)
        requires
            old(self).inv(),
            canon.len() >= 1,
        ensures
            final(self).inv(),
            (final(self)@, r) == old(self)@.open_or_none(canon@),
    {
        proof {
            reveal(MfsView::open_or_none);
        }
        match self.mfs_resolve_ex(canon, true) {
            None => None,
            Some((ino, _loc)) => match self.object_block(ino) {
                None => Some(None),
                Some(blk) => Some(Some(self.mfs_is_dir(blk))),
            },
        }
    }

    /// Makes a file or directory.
    pub fn mfs_create(&mut self, canon: &Vec<u8>, is_dir: bool, owner: u16) -> (r: bool)
        requires
            old(self).inv(),
            canon.len() >= 1,
        ensures
            final(self).inv(),
            (final(self)@, r) == old(self)@.create(canon@, is_dir, owner),
    {
        proof {
            reveal(MfsView::create);
        }
        match self.open_or_none(canon) {
            Some(found) => {
                return match found {
                    Some(d) => !is_dir && !d,
                    None => false,
                };
            },
            None => {},
        }
        let dir: u32 = match self.place_for(canon) {
            Some(d) => d,
            None => {
                return false;
            },
        };
        let comp: Vec<u8> = leaf_name(canon);
        let mut node: Vec<u8> = bytes::zero_vec(4096);
        if is_dir {
            mfs_dir::mfs_dir_init_empty(&mut node);
            mfs_dir::mfs_init_meta(&mut node, true, MODE_FTYPE_DIR, owner, MFS_MODE_DIR, self.now);
            self.add_object(dir, &comp, &mut node, MFS_MAGIC_DIR, MFS_TYPE_DIR)
        } else {
            mfs_dir::mfs_init_meta(
                &mut node,
                false,
                MODE_FTYPE_FILE,
                owner,
                MFS_MODE_FILE,
                self.now,
            );
            self.add_object(dir, &comp, &mut node, MFS_MAGIC_FILE, MFS_TYPE_FILE)
        }
    }

    /// Makes a symbolic link.
    pub fn mfs_symlink(&mut self, target: &Vec<u8>, p: &Vec<u8>, owner: u16) -> (r: bool)
        requires
            old(self).inv(),
        ensures
            final(self).inv(),
            (final(self)@, r) == old(self)@.symlink(target@, p@, owner),
    {
        proof {
            reveal(MfsView::symlink);
        }
        if target.len() == 0 || target.len() > MFS_LINK_MAX {
            return false;
        }
        let c: Vec<u8> = match mfs_normalize(p) {
            Some(c) => c,
            None => {
                return false;
            },
        };
        if c.len() == 1 {
            return false;
        }
        if self.mfs_resolve_ex(&c, false).is_some() {
            return false;
        }
        let dir: u32 = match self.place_for(&c) {
            Some(d) => d,
            None => {
                return false;
            },
        };
        let comp: Vec<u8> = leaf_name(&c);
        let mut node: Vec<u8> = bytes::zero_vec(4096);
        bytes::write_u64(&mut node, 8, target.len() as u64);
        bytes::copy_into(&mut node, 16, target, 0, target.len());
        assert(target@.subrange(0, target@.len() as int) =~= target@);
        mfs_dir::mfs_init_meta(&mut node, false, MODE_FTYPE_LINK, owner, MFS_MODE_LINK, self.now);
        self.add_object(dir, &comp, &mut node, MFS_MAGIC_LINK, MFS_TYPE_LINK)
    }

    /// One name more for file `ino`.
    #[verifier::spinoff_prover]
    #[verifier::rlimit(60)]
    fn bump_nlink(&mut self, ino: u32) -> (r: bool)
        requires
            old(self).inv(),
        ensures
            final(self).inv(),
            (final(self)@, r) == old(self)@.bump_nlink(ino),
    {
        proof {
            reveal(MfsView::bump_nlink);
        }
        let blk: u32 = match self.object_block(ino) {
            Some(b) => b,
            None => {
                return false;
            },
        };
        let mut a: Vec<u8> = match self.load(blk, MFS_MAGIC_FILE) {
            Some(a) => a,
            None => {
                return false;
            },
        };
        let raw: u32 = bytes::read_u32(&a, 4060);
        let n: u32 = if raw == 0 {
            2
        } else if raw == 0xFFFF_FFFF {
            0
        } else {
            raw + 1
        };
        mfs_dir::mfs_set_nlink(&mut a, false, n);
        mfs_dir::mfs_touch_ctime(&mut a, false, self.now);
        self.mfs_commit_object(ino, &mut a, MFS_MAGIC_FILE)
    }

    /// Enters file `ino` at a path that names nothing.
    fn link_at(&mut self, ino: u32, d: &Vec<u8>) -> (r: bool)
        requires
            old(self).inv(),
            d.len() >= 1,
        ensures
            final(self).inv(),
            (final(self)@, r) == old(self)@.link_at(ino, d@),
    {
        proof {
            reveal(MfsView::link_at);
        }
        if self.mfs_resolve_ex(d, false).is_some() {
            return false;
        }
        let comp: Vec<u8> = leaf_name(d);
        if comp.len() == 0 {
            return false;
        }
        let up: Vec<u8> = parent_path(d);
        let dir: u32 = match self.mfs_resolve_ex(&up, true) {
            Some((x, _loc)) => x,
            None => {
                return false;
            },
        };
        if !self.mfs_dir_insert(dir, &comp, ino, MFS_TYPE_FILE) {
            return false;
        }
        self.bump_nlink(ino)
    }

    /// Gives a file a second name.
    pub fn mfs_link(&mut self, src: &Vec<u8>, dst: &Vec<u8>) -> (r: bool)
        requires
            old(self).inv(),
        ensures
            final(self).inv(),
            (final(self)@, r) == old(self)@.link(src@, dst@),
    {
        proof {
            reveal(MfsView::link);
        }
        let sc: Vec<u8> = match mfs_normalize(src) {
            Some(c) => c,
            None => {
                return false;
            },
        };
        let dc: Vec<u8> = match mfs_normalize(dst) {
            Some(c) => c,
            None => {
                return false;
            },
        };
        if sc.len() == 1 || dc.len() == 1 {
            return false;
        }
        let ino: u32 = match self.mfs_resolve_ex(&sc, true) {
            Some((x, _loc)) => x,
            None => {
                return false;
            },
        };
        let blk: u32 = match self.object_block(ino) {
            Some(b) => b,
            None => {
                return false;
            },
        };
        if self.mfs_is_dir(blk) {
            return false;
        }
        self.link_at(ino, &dc)
    }

    /// Removes an entry and gives its object's number back.
    fn drop_object(&mut self, loc: MfsLoc, ino: u32) -> (r: bool)
        requires
            old(self).inv(),
            loc.off + 8 <= 4096,
        ensures
            final(self).inv(),
            (final(self)@, r) == old(self)@.drop_object(loc, ino),
    {
        proof {
            reveal(MfsView::drop_object);
        }
        if !self.mfs_dir_delete(loc) {
            return false;
        }
        self.mfs_free_ino(ino)
    }

    /// One name less for file `ino`.
    fn drop_name(&mut self, ino: u32) -> (r: bool)
        requires
            old(self).inv(),
        ensures
            final(self).inv(),
            (final(self)@, r) == old(self)@.drop_name(ino),
    {
        proof {
            reveal(MfsView::drop_name);
        }
        let blk: u32 = match self.object_block(ino) {
            Some(b) => b,
            None => {
                return false;
            },
        };
        let mut a: Vec<u8> = match self.load(blk, MFS_MAGIC_FILE) {
            Some(a) => a,
            None => {
                return false;
            },
        };
        let n: u32 = bytes::read_u32(&a, 4060);
        if n > 1 {
            mfs_dir::mfs_set_nlink(&mut a, false, n - 1);
            mfs_dir::mfs_touch_ctime(&mut a, false, self.now);
            self.mfs_commit_object(ino, &mut a, MFS_MAGIC_FILE)
        } else {
            self.mfs_free_ino(ino)
        }
    }

    /// Removes a file, a link or an empty directory.
    pub fn mfs_remove(&mut self, p: &Vec<u8>, want_dir: bool) -> (r: bool)
        requires
            old(self).inv(),
        ensures
            final(self).inv(),
            (final(self)@, r) == old(self)@.remove(p@, want_dir),
    {
        proof {
            reveal(MfsView::remove);
        }
        let c: Vec<u8> = match mfs_normalize(p) {
            Some(c) => c,
            None => {
                return false;
            },
        };
        if c.len() == 1 {
            return false;
        }
        let (ino, loc): (u32, MfsLoc) = match self.mfs_resolve_ex(&c, false) {
            Some(x) => x,
            None => {
                return false;
            },
        };
        if loc.dir_ino == 0 {
            return false;
        }
        let b: Vec<u8> = match self.load(loc.blk, MFS_MAGIC_DIR) {
            Some(b) => b,
            None => {
                return false;
            },
        };
        let typ: u32 = b[loc.off + 4] as u32;
        if want_dir != (typ == MFS_TYPE_DIR) {
            return false;
        }
        if typ == MFS_TYPE_DIR {
            return match self.mfs_dir_is_empty(ino) {
                Some(e) => {
                    if e {
                        self.drop_object(loc, ino)
                    } else {
                        false
                    }
                },
                None => false,
            };
        }
        if typ == MFS_TYPE_LINK {
            return self.drop_object(loc, ino);
        }
        if !self.mfs_dir_delete(loc) {
            return false;
        }
        self.drop_name(ino)
    }

    /// Has an object make way for one of type `typ`.
    fn make_way(&mut self, ino: u32, loc: MfsLoc, typ: u32) -> (r: bool)
        requires
            old(self).inv(),
            loc.off + 8 <= 4096,
        ensures
            final(self).inv(),
            (final(self)@, r) == old(self)@.make_way(ino, loc, typ),
    {
        proof {
            reveal(MfsView::make_way);
        }
        let blk: u32 = match self.object_block(ino) {
            Some(b) => b,
            None => {
                return false;
            },
        };
        let same: bool = match self.mfs_node_type(blk) {
            Some(t) => t == typ,
            None => false,
        };
        if !same {
            return false;
        }
        if typ == MFS_TYPE_DIR {
            let empty: bool = match self.mfs_dir_is_empty(ino) {
                Some(e) => e,
                None => false,
            };
            if !empty {
                return false;
            }
        }
        if typ == MFS_TYPE_FILE {
            if !self.mfs_dir_delete(loc) {
                return false;
            }
            return self.drop_name(ino);
        }
        self.drop_object(loc, ino)
    }

    /// Enters an object at one path, and then removes its entry at another.
    fn move_entry(&mut self, ino: u32, typ: u32, sc: &Vec<u8>, d: &Vec<u8>) -> (r: bool)
        requires
            old(self).inv(),
            sc.len() >= 1,
            d.len() >= 1,
            typ <= 255,
        ensures
            final(self).inv(),
            (final(self)@, r) == old(self)@.move_entry(ino, typ, sc@, d@),
    {
        proof {
            reveal(MfsView::move_entry);
        }
        let up: Vec<u8> = parent_path(d);
        let dir: u32 = match self.mfs_resolve_ex(&up, true) {
            Some((x, _loc)) => x,
            None => {
                return false;
            },
        };
        let comp: Vec<u8> = leaf_name(d);
        if !self.mfs_dir_insert(dir, &comp, ino, typ) {
            return false;
        }
        match self.mfs_resolve_ex(sc, false) {
            None => false,
            Some((_ino, loc)) => self.mfs_dir_delete(loc),
        }
    }

    /// Moves an object to another path.
    pub fn mfs_rename(&mut self, src: &Vec<u8>, dst: &Vec<u8>) -> (r: bool)
        requires
            old(self).inv(),
        ensures
            final(self).inv(),
            (final(self)@, r) == old(self)@.rename(src@, dst@),
    {
        proof {
            reveal(MfsView::rename);
        }
        let sc: Vec<u8> = match mfs_normalize(src) {
            Some(c) => c,
            None => {
                return false;
            },
        };
        let dc: Vec<u8> = match mfs_normalize(dst) {
            Some(c) => c,
            None => {
                return false;
            },
        };
        if sc.len() == 1 || dc.len() == 1 {
            return false;
        }
        if bytes::bytes_eq(&sc, &dc) {
            return true;
        }
        let (ino, loc): (u32, MfsLoc) = match self.mfs_resolve_ex(&sc, false) {
            Some(x) => x,
            None => {
                return false;
            },
        };
        let blk: u32 = match self.object_block(ino) {
            Some(b) => b,
            None => {
                return false;
            },
        };
        let typ: u32 = match self.mfs_node_type(blk) {
            Some(t) => t,
            None => {
                return false;
            },
        };
        if typ == MFS_TYPE_DIR && dc.len() > sc.len() && dc[sc.len()] == 0x2F {
            let head: Vec<u8> = bytes::slice_copy(&dc, 0, sc.len());
            if bytes::bytes_eq(&head, &sc) {
                return false;
            }
        }
        let comp: Vec<u8> = leaf_name(&dc);
        if comp.len() == 0 {
            return false;
        }
        proof {
            reveal(MfsView::rings);
            reveal(MfsView::rename_to);
        }
        if typ == MFS_TYPE_DIR {
            let parent: Vec<u8> = parent_path(&dc);
            if self.crosses(&parent, ino) {
                return false;
            }
        }
        match self.mfs_resolve_ex(&dc, false) {
            None => {},
            Some((gone, at)) => {
                if at.dir_ino == loc.dir_ino && at.blk == loc.blk && at.off == loc.off {
                    return true;
                }
                if !self.make_way(gone, at, typ) {
                    return false;
                }
            },
        }
        self.move_entry(ino, typ, &sc, &dc)
    }

    /// Sets the permissions of an object.
    pub fn mfs_chmod(&mut self, p: &Vec<u8>, mode: u16) -> (r: bool)
        requires
            old(self).inv(),
        ensures
            final(self).inv(),
            (final(self)@, r) == old(self)@.chmod(p@, mode),
    {
        proof {
            reveal(MfsView::chmod);
        }
        let c: Vec<u8> = match mfs_normalize(p) {
            Some(c) => c,
            None => {
                return false;
            },
        };
        let ino: u32 = match self.mfs_resolve_ex(&c, true) {
            Some((x, _loc)) => x,
            None => {
                return false;
            },
        };
        let blk: u32 = match self.object_block(ino) {
            Some(b) => b,
            None => {
                return false;
            },
        };
        let mut a: Vec<u8> = match self.mfs_read_blk(blk) {
            Some(a) => a,
            None => {
                return false;
            },
        };
        let is_dir: bool = mfs::mfs_ok(&a, MFS_MAGIC_DIR);
        if !is_dir && !mfs::mfs_ok(&a, MFS_MAGIC_FILE) {
            return false;
        }
        mfs_dir::mfs_set_mode(&mut a, is_dir, mode);
        mfs_dir::mfs_touch_ctime(&mut a, is_dir, self.now);
        if is_dir {
            self.mfs_commit_object(ino, &mut a, MFS_MAGIC_DIR)
        } else {
            self.mfs_commit_object(ino, &mut a, MFS_MAGIC_FILE)
        }
    }

    /// The target of the symbolic link at a path.
    pub fn mfs_readlink(&mut self, p: &Vec<u8>) -> (r: Option<Vec<u8>>)
        requires
            old(self).inv(),
        ensures
            final(self).inv(),
            (final(self)@, bytes::opt(r)) == old(self)@.readlink(p@),
    {
        proof {
            reveal(MfsView::readlink);
        }
        let c: Vec<u8> = match mfs_normalize(p) {
            Some(c) => c,
            None => {
                return None;
            },
        };
        let (ino, loc): (u32, MfsLoc) = match self.mfs_resolve_ex(&c, false) {
            Some(x) => x,
            None => {
                return None;
            },
        };
        if loc.dir_ino == 0 {
            return None;
        }
        let b: Vec<u8> = match self.load(loc.blk, MFS_MAGIC_DIR) {
            Some(b) => b,
            None => {
                return None;
            },
        };
        if b[loc.off + 4] as u32 != MFS_TYPE_LINK {
            return None;
        }
        match self.mfs_link_target(ino) {
            None => None,
            Some(t) => {
                let n: usize = if t.len() <= vfs::PAYLOAD_LEN - 1 {
                    t.len()
                } else {
                    vfs::PAYLOAD_LEN - 1
                };
                Some(bytes::slice_copy(&t, 0, n))
            },
        }
    }

    /// The listing record of an entry.
    fn entry_record(&mut self, b: &Vec<u8>, off: usize) -> (r: DirEntry)
        requires
            old(self).inv(),
            b.len() == MFS_BLOCK,
            off + 8 <= 4096,
        ensures
            final(self).inv(),
            (final(self)@, r@) == old(self)@.entry_record(b@, off as int),
    {
        proof {
            reveal(MfsView::entry_record);
        }
        let nl: usize = b[off + 5] as usize;
        let end: usize = if off + 8 + nl <= 4096 {
            off + 8 + nl
        } else {
            4096
        };
        let name: Vec<u8> = bytes::slice_copy(b, off + 8, end);
        let is_dir: bool = b[off + 4] as u32 == MFS_TYPE_DIR;
        let short: Vec<u8> = tmpfs::tmp_seg_83(&name);
        let ln: usize = if name.len() <= DIR_LONG_MAX {
            name.len()
        } else {
            DIR_LONG_MAX
        };
        let long: Vec<u8> = bytes::slice_copy(&name, 0, ln);
        let mut e: DirEntry = DirEntry::plain(short, long, 0, is_dir);
        let child: u32 = bytes::read_u32(b, off);
        match self.object_block(child) {
            None => {},
            Some(blk) => match self.mfs_read_blk(blk) {
                None => {},
                Some(a) => {
                    let o: usize = mfs_dir::mfs_meta_off(is_dir);
                    if !is_dir && (mfs::mfs_ok(&a, MFS_MAGIC_FILE) || mfs::mfs_ok(
                        &a,
                        MFS_MAGIC_LINK,
                    )) {
                        e.size = bytes::read_u64(&a, 8);
                    }
                    e.mode = bytes::read_u16(&a, o);
                    e.owner = bytes::read_u16(&a, o + 2);
                    e.nlink = bytes::read_u32(&a, o + 4);
                    e.mtime = bytes::read_u64(&a, o + 8);
                },
            },
        }
        e
    }

    /// Adds the entries of a directory block to a listing.
    #[verifier::loop_isolation(false)]
    pub fn mfs_dir_emit(&mut self, b: &Vec<u8>, out: &mut Vec<DirEntry>)
        requires
            old(self).inv(),
            b.len() == MFS_BLOCK,
        ensures
            final(self).inv(),
            (final(self)@, vfs::entries_view(final(out)@)) == old(self)@.emit(
                b@,
                56,
                vfs::entries_view(old(out)@),
            ),
    {
        let ghost goal = old(self)@.emit(b@, 56, vfs::entries_view(old(out)@));
        let mut off: usize = 56;
        while off + 8 <= 4096 && out.len() < RESULT_MAX_ENTRIES
            invariant
                self.inv(),
                off <= 4096,
                self@.emit(b@, off as int, vfs::entries_view(out@)) == goal,
            decreases 4096 - off,
        {
            if b[off + 5] != 0 {
                let e: DirEntry = self.entry_record(b, off);
                let ghost before = out@;
                out.push(e);
                assert(vfs::entries_view(out@) =~= vfs::entries_view(before).push(e@));
            }
            match mfs_dir::mfs_ent_step(b, off) {
                Some(n) => {
                    off = n;
                },
                None => {
                    return;
                },
            }
        }
    }

    /// Lists directory `ino`.
    #[verifier::loop_isolation(false)]
    pub fn mfs_readdir(&mut self, ino: u32) -> (r: Option<Vec<DirEntry>>)
        requires
            old(self).inv(),
        ensures
            final(self).inv(),
            match r {
                Some(v) => (final(self)@, Some(vfs::entries_view(v@))) == old(self)@.readdir(ino),
                None => (final(self)@, None::<Seq<DirEntryView>>) == old(self)@.readdir(ino),
            },
    {
        proof {
            reveal(MfsView::readdir);
        }
        let blk: u32 = match self.object_block(ino) {
            Some(b) => b,
            None => {
                return None;
            },
        };
        let a: Vec<u8> = match self.load(blk, MFS_MAGIC_DIR) {
            Some(a) => a,
            None => {
                return None;
            },
        };
        let mut out: Vec<DirEntry> = Vec::new();
        assert(vfs::entries_view(out@) =~= Seq::empty());
        self.mfs_dir_emit(&a, &mut out);
        let ext: u32 = bytes::read_u32(&a, 8);
        if ext == 0 {
            return Some(out);
        }
        let b: Vec<u8> = match self.load(ext, MFS_MAGIC_DIDX) {
            Some(b) => b,
            None => {
                return Some(out);
            },
        };
        let ghost goal = self@.emit_ext(b@, 0, vfs::entries_view(out@));
        let mut i: usize = 0;
        while i < MFS_SLOTS && out.len() < RESULT_MAX_ENTRIES
            invariant
                self.inv(),
                i <= MFS_SLOTS,
                self@.emit_ext(b@, i as int, vfs::entries_view(out@)) == goal,
            decreases MFS_SLOTS - i,
        {
            let x: u32 = bytes::read_u32(&b, 8 + 4 * i);
            if x != 0 {
                match self.load(x, MFS_MAGIC_DIR) {
                    Some(c) => {
                        self.mfs_dir_emit(&c, &mut out);
                    },
                    None => {},
                }
            }
            i = i + 1;
        }
        Some(out)
    }
}

} // verus!
