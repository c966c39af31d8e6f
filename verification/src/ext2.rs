//! The ext2 file service: existing volumes, read only.
use vstd::prelude::*;

use crate::bytes;
use crate::disk::{Store, StoreView};
use crate::fat_name;
use crate::path;
use crate::vfs;
use crate::vfs::{
    DirEntry, DirEntryView, Reply, ReplyView, Request, Stat, DIR_LONG_MAX, RESULT_MAX_ENTRIES,
};

verus! {

/// The volume taken where none holds an ext2 file system.
pub const EXT2_VOL_FALLBACK: u64 = 2;

/// Superblock magic.
pub const EXT2_MAGIC: u16 = 0xEF53;

/// Inode number of the root directory.
pub const EXT2_ROOT_INO: u32 = 2;

/// Directory type in an entry.
pub const EXT2_FT_DIR: u8 = 2;

/// Block numbers in an inode that name data blocks.
pub const EXT2_DIRECT_BLOCKS: u32 = 12;

/// Most block groups.
pub const EXT2_MAX_GROUPS: u32 = 4096;

/// Most files open at a time.
pub const EXT2_MAX_FD: usize = 16;

/// The layout of a volume: block size, inodes per group, inode size, and the first block
/// of each group's inode table.
#[verifier::ext_equal]
pub struct GeoView {
    pub block_size: u32,
    pub per_group: u32,
    pub inode_size: u32,
    pub table: Seq<u32>,
}

/// What is read of an inode.
#[verifier::ext_equal]
pub struct InodeView {
    pub mode: u16,
    pub size: u32,
    pub block: Seq<u32>,
}

/// A mounted volume.
#[verifier::ext_equal]
pub struct Ext2View {
    pub store: StoreView,
    pub vol: u64,
    pub geo: GeoView,
}

impl GeoView {
    /// The block size is a power of two from 1024 to 65536; there is a group and each has
    /// inodes.
    pub open spec fn wf(self) -> bool {
        &&& block_sizes().contains(self.block_size)
        &&& self.per_group > 0
        &&& 128 <= self.inode_size <= 65535
        &&& 1 <= self.table.len() <= EXT2_MAX_GROUPS
    }
}

/// The block sizes there are.
pub open spec fn block_sizes() -> Seq<u32> {
    seq![1024u32, 2048, 4096, 8192, 16384, 32768, 65536]
}

/// Whether a mode is that of a directory.
pub open spec fn is_dir_mode(mode: u16) -> bool {
    mode / 4096 == 4
}

/// The inode that starts at `o`.
pub open spec fn inode_at(b: Seq<u8>, o: int) -> InodeView {
    InodeView {
        mode: bytes::le16(b, o),
        size: bytes::le32(b, o + 4),
        block: Seq::new(15, |i: int| bytes::le32(b, o + 40 + 4 * i)),
    }
}

/// Length of the directory entry at `pos` up to the next one.
pub open spec fn rec_len(b: Seq<u8>, pos: int) -> int {
    bytes::le16(b, pos + 4) as int
}

/// Whether the length of the entry at `pos` cannot be right.
pub open spec fn rec_bad(b: Seq<u8>, pos: int) -> bool {
    rec_len(b, pos) < 8 || pos + rec_len(b, pos) > b.len()
}

/// Name of the entry at `pos`, as far as it lies in the block.
pub open spec fn entry_name(b: Seq<u8>, pos: int) -> Seq<u8> {
    let end = pos + 8 + b[pos + 6];
    b.subrange(
        pos + 8,
        if end <= b.len() {
            end
        } else {
            b.len() as int
        },
    )
}

/// Whether two names are equal, or (`ci`) equal but for the case of ASCII letters.
pub open spec fn same_name(a: Seq<u8>, b: Seq<u8>, ci: bool) -> bool {
    if ci {
        bytes::same_ignoring_case(a, b)
    } else {
        a == b
    }
}

/// The entry with name `name` in a directory block, from `pos` on: its inode number.
pub open spec fn find_in_block(b: Seq<u8>, pos: int, name: Seq<u8>, ci: bool) -> Option<u32>
    decreases b.len() - pos,
{
    if pos + 8 > b.len() || rec_bad(b, pos) {
        None
    } else if bytes::le32(b, pos) != 0 && b[pos + 6] == name.len() && same_name(
        entry_name(b, pos),
        name,
        ci,
    ) {
        Some(bytes::le32(b, pos))
    } else {
        find_in_block(b, pos + rec_len(b, pos), name, ci)
    }
}

/// `n`, or less so that the name is not cut within a UTF-8 character.
pub open spec fn long_cut(name: Seq<u8>, n: int) -> int
    decreases n,
{
    if n > 0 && n < name.len() && name[n] / 64 == 2 {
        long_cut(name, n - 1)
    } else {
        n
    }
}

/// The long name of a listing record.
pub open spec fn long_name(name: Seq<u8>) -> Seq<u8> {
    name.subrange(
        0,
        long_cut(
            name,
            if name.len() <= DIR_LONG_MAX {
                name.len() as int
            } else {
                DIR_LONG_MAX as int
            },
        ),
    )
}

/// Position of the last dot of a name; its length where there is none.
pub open spec fn dot_of(name: Seq<u8>) -> int {
    let d = fat_name::last_dot(name, name.len() as int);
    if d >= 0 {
        d
    } else {
        name.len() as int
    }
}

/// The eleven-byte name of a listing record: what stands before the last dot and after it,
/// in upper case, cut to eight and three bytes.
pub open spec fn short_name(name: Seq<u8>) -> Seq<u8> {
    let dot = dot_of(name);
    Seq::new(
        11,
        |i: int|
            if i < 8 {
                if i < dot {
                    bytes::upper(name[i])
                } else {
                    0x20u8
                }
            } else if dot + 1 + (i - 8) < name.len() {
                bytes::upper(name[dot + 1 + (i - 8)])
            } else {
                0x20u8
            },
    )
}

/// Whether a name is `.` or `..`.
pub open spec fn is_dots(name: Seq<u8>) -> bool {
    name == seq![0x2Eu8] || name == seq![0x2Eu8, 0x2Eu8]
}

/// A number other than 0.
pub open spec fn nonzero(b: u32) -> Option<u32> {
    if b == 0 {
        None
    } else {
        Some(b)
    }
}

/// The block size for a superblock's exponent.
pub open spec fn size_for(log: u32) -> u32 {
    block_sizes()[log as int]
}

/// The inode size that a superblock says.
pub open spec fn inode_size_of(sb: Seq<u8>) -> u32 {
    if bytes::le32(sb, 0x4C) != 0 && bytes::le16(sb, 0x58) >= 128 {
        bytes::le16(sb, 0x58) as u32
    } else {
        128
    }
}

/// Number of block groups that a superblock says.
pub open spec fn groups_of(sb: Seq<u8>) -> int {
    (bytes::le32(sb, 4) + bytes::le32(sb, 0x20) - 1) / (bytes::le32(sb, 0x20) as int)
}

/// Whether a superblock can be taken.
pub open spec fn super_ok(sb: Seq<u8>) -> bool {
    &&& bytes::le16(sb, 0x38) == EXT2_MAGIC
    &&& bytes::le32(sb, 0x18) <= 6
    &&& bytes::le32(sb, 4) != 0
    &&& bytes::le32(sb, 0x20) != 0
    &&& bytes::le32(sb, 0x28) != 0
    &&& 1 <= groups_of(sb) <= EXT2_MAX_GROUPS
}

/// The inode table blocks of the groups from `g` on, after `table`, out of the descriptor
/// blocks from `blk` on.
pub open spec fn table_from(
    store: StoreView,
    vol: u64,
    block_size: u32,
    groups: int,
    blk: int,
    table: Seq<u32>,
) -> Option<Seq<u32>>
    decreases groups - table.len(),
{
    if table.len() >= groups || block_size < 32 {
        Some(table)
    } else {
        match store.read(
            vol,
            bytes::w32(bytes::w32(blk) * (block_size / 512)),
            block_size as int / 512,
        ) {
            None => None,
            Some(b) => {
                let left = groups - table.len();
                let n = if left <= block_size as int / 32 {
                    left
                } else {
                    block_size as int / 32
                };
                table_from(
                    store,
                    vol,
                    block_size,
                    groups,
                    blk + 1,
                    table + Seq::new(n as nat, |k: int| bytes::le32(b, k * 32 + 8)),
                )
            },
        }
    }
}

/// The layout that a volume's superblock and group descriptors say.
pub open spec fn candidate(store: StoreView, vol: u64) -> Option<GeoView> {
    match store.read(vol, 2, 2) {
        None => None,
        Some(sb) => if !super_ok(sb) {
            None
        } else {
            let bs = size_for(bytes::le32(sb, 0x18));
            match table_from(
                store,
                vol,
                bs,
                groups_of(sb),
                bytes::le32(sb, 0x14) + 1,
                Seq::empty(),
            ) {
                None => None,
                Some(table) => Some(
                    GeoView {
                        block_size: bs,
                        per_group: bytes::le32(sb, 0x28),
                        inode_size: inode_size_of(sb),
                        table,
                    },
                ),
            }
        },
    }
}

/// The layout of a volume, where it holds an ext2 file system with a root directory.
pub open spec fn layout(store: StoreView, vol: u64) -> Option<GeoView> {
    match candidate(store, vol) {
        None => None,
        Some(geo) => if (Ext2View { store, vol, geo }).has_root() {
            Some(geo)
        } else {
            None
        },
    }
}

impl Ext2View {
    /// Block `b`.
    pub open spec fn rd(self, b: u32) -> Option<Seq<u8>> {
        self.store.read(
            self.vol,
            bytes::w32(b * (self.geo.block_size / 512)),
            self.geo.block_size as int / 512,
        )
    }

    /// Inode `ino`.
    pub open spec fn inode(self, ino: u32) -> Option<InodeView> {
        let i = ino - 1;
        let group = i / (self.geo.per_group as int);
        let off = i % (self.geo.per_group as int) * self.geo.inode_size;
        let blk = self.geo.table[group] + off / (self.geo.block_size as int);
        let within = off % (self.geo.block_size as int);
        if ino == 0 || group >= self.geo.table.len() || within + self.geo.inode_size
            > self.geo.block_size || blk > u32::MAX {
            None
        } else {
            match self.rd(blk as u32) {
                None => None,
                Some(b) => Some(inode_at(b, within)),
            }
        }
    }

    /// Whether the root inode is there and a directory.
    pub open spec fn has_root(self) -> bool {
        match self.inode(EXT2_ROOT_INO) {
            Some(i) => is_dir_mode(i.mode),
            None => false,
        }
    }

    /// Number `i` of the block `b` of block numbers.
    pub open spec fn through(self, b: u32, i: int) -> Option<u32> {
        if b == 0 {
            None
        } else {
            match self.rd(b) {
                None => None,
                Some(c) => nonzero(bytes::le32(c, 4 * i)),
            }
        }
    }

    /// The disk block of block `n` of a file, `None` for a hole.
    pub open spec fn map(self, ino: InodeView, n: int) -> Option<u32> {
        let ptrs = self.geo.block_size as int / 4;
        let i = n - 12;
        let k = n - 12 - ptrs;
        if n < 12 {
            nonzero(ino.block[n])
        } else if i < ptrs {
            self.through(ino.block[12], i)
        } else if k < ptrs * ptrs {
            match self.through(ino.block[13], k / ptrs) {
                None => None,
                Some(b) => self.through(b, k % ptrs),
            }
        } else {
            None
        }
    }

    /// The entry `name` of a directory, from byte `off` on: its inode number.
    pub open spec fn find(self, dir: InodeView, name: Seq<u8>, ci: bool, off: int) -> Option<u32>
        decreases dir.size + 0x1_0000_0000 - off,
    {
        if off >= dir.size || self.geo.block_size == 0 {
            None
        } else {
            let next = off + self.geo.block_size;
            match self.map(dir, off / (self.geo.block_size as int)) {
                None => self.find(dir, name, ci, next),
                Some(blk) => match self.rd(blk) {
                    None => None,
                    Some(b) => match find_in_block(b, 0, name, ci) {
                        Some(ino) => Some(ino),
                        None => self.find(dir, name, ci, next),
                    },
                },
            }
        }
    }

    /// The entry of a directory with exactly the name `name`, else one that differs in the
    /// case of letters.
    pub open spec fn lookup(self, dir: InodeView, name: Seq<u8>) -> Option<u32> {
        match self.find(dir, name, false, 0) {
            Some(i) => Some(i),
            None => self.find(dir, name, true, 0),
        }
    }

    /// The inode that the segments from `k` on lead to from inode `ino`.
    pub open spec fn walk(self, segs: Seq<Seq<u8>>, k: int, ino: u32) -> Option<u32>
        decreases segs.len() - k,
    {
        if k >= segs.len() {
            Some(ino)
        } else if segs[k] == seq![0x2Eu8] {
            self.walk(segs, k + 1, ino)
        } else {
            match self.inode(ino) {
                None => None,
                Some(dir) => if !is_dir_mode(dir.mode) {
                    None
                } else {
                    match self.lookup(dir, segs[k]) {
                        None => None,
                        Some(next) => self.walk(segs, k + 1, next),
                    }
                },
            }
        }
    }

    /// The inode that an absolute path names: its number, whether it is a directory and its
    /// size.
    pub open spec fn resolve(self, p: Seq<u8>) -> Option<(u32, bool, u32)> {
        if p.len() == 0 || p[0] != 0x2F {
            None
        } else {
            match self.walk(path::segs(p), 0, EXT2_ROOT_INO) {
                None => None,
                Some(ino) => match self.inode(ino) {
                    None => None,
                    Some(i) => Some((ino, is_dir_mode(i.mode), i.size)),
                },
            }
        }
    }

    /// Bytes `pos` to `end - 1` of a file; a hole reads as zeros.
    pub open spec fn read_from(self, ino: InodeView, pos: int, end: int) -> Option<Seq<u8>>
        decreases end - pos,
    {
        if pos >= end || self.geo.block_size == 0 {
            Some(Seq::empty())
        } else {
            let bs = self.geo.block_size as int;
            let boff = pos % bs;
            let n = if end - pos <= bs - boff {
                end - pos
            } else {
                bs - boff
            };
            let part = match self.map(ino, pos / bs) {
                None => Some(bytes::zeros(n)),
                Some(blk) => match self.rd(blk) {
                    None => None,
                    Some(b) => Some(b.subrange(boff, boff + n)),
                },
            };
            match part {
                None => None,
                Some(d) => match self.read_from(ino, pos + n, end) {
                    None => None,
                    Some(rest) => Some(d + rest),
                },
            }
        }
    }

    /// At most `count` bytes of file `ino` from `offset` on.
    pub open spec fn read(self, ino: u32, offset: u32, count: u32) -> Option<Seq<u8>> {
        match self.inode(ino) {
            None => None,
            Some(i) => if is_dir_mode(i.mode) {
                None
            } else if offset >= i.size {
                Some(Seq::empty())
            } else {
                self.read_from(
                    i,
                    offset as int,
                    if count <= i.size - offset {
                        offset + count
                    } else {
                        i.size as int
                    },
                )
            },
        }
    }

    /// The listing record of an entry.
    pub open spec fn record(self, name: Seq<u8>, ftype: u8, ino: u32) -> DirEntryView {
        match self.inode(ino) {
            Some(i) => DirEntryView::plain(
                short_name(name),
                long_name(name),
                if is_dir_mode(i.mode) {
                    0
                } else {
                    i.size as u64
                },
                is_dir_mode(i.mode),
            ),
            None => DirEntryView::plain(
                short_name(name),
                long_name(name),
                0,
                ftype == EXT2_FT_DIR,
            ),
        }
    }

    /// The entries of a directory block from `pos` on, after `out`.
    pub open spec fn emit(self, b: Seq<u8>, pos: int, out: Seq<DirEntryView>) -> Seq<DirEntryView>
        decreases b.len() - pos,
    {
        if pos + 8 > b.len() || rec_bad(b, pos) {
            out
        } else {
            let ino = bytes::le32(b, pos);
            let name = entry_name(b, pos);
            if ino == 0 || b[pos + 6] == 0 || is_dots(name) {
                self.emit(b, pos + rec_len(b, pos), out)
            } else if out.len() >= RESULT_MAX_ENTRIES {
                out
            } else {
                self.emit(
                    b,
                    pos + rec_len(b, pos),
                    out.push(self.record(name, b[pos + 7], ino)),
                )
            }
        }
    }

    /// The listing of a directory from byte `off` on, after `out`.
    pub open spec fn list_from(self, dir: InodeView, off: int, out: Seq<DirEntryView>) -> Option<
        Seq<DirEntryView>,
    >
        decreases dir.size + 0x1_0000_0000 - off,
    {
        if off >= dir.size || self.geo.block_size == 0 {
            Some(out)
        } else {
            let next = off + self.geo.block_size;
            match self.map(dir, off / (self.geo.block_size as int)) {
                None => self.list_from(dir, next, out),
                Some(blk) => match self.rd(blk) {
                    None => None,
                    Some(b) => self.list_from(dir, next, self.emit(b, 0, out)),
                },
            }
        }
    }

    /// The listing of directory `ino`.
    pub open spec fn list(self, ino: u32) -> Option<Seq<DirEntryView>> {
        match self.inode(ino) {
            None => None,
            Some(dir) => if is_dir_mode(dir.mode) {
                self.list_from(dir, 0, Seq::empty())
            } else {
                None
            },
        }
    }
}

/// An open file.
#[derive(Clone, Copy)]
pub struct Ext2Fd {
    pub ino: u32,
    pub is_dir: bool,
    pub vol: u64,
}

/// The state of the service.
#[verifier::ext_equal]
pub struct Ext2SrvView {
    pub e: Ext2View,
    pub own: u64,
    pub fds: Seq<Option<Ext2Fd>>,
}

/// The first free descriptor from `i` on; the table's length where there is none.
pub open spec fn free_fd(fds: Seq<Option<Ext2Fd>>, i: int) -> int
    decreases fds.len() - i,
{
    if i >= fds.len() || fds[i] is None {
        i
    } else {
        free_fd(fds, i + 1)
    }
}

impl Ext2SrvView {
    /// The open file with descriptor `fd`.
    pub open spec fn fd_get(self, fd: u32) -> Option<Ext2Fd> {
        if fd < EXT2_MAX_FD {
            self.fds[fd as int]
        } else {
            None
        }
    }

    /// A file given the first free descriptor.
    pub open spec fn take_fd(self, f: Ext2Fd) -> (Ext2SrvView, ReplyView) {
        let i = free_fd(self.fds, 0);
        if i < self.fds.len() {
            (Ext2SrvView { fds: self.fds.update(i, Some(f)), ..self }, ReplyView::Value(i as u64))
        } else {
            (self, ReplyView::Fail)
        }
    }

    /// The volume that a request is for: that of the open file it reads, else the one in
    /// its encoding.
    pub open spec fn target(self, enc: u64, req: Request) -> u64 {
        let named = vfs::vol_from_enc_spec(enc, self.own);
        match req {
            Request::Read { fd, .. } => match self.fd_get(fd) {
                Some(f) => f.vol,
                None => named,
            },
            Request::Readdir { fd } => match self.fd_get(fd) {
                Some(f) => f.vol,
                None => named,
            },
            _ => named,
        }
    }

    /// The answer to a request on the mounted volume. What would write is refused.
    pub open spec fn answer(self, req: Request) -> (Ext2SrvView, ReplyView) {
        match req {
            Request::Open { path } => match self.e.resolve(path@) {
                None => (self, ReplyView::Fail),
                Some((ino, is_dir, size)) => self.take_fd(Ext2Fd { ino, is_dir, vol: self.e.vol }),
            },
            Request::Read { fd, offset, count } => match self.fd_get(fd) {
                Some(f) => if f.is_dir || offset > u32::MAX {
                    (self, ReplyView::Fail)
                } else {
                    match self.e.read(f.ino, offset as u32, count) {
                        Some(d) => (self, ReplyView::Data(d)),
                        None => (self, ReplyView::Fail),
                    }
                },
                None => (self, ReplyView::Fail),
            },
            Request::Readdir { fd } => match self.fd_get(fd) {
                Some(f) => if f.is_dir {
                    match self.e.list(f.ino) {
                        Some(l) => (self, ReplyView::Entries(l)),
                        None => (self, ReplyView::Fail),
                    }
                } else {
                    (self, ReplyView::Fail)
                },
                None => (self, ReplyView::Fail),
            },
            Request::Stat { path } => match self.e.resolve(path@) {
                None => (self, ReplyView::Fail),
                Some((ino, is_dir, size)) => (
                    self,
                    ReplyView::StatOf(
                        Stat::plain_spec(
                            if is_dir {
                                0
                            } else {
                                size as u64
                            },
                            is_dir,
                        ),
                    ),
                ),
            },
            Request::Close { fd } => if self.fd_get(fd) is Some {
                (
                    Ext2SrvView { fds: self.fds.update(fd as int, None), ..self },
                    ReplyView::Value(1),
                )
            } else {
                (self, ReplyView::Value(0))
            },
            _ => (self, ReplyView::Fail),
        }
    }

    /// The answer to a request. The volume it is for is mounted first; where it cannot be,
    /// the request fails.
    pub open spec fn serve(self, enc: u64, req: Request) -> (Ext2SrvView, ReplyView) {
        let vol = self.target(enc, req);
        if vol == self.e.vol {
            self.answer(req)
        } else {
            match layout(self.e.store, vol) {
                None => (self, ReplyView::Fail),
                Some(geo) => Ext2SrvView {
                    e: Ext2View { vol, geo, ..self.e },
                    ..self
                }.answer(req),
            }
        }
    }
}

/// Law: no request changes a volume.
pub proof fn law_read_only(s: Ext2SrvView, enc: u64, req: Request)
    ensures
        s.serve(enc, req).0.e.store == s.e.store,
{
}

/// The layout of a volume.
pub struct Geo {
    pub block_size: u32,
    pub per_group: u32,
    pub inode_size: u32,
    pub table: Vec<u32>,
}

impl Geo {
    pub open spec fn view(&self) -> GeoView {
        GeoView {
            block_size: self.block_size,
            per_group: self.per_group,
            inode_size: self.inode_size,
            table: self.table@,
        }
    }
}

/// What is read of an inode.
pub struct Ext2Inode {
    pub mode: u16,
    pub size: u32,
    pub block: Vec<u32>,
}

impl Ext2Inode {
    pub open spec fn view(&self) -> InodeView {
        InodeView { mode: self.mode, size: self.size, block: self.block@ }
    }
}

/// A mounted volume.
pub struct Ext2 {
    pub store: Store,
    pub vol: u64,
    pub geo: Geo,
}

/// Whether a name is `.` or `..`.
fn dots(name: &Vec<u8>) -> (r: bool)
    ensures
        r == is_dots(name@),
{
    let one: bool = name.len() == 1 && name[0] == 0x2E;
    let two: bool = name.len() == 2 && name[0] == 0x2E && name[1] == 0x2E;
    assert(one == (name@ =~= seq![0x2Eu8]));
    assert(two == (name@ =~= seq![0x2Eu8, 0x2Eu8]));
    one || two
}

/// The name of the entry at `pos`.
fn name_at(b: &Vec<u8>, pos: usize) -> (r: Vec<u8>)
    requires
        pos + 8 <= b.len(),
        b.len() <= 65536,
    ensures
        r@ == entry_name(b@, pos as int),
{
    let end: usize = pos + 8 + b[pos + 6] as usize;
    bytes::slice_copy(
        b,
        pos + 8,
        if end <= b.len() {
            end
        } else {
            b.len()
        },
    )
}

/// Searches a directory block for a name.
#[verifier::loop_isolation(false)]
fn find_block(b: &Vec<u8>, name: &Vec<u8>, ci: bool) -> (r: Option<u32>)
    requires
        b.len() <= 65536,
    ensures
        r == find_in_block(b@, 0, name@, ci),
{
    let ghost goal = find_in_block(b@, 0, name@, ci);
    let mut pos: usize = 0;
    while pos + 8 <= b.len()
        invariant
            pos <= b.len(),
            find_in_block(b@, pos as int, name@, ci) == goal,
        decreases b.len() - pos,
    {
        let rl: usize = bytes::read_u16(b, pos + 4) as usize;
        if rl < 8 || pos + rl > b.len() {
            return None;
        }
        let ino: u32 = bytes::read_u32(b, pos);
        if ino != 0 && b[pos + 6] as usize == name.len() {
            let n: Vec<u8> = name_at(b, pos);
            if bytes::name_eq(&n, name, ci) {
                return Some(ino);
            }
        }
        pos = pos + rl;
    }
    None
}

/// The long name of a listing record.
#[verifier::loop_isolation(false)]
pub fn ext2_copy_long(name: &Vec<u8>) -> (r: Vec<u8>)
    ensures
        r@ == long_name(name@),
{
    let top: usize = if name.len() <= DIR_LONG_MAX {
        name.len()
    } else {
        DIR_LONG_MAX
    };
    let mut n: usize = top;
    while n > 0 && n < name.len() && name[n] / 64 == 2
        invariant
            n <= name.len(),
            long_cut(name@, n as int) == long_cut(name@, top as int),
        decreases n,
    {
        n = n - 1;
    }
    bytes::slice_copy(name, 0, n)
}

/// The eleven-byte name of a listing record.
#[verifier::loop_isolation(false)]
pub fn ext2_short_name(name: &Vec<u8>) -> (r: Vec<u8>)
    ensures
        r@ == short_name(name@),
{
    let mut k: usize = name.len();
    while k > 0 && name[k - 1] != 0x2E
        invariant
            k <= name.len(),
            fat_name::last_dot(name@, k as int) == fat_name::last_dot(name@, name@.len() as int),
        decreases k,
    {
        k = k - 1;
    }
    let dot: usize = if k > 0 {
        k - 1
    } else {
        name.len()
    };
    assert(dot == dot_of(name@));
    let mut out: Vec<u8> = Vec::new();
    let mut i: usize = 0;
    while i < 11
        invariant
            i <= 11,
            out@ =~= short_name(name@).subrange(0, i as int),
        decreases 11 - i,
    {
        let c: u8 = if i < 8 {
            if i < dot {
                bytes::ascii_upper(name[i])
            } else {
                0x20
            }
        } else if dot < name.len() && i - 8 < name.len() - dot - 1 {
            bytes::ascii_upper(name[dot + 1 + (i - 8)])
        } else {
            0x20
        };
        out.push(c);
        i = i + 1;
    }
    assert(short_name(name@).subrange(0, 11) =~= short_name(name@));
    out
}

impl Ext2 {
    pub open spec fn view(&self) -> Ext2View {
        Ext2View { store: self.store@, vol: self.vol, geo: self.geo@ }
    }

    /// The layout is possible.
    pub open spec fn inv(&self) -> bool {
        self.store@.wf() && self.geo@.wf()
    }

    /// Reads block `b`.
    pub fn ext2_read_block(&self, b: u32) -> (r: Option<Vec<u8>>)
        requires
            self.inv(),
        ensures
            bytes::opt(r) == self@.rd(b),
            r matches Some(v) ==> v.len() == self.geo.block_size,
    {
        let n: u32 = self.geo.block_size / 512;
        assert(b * n <= 0xFFFF_FFFF * 128) by (nonlinear_arith)
            requires
                n <= 128,
                b <= 0xFFFF_FFFF,
        ;
        let lba: u32 = ((b as u64 * n as u64) % 0x1_0000_0000) as u32;
        self.store.read(self.vol, lba, n)
    }

    /// Reads inode `ino`.
    #[verifier::loop_isolation(false)]
    pub fn ext2_read_inode(&self, ino: u32) -> (r: Option<Ext2Inode>)
        requires
            self.inv(),
        ensures
            match r {
                Some(i) => self@.inode(ino) == Some(i@) && i.block.len() == 15,
                None => self@.inode(ino) is None,
            },
    {
        if ino == 0 {
            return None;
        }
        let i: u32 = ino - 1;
        let group: u32 = i / self.geo.per_group;
        if group as usize >= self.geo.table.len() {
            return None;
        }
        let slot: u32 = i % self.geo.per_group;
        assert(slot * self.geo.inode_size <= 0xFFFF_FFFF * 65535) by (nonlinear_arith)
            requires
                slot <= 0xFFFF_FFFF,
                self.geo.inode_size <= 65535,
        ;
        let off: u64 = slot as u64 * self.geo.inode_size as u64;
        let blk: u64 = self.geo.table[group as usize] as u64 + off / self.geo.block_size as u64;
        let within: usize = (off % self.geo.block_size as u64) as usize;
        if within as u64 + self.geo.inode_size as u64 > self.geo.block_size as u64 || blk
            > 0xFFFF_FFFF {
            return None;
        }
        let b: Vec<u8> = match self.ext2_read_block(blk as u32) {
            Some(b) => b,
            None => {
                return None;
            },
        };
        let mut block: Vec<u32> = Vec::new();
        let mut k: usize = 0;
        while k < 15
            invariant
                k <= 15,
                block@ =~= Seq::new(k as nat, |j: int| bytes::le32(b@, within + 40 + 4 * j)),
            decreases 15 - k,
        {
            block.push(bytes::read_u32(&b, within + 40 + 4 * k));
            k = k + 1;
        }
        let r = Ext2Inode {
            mode: bytes::read_u16(&b, within),
            size: bytes::read_u32(&b, within + 4),
            block,
        };
        assert(r@ =~= inode_at(b@, within as int));
        Some(r)
    }

    /// Whether the root inode is there and a directory.
    fn has_root(&self) -> (r: bool)
        requires
            self.inv(),
        ensures
            r == self@.has_root(),
    {
        match self.ext2_read_inode(EXT2_ROOT_INO) {
            Some(i) => i.mode / 4096 == 4,
            None => false,
        }
    }

    /// Mounts volume `vol` in place of the present one, which stays where that fails.
    pub fn ext2_mount(&mut self, vol: u64) -> (r: bool)
        requires
            old(self).inv(),
        ensures
            final(self).inv(),
            match layout(old(self)@.store, vol) {
                Some(geo) => r && final(self)@ == (Ext2View { vol, geo, ..old(self)@ }),
                None => !r && final(self)@ == old(self)@,
            },
    {
        match read_layout(&self.store, vol) {
            None => false,
            Some(g) => {
                let mut geo: Geo = g;
                let before: u64 = self.vol;
                std::mem::swap(&mut geo, &mut self.geo);
                self.vol = vol;
                if self.has_root() {
                    true
                } else {
                    std::mem::swap(&mut geo, &mut self.geo);
                    self.vol = before;
                    false
                }
            },
        }
    }

    /// Number `i` of the block `b` of block numbers.
    fn through(&self, b: u32, i: usize) -> (r: Option<u32>)
        requires
            self.inv(),
            4 * i + 4 <= self.geo.block_size,
        ensures
            r == self@.through(b, i as int),
    {
        if b == 0 {
            return None;
        }
        match self.ext2_read_block(b) {
            None => None,
            Some(c) => {
                let v: u32 = bytes::read_u32(&c, 4 * i);
                if v == 0 {
                    None
                } else {
                    Some(v)
                }
            },
        }
    }

    /// The disk block of block `n` of a file.
    pub fn ext2_map_block(&self, ino: &Ext2Inode, n: u32) -> (r: Option<u32>)
        requires
            self.inv(),
            ino.block.len() == 15,
        ensures
            r == self@.map(ino@, n as int),
    {
        let ptrs: u32 = self.geo.block_size / 4;
        if n < EXT2_DIRECT_BLOCKS {
            let b: u32 = ino.block[n as usize];
            return if b == 0 {
                None
            } else {
                Some(b)
            };
        }
        let i: u32 = n - EXT2_DIRECT_BLOCKS;
        if i < ptrs {
            return self.through(ino.block[12], i as usize);
        }
        let k: u32 = i - ptrs;
        assert(ptrs * ptrs <= 16384 * 16384) by (nonlinear_arith)
            requires
                ptrs <= 16384,
        ;
        if k < ptrs * ptrs {
            assert(k / ptrs < ptrs) by (nonlinear_arith)
                requires
                    k < ptrs * ptrs,
                    ptrs > 0,
            ;
            match self.through(ino.block[13], (k / ptrs) as usize) {
                None => None,
                Some(b) => self.through(b, (k % ptrs) as usize),
            }
        } else {
            None
        }
    }

    /// Searches a directory for a name.
    #[verifier::loop_isolation(false)]
    pub fn ext2_dir_find(&self, dir: &Ext2Inode, name: &Vec<u8>, ci: bool) -> (r: Option<u32>)
        requires
            self.inv(),
            dir.block.len() == 15,
        ensures
            r == self@.find(dir@, name@, ci, 0),
    {
        let bs: u32 = self.geo.block_size;
        let ghost goal = self@.find(dir@, name@, ci, 0);
        let mut off: u64 = 0;
        while off < dir.size as u64
            invariant
                off <= 0xFFFF_FFFF + 65536,
                self@.find(dir@, name@, ci, off as int) == goal,
            decreases 0x1_0001_0000 - off,
        {
            match self.ext2_map_block(dir, (off / bs as u64) as u32) {
                None => {},
                Some(blk) => match self.ext2_read_block(blk) {
                    None => {
                        return None;
                    },
                    Some(b) => {
                        match find_block(&b, name, ci) {
                            Some(i) => {
                                return Some(i);
                            },
                            None => {},
                        }
                    },
                },
            }
            off = off + bs as u64;
        }
        None
    }

    /// The inode that an absolute path names.
    #[verifier::loop_isolation(false)]
    pub fn ext2_resolve(&self, p: &Vec<u8>) -> (r: Option<(u32, bool, u32)>)
        requires
            self.inv(),
        ensures
            r == self@.resolve(p@),
    {
        if p.len() == 0 || p[0] != 0x2F {
            return None;
        }
        let segs: Vec<Vec<u8>> = path::split(p);
        let mut ino: u32 = EXT2_ROOT_INO;
        let ghost goal = self@.walk(path::segs(p@), 0, EXT2_ROOT_INO);
        let mut k: usize = 0;
        while k < segs.len()
            invariant
                k <= segs.len(),
                bytes::deep(segs@) == path::segs(p@),
                self@.walk(path::segs(p@), k as int, ino) == goal,
            decreases segs.len() - k,
        {
            assert(bytes::deep(segs@)[k as int] == segs@[k as int]@);
            let seg: &Vec<u8> = &segs[k];
            let dot: bool = seg.len() == 1 && seg[0] == 0x2E;
            assert(dot == (seg@ =~= seq![0x2Eu8]));
            if !dot {
                let dir: Ext2Inode = match self.ext2_read_inode(ino) {
                    Some(d) => d,
                    None => {
                        return None;
                    },
                };
                if dir.mode / 4096 != 4 {
                    return None;
                }
                let hit: Option<u32> = match self.ext2_dir_find(&dir, seg, false) {
                    Some(x) => Some(x),
                    None => self.ext2_dir_find(&dir, seg, true),
                };
                match hit {
                    Some(x) => {
                        ino = x;
                    },
                    None => {
                        return None;
                    },
                }
            }
            k = k + 1;
        }
        match self.ext2_read_inode(ino) {
            None => None,
            Some(i) => Some((ino, i.mode / 4096 == 4, i.size)),
        }
    }

    /// Reads from file `ino`.
    #[verifier::loop_isolation(false)]
    pub fn ext2_read_data(&self, ino: u32, offset: u32, count: u32) -> (r: Option<Vec<u8>>)
        requires
            self.inv(),
        ensures
            bytes::opt(r) == self@.read(ino, offset, count),
    {
        let i: Ext2Inode = match self.ext2_read_inode(ino) {
            Some(i) => i,
            None => {
                return None;
            },
        };
        if i.mode / 4096 == 4 {
            return None;
        }
        let mut out: Vec<u8> = Vec::new();
        if offset >= i.size {
            assert(out@ =~= Seq::empty());
            return Some(out);
        }
        let end: u32 = if count <= i.size - offset {
            offset + count
        } else {
            i.size
        };
        let bs: u32 = self.geo.block_size;
        let ghost goal = self@.read_from(i@, offset as int, end as int);
        let mut pos: u32 = offset;
        while pos < end
            invariant
                pos <= end,
                match self@.read_from(i@, pos as int, end as int) {
                    None => goal is None,
                    Some(rest) => goal == Some(out@ + rest),
                },
            decreases end - pos,
        {
            let boff: u32 = pos % bs;
            let n: u32 = if end - pos <= bs - boff {
                end - pos
            } else {
                bs - boff
            };
            let mut part: Vec<u8> = match self.ext2_map_block(&i, pos / bs) {
                None => bytes::zero_vec(n as usize),
                Some(blk) => match self.ext2_read_block(blk) {
                    None => {
                        return None;
                    },
                    Some(b) => bytes::slice_copy(&b, boff as usize, boff as usize + n as usize),
                },
            };
            let ghost d = part@;
            let ghost before = out@;
            out.append(&mut part);
            pos = pos + n;
            proof {
                match self@.read_from(i@, pos as int, end as int) {
                    None => {},
                    Some(rest) => {
                        assert(before + (d + rest) =~= out@ + rest);
                    },
                }
            }
        }
        assert(out@ + Seq::empty() =~= out@);
        Some(out)
    }

    /// The listing record of an entry.
    pub fn ext2_make_entry(&self, name: &Vec<u8>, ftype: u8, ino: u32) -> (r: DirEntry)
        requires
            self.inv(),
        ensures
            r@ == self@.record(name@, ftype, ino),
    {
        let short: Vec<u8> = ext2_short_name(name);
        let long: Vec<u8> = ext2_copy_long(name);
        match self.ext2_read_inode(ino) {
            Some(i) => {
                let is_dir: bool = i.mode / 4096 == 4;
                DirEntry::plain(
                    short,
                    long,
                    if is_dir {
                        0
                    } else {
                        i.size as u64
                    },
                    is_dir,
                )
            },
            None => DirEntry::plain(short, long, 0, ftype == EXT2_FT_DIR),
        }
    }

    /// Adds the entries of a directory block to a listing.
    #[verifier::loop_isolation(false)]
    fn emit(&self, b: &Vec<u8>, out: &mut Vec<DirEntry>)
        requires
            self.inv(),
            b.len() <= 65536,
        ensures
            vfs::entries_view(final(out)@) == self@.emit(b@, 0, vfs::entries_view(old(out)@)),
    {
        let ghost goal = self@.emit(b@, 0, vfs::entries_view(old(out)@));
        let mut pos: usize = 0;
        while pos + 8 <= b.len()
            invariant
                pos <= b.len(),
                self@.emit(b@, pos as int, vfs::entries_view(out@)) == goal,
            decreases b.len() - pos,
        {
            let rl: usize = bytes::read_u16(b, pos + 4) as usize;
            if rl < 8 || pos + rl > b.len() {
                return;
            }
            let ino: u32 = bytes::read_u32(b, pos);
            if ino != 0 && b[pos + 6] != 0 {
                let name: Vec<u8> = name_at(b, pos);
                if !dots(&name) {
                    if out.len() >= RESULT_MAX_ENTRIES {
                        return;
                    }
                    let e: DirEntry = self.ext2_make_entry(&name, b[pos + 7], ino);
                    let ghost before = out@;
                    out.push(e);
                    assert(vfs::entries_view(out@) =~= vfs::entries_view(before).push(e@));
                }
            }
            pos = pos + rl;
        }
    }

    /// Lists directory `ino`.
    #[verifier::loop_isolation(false)]
    pub fn ext2_readdir(&self, ino: u32) -> (r: Option<Vec<DirEntry>>)
        requires
            self.inv(),
        ensures
            match r {
                Some(v) => self@.list(ino) == Some(vfs::entries_view(v@)),
                None => self@.list(ino) is None,
            },
    {
        let dir: Ext2Inode = match self.ext2_read_inode(ino) {
            Some(d) => d,
            None => {
                return None;
            },
        };
        if dir.mode / 4096 != 4 {
            return None;
        }
        let bs: u32 = self.geo.block_size;
        let mut out: Vec<DirEntry> = Vec::new();
        assert(vfs::entries_view(out@) =~= Seq::empty());
        let ghost goal = self@.list_from(dir@, 0, Seq::empty());
        let mut off: u64 = 0;
        while off < dir.size as u64
            invariant
                off <= 0xFFFF_FFFF + 65536,
                self@.list_from(dir@, off as int, vfs::entries_view(out@)) == goal,
            decreases 0x1_0001_0000 - off,
        {
            match self.ext2_map_block(&dir, (off / bs as u64) as u32) {
                None => {},
                Some(blk) => match self.ext2_read_block(blk) {
                    None => {
                        return None;
                    },
                    Some(b) => {
                        self.emit(&b, &mut out);
                    },
                },
            }
            off = off + bs as u64;
        }
        Some(out)
    }
}

/// Reads the inode table blocks of all groups.
#[verifier::loop_isolation(false)]
fn read_table(store: &Store, vol: u64, bs: u32, groups: u32, first: u32) -> (r: Option<Vec<u32>>)
    requires
        store@.wf(),
        block_sizes().contains(bs),
        groups <= EXT2_MAX_GROUPS,
    ensures
        match r {
            Some(t) => table_from(store@, vol, bs, groups as int, first + 1, Seq::empty()) == Some(
                t@,
            ) && t.len() >= groups,
            None => table_from(
                store@,
                vol,
                bs,
                groups as int,
                first + 1,
                Seq::empty(),
            ) is None,
        },
{
    let per: u32 = bs / 32;
    let ghost goal = table_from(store@, vol, bs, groups as int, first + 1, Seq::empty());
    let mut table: Vec<u32> = Vec::new();
    assert(table@ =~= Seq::empty());
    let mut blk: u64 = first as u64 + 1;
    while table.len() < groups as usize
        invariant
            blk <= first as u64 + 1 + table.len(),
            table.len() <= groups,
            table_from(store@, vol, bs, groups as int, blk as int, table@) == goal,
        decreases groups as usize - table.len(),
    {
        let b32: u32 = (blk % 0x1_0000_0000) as u32;
        let n512: u32 = bs / 512;
        assert(b32 * n512 <= 0xFFFF_FFFF * 128) by (nonlinear_arith)
            requires
                n512 <= 128,
                b32 <= 0xFFFF_FFFF,
        ;
        let lba: u32 = ((b32 as u64 * n512 as u64) % 0x1_0000_0000) as u32;
        let b: Vec<u8> = match store.read(vol, lba, n512) {
            Some(b) => b,
            None => {
                return None;
            },
        };
        let left: u32 = groups - table.len() as u32;
        let n: u32 = if left <= per {
            left
        } else {
            per
        };
        let ghost before = table@;
        let mut k: u32 = 0;
        while k < n
            invariant
                k <= n,
                table@ =~= before + Seq::new(k as nat, |j: int| bytes::le32(b@, j * 32 + 8)),
            decreases n - k,
        {
            table.push(bytes::read_u32(&b, k as usize * 32 + 8));
            k = k + 1;
        }
        blk = blk + 1;
    }
    Some(table)
}

/// The block size for a superblock's exponent.
fn block_size_for(log: u32) -> (r: u32)
    requires
        log <= 6,
    ensures
        r == size_for(log),
        block_sizes().contains(r),
{
    let r: u32 = if log == 0 {
        1024
    } else if log == 1 {
        2048
    } else if log == 2 {
        4096
    } else if log == 3 {
        8192
    } else if log == 4 {
        16384
    } else if log == 5 {
        32768
    } else {
        65536
    };
    assert(block_sizes()[log as int] == r);
    r
}

/// Reads the layout of a volume.
fn read_layout(store: &Store, vol: u64) -> (r: Option<Geo>)
    requires
        store@.wf(),
    ensures
        match r {
            Some(g) => candidate(store@, vol) == Some(g@) && g@.wf(),
            None => candidate(store@, vol) is None,
        },
{
    let sb: Vec<u8> = match store.read(vol, 2, 2) {
        Some(b) => b,
        None => {
            return None;
        },
    };
    let log: u32 = bytes::read_u32(&sb, 0x18);
    if bytes::read_u16(&sb, 0x38) != EXT2_MAGIC || log > 6 {
        return None;
    }
    let blocks: u32 = bytes::read_u32(&sb, 4);
    let first: u32 = bytes::read_u32(&sb, 0x14);
    let per_group: u32 = bytes::read_u32(&sb, 0x20);
    let inodes: u32 = bytes::read_u32(&sb, 0x28);
    if blocks == 0 || per_group == 0 || inodes == 0 {
        return None;
    }
    let groups: u64 = (blocks as u64 + per_group as u64 - 1) / per_group as u64;
    if groups == 0 || groups > EXT2_MAX_GROUPS as u64 {
        return None;
    }
    let raw: u16 = bytes::read_u16(&sb, 0x58);
    let inode_size: u32 = if bytes::read_u32(&sb, 0x4C) != 0 && raw >= 128 {
        raw as u32
    } else {
        128
    };
    let bs: u32 = block_size_for(log);
    proof {
        lemma_table_len(store@, vol, bs, groups as int, first + 1, Seq::empty());
    }
    let table: Vec<u32> = match read_table(store, vol, bs, groups as u32, first) {
        Some(t) => t,
        None => {
            return None;
        },
    };
    Some(Geo { block_size: bs, per_group: inodes, inode_size, table })
}

/// The table has one number for each group.
proof fn lemma_table_len(
    store: StoreView,
    vol: u64,
    bs: u32,
    groups: int,
    blk: int,
    table: Seq<u32>,
)
    requires
        table.len() <= groups,
        bs >= 32,
    ensures
        table_from(store, vol, bs, groups, blk, table) matches Some(t) ==> t.len() == groups,
    decreases groups - table.len(),
{
    if table.len() < groups {
        match store.read(vol, bytes::w32(bytes::w32(blk) * (bs / 512)), bs as int / 512) {
            None => {},
            Some(b) => {
                let left = groups - table.len();
                let n = if left <= bs as int / 32 {
                    left
                } else {
                    bs as int / 32
                };
                lemma_table_len(
                    store,
                    vol,
                    bs,
                    groups,
                    blk + 1,
                    table + Seq::new(n as nat, |k: int| bytes::le32(b, k * 32 + 8)),
                );
            },
        }
    }
}

/// The file service.
pub struct Ext2Srv {
    pub e: Ext2,
    pub own: u64,
    pub fds: Vec<Option<Ext2Fd>>,
}

impl Ext2Srv {
    pub open spec fn view(&self) -> Ext2SrvView {
        Ext2SrvView { e: self.e@, own: self.own, fds: self.fds@ }
    }

    /// The volume is mounted, and the table of open files has all its slots.
    pub open spec fn inv(&self) -> bool {
        self.e.inv() && self.fds@.len() == EXT2_MAX_FD
    }

    /// Starts the service on volume `vol`.
    pub fn start(store: Store, vol: u64) -> (r: Option<Ext2Srv>)
        requires
            store@.wf(),
        ensures
            match (r, layout(store@, vol)) {
                (Some(s), Some(geo)) => s.inv() && s@ == (Ext2SrvView {
                    e: Ext2View { store: store@, vol, geo },
                    own: vol,
                    fds: Seq::new(EXT2_MAX_FD as nat, |i: int| None),
                }),
                (None, None) => true,
                _ => false,
            },
    {
        match read_layout(&store, vol) {
            None => None,
            Some(geo) => {
                let e = Ext2 { store, vol, geo };
                if !e.has_root() {
                    return None;
                }
                let fds: Vec<Option<Ext2Fd>> = vec![None; 16];
                let s = Ext2Srv { e, own: vol, fds };
                assert(s@.fds =~= Seq::new(EXT2_MAX_FD as nat, |i: int| None));
                Some(s)
            },
        }
    }

    /// Gives a file a descriptor.
    pub fn ext2_fd_alloc(&mut self, f: Ext2Fd) -> (r: Reply)
        requires
            old(self).inv(),
        ensures
            final(self).inv(),
            (final(self)@, r@) == old(self)@.take_fd(f),
    {
        let mut i: usize = 0;
        while i < self.fds.len() && self.fds[i].is_some()
            invariant
                i <= self.fds.len(),
                free_fd(self@.fds, i as int) == free_fd(self@.fds, 0),
            decreases self.fds.len() - i,
        {
            i = i + 1;
        }
        if i < self.fds.len() {
            self.fds.set(i, Some(f));
            Reply::Value(i as u64)
        } else {
            Reply::Fail
        }
    }

    /// The open file with descriptor `fd`.
    pub fn ext2_fd_get(&self, fd: u32) -> (r: Option<Ext2Fd>)
        requires
            self.inv(),
        ensures
            r == self@.fd_get(fd),
    {
        if fd as usize >= EXT2_MAX_FD {
            return None;
        }
        self.fds[fd as usize]
    }

    /// Gives a descriptor back.
    pub fn ext2_fd_free(&mut self, fd: u32) -> (r: Reply)
        requires
            old(self).inv(),
        ensures
            final(self).inv(),
            (final(self)@, r@) == old(self)@.answer(Request::Close { fd }),
    {
        if fd as usize >= EXT2_MAX_FD {
            return Reply::Value(0);
        }
        if self.fds[fd as usize].is_some() {
            self.fds.set(fd as usize, None);
            Reply::Value(1)
        } else {
            Reply::Value(0)
        }
    }

    /// Answers a request on the mounted volume.
    fn answer(&mut self, req: &Request) -> (r: Reply)
        requires
            old(self).inv(),
        ensures
            final(self).inv(),
            (final(self)@, r@) == old(self)@.answer(*req),
    {
        match req {
            Request::Open { path } => match self.e.ext2_resolve(path) {
                None => Reply::Fail,
                Some((ino, is_dir, _size)) => {
                    let vol: u64 = self.e.vol;
                    self.ext2_fd_alloc(Ext2Fd { ino, is_dir, vol })
                },
            },
            Request::Read { fd, offset, count } => match self.ext2_fd_get(*fd) {
                Some(f) => {
                    if f.is_dir || *offset > 0xFFFF_FFFF {
                        return Reply::Fail;
                    }
                    match self.e.ext2_read_data(f.ino, *offset as u32, *count) {
                        Some(d) => Reply::Data(d),
                        None => Reply::Fail,
                    }
                },
                None => Reply::Fail,
            },
            Request::Readdir { fd } => match self.ext2_fd_get(*fd) {
                Some(f) => {
                    if !f.is_dir {
                        return Reply::Fail;
                    }
                    match self.e.ext2_readdir(f.ino) {
                        Some(l) => Reply::Entries(l),
                        None => Reply::Fail,
                    }
                },
                None => Reply::Fail,
            },
            Request::Stat { path } => match self.e.ext2_resolve(path) {
                None => Reply::Fail,
                Some((_ino, is_dir, size)) => Reply::StatOf(
                    Stat::plain(
                        if is_dir {
                            0
                        } else {
                            size as u64
                        },
                        is_dir,
                    ),
                ),
            },
            Request::Close { fd } => self.ext2_fd_free(*fd),
            _ => Reply::Fail,
        }
    }

    /// Answers a request.
    pub fn serve(&mut self, enc: u64, req: &Request) -> (r: Reply)
        requires
            old(self).inv(),
        ensures
            final(self).inv(),
            (final(self)@, r@) == old(self)@.serve(enc, *req),
    {
        let named: u64 = vfs::vol_from_enc(enc, self.own);
        let fd: Option<u32> = match req {
            Request::Read { fd, .. } => Some(*fd),
            Request::Readdir { fd } => Some(*fd),
            _ => None,
        };
        let vol: u64 = match fd {
            None => named,
            Some(f) => match self.ext2_fd_get(f) {
                Some(x) => x.vol,
                None => named,
            },
        };
        if vol != self.e.vol {
            if !self.e.ext2_mount(vol) {
                return Reply::Fail;
            }
        }
        self.answer(req)
    }
}

} // verus!
