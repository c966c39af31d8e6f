//! What clients ask of a file service, and what it answers.
use vstd::prelude::*;

verus! {

/// Bytes of an IPC message body; a path travels in one message.
pub const PAYLOAD_LEN: usize = 96;

/// Longest long name in a directory listing, in bytes.
pub const DIR_LONG_MAX: usize = 64;

/// Directory entries that one result page holds.
pub const RESULT_MAX_ENTRIES: usize = 36;

/// Type bits of a file mode.
pub const MODE_FTYPE_MASK: u16 = 0xF000;

/// Type bits of a regular file.
pub const MODE_FTYPE_FILE: u16 = 0x8000;

/// Type bits of a directory.
pub const MODE_FTYPE_DIR: u16 = 0x4000;

/// Type bits of a symbolic link.
pub const MODE_FTYPE_LINK: u16 = 0xA000;

/// A directory entry in a listing: the 8.3 name, the long name (empty where there
/// is none) and what the file system knows of the file.
pub struct DirEntry {
    pub name: Vec<u8>,
    pub long: Vec<u8>,
    pub size: u64,
    pub is_dir: bool,
    pub mode: u16,
    pub owner: u16,
    pub nlink: u32,
    pub mtime: u64,
}

/// The contents of a directory entry.
#[verifier::ext_equal]
pub struct DirEntryView {
    pub name: Seq<u8>,
    pub long: Seq<u8>,
    pub size: u64,
    pub is_dir: bool,
    pub mode: u16,
    pub owner: u16,
    pub nlink: u32,
    pub mtime: u64,
}

impl DirEntryView {
    /// An entry of a file system that keeps no owner, mode or times.
    pub open spec fn plain(name: Seq<u8>, long: Seq<u8>, size: u64, is_dir: bool) -> DirEntryView {
        DirEntryView { name, long, size, is_dir, mode: 0, owner: 0, nlink: 0, mtime: 0 }
    }
}

impl DirEntry {
    pub open spec fn view(&self) -> DirEntryView {
        DirEntryView {
            name: self.name@,
            long: self.long@,
            size: self.size,
            is_dir: self.is_dir,
            mode: self.mode,
            owner: self.owner,
            nlink: self.nlink,
            mtime: self.mtime,
        }
    }

    /// An entry of a file system that keeps no owner, mode or times.
    pub fn plain(name: Vec<u8>, long: Vec<u8>, size: u64, is_dir: bool) -> (r: DirEntry)
        ensures
            r@ == DirEntryView::plain(name@, long@, size, is_dir),
    {
        DirEntry { name, long, size, is_dir, mode: 0, owner: 0, nlink: 0, mtime: 0 }
    }
}

/// The contents of a listing.
pub open spec fn entries_view(v: Seq<DirEntry>) -> Seq<DirEntryView> {
    Seq::new(v.len(), |i: int| v[i]@)
}

/// What is known of a file or directory.
#[derive(Clone, Copy)]
pub struct Stat {
    pub size: u64,
    pub is_dir: bool,
    pub mode: u16,
    pub owner: u16,
    pub nlink: u32,
    pub mtime: u64,
    pub ctime: u64,
    pub atime: u64,
}

impl Stat {
    /// The record of a file system that keeps sizes and types only.
    pub open spec fn plain_spec(size: u64, is_dir: bool) -> Stat {
        Stat { size, is_dir, mode: 0, owner: 0, nlink: 0, mtime: 0, ctime: 0, atime: 0 }
    }

    /// The record of a file system that keeps sizes and types only.
    pub fn plain(size: u64, is_dir: bool) -> (r: Stat)
        ensures
            r == Self::plain_spec(size, is_dir),
    {
        Stat { size, is_dir, mode: 0, owner: 0, nlink: 0, mtime: 0, ctime: 0, atime: 0 }
    }
}

/// A request to a file service.
pub enum Request {
    Open { path: Vec<u8> },
    Read { fd: u32, offset: u64, count: u32 },
    Write { fd: u32, offset: u64, data: Vec<u8> },
    Readdir { fd: u32 },
    Close { fd: u32 },
    Creat { path: Vec<u8> },
    Mkdir { path: Vec<u8> },
    Unlink { path: Vec<u8> },
    Rmdir { path: Vec<u8> },
    Stat { path: Vec<u8> },
    Lstat { path: Vec<u8> },
    Truncate { fd: u32, size: u64 },
    Rename { from: Vec<u8>, to: Vec<u8> },
    Chmod { path: Vec<u8>, mode: u16 },
    Link { target: Vec<u8>, path: Vec<u8> },
    Symlink { target: Vec<u8>, path: Vec<u8> },
    Readlink { path: Vec<u8> },
    Snapshot,
    SnapshotList,
    SnapshotRestore { index: u32 },
    CollectGarbage,
    Usage,
    MakeFs { vol: u64 },
    Unknown,
}

/// The contents of a request.
pub enum RequestView {
    Open { path: Seq<u8> },
    Read { fd: u32, offset: u64, count: u32 },
    Write { fd: u32, offset: u64, data: Seq<u8> },
    Readdir { fd: u32 },
    Close { fd: u32 },
    Creat { path: Seq<u8> },
    Mkdir { path: Seq<u8> },
    Unlink { path: Seq<u8> },
    Rmdir { path: Seq<u8> },
    Stat { path: Seq<u8> },
    Lstat { path: Seq<u8> },
    Truncate { fd: u32, size: u64 },
    Rename { from: Seq<u8>, to: Seq<u8> },
    Chmod { path: Seq<u8>, mode: u16 },
    Link { target: Seq<u8>, path: Seq<u8> },
    Symlink { target: Seq<u8>, path: Seq<u8> },
    Readlink { path: Seq<u8> },
    Snapshot,
    SnapshotList,
    SnapshotRestore { index: u32 },
    CollectGarbage,
    Usage,
    MakeFs { vol: u64 },
    Unknown,
}

impl Request {
    pub open spec fn view(&self) -> RequestView {
        match self {
            Request::Open { path } => RequestView::Open { path: path@ },
            Request::Read { fd, offset, count } => RequestView::Read {
                fd: *fd,
                offset: *offset,
                count: *count,
            },
            Request::Write { fd, offset, data } => RequestView::Write {
                fd: *fd,
                offset: *offset,
                data: data@,
            },
            Request::Readdir { fd } => RequestView::Readdir { fd: *fd },
            Request::Close { fd } => RequestView::Close { fd: *fd },
            Request::Creat { path } => RequestView::Creat { path: path@ },
            Request::Mkdir { path } => RequestView::Mkdir { path: path@ },
            Request::Unlink { path } => RequestView::Unlink { path: path@ },
            Request::Rmdir { path } => RequestView::Rmdir { path: path@ },
            Request::Stat { path } => RequestView::Stat { path: path@ },
            Request::Lstat { path } => RequestView::Lstat { path: path@ },
            Request::Truncate { fd, size } => RequestView::Truncate { fd: *fd, size: *size },
            Request::Rename { from, to } => RequestView::Rename { from: from@, to: to@ },
            Request::Chmod { path, mode } => RequestView::Chmod { path: path@, mode: *mode },
            Request::Link { target, path } => RequestView::Link { target: target@, path: path@ },
            Request::Symlink { target, path } => RequestView::Symlink {
                target: target@,
                path: path@,
            },
            Request::Readlink { path } => RequestView::Readlink { path: path@ },
            Request::Snapshot => RequestView::Snapshot,
            Request::SnapshotList => RequestView::SnapshotList,
            Request::SnapshotRestore { index } => RequestView::SnapshotRestore { index: *index },
            Request::CollectGarbage => RequestView::CollectGarbage,
            Request::Usage => RequestView::Usage,
            Request::MakeFs { vol } => RequestView::MakeFs { vol: *vol },
            Request::Unknown => RequestView::Unknown,
        }
    }

    /// The descriptor that a request on an open file names.
    pub open spec fn fd_spec(self) -> Option<u32> {
        match self {
            Request::Read { fd, .. } => Some(fd),
            Request::Write { fd, .. } => Some(fd),
            Request::Readdir { fd } => Some(fd),
            _ => None,
        }
    }

    /// The descriptor that a request on an open file names.
    pub fn fd(&self) -> (r: Option<u32>)
        ensures
            r == self.fd_spec(),
    {
        match self {
            Request::Read { fd, .. } => Some(*fd),
            Request::Write { fd, .. } => Some(*fd),
            Request::Readdir { fd } => Some(*fd),
            _ => None,
        }
    }
}

/// The answer of a file service.
pub enum Reply {
    Fail,
    Value(u64),
    Data(Vec<u8>),
    Entries(Vec<DirEntry>),
    StatOf(Stat),
}

/// The contents of an answer.
pub enum ReplyView {
    Fail,
    Value(u64),
    Data(Seq<u8>),
    Entries(Seq<DirEntryView>),
    StatOf(Stat),
}

impl Reply {
    pub open spec fn view(&self) -> ReplyView {
        match self {
            Reply::Fail => ReplyView::Fail,
            Reply::Value(v) => ReplyView::Value(*v),
            Reply::Data(d) => ReplyView::Data(d@),
            Reply::Entries(e) => ReplyView::Entries(entries_view(e@)),
            Reply::StatOf(s) => ReplyView::StatOf(*s),
        }
    }

    /// The answer that carries a descriptor, or failure where there is none.
    pub fn of_option(v: Option<u64>) -> (r: Reply)
        ensures
            r@ == ReplyView::of_option(v),
    {
        match v {
            Some(x) => Reply::Value(x),
            None => Reply::Fail,
        }
    }

    /// The answer 1 to a request that was carried out, else failure.
    pub fn done(ok: bool) -> (r: Reply)
        ensures
            r@ == ReplyView::done(ok),
    {
        if ok {
            Reply::Value(1)
        } else {
            Reply::Fail
        }
    }
}

impl ReplyView {
    /// The answer that carries a descriptor, or failure where there is none.
    pub open spec fn of_option(v: Option<u64>) -> ReplyView {
        match v {
            Some(x) => ReplyView::Value(x),
            None => ReplyView::Fail,
        }
    }

    /// The answer 1 to a request that was carried out, else failure.
    pub open spec fn done(ok: bool) -> ReplyView {
        if ok {
            ReplyView::Value(1)
        } else {
            ReplyView::Fail
        }
    }
}

/// The volume that the encoding in a request names: 0 is the service's own volume,
/// any other number is one more than the volume's.
pub open spec fn vol_from_enc_spec(enc: u64, own: u64) -> u64 {
    if enc == 0 {
        own
    } else {
        (enc - 1) as u64
    }
}

/// The volume that the encoding in a request names.
pub fn vol_from_enc(enc: u64, own: u64) -> (r: u64)
    ensures
        r == vol_from_enc_spec(enc, own),
{
    if enc == 0 {
        own
    } else {
        enc - 1
    }
}

} // verus!
