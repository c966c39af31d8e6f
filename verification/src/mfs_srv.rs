//! MorionFS: the file service. Open files, snapshots, requests.
use vstd::prelude::*;

use crate::bytes;
use crate::disk::{Store, StoreView};
use crate::mfs::{Mfs, MfsSnap, MfsView, MFS_MAX_SNAP};
use crate::mfs_path;
use crate::mfs_vol;
use crate::vfs;
use crate::vfs::{Reply, ReplyView, Request};
use crate::volume;
use crate::volume::{VolumeDesc, VOL_KIND_MFS, VOL_KIND_UNKNOWN};

verus! {

/// Most files open at a time.
pub const MFS_MAX_FD: usize = 16;

/// Bytes of a snapshot record in a listing.
pub const SNAP_REC_LEN: usize = 24;

/// An open file: its path, whether it is a directory, and the volume it is on.
#[verifier::ext_equal]
pub struct MfsFdView {
    pub is_dir: bool,
    pub path: Seq<u8>,
    pub vol: u64,
}

/// The state of the service.
#[verifier::ext_equal]
pub struct MfsSrvView {
    pub fs: MfsView,
    /// The volume that requests are for unless they name another.
    pub own: u64,
    pub list: Seq<VolumeDesc>,
    pub fds: Seq<Option<MfsFdView>>,
}

/// The first free descriptor from `i` on; the table's length where there is none.
pub open spec fn free_fd(fds: Seq<Option<MfsFdView>>, i: int) -> int
    decreases fds.len() - i,
{
    if i >= fds.len() || fds[i] is None {
        i
    } else {
        free_fd(fds, i + 1)
    }
}

/// The descriptor that a request on an open file names.
pub open spec fn fd_of(req: Request) -> Option<u32> {
    match req {
        Request::Truncate { fd, size } => Some(fd),
        _ => req.fd_spec(),
    }
}

/// A snapshot record.
pub open spec fn snap_bytes(s: MfsSnap) -> Seq<u8> {
    bytes::bytes64(s.gen) + bytes::bytes32(s.itab) + bytes::bytes32(s.ino_hint) + bytes::bytes32(
        s.alloc_next,
    ) + bytes::zeros(4)
}

/// The records of the snapshots from `i` on.
pub open spec fn snaps_bytes(snaps: Seq<MfsSnap>, i: int) -> Seq<u8>
    decreases snaps.len() - i,
{
    if i >= snaps.len() {
        Seq::empty()
    } else {
        snap_bytes(snaps[i]) + snaps_bytes(snaps, i + 1)
    }
}

impl MfsView {
    /// The snapshots with one more for the present state; the oldest goes where the table
    /// is full.
    pub open spec fn with_snapshot(self) -> Seq<MfsSnap> {
        let kept = if self.snaps.len() >= MFS_MAX_SNAP {
            self.snaps.subrange(1, MFS_MAX_SNAP as int)
        } else {
            self.snaps
        };
        kept.push(
            MfsSnap {
                gen: self.gen,
                itab: self.itab,
                ino_hint: self.ino_hint,
                alloc_next: self.alloc_next,
            },
        )
    }

    /// A snapshot taken: its index.
    #[verifier::opaque]
    pub open spec fn snapshot(self) -> (MfsView, Option<u64>) {
        let snaps = self.with_snapshot();
        let (s, ok) = MfsView { snaps, ..self }.flush();
        (
            s,
            if ok {
                Some((snaps.len() - 1) as u64)
            } else {
                None
            },
        )
    }

    /// The state of snapshot `i` made the present one.
    #[verifier::opaque]
    pub open spec fn restore(self, i: u32) -> (MfsView, bool) {
        if i >= self.snaps.len() {
            (self, false)
        } else {
            let p = self.snaps[i as int];
            let (s, ok) = MfsView {
                itab: p.itab,
                ino_hint: p.ino_hint,
                alloc_next: p.alloc_next,
                gen: p.gen,
                ..self
            }.itab_reload();
            if ok {
                s.flush()
            } else {
                (s, false)
            }
        }
    }
}

impl MfsSrvView {
    /// The service at start: the volume to mount is claimed, and loaded or else made anew.
    /// There is none where that volume holds another file system.
    #[verifier::opaque]
    pub open spec fn started(store: StoreView, list: Seq<VolumeDesc>, now: u64) -> Option<
        MfsSrvView,
    > {
        let own = mfs_vol::claimed(store, list);
        let (kind, sectors) = match volume::desc_from(list, own, 0) {
            Some(d) => (d.kind, d.sectors),
            None => (VOL_KIND_UNKNOWN, 0),
        };
        if kind != VOL_KIND_UNKNOWN && kind != VOL_KIND_MFS {
            None
        } else {
            let (fs, ok) = MfsView {
                now,
                ..MfsView::init(store, own, sectors)
            }.mount_or_format();
            if ok {
                Some(
                    MfsSrvView {
                        fs,
                        own,
                        list,
                        fds: Seq::new(MFS_MAX_FD as nat, |i: int| None),
                    },
                )
            } else {
                None
            }
        }
    }

    /// The open file with descriptor `fd`.
    pub open spec fn fd_get(self, fd: u32) -> Option<MfsFdView> {
        if fd < MFS_MAX_FD {
            self.fds[fd as int]
        } else {
            None
        }
    }

    /// The path of the open file or (`is_dir`) directory with descriptor `fd`.
    pub open spec fn fd_path(self, fd: u32, is_dir: bool) -> Option<Seq<u8>> {
        match self.fd_get(fd) {
            Some(f) => if f.is_dir == is_dir {
                Some(f.path)
            } else {
                None
            },
            None => None,
        }
    }

    /// A path given the first free descriptor.
    pub open spec fn take_fd(self, path: Seq<u8>, is_dir: bool) -> (MfsSrvView, ReplyView) {
        let i = free_fd(self.fds, 0);
        if i < self.fds.len() {
            (
                MfsSrvView {
                    fds: self.fds.update(i, Some(MfsFdView { is_dir, path, vol: self.fs.vol })),
                    ..self
                },
                ReplyView::Value(i as u64),
            )
        } else {
            (self, ReplyView::Fail)
        }
    }

    /// A descriptor given back.
    pub open spec fn close(self, fd: u32) -> (MfsSrvView, ReplyView) {
        if self.fd_get(fd) is Some {
            (
                MfsSrvView { fds: self.fds.update(fd as int, None), ..self },
                ReplyView::Value(1),
            )
        } else {
            (self, ReplyView::Value(0))
        }
    }

    /// The object of the open file with descriptor `fd`.
    #[verifier::opaque]
    pub open spec fn fd_ino(self, fd: u32, is_dir: bool) -> (MfsView, Option<u32>) {
        match self.fd_path(fd, is_dir) {
            None => (self.fs, None),
            Some(p) => match self.fs.resolve(p, true) {
                (s, None) => (s, None),
                (s, Some((ino, loc))) => (s, Some(ino)),
            },
        }
    }

    /// A path opened.
    #[verifier::opaque]
    pub open spec fn open(self, path: Seq<u8>) -> (MfsSrvView, ReplyView) {
        match mfs_path::raw_normal(path) {
            None => (self, ReplyView::Fail),
            Some(c) => match self.fs.open_kind(c) {
                (fs, None) => (MfsSrvView { fs, ..self }, ReplyView::Fail),
                (fs, Some(d)) => MfsSrvView { fs, ..self }.take_fd(c, d),
            },
        }
    }

    /// A file or directory made.
    #[verifier::opaque]
    pub open spec fn make(self, path: Seq<u8>, is_dir: bool, owner: u16) -> (
        MfsSrvView,
        ReplyView,
    ) {
        match mfs_path::raw_normal(path) {
            None => (self, ReplyView::Fail),
            Some(c) => match self.fs.create(c, is_dir, owner) {
                (fs, false) => (MfsSrvView { fs, ..self }, ReplyView::Fail),
                (fs, true) => if is_dir {
                    (MfsSrvView { fs, ..self }, ReplyView::Value(1))
                } else {
                    MfsSrvView { fs, ..self }.take_fd(c, false)
                },
            },
        }
    }

    /// The answer to a request on an open file.
    #[verifier::opaque]
    pub open spec fn on_fd(self, req: Request) -> (MfsView, ReplyView) {
        match req {
            Request::Read { fd, offset, count } => match self.fd_ino(fd, false) {
                (fs, None) => (fs, ReplyView::Fail),
                (fs, Some(ino)) => match fs.read_file(ino, offset, count) {
                    (s, None) => (s, ReplyView::Fail),
                    (s, Some(d)) => (s, ReplyView::Data(d)),
                },
            },
            Request::Write { fd, offset, data } => match self.fd_ino(fd, false) {
                (fs, None) => (fs, ReplyView::Fail),
                (fs, Some(ino)) => match fs.write_file(ino, offset, data@) {
                    (s, false) => (s, ReplyView::Fail),
                    (s, true) => (s, ReplyView::Value(data@.len() as u64)),
                },
            },
            Request::Readdir { fd } => match self.fd_ino(fd, true) {
                (fs, None) => (fs, ReplyView::Fail),
                (fs, Some(ino)) => match fs.readdir(ino) {
                    (s, None) => (s, ReplyView::Fail),
                    (s, Some(e)) => (s, ReplyView::Entries(e)),
                },
            },
            Request::Truncate { fd, size } => match self.fd_ino(fd, false) {
                (fs, None) => (fs, ReplyView::Fail),
                (fs, Some(ino)) => {
                    let (s, ok) = fs.truncate(ino, size);
                    (s, ReplyView::done(ok))
                },
            },
            _ => (self.fs, ReplyView::Fail),
        }
    }

    /// The answer to a request on a path.
    #[verifier::opaque]
    pub open spec fn on_path(self, req: Request, owner: u16) -> (MfsView, ReplyView) {
        match req {
            Request::Unlink { path } => {
                let (s, ok) = self.fs.remove(path@, false);
                (s, ReplyView::done(ok))
            },
            Request::Rmdir { path } => {
                let (s, ok) = self.fs.remove(path@, true);
                (s, ReplyView::done(ok))
            },
            Request::Rename { from, to } => {
                let (s, ok) = self.fs.rename(from@, to@);
                (s, ReplyView::done(ok))
            },
            Request::Link { target, path } => {
                let (s, ok) = self.fs.link(target@, path@);
                (s, ReplyView::done(ok))
            },
            Request::Symlink { target, path } => {
                let (s, ok) = self.fs.symlink(target@, path@, owner);
                (s, ReplyView::done(ok))
            },
            Request::Chmod { path, mode } => {
                let (s, ok) = self.fs.chmod(path@, mode);
                (s, ReplyView::done(ok))
            },
            Request::Stat { path } => match self.fs.stat(path@, true) {
                (s, None) => (s, ReplyView::Fail),
                (s, Some(st)) => (s, ReplyView::StatOf(st)),
            },
            Request::Lstat { path } => match self.fs.stat(path@, false) {
                (s, None) => (s, ReplyView::Fail),
                (s, Some(st)) => (s, ReplyView::StatOf(st)),
            },
            Request::Readlink { path } => match self.fs.readlink(path@) {
                (s, None) => (s, ReplyView::Fail),
                (s, Some(t)) => (s, ReplyView::Data(t)),
            },
            _ => (self.fs, ReplyView::Fail),
        }
    }

    /// The answer to a request on the volume as a whole.
    #[verifier::opaque]
    pub open spec fn on_volume(self, req: Request) -> (MfsView, ReplyView) {
        match req {
            Request::Snapshot => {
                let (s, r) = self.fs.snapshot();
                (s, ReplyView::of_option(r))
            },
            Request::SnapshotList => (self.fs, ReplyView::Data(snaps_bytes(self.fs.snaps, 0))),
            Request::SnapshotRestore { index } => {
                let (s, ok) = self.fs.restore(index);
                (s, ReplyView::done(ok))
            },
            Request::CollectGarbage => {
                let (s, r) = self.fs.gc();
                (s, ReplyView::of_option(r))
            },
            Request::Usage => (
                self.fs,
                ReplyView::Value((self.fs.total * 0x1_0000_0000 + self.fs.free) as u64),
            ),
            Request::MakeFs { vol } => {
                let (s, r) = self.fs.mkfs(self.list, vol);
                (s, ReplyView::of_option(r))
            },
            _ => (self.fs, ReplyView::Fail),
        }
    }

    /// The answer to a request on the current volume.
    #[verifier::opaque]
    pub open spec fn answer(self, req: Request, owner: u16) -> (MfsSrvView, ReplyView) {
        match req {
            Request::Open { path } => self.open(path@),
            Request::Creat { path } => self.make(path@, false, owner),
            Request::Mkdir { path } => self.make(path@, true, owner),
            Request::Close { fd } => self.close(fd),
            Request::Read { .. } | Request::Write { .. } | Request::Readdir { .. }
            | Request::Truncate { .. } => {
                let (fs, r) = self.on_fd(req);
                (MfsSrvView { fs, ..self }, r)
            },
            Request::Snapshot
            | Request::SnapshotList
            | Request::SnapshotRestore { .. }
            | Request::CollectGarbage
            | Request::Usage
            | Request::MakeFs { .. } => {
                let (fs, r) = self.on_volume(req);
                (MfsSrvView { fs, ..self }, r)
            },
            _ => {
                let (fs, r) = self.on_path(req, owner);
                (MfsSrvView { fs, ..self }, r)
            },
        }
    }

    /// The volume that a request is for: that of the open file it names, else the one in
    /// its encoding.
    pub open spec fn target(self, enc: u64, req: Request) -> u64 {
        let named = vfs::vol_from_enc_spec(enc, self.own);
        match fd_of(req) {
            None => named,
            Some(fd) => match self.fd_get(fd) {
                Some(f) => f.vol,
                None => named,
            },
        }
    }

    /// The answer to a request from domain `owner` at time `now`. Where few blocks are free
    /// they are collected first; where the request is for another volume that one is made
    /// current, and the request fails where it cannot be loaded.
    pub open spec fn serve(self, enc: u64, req: Request, owner: u16, now: u64) -> (
        MfsSrvView,
        ReplyView,
    ) {
        let s = MfsSrvView { fs: MfsView { now, ..self.fs }.maybe_gc(), ..self };
        let vol = s.target(enc, req);
        if vol == s.fs.vol {
            s.answer(req, owner)
        } else {
            let (fs, ok) = s.fs.switch_vol(s.list, vol);
            let t = MfsSrvView { fs, ..s };
            if ok {
                t.answer(req, owner)
            } else {
                (t, ReplyView::Fail)
            }
        }
    }
}

/// An open file.
#[derive(Clone)]
pub struct MfsFd {
    pub is_dir: bool,
    pub path: Vec<u8>,
    pub vol: u64,
}

/// The file service.
#[derive(Clone)]
pub struct MfsSrv {
    pub fs: Mfs,
    pub own: u64,
    pub list: Vec<VolumeDesc>,
    pub fds: Vec<Option<MfsFd>>,
}

/// The contents of a slot of the table of open files.
pub open spec fn fd_view(f: Option<MfsFd>) -> Option<MfsFdView> {
    match f {
        None => None,
        Some(x) => Some(MfsFdView { is_dir: x.is_dir, path: x.path@, vol: x.vol }),
    }
}

impl MfsSrv {
    pub open spec fn view(&self) -> MfsSrvView {
        MfsSrvView {
            fs: self.fs@,
            own: self.own,
            list: self.list@,
            fds: Seq::new(self.fds@.len(), |i: int| fd_view(self.fds@[i])),
        }
    }

    /// The file system is in order; open files have a path.
    pub open spec fn inv(&self) -> bool {
        &&& self.fs.inv()
        &&& self.fds@.len() == MFS_MAX_FD
        &&& forall|i: int|
            0 <= i < self.fds@.len() ==> ((#[trigger] self.fds@[i]) matches Some(f)
                ==> f.path@.len() >= 1)
    }

    /// Claims a volume and starts the service on it.
    pub fn start(store: Store, list: Vec<VolumeDesc>, now: u64) -> (r: Option<MfsSrv>)
        requires
            store@.wf(),
        ensures
            match r {
                Some(s) => s.inv() && MfsSrvView::started(store@, list@, now) == Some(s@),
                None => MfsSrvView::started(store@, list@, now) is None,
            },
    {
        proof {
            reveal(MfsSrvView::started);
        }
        let own: u64 = mfs_vol::mfs_vol_claim(&store, &list);
        let kind: u32 = volume::vol_kind_of(&list, own);
        if kind != VOL_KIND_UNKNOWN && kind != VOL_KIND_MFS {
            return None;
        }
        let sectors: u32 = volume::vol_sectors(&list, own);
        let mut fs: Mfs = Mfs::new(store, own, sectors);
        fs.now = now;
        if !fs.mfs_mount_or_format() {
            return None;
        }
        let mut fds: Vec<Option<MfsFd>> = Vec::new();
        let mut i: usize = 0;
        while i < MFS_MAX_FD
            invariant
                i <= MFS_MAX_FD,
                fds.len() == i,
                forall|k: int| 0 <= k < fds@.len() ==> (#[trigger] fds@[k]) is None,
            decreases MFS_MAX_FD - i,
        {
            fds.push(None);
            i = i + 1;
        }
        let s = MfsSrv { fs, own, list, fds };
        assert(s@.fds =~= Seq::new(MFS_MAX_FD as nat, |i: int| None));
        Some(s)
    }

    /// Gives a path a descriptor.
    pub fn mfs_fd_alloc(&mut self, path: Vec<u8>, is_dir: bool) -> (r: Reply)
        requires
            old(self).inv(),
            path.len() >= 1,
        ensures
            final(self).inv(),
            (final(self)@, r@) == old(self)@.take_fd(path@, is_dir),
    {
        let mut i: usize = 0;
        while i < self.fds.len() && self.fds[i].is_some()
            invariant
                i <= self.fds.len(),
                free_fd(self@.fds, i as int) == free_fd(self@.fds, 0),
            decreases self.fds.len() - i,
        {
            assert(self@.fds[i as int] == fd_view(self.fds@[i as int]));
            i = i + 1;
        }
        if i < self.fds.len() {
            assert(self@.fds[i as int] == fd_view(self.fds@[i as int]));
            let vol: u64 = self.fs.vol;
            let ghost f = MfsFdView { is_dir, path: path@, vol };
            self.fds.set(i, Some(MfsFd { is_dir, path, vol }));
            assert(self@.fds =~= old(self)@.fds.update(i as int, Some(f)));
            Reply::Value(i as u64)
        } else {
            Reply::Fail
        }
    }

    /// The volume of an open file.
    pub fn mfs_fd_get(&self, fd: u32) -> (r: Option<u64>)
        requires
            self.inv(),
        ensures
            r == (match self@.fd_get(fd) {
                Some(f) => Some(f.vol),
                None => None,
            }),
    {
        if fd as usize >= MFS_MAX_FD {
            return None;
        }
        assert(self@.fds[fd as int] == fd_view(self.fds@[fd as int]));
        match &self.fds[fd as usize] {
            Some(f) => Some(f.vol),
            None => None,
        }
    }

    /// The path of an open file.
    fn fd_path(&self, fd: u32, is_dir: bool) -> (r: Option<Vec<u8>>)
        requires
            self.inv(),
        ensures
            bytes::opt(r) == self@.fd_path(fd, is_dir),
            r matches Some(p) ==> p.len() >= 1,
    {
        if fd as usize >= MFS_MAX_FD {
            return None;
        }
        assert(self@.fds[fd as int] == fd_view(self.fds@[fd as int]));
        match &self.fds[fd as usize] {
            Some(f) => {
                if f.is_dir == is_dir {
                    let p: Vec<u8> = bytes::slice_copy(&f.path, 0, f.path.len());
                    assert(p@ =~= f.path@);
                    Some(p)
                } else {
                    None
                }
            },
            None => None,
        }
    }

    /// Gives a descriptor back.
    pub fn mfs_fd_free(&mut self, fd: u32) -> (r: Reply)
        requires
            old(self).inv(),
        ensures
            final(self).inv(),
            (final(self)@, r@) == old(self)@.close(fd),
    {
        if fd as usize >= MFS_MAX_FD {
            return Reply::Value(0);
        }
        assert(self@.fds[fd as int] == fd_view(self.fds@[fd as int]));
        if self.fds[fd as usize].is_some() {
            self.fds.set(fd as usize, None);
            assert(self@.fds =~= old(self)@.fds.update(fd as int, None));
            Reply::Value(1)
        } else {
            Reply::Value(0)
        }
    }

    /// The object of an open file.
    fn fd_ino(&mut self, fd: u32, is_dir: bool) -> (r: Option<u32>)
        requires
            old(self).inv(),
        ensures
            final(self).inv(),
            final(self)@ == (MfsSrvView { fs: old(self)@.fd_ino(fd, is_dir).0, ..old(self)@ }),
            r == old(self)@.fd_ino(fd, is_dir).1,
    {
        proof {
            reveal(MfsSrvView::fd_ino);
        }
        match self.fd_path(fd, is_dir) {
            None => None,
            Some(p) => match self.fs.mfs_resolve_ex(&p, true) {
                None => None,
                Some((ino, _loc)) => Some(ino),
            },
        }
    }

    /// Opens a path.
    fn do_open(&mut self, path: &Vec<u8>) -> (r: Reply)
        requires
            old(self).inv(),
        ensures
            final(self).inv(),
            (final(self)@, r@) == old(self)@.open(path@),
    {
        proof {
            reveal(MfsSrvView::open);
        }
        match mfs_path::mfs_normalize(path) {
            None => Reply::Fail,
            Some(c) => match self.fs.mfs_open_kind(&c) {
                None => Reply::Fail,
                Some(d) => self.mfs_fd_alloc(c, d),
            },
        }
    }

    /// Makes a file or directory.
    fn do_make(&mut self, path: &Vec<u8>, is_dir: bool, owner: u16) -> (r: Reply)
        requires
            old(self).inv(),
        ensures
            final(self).inv(),
            (final(self)@, r@) == old(self)@.make(path@, is_dir, owner),
    {
        proof {
            reveal(MfsSrvView::make);
        }
        match mfs_path::mfs_normalize(path) {
            None => Reply::Fail,
            Some(c) => {
                if !self.fs.mfs_create(&c, is_dir, owner) {
                    return Reply::Fail;
                }
                if is_dir {
                    Reply::Value(1)
                } else {
                    self.mfs_fd_alloc(c, false)
                }
            },
        }
    }

    /// Answers a request on an open file.
    fn on_fd(&mut self, req: &Request) -> (r: Reply)
        requires
            old(self).inv(),
        ensures
            final(self).inv(),
            final(self)@ == (MfsSrvView { fs: old(self)@.on_fd(*req).0, ..old(self)@ }),
            r@ == old(self)@.on_fd(*req).1,
    {
        proof {
            reveal(MfsSrvView::on_fd);
        }
        match req {
            Request::Read { fd, offset, count } => match self.fd_ino(*fd, false) {
                None => Reply::Fail,
                Some(ino) => match self.fs.mfs_read_file(ino, *offset, *count) {
                    None => Reply::Fail,
                    Some(d) => Reply::Data(d),
                },
            },
            Request::Write { fd, offset, data } => match self.fd_ino(*fd, false) {
                None => Reply::Fail,
                Some(ino) => {
                    if self.fs.mfs_write_file(ino, *offset, data) {
                        Reply::Value(data.len() as u64)
                    } else {
                        Reply::Fail
                    }
                },
            },
            Request::Readdir { fd } => match self.fd_ino(*fd, true) {
                None => Reply::Fail,
                Some(ino) => match self.fs.mfs_readdir(ino) {
                    None => Reply::Fail,
                    Some(e) => Reply::Entries(e),
                },
            },
            Request::Truncate { fd, size } => match self.fd_ino(*fd, false) {
                None => Reply::Fail,
                Some(ino) => {
                    let ok: bool = self.fs.mfs_truncate(ino, *size);
                    Reply::done(ok)
                },
            },
            _ => Reply::Fail,
        }
    }

    /// Answers a request on a path.
    fn on_path(&mut self, req: &Request, owner: u16) -> (r: Reply)
        requires
            old(self).inv(),
        ensures
            final(self).inv(),
            final(self)@ == (MfsSrvView { fs: old(self)@.on_path(*req, owner).0, ..old(self)@ }),
            r@ == old(self)@.on_path(*req, owner).1,
    {
        proof {
            reveal(MfsSrvView::on_path);
        }
        match req {
            Request::Unlink { path } => Reply::done(self.fs.mfs_remove(path, false)),
            Request::Rmdir { path } => Reply::done(self.fs.mfs_remove(path, true)),
            Request::Rename { from, to } => Reply::done(self.fs.mfs_rename(from, to)),
            Request::Link { target, path } => Reply::done(self.fs.mfs_link(target, path)),
            Request::Symlink { target, path } => Reply::done(
                self.fs.mfs_symlink(target, path, owner),
            ),
            Request::Chmod { path, mode } => Reply::done(self.fs.mfs_chmod(path, *mode)),
            Request::Stat { path } => match self.fs.mfs_stat(path, true) {
                None => Reply::Fail,
                Some(st) => Reply::StatOf(st),
            },
            Request::Lstat { path } => match self.fs.mfs_stat(path, false) {
                None => Reply::Fail,
                Some(st) => Reply::StatOf(st),
            },
            Request::Readlink { path } => match self.fs.mfs_readlink(path) {
                None => Reply::Fail,
                Some(t) => Reply::Data(t),
            },
            _ => Reply::Fail,
        }
    }

    /// Takes a snapshot.
    fn take_snapshot(&mut self) -> (r: Option<u64>)
        requires
            old(self).inv(),
        ensures
            final(self).inv(),
            final(self)@ == (MfsSrvView { fs: old(self)@.fs.snapshot().0, ..old(self)@ }),
            r == old(self)@.fs.snapshot().1,
    {
        proof {
            reveal(MfsView::snapshot);
        }
        let snap = MfsSnap {
            gen: self.fs.gen,
            itab: self.fs.itab,
            ino_hint: self.fs.ino_hint,
            alloc_next: self.fs.alloc_next,
        };
        if self.fs.snaps.len() >= MFS_MAX_SNAP {
            let _oldest: MfsSnap = self.fs.snaps.remove(0);
            assert(self.fs.snaps@ =~= old(self).fs.snaps@.subrange(1, MFS_MAX_SNAP as int));
        }
        self.fs.snaps.push(snap);
        let n: u64 = (self.fs.snaps.len() - 1) as u64;
        if self.fs.mfs_bmp_flush() {
            Some(n)
        } else {
            None
        }
    }

    /// The records of all snapshots.
    #[verifier::loop_isolation(false)]
    fn list_snapshots(&self) -> (r: Vec<u8>)
        requires
            self.inv(),
        ensures
            r@ == snaps_bytes(self@.fs.snaps, 0),
    {
        let mut out: Vec<u8> = Vec::new();
        let mut i: usize = 0;
        assert(out@ + snaps_bytes(self@.fs.snaps, 0) =~= snaps_bytes(self@.fs.snaps, 0));
        while i < self.fs.snaps.len()
            invariant
                i <= self.fs.snaps.len(),
                out@ + snaps_bytes(self@.fs.snaps, i as int) == snaps_bytes(self@.fs.snaps, 0),
            decreases self.fs.snaps.len() - i,
        {
            let s: MfsSnap = self.fs.snaps[i];
            let mut rec: Vec<u8> = bytes::zero_vec(24);
            bytes::write_u64(&mut rec, 0, s.gen);
            bytes::write_u32(&mut rec, 8, s.itab);
            bytes::write_u32(&mut rec, 12, s.ino_hint);
            bytes::write_u32(&mut rec, 16, s.alloc_next);
            assert(rec@ =~= snap_bytes(s));
            let ghost before = out@;
            out.append(&mut rec);
            i = i + 1;
            assert(out@ + snaps_bytes(self@.fs.snaps, i as int) =~= before + (snap_bytes(s)
                + snaps_bytes(self@.fs.snaps, i as int)));
        }
        assert(out@ + Seq::empty() =~= out@);
        out
    }

    /// Makes the state of a snapshot the present one.
    fn restore_snapshot(&mut self, i: u32) -> (r: bool)
        requires
            old(self).inv(),
        ensures
            final(self).inv(),
            final(self)@ == (MfsSrvView { fs: old(self)@.fs.restore(i).0, ..old(self)@ }),
            r == old(self)@.fs.restore(i).1,
    {
        proof {
            reveal(MfsView::restore);
        }
        if i as usize >= self.fs.snaps.len() {
            return false;
        }
        let p: MfsSnap = self.fs.snaps[i as usize];
        self.fs.itab = p.itab;
        self.fs.ino_hint = p.ino_hint;
        self.fs.alloc_next = p.alloc_next;
        self.fs.gen = p.gen;
        if !self.fs.mfs_itab_reload() {
            return false;
        }
        self.fs.mfs_bmp_flush()
    }

    /// Answers a request on the volume as a whole.
    fn on_volume(&mut self, req: &Request) -> (r: Reply)
        requires
            old(self).inv(),
        ensures
            final(self).inv(),
            final(self)@ == (MfsSrvView { fs: old(self)@.on_volume(*req).0, ..old(self)@ }),
            r@ == old(self)@.on_volume(*req).1,
    {
        proof {
            reveal(MfsSrvView::on_volume);
        }
        match req {
            Request::Snapshot => Reply::of_option(self.take_snapshot()),
            Request::SnapshotList => Reply::Data(self.list_snapshots()),
            Request::SnapshotRestore { index } => Reply::done(self.restore_snapshot(*index)),
            Request::CollectGarbage => Reply::of_option(self.fs.mfs_gc()),
            Request::Usage => Reply::Value(
                self.fs.total as u64 * 0x1_0000_0000 + self.fs.free as u64,
            ),
            Request::MakeFs { vol } => Reply::of_option(
                self.fs.mfs_mkfs_volume(&self.list, *vol),
            ),
            _ => Reply::Fail,
        }
    }

    /// Answers a request on the current volume.
    fn answer(&mut self, req: &Request, owner: u16) -> (r: Reply)
        requires
            old(self).inv(),
        ensures
            final(self).inv(),
            (final(self)@, r@) == old(self)@.answer(*req, owner),
    {
        proof {
            reveal(MfsSrvView::answer);
        }
        match req {
            Request::Open { path } => self.do_open(path),
            Request::Creat { path } => self.do_make(path, false, owner),
            Request::Mkdir { path } => self.do_make(path, true, owner),
            Request::Close { fd } => self.mfs_fd_free(*fd),
            Request::Read { .. } => self.on_fd(req),
            Request::Write { .. } => self.on_fd(req),
            Request::Readdir { .. } => self.on_fd(req),
            Request::Truncate { .. } => self.on_fd(req),
            Request::Snapshot => self.on_volume(req),
            Request::SnapshotList => self.on_volume(req),
            Request::SnapshotRestore { .. } => self.on_volume(req),
            Request::CollectGarbage => self.on_volume(req),
            Request::Usage => self.on_volume(req),
            Request::MakeFs { .. } => self.on_volume(req),
            _ => self.on_path(req, owner),
        }
    }

    /// Answers a request from domain `owner` at time `now`.
    pub fn serve(&mut self, enc: u64, req: &Request, owner: u16, now: u64) -> (r: Reply)
        requires
            old(self).inv(),
        ensures
            final(self).inv(),
            (final(self)@, r@) == old(self)@.serve(enc, *req, owner, now),
    {
        self.fs.now = now;
        self.fs.mfs_maybe_gc();
        let named: u64 = vfs::vol_from_enc(enc, self.own);
        let fd: Option<u32> = match req {
            Request::Truncate { fd, .. } => Some(*fd),
            _ => req.fd(),
        };
        let vol: u64 = match fd {
            None => named,
            Some(f) => match self.mfs_fd_get(f) {
                Some(v) => v,
                None => named,
            },
        };
        if vol != self.fs.vol {
            if !self.fs.mfs_switch_vol(&self.list, vol) {
                return Reply::Fail;
            }
        }
        self.answer(req, owner)
    }
}

} // verus!
