//! What holds of the file services together: which request does what, and on which volume.
use vstd::prelude::*;

use crate::exfat::ExfatView;
use crate::exfat_srv::ExfatSrvView;
use crate::fat::FatView;
use crate::fat_srv::FatSrvView;
use crate::mfs::MfsView;
use crate::mfs_path;
use crate::mfs_srv::MfsSrvView;
use crate::tmpfs::TmpView;
use crate::vfs::{ReplyView, Request};

verus! {

/// The volume that an encoding names: 0 the service's own, any other number the one before it.
pub open spec fn volume_of(enc: u64, own: u64) -> int {
    if enc == 0 {
        own as int
    } else {
        enc - 1
    }
}

/// Law: a FAT32 request on an open file is about the volume on which the file is, any other one
/// about the volume that it names, and it is carried out there; a volume that is not the one at hand
/// is looked at first, and where it is none of this kind the request fails.
pub proof fn law_fat_volume(s: FatSrvView, enc: u64, fd: u32, offset: u64, count: u32, p: Vec<u8>)
    ensures
        ({
            let read = Request::Read { fd, offset, count };
            let stat = Request::Stat { path: p };
            &&& s.target(enc, read) == match s.lookup(fd) {
                Some(n) => n.vol as int,
                None => volume_of(enc, s.vol),
            }
            &&& s.target(enc, Request::Readdir { fd }) == s.target(enc, read)
            &&& s.target(enc, stat) == volume_of(enc, s.vol)
            &&& s.target(enc, Request::Open { path: p }) == volume_of(enc, s.vol)
            &&& {
                let v = s.target(enc, stat);
                let t = FatSrvView { fat: FatView { cur: v, ..s.fat }, ..s };
                let (u, ok) = t.load_bpb(v);
                s.serve(enc, stat) == if s.bpb_vol == v {
                    t.stat(p@)
                } else if ok {
                    u.stat(p@)
                } else {
                    (u, ReplyView::Fail)
                }
            }
        }),
{
}

/// Law: each FAT32 request does what it says: one removes a file, another a directory, one makes a
/// file, another a directory; what this service cannot do is refused.
pub proof fn law_fat_requests(s: FatSrvView, vol: u64, p: Vec<u8>, q: Vec<u8>, fd: u32, offset: u64)
    ensures
        s.dispatch(vol, Request::Open { path: p }) == s.open(p@, vol),
        s.dispatch(vol, Request::Write { fd, offset, data: q }) == s.write(fd, offset, q@),
        s.dispatch(vol, Request::Creat { path: p }) == s.creat(p@, vol),
        s.dispatch(vol, Request::Mkdir { path: p }) == s.mkdir(p@),
        s.dispatch(vol, Request::Unlink { path: p }) == s.remove(p@, false),
        s.dispatch(vol, Request::Rmdir { path: p }) == s.remove(p@, true),
        s.dispatch(vol, Request::Close { fd }) == s.close(fd),
        s.dispatch(vol, Request::Rename { from: p, to: q }) == (s, ReplyView::Fail),
        s.dispatch(vol, Request::Truncate { fd, size: offset }) == (s, ReplyView::Fail),
        s.dispatch(vol, Request::Unknown) == (s, ReplyView::Fail),
{
}

/// Law: each request to the files in memory does what it says.
pub proof fn law_tmpfs_requests(s: TmpView, p: Vec<u8>, q: Vec<u8>, fd: u32, offset: u64, count: u32)
    ensures
        s.serve(Request::Open { path: p }) == s.open(p@),
        s.serve(Request::Read { fd, offset, count }) == (s, s.read(fd, offset, count)),
        s.serve(Request::Write { fd, offset, data: q }) == s.write(fd, offset, q@),
        s.serve(Request::Readdir { fd }) == (s, s.readdir(fd)),
        s.serve(Request::Close { fd }) == s.close(fd),
        s.serve(Request::Creat { path: p }) == s.creat(p@),
        s.serve(Request::Mkdir { path: p }) == s.mkdir(p@),
        s.serve(Request::Unlink { path: p }) == s.unlink(p@),
        s.serve(Request::Rmdir { path: p }) == s.rmdir(p@),
        s.serve(Request::Stat { path: p }) == (s, s.stat(p@)),
        s.serve(Request::Rename { from: p, to: q }) == (s, ReplyView::Fail),
        s.serve(Request::Unknown) == (s, ReplyView::Fail),
{
}

/// Law: an exFAT request on an open file is about the volume on which the file is, any other one
/// about the volume that it names; a volume that is not the one at hand is mounted first, at the
/// time of the request, and where that cannot be the request fails.
pub proof fn law_exfat_volume(s: ExfatSrvView, enc: u64, fd: u32, size: u64, p: Vec<u8>, now: u64)
    ensures
        ({
            let cut = Request::Truncate { fd, size };
            let stat = Request::Stat { path: p };
            let t = ExfatSrvView { fs: ExfatView { now, ..s.fs }, ..s };
            let v = s.target(enc, stat);
            &&& s.target(enc, cut) == match s.fd_get(fd) {
                Some(f) => f.vol as int,
                None => volume_of(enc, s.own),
            }
            &&& s.target(enc, Request::Readdir { fd }) == s.target(enc, cut)
            &&& v == volume_of(enc, s.own)
            &&& s.serve(enc, stat, now) == if v == s.fs.vol {
                t.answer(stat)
            } else {
                match ExfatView::mounted(s.fs.store, v, now) {
                    Ok(fs) => (ExfatSrvView { fs, ..s }).answer(stat),
                    Err(_) => (t, ReplyView::Fail),
                }
            }
        }),
{
}

/// Law: each exFAT request does what it says.
pub proof fn law_exfat_requests(s: ExfatSrvView, p: Vec<u8>, q: Vec<u8>, fd: u32)
    ensures
        s.answer(Request::Open { path: p }) == match s.fs.resolve(p@) {
            Some(e) => s.take_fd(p@, e.is_dir),
            None => (s, ReplyView::Fail),
        },
        s.answer(Request::Close { fd }) == s.close(fd),
        s.answer(Request::Creat { path: p }) == s.create(p@, false),
        s.answer(Request::Mkdir { path: p }) == s.create(p@, true),
        s.answer(Request::Unlink { path: p }).1 == ReplyView::done(s.fs.remove(p@, false).1),
        s.answer(Request::Unlink { path: p }).0.fs == s.fs.remove(p@, false).0,
        s.answer(Request::Rmdir { path: p }).1 == ReplyView::done(s.fs.remove(p@, true).1),
        s.answer(Request::Rmdir { path: p }).0.fs == s.fs.remove(p@, true).0,
        s.answer(Request::Rename { from: p, to: q }).1 is Fail,
        s.answer(Request::Unknown).1 is Fail,
{
    reveal(ExfatSrvView::answer);
    reveal(ExfatSrvView::change);
}

/// Law: reading an open exFAT file reads the file that its path leads to; writing and resizing it are
/// done to the entry of its name in its directory, up to 32 bits.
pub proof fn law_exfat_open_file(
    s: ExfatSrvView,
    fd: u32,
    offset: u64,
    count: u32,
    data: Vec<u8>,
)
    ensures
        s.fd_get(fd) matches Some(f) && !f.is_dir && offset <= 0xFFFF_FFFF ==> {
            let f = s.fd_get(fd)->Some_0;
            &&& s.answer(Request::Read { fd, offset, count }).1 == match s.fs.resolve(f.path) {
                Some(e) => match s.fs.read_file(e, offset as u32, count) {
                    Some(d) => ReplyView::Data(d),
                    None => ReplyView::Fail,
                },
                None => ReplyView::Fail,
            }
            &&& match (s.fs.resolve(f.path), s.fs.home_of(f.path)) {
                (Some(e), Some((dir, name))) => if name.len() <= 64 {
                    let (t, n) = s.fs.write_file(e, dir, name, offset as u32, data@);
                    let (u, m) = s.fs.truncate(e, dir, name, offset as u32);
                    &&& s.answer(Request::Write { fd, offset, data }).1 == ReplyView::of_option(n)
                    &&& s.answer(Request::Write { fd, offset, data }).0.fs == t
                    &&& s.answer(Request::Truncate { fd, size: offset }).1 == ReplyView::of_option(m)
                    &&& s.answer(Request::Truncate { fd, size: offset }).0.fs == u
                } else {
                    s.answer(Request::Write { fd, offset, data }).1 is Fail
                },
                _ => s.answer(Request::Write { fd, offset, data }).1 is Fail,
            }
        },
        s.fd_get(fd) is None || s.fd_get(fd)->Some_0.is_dir || offset > 0xFFFF_FFFF ==> {
            &&& s.answer(Request::Read { fd, offset, count }).1 is Fail
            &&& s.answer(Request::Write { fd, offset, data }).1 is Fail
            &&& s.answer(Request::Truncate { fd, size: offset }).1 is Fail
        },
{
    reveal(ExfatSrvView::answer);
    reveal(ExfatSrvView::change);
    reveal(ExfatSrvView::look);
    reveal(ExfatSrvView::target_of);
}

/// Law: a MorionFS request on an open file is about the volume on which the file is, any other one
/// about the volume that it names; blocks are collected first where few are free, and a volume that
/// is not the one at hand is turned to first, or the request fails.
pub proof fn law_mfs_volume(
    s: MfsSrvView,
    enc: u64,
    fd: u32,
    size: u64,
    p: Vec<u8>,
    owner: u16,
    now: u64,
)
    ensures
        ({
            let cut = Request::Truncate { fd, size };
            let stat = Request::Stat { path: p };
            let t = MfsSrvView { fs: MfsView { now, ..s.fs }.maybe_gc(), ..s };
            let v = s.target(enc, stat);
            let (fs, ok) = t.fs.switch_vol(s.list, v);
            &&& s.target(enc, cut) == match s.fd_get(fd) {
                Some(f) => f.vol as int,
                None => volume_of(enc, s.own),
            }
            &&& s.target(enc, Request::Readdir { fd }) == s.target(enc, cut)
            &&& v == volume_of(enc, s.own)
            &&& s.serve(enc, stat, owner, now) == if v == t.fs.vol {
                t.answer(stat, owner)
            } else if ok {
                (MfsSrvView { fs, ..t }).answer(stat, owner)
            } else {
                (MfsSrvView { fs, ..t }, ReplyView::Fail)
            }
        }),
{
}

/// Law: each MorionFS request does what it says.
pub proof fn law_mfs_requests(
    s: MfsSrvView,
    p: Vec<u8>,
    q: Vec<u8>,
    fd: u32,
    mode: u16,
    index: u32,
    owner: u16,
)
    ensures
        s.answer(Request::Creat { path: p }, owner) == s.make(p@, false, owner),
        s.answer(Request::Mkdir { path: p }, owner) == s.make(p@, true, owner),
        s.answer(Request::Open { path: p }, owner) == s.open(p@),
        s.answer(Request::Close { fd }, owner) == s.close(fd),
        does(s, Request::Unlink { path: p }, owner, s.fs.remove(p@, false)),
        does(s, Request::Rmdir { path: p }, owner, s.fs.remove(p@, true)),
        does(s, Request::Rename { from: p, to: q }, owner, s.fs.rename(p@, q@)),
        does(s, Request::Link { target: p, path: q }, owner, s.fs.link(p@, q@)),
        does(s, Request::Symlink { target: p, path: q }, owner, s.fs.symlink(p@, q@, owner)),
        does(s, Request::Chmod { path: p, mode }, owner, s.fs.chmod(p@, mode)),
        does(s, Request::SnapshotRestore { index }, owner, s.fs.restore(index)),
        s.answer(Request::Stat { path: p }, owner).1 == match s.fs.stat(p@, true).1 {
            Some(f) => ReplyView::StatOf(f),
            None => ReplyView::Fail,
        },
        s.answer(Request::Lstat { path: p }, owner).1 == match s.fs.stat(p@, false).1 {
            Some(f) => ReplyView::StatOf(f),
            None => ReplyView::Fail,
        },
        s.answer(Request::Readlink { path: p }, owner).1 == match s.fs.readlink(p@).1 {
            Some(t) => ReplyView::Data(t),
            None => ReplyView::Fail,
        },
{
    reveal(MfsSrvView::answer);
    reveal(MfsSrvView::on_path);
    reveal(MfsSrvView::on_volume);
}

/// A request does one thing and answers 1 where it was done.
pub open spec fn does(s: MfsSrvView, req: Request, owner: u16, r: (MfsView, bool)) -> bool {
    &&& s.answer(req, owner).0 == (MfsSrvView { fs: r.0, ..s })
    &&& s.answer(req, owner).1 == if r.1 {
        ReplyView::Value(1)
    } else {
        ReplyView::Fail
    }
}

/// Law: reading, writing, resizing and listing an open MorionFS file are done to the object that its
/// path leads to, links followed; a directory is only listed, and a file is not.
pub proof fn law_mfs_open_file(
    s: MfsSrvView,
    fd: u32,
    offset: u64,
    count: u32,
    data: Vec<u8>,
    owner: u16,
)
    requires
        s.fd_get(fd) is Some,
    ensures
        ({
            let f = s.fd_get(fd)->Some_0;
            let (u, r) = s.fs.resolve(f.path, true);
            let read = s.answer(Request::Read { fd, offset, count }, owner);
            let write = s.answer(Request::Write { fd, offset, data }, owner);
            let cut = s.answer(Request::Truncate { fd, size: offset }, owner);
            let list = s.answer(Request::Readdir { fd }, owner);
            match r {
                Some((ino, _)) => if f.is_dir {
                    &&& read.1 is Fail && write.1 is Fail && cut.1 is Fail
                    &&& list.0.fs == u.readdir(ino).0
                    &&& list.1 == match u.readdir(ino).1 {
                        Some(l) => ReplyView::Entries(l),
                        None => ReplyView::Fail,
                    }
                } else {
                    &&& list.1 is Fail
                    &&& read.0.fs == u.read_file(ino, offset, count).0
                    &&& read.1 == match u.read_file(ino, offset, count).1 {
                        Some(d) => ReplyView::Data(d),
                        None => ReplyView::Fail,
                    }
                    &&& write.0.fs == u.write_file(ino, offset, data@).0
                    &&& write.1 == if u.write_file(ino, offset, data@).1 {
                        ReplyView::Value(data@.len() as u64)
                    } else {
                        ReplyView::Fail
                    }
                    &&& cut.0.fs == u.truncate(ino, offset).0
                    &&& cut.1 == if u.truncate(ino, offset).1 {
                        ReplyView::Value(1)
                    } else {
                        ReplyView::Fail
                    }
                },
                None => read.1 is Fail && write.1 is Fail && cut.1 is Fail && list.1 is Fail,
            }
        }),
{
    reveal(MfsSrvView::answer);
    reveal(MfsSrvView::on_fd);
    reveal(MfsSrvView::fd_ino);
}

/// Law: opening and making on a MorionFS go by the normal form of the path; what is opened, and a
/// file that was made, is given a descriptor, and a directory that was made is answered with 1.
pub proof fn law_mfs_open_and_make(s: MfsSrvView, p: Seq<u8>, c: Seq<u8>, is_dir: bool, owner: u16)
    requires
        mfs_path::raw_normal(p) == Some(c),
    ensures
        ({
            let (fs, d) = s.fs.open_kind(c);
            s.open(p) == match d {
                Some(k) => (MfsSrvView { fs, ..s }).take_fd(c, k),
                None => (MfsSrvView { fs, ..s }, ReplyView::Fail),
            }
        }),
        ({
            let (fs, ok) = s.fs.create(c, is_dir, owner);
            s.make(p, is_dir, owner) == if !ok {
                (MfsSrvView { fs, ..s }, ReplyView::Fail)
            } else if is_dir {
                (MfsSrvView { fs, ..s }, ReplyView::Value(1))
            } else {
                (MfsSrvView { fs, ..s }).take_fd(c, false)
            }
        }),
{
    reveal(MfsSrvView::open);
    reveal(MfsSrvView::make);
}

} // verus!
