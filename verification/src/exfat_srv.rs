//! The exFAT file service: mounting a volume, open files, answering requests.
use vstd::prelude::*;

use crate::bytes;
use crate::disk::{Store, StoreView};
use crate::exfat;
use crate::exfat::{
    ExGeo, Exfat, ExfatView, EXFAT_MAX_SPC_SHIFT, EXFAT_TYPE_BITMAP, EXFAT_TYPE_UNUSED,
    EXFAT_TYPE_UPCASE,
};
use crate::exfat_dir;
use crate::exfat_dir::{EntryView, ExfatEntry};
use crate::vfs;
use crate::vfs::{Reply, ReplyView, Request, Stat, DIR_LONG_MAX, PAYLOAD_LEN};

verus! {

/// Files that can be open at a time.
pub const EXFAT_MAX_FD: usize = 16;

/// The signature of a boot sector.
pub open spec fn boot_mark() -> Seq<u8> {
    seq![0x45u8, 0x58, 0x46, 0x41, 0x54, 0x20, 0x20, 0x20]
}

/// The layout that a boot sector gives, or the stage at which it is refused: 2 signature,
/// 3 end mark, 4 sector size, 5 cluster size, 6 number of tables, 7 a field.
#[verifier::opaque]
pub open spec fn boot_layout(b: Seq<u8>) -> Result<ExGeo, u32> {
    let fat_len = bytes::le32(b, 84);
    let count = bytes::le32(b, 92);
    let root = bytes::le32(b, 96);
    if b.subrange(3, 11) != boot_mark() {
        Err(2)
    } else if bytes::le16(b, 510) != 0xAA55 {
        Err(3)
    } else if b[108] != 9 {
        Err(4)
    } else if b[109] == 0 || b[109] > EXFAT_MAX_SPC_SHIFT {
        Err(5)
    } else if b[110] == 0 || b[110] > 2 {
        Err(6)
    } else if fat_len == 0 || count == 0 || count > 0xFFFF_FFFD || root < 2 || root >= count + 2 {
        Err(7)
    } else {
        Ok(
            ExGeo {
                spc: exfat::spc_sizes()[b[109] - 1],
                fat_off: bytes::le32(b, 80),
                fat_len,
                heap: bytes::le32(b, 88),
                count,
                root,
                nfats: b[110] as u32,
                bmp_cl: 0,
                bmp_bytes: 0,
                upc_cl: 0,
                upc_bytes: 0,
            },
        )
    }
}

/// The layout that the boot sector of a volume gives; stage 1 is reading it.
pub open spec fn boot_of(store: StoreView, vol: u64) -> Result<ExGeo, u32> {
    match store.read(vol, 0, 1) {
        None => Err(1),
        Some(b) => boot_layout(b),
    }
}

/// Whether byte `i` of the boot region counts for its checksum: the volume flags and the
/// fill grade do not.
pub open spec fn counts(i: int) -> bool {
    i != 106 && i != 107 && i != 112
}

/// The checksum of the first `i` bytes of sector `sec` of the boot region, after `sum`.
pub open spec fn sector_sum(b: Seq<u8>, sec: int, i: int, sum: u32) -> u32
    decreases i,
{
    if i <= 0 {
        sum
    } else if counts(sec * 512 + i - 1) {
        exfat_dir::sum32(sector_sum(b, sec, i - 1, sum), b[i - 1] as int)
    } else {
        sector_sum(b, sec, i - 1, sum)
    }
}

/// The checksum of the boot region from sector `sec` on, after `sum`.
pub open spec fn boot_sum(store: StoreView, vol: u64, sec: int, sum: u32) -> Option<u32>
    decreases 11 - sec,
{
    if sec >= 11 {
        Some(sum)
    } else {
        match store.read(vol, sec as u32, 1) {
            None => None,
            Some(b) => boot_sum(store, vol, sec + 1, sector_sum(b, sec, 512, sum)),
        }
    }
}

/// Whether the checksum of the boot region is right.
pub open spec fn boot_ok(store: StoreView, vol: u64) -> bool {
    match boot_sum(store, vol, 0, 0) {
        None => false,
        Some(sum) => match store.read(vol, 11, 1) {
            None => false,
            Some(b) => bytes::le32(b, 0) == sum,
        },
    }
}

/// What the root directory has said of the system files so far.
#[derive(Clone, Copy)]
pub struct SysFiles {
    pub geo: ExGeo,
    pub bmp: bool,
    pub upc: bool,
}

/// How the search of a cluster for system files ended.
pub enum SysEnd {
    More,
    Stop,
    Bad,
}

/// The entries of a root cluster from `i` on searched for the allocation bitmap, which must
/// cover all clusters, and the upcase table.
pub open spec fn sys_in(b: Seq<u8>, i: int, per: int, s: SysFiles) -> (SysFiles, SysEnd)
    decreases per - i,
{
    let t = b[i * 32];
    let first = bytes::le32(b, i * 32 + 20);
    let len = bytes::le64(b, i * 32 + 24);
    if i >= per {
        (s, SysEnd::More)
    } else if t == EXFAT_TYPE_UNUSED {
        (s, SysEnd::Stop)
    } else if t == EXFAT_TYPE_BITMAP {
        if first < 2 || len == 0 || len * 8 < s.geo.count {
            (s, SysEnd::Bad)
        } else {
            sys_in(
                b,
                i + 1,
                per,
                SysFiles {
                    geo: ExGeo { bmp_cl: first, bmp_bytes: bytes::w32(len as int), ..s.geo },
                    bmp: true,
                    ..s
                },
            )
        }
    } else if t == EXFAT_TYPE_UPCASE {
        if first < 2 || len == 0 {
            (s, SysEnd::Bad)
        } else {
            sys_in(
                b,
                i + 1,
                per,
                SysFiles {
                    geo: ExGeo { upc_cl: first, upc_bytes: bytes::w32(len as int), ..s.geo },
                    upc: true,
                    ..s
                },
            )
        }
    } else {
        sys_in(b, i + 1, per, s)
    }
}

/// Whether both system files were found.
pub open spec fn both(s: SysFiles) -> Option<ExGeo> {
    if s.bmp && s.upc {
        Some(s.geo)
    } else {
        None
    }
}

impl ExfatView {
    /// A volume of which only the layout is known.
    pub open spec fn fresh(store: StoreView, vol: u64, geo: ExGeo, now: u64) -> ExfatView {
        ExfatView {
            store,
            vol,
            geo,
            hint: 2,
            win: None,
            win_lba: 0,
            win_buf: bytes::zeros(512),
            dirty: false,
            now,
        }
    }

    /// The layout with the system files that the root directory names from cluster `cl` on.
    pub open spec fn sys_from(self, cl: u32, guard: int, s: SysFiles) -> Option<ExGeo>
        decreases 0x2_0000_0000 - guard,
    {
        if cl < 2 || guard > self.geo.count + 1 {
            both(s)
        } else {
            match self.rd_cl(cl) {
                None => None,
                Some(b) => match sys_in(b, 0, self.geo.per(), s) {
                    (t, SysEnd::Bad) => None,
                    (t, SysEnd::Stop) => both(t),
                    (t, SysEnd::More) => match self.fat_get(cl) {
                        None => None,
                        Some(next) => if exfat::is_end(next) {
                            both(t)
                        } else {
                            self.sys_from(next, guard + 1, t)
                        },
                    },
                },
            }
        }
    }

    /// A volume of which only the layout is known examined: what is left is its state, and
    /// the stage at which it is refused: 8 checksum, 9 system files, 12 the root directory's
    /// cluster is free.
    #[verifier::opaque]
    pub open spec fn examined(self) -> Result<ExfatView, u32> {
        if !boot_ok(self.store, self.vol) {
            Err(8)
        } else {
            match self.sys_from(
                self.geo.root,
                0,
                (SysFiles { geo: self.geo, bmp: false, upc: false }),
            ) {
                None => Err(9),
                Some(geo) => {
                    let (s, used) = (ExfatView { geo, ..self }).bmp_get(geo.root);
                    if used {
                        Ok(s)
                    } else {
                        Err(12)
                    }
                },
            }
        }
    }

    /// A volume mounted, or the stage at which it is refused.
    pub open spec fn mounted(store: StoreView, vol: u64, now: u64) -> Result<ExfatView, u32> {
        match boot_of(store, vol) {
            Err(stage) => Err(stage),
            Ok(geo) => ExfatView::fresh(store, vol, geo, now).examined(),
        }
    }
}

/// An open file.
#[verifier::ext_equal]
pub struct ExfatFdView {
    pub is_dir: bool,
    pub path: Seq<u8>,
    pub vol: u64,
}

/// The state of the service.
#[verifier::ext_equal]
pub struct ExfatSrvView {
    pub fs: ExfatView,
    /// The volume that requests are for unless they name another.
    pub own: u64,
    pub fds: Seq<Option<ExfatFdView>>,
}

/// The first free descriptor from `i` on; the table's length where there is none.
pub open spec fn free_fd(fds: Seq<Option<ExfatFdView>>, i: int) -> int
    decreases fds.len() - i,
{
    if i >= fds.len() || fds[i] is None {
        i
    } else {
        free_fd(fds, i + 1)
    }
}

/// The descriptor that a request on an open file names.
pub open spec fn fd_of(req: Request) -> Option<u32> {
    match req {
        Request::Truncate { fd, size } => Some(fd),
        _ => req.fd_spec(),
    }
}

/// What is told of a file.
pub open spec fn stat_of(e: EntryView) -> Stat {
    Stat {
        size: if e.is_dir {
            0
        } else {
            e.size
        },
        is_dir: e.is_dir,
        mode: if e.is_dir {
            0o755
        } else {
            0o644
        },
        owner: 0,
        nlink: 1,
        mtime: e.mtime,
        ctime: e.mtime,
        atime: e.mtime,
    }
}

impl ExfatSrvView {
    /// The open file with descriptor `fd`.
    pub open spec fn fd_get(self, fd: u32) -> Option<ExfatFdView> {
        if fd < EXFAT_MAX_FD {
            self.fds[fd as int]
        } else {
            None
        }
    }

    /// The path of the open file or (`is_dir`) directory with descriptor `fd`.
    pub open spec fn fd_path(self, fd: u32, is_dir: bool) -> Option<Seq<u8>> {
        match self.fd_get(fd) {
            Some(f) => if f.is_dir == is_dir {
                Some(f.path)
            } else {
                None
            },
            None => None,
        }
    }

    /// A path given the first free descriptor.
    pub open spec fn take_fd(self, path: Seq<u8>, is_dir: bool) -> (ExfatSrvView, ReplyView) {
        let i = free_fd(self.fds, 0);
        if path.len() <= PAYLOAD_LEN && i < self.fds.len() {
            (
                ExfatSrvView {
                    fds: self.fds.update(i, Some(ExfatFdView { is_dir, path, vol: self.fs.vol })),
                    ..self
                },
                ReplyView::Value(i as u64),
            )
        } else {
            (self, ReplyView::Fail)
        }
    }

    /// A descriptor given back.
    pub open spec fn close(self, fd: u32) -> (ExfatSrvView, ReplyView) {
        if self.fd_get(fd) is Some {
            (
                ExfatSrvView { fds: self.fds.update(fd as int, None), ..self },
                ReplyView::Value(1),
            )
        } else {
            (self, ReplyView::Value(0))
        }
    }

    /// What an open file's set says, the directory that holds it, and its name.
    #[verifier::opaque]
    pub open spec fn target_of(self, fd: u32) -> Option<(EntryView, u32, Seq<u8>)> {
        match self.fd_path(fd, false) {
            None => None,
            Some(p) => match self.fs.home_of(p) {
                None => None,
                Some((dir, name)) => if name.len() > DIR_LONG_MAX {
                    None
                } else {
                    match self.fs.resolve(p) {
                        None => None,
                        Some(e) => Some((e, dir, name)),
                    }
                },
            },
        }
    }

    /// A file or directory created, or opened where it exists.
    #[verifier::opaque]
    pub open spec fn create(self, p: Seq<u8>, is_dir: bool) -> (ExfatSrvView, ReplyView) {
        if p.len() == 0 || p == seq![0x2Fu8] {
            (self, ReplyView::Fail)
        } else {
            match self.fs.resolve(p) {
                Some(e) => if e.is_dir == is_dir {
                    self.take_fd(p, is_dir)
                } else {
                    (self, ReplyView::Fail)
                },
                None => {
                    let (fs, ok) = self.fs.make(p, is_dir);
                    let s = ExfatSrvView { fs, ..self };
                    if ok {
                        s.take_fd(p, is_dir)
                    } else {
                        (s, ReplyView::Fail)
                    }
                },
            }
        }
    }

    /// The answer to a request that reads.
    #[verifier::opaque]
    pub open spec fn look(self, req: Request) -> ReplyView {
        match req {
            Request::Read { fd, offset, count } => match self.fd_path(fd, false) {
                None => ReplyView::Fail,
                Some(p) => match self.fs.resolve(p) {
                    None => ReplyView::Fail,
                    Some(e) => if offset > u32::MAX {
                        ReplyView::Fail
                    } else {
                        match self.fs.read_file(e, offset as u32, count) {
                            None => ReplyView::Fail,
                            Some(d) => ReplyView::Data(d),
                        }
                    },
                },
            },
            Request::Readdir { fd } => match self.fd_path(fd, true) {
                None => ReplyView::Fail,
                Some(p) => match self.fs.resolve(p) {
                    None => ReplyView::Fail,
                    Some(e) => match self.fs.readdir(e.first) {
                        None => ReplyView::Fail,
                        Some(l) => ReplyView::Entries(l),
                    },
                },
            },
            Request::Stat { path } => match self.fs.resolve(path@) {
                None => ReplyView::Fail,
                Some(e) => ReplyView::StatOf(stat_of(e)),
            },
            _ => ReplyView::Fail,
        }
    }

    /// The answer to a request that changes an open file, and the volume after it.
    #[verifier::opaque]
    pub open spec fn change(self, req: Request) -> (ExfatView, ReplyView) {
        match req {
            Request::Write { fd, offset, data } => match self.target_of(fd) {
                None => (self.fs, ReplyView::Fail),
                Some((e, dir, name)) => if offset > u32::MAX {
                    (self.fs, ReplyView::Fail)
                } else {
                    let (s, n) = self.fs.write_file(e, dir, name, offset as u32, data@);
                    (s, ReplyView::of_option(n))
                },
            },
            Request::Truncate { fd, size } => match self.target_of(fd) {
                None => (self.fs, ReplyView::Fail),
                Some((e, dir, name)) => if size > u32::MAX {
                    (self.fs, ReplyView::Fail)
                } else {
                    let (s, n) = self.fs.truncate(e, dir, name, size as u32);
                    (s, ReplyView::of_option(n))
                },
            },
            Request::Unlink { path } => {
                let (s, ok) = self.fs.remove(path@, false);
                (s, ReplyView::done(ok))
            },
            Request::Rmdir { path } => {
                let (s, ok) = self.fs.remove(path@, true);
                (s, ReplyView::done(ok))
            },
            _ => (self.fs, ReplyView::Fail),
        }
    }

    /// The answer to a request on the mounted volume.
    #[verifier::opaque]
    pub open spec fn answer(self, req: Request) -> (ExfatSrvView, ReplyView) {
        match req {
            Request::Open { path } => match self.fs.resolve(path@) {
                None => (self, ReplyView::Fail),
                Some(e) => self.take_fd(path@, e.is_dir),
            },
            Request::Close { fd } => self.close(fd),
            Request::Creat { path } => self.create(path@, false),
            Request::Mkdir { path } => self.create(path@, true),
            Request::Read { .. } | Request::Readdir { .. } | Request::Stat { .. } => (
                self,
                self.look(req),
            ),
            _ => {
                let (fs, r) = self.change(req);
                (ExfatSrvView { fs, ..self }, r)
            },
        }
    }

    /// The volume that a request is for: that of the open file it is on, else the one in
    /// its encoding.
    pub open spec fn target(self, enc: u64, req: Request) -> u64 {
        let named = vfs::vol_from_enc_spec(enc, self.own);
        match fd_of(req) {
            None => named,
            Some(fd) => match self.fd_get(fd) {
                Some(f) => f.vol,
                None => named,
            },
        }
    }

    /// A request served at time `now`: the request's volume is mounted first where it is not
    /// the one that is.
    pub open spec fn serve(self, enc: u64, req: Request, now: u64) -> (ExfatSrvView, ReplyView) {
        let s = ExfatSrvView { fs: ExfatView { now, ..self.fs }, ..self };
        let vol = self.target(enc, req);
        if vol == s.fs.vol {
            s.answer(req)
        } else {
            match ExfatView::mounted(s.fs.store, vol, now) {
                Err(stage) => (s, ReplyView::Fail),
                Ok(fs) => (ExfatSrvView { fs, ..s }).answer(req),
            }
        }
    }
}

/// The sectors per cluster for an exponent.
fn spc_for(shift: u8) -> (r: u32)
    requires
        1 <= shift <= EXFAT_MAX_SPC_SHIFT,
    ensures
        r == exfat::spc_sizes()[shift - 1],
        exfat::spc_sizes().contains(r),
{
    let r: u32 = if shift == 1 {
        2
    } else if shift == 2 {
        4
    } else if shift == 3 {
        8
    } else if shift == 4 {
        16
    } else if shift == 5 {
        32
    } else if shift == 6 {
        64
    } else if shift == 7 {
        128
    } else if shift == 8 {
        256
    } else {
        512
    };
    assert(exfat::spc_sizes()[shift - 1] == r);
    r
}

/// Reads the layout from a boot sector.
fn read_boot(store: &Store, vol: u64) -> (r: Result<ExGeo, u32>)
    requires
        store@.wf(),
    ensures
        r == boot_of(store@, vol),
        r matches Ok(g) ==> g.wf(),
{
    proof {
        reveal(boot_layout);
    }
    let b: Vec<u8> = match store.read(vol, 0, 1) {
        Some(b) => b,
        None => {
            return Err(1);
        },
    };
    let mark: [u8; 8] = [0x45, 0x58, 0x46, 0x41, 0x54, 0x20, 0x20, 0x20];
    let head: Vec<u8> = bytes::slice_copy(&b, 3, 11);
    assert(mark@ =~= boot_mark());
    if !bytes::bytes_eq(&head, &mark) {
        return Err(2);
    }
    if bytes::read_u16(&b, 510) != 0xAA55 {
        return Err(3);
    }
    if b[108] != 9 {
        return Err(4);
    }
    let shift: u8 = b[109];
    if shift == 0 || shift > EXFAT_MAX_SPC_SHIFT {
        return Err(5);
    }
    let nfats: u8 = b[110];
    if nfats == 0 || nfats > 2 {
        return Err(6);
    }
    let fat_len: u32 = bytes::read_u32(&b, 84);
    let count: u32 = bytes::read_u32(&b, 92);
    let root: u32 = bytes::read_u32(&b, 96);
    if fat_len == 0 || count == 0 || count > 0xFFFF_FFFD || root < 2 || root >= count + 2 {
        return Err(7);
    }
    Ok(
        ExGeo {
            spc: spc_for(shift),
            fat_off: bytes::read_u32(&b, 80),
            fat_len,
            heap: bytes::read_u32(&b, 88),
            count,
            root,
            nfats: nfats as u32,
            bmp_cl: 0,
            bmp_bytes: 0,
            upc_cl: 0,
            upc_bytes: 0,
        },
    )
}

/// Checks the checksum of the boot region.
#[verifier::loop_isolation(false)]
pub fn exfat_verify_boot_checksum(store: &Store, vol: u64) -> (r: bool)
    requires
        store@.wf(),
    ensures
        r == boot_ok(store@, vol),
{
    let ghost goal = boot_sum(store@, vol, 0, 0);
    let mut sum: u32 = 0;
    let mut sec: u32 = 0;
    while sec < 11
        invariant
            sec <= 11,
            boot_sum(store@, vol, sec as int, sum) == goal,
        decreases 11 - sec,
    {
        let b: Vec<u8> = match store.read(vol, sec, 1) {
            Some(b) => b,
            None => {
                return false;
            },
        };
        let ghost before = sum;
        let mut i: usize = 0;
        while i < 512
            invariant
                i <= 512,
                b.len() == 512,
                sec < 11,
                sum == sector_sum(b@, sec as int, i as int, before),
            decreases 512 - i,
        {
            let at: usize = sec as usize * 512 + i;
            if at != 106 && at != 107 && at != 112 {
                sum = exfat_dir::step32(sum, b[i]);
            }
            i = i + 1;
        }
        sec = sec + 1;
    }
    match store.read(vol, 11, 1) {
        Some(b) => bytes::read_u32(&b, 0) == sum,
        None => false,
    }
}

/// Searches a root cluster for the system files.
#[verifier::loop_isolation(false)]
fn find_sys(b: &Vec<u8>, per: usize, s0: SysFiles) -> (r: (SysFiles, SysEnd))
    requires
        b.len() == per * 32,
        per <= 8192,
        s0.geo.wf(),
    ensures
        r == sys_in(b@, 0, per as int, s0),
        r.0.geo.wf(),
{
    let ghost goal = sys_in(b@, 0, per as int, s0);
    let mut s: SysFiles = s0;
    let mut i: usize = 0;
    while i < per
        invariant
            i <= per,
            s.geo.wf(),
            sys_in(b@, i as int, per as int, s) == goal,
        decreases per - i,
    {
        let t: u8 = b[i * 32];
        if t == EXFAT_TYPE_UNUSED {
            return (s, SysEnd::Stop);
        }
        if t == EXFAT_TYPE_BITMAP || t == EXFAT_TYPE_UPCASE {
            let first: u32 = bytes::read_u32(b, i * 32 + 20);
            let len: u64 = bytes::read_u64(b, i * 32 + 24);
            if first < 2 || len == 0 {
                return (s, SysEnd::Bad);
            }
            let low: u32 = (len % 0x1_0000_0000) as u32;
            if t == EXFAT_TYPE_BITMAP {
                if (len as u128) * 8 < s.geo.count as u128 {
                    return (s, SysEnd::Bad);
                }
                s.geo.bmp_cl = first;
                s.geo.bmp_bytes = low;
                s.bmp = true;
            } else {
                s.geo.upc_cl = first;
                s.geo.upc_bytes = low;
                s.upc = true;
            }
        }
        i = i + 1;
    }
    (s, SysEnd::More)
}

/// The layout where both system files were found.
fn both_found(s: SysFiles) -> (r: Option<ExGeo>)
    ensures
        r == both(s),
{
    if s.bmp && s.upc {
        Some(s.geo)
    } else {
        None
    }
}

impl Exfat {
    /// Searches the root directory for the system files.
    #[verifier::loop_isolation(false)]
    pub fn exfat_scan_system_entries(&self) -> (r: Option<ExGeo>)
        requires
            self.inv(),
        ensures
            r == self@.sys_from(
                self.geo.root,
                0,
                (SysFiles { geo: self.geo, bmp: false, upc: false }),
            ),
            r matches Some(g) ==> g.wf(),
            r matches Some(g) ==> g.count == self.geo.count && g.root == self.geo.root,
    {
        let per: usize = self.geo.spc as usize * 16;
        let mut s = SysFiles { geo: self.geo, bmp: false, upc: false };
        let ghost goal = self@.sys_from(self.geo.root, 0, s);
        let mut cl: u32 = self.geo.root;
        let mut guard: u32 = 0;
        while cl >= 2 && guard <= self.geo.count + 1
            invariant
                guard <= self.geo.count + 2,
                s.geo.wf(),
                s.geo.count == self.geo.count,
                s.geo.root == self.geo.root,
                self@.sys_from(cl, guard as int, s) == goal,
            decreases self.geo.count + 3 - guard,
        {
            let b: Vec<u8> = match self.exfat_read_cluster(cl) {
                Some(b) => b,
                None => {
                    return None;
                },
            };
            let (t, end): (SysFiles, SysEnd) = find_sys(&b, per, s);
            proof {
                lemma_sys_keeps(b@, 0, per as int, s);
            }
            match end {
                SysEnd::Bad => {
                    return None;
                },
                SysEnd::Stop => {
                    return both_found(t);
                },
                SysEnd::More => {},
            }
            s = t;
            let next: u32 = match self.exfat_fat_get(cl) {
                Some(v) => v,
                None => {
                    return None;
                },
            };
            if exfat::exfat_is_eoc(next) {
                return both_found(s);
            }
            cl = next;
            guard = guard + 1;
        }
        both_found(s)
    }

    /// A volume of which only the layout is known.
    fn fresh(store: Store, vol: u64, geo: ExGeo, now: u64) -> (r: Exfat)
        requires
            store@.wf(),
            geo.wf(),
        ensures
            r.inv(),
            r@ == ExfatView::fresh(store@, vol, geo, now),
    {
        Exfat {
            store,
            vol,
            geo,
            hint: 2,
            win: None,
            win_lba: 0,
            win_buf: bytes::zero_vec(512),
            dirty: false,
            now,
        }
    }

    /// Examines a volume of which only the layout is known.
    fn examine(&mut self) -> (r: u32)
        requires
            old(self).inv(),
            !old(self).dirty,
        ensures
            final(self).inv(),
            final(self).store@ == old(self).store@,
            match old(self)@.examined() {
                Ok(s) => r == 0 && final(self)@ == s,
                Err(stage) => r == stage && r != 0,
            },
    {
        proof {
            reveal(ExfatView::examined);
        }
        if !exfat_verify_boot_checksum(&self.store, self.vol) {
            return 8;
        }
        match self.exfat_scan_system_entries() {
            None => 9,
            Some(geo) => {
                self.geo = geo;
                proof {
                    lemma_clean_get(self@, geo.root);
                }
                if self.exfat_bitmap_get(geo.root) {
                    0
                } else {
                    12
                }
            },
        }
    }

    /// Mounts volume `vol` in place of the present one, which stays where that fails; gives
    /// the stage of the failure, 0 where there is none.
    pub fn exfat_mount(&mut self, vol: u64) -> (r: u32)
        requires
            old(self).inv(),
        ensures
            final(self).inv(),
            match ExfatView::mounted(old(self)@.store, vol, old(self)@.now) {
                Ok(s) => r == 0 && final(self)@ == s,
                Err(stage) => r == stage && r != 0 && final(self)@ == old(self)@,
            },
    {
        let geo: ExGeo = match read_boot(&self.store, vol) {
            Ok(g) => g,
            Err(stage) => {
                proof {
                    reveal(boot_layout);
                }
                return stage;
            },
        };
        let before: (u64, ExGeo, u32, Option<u32>, u32, bool) = (
            self.vol,
            self.geo,
            self.hint,
            self.win,
            self.win_lba,
            self.dirty,
        );
        let mut buf: Vec<u8> = bytes::zero_vec(512);
        std::mem::swap(&mut buf, &mut self.win_buf);
        self.vol = vol;
        self.geo = geo;
        self.hint = 2;
        self.win = None;
        self.win_lba = 0;
        self.dirty = false;
        assert(self@ =~= ExfatView::fresh(old(self)@.store, vol, geo, old(self)@.now));
        let now: u64 = self.now;
        let stage: u32 = self.examine();
        if stage != 0 {
            self.vol = before.0;
            self.geo = before.1;
            self.hint = before.2;
            self.win = before.3;
            self.win_lba = before.4;
            self.dirty = before.5;
            self.now = now;
            std::mem::swap(&mut buf, &mut self.win_buf);
            assert(self@ =~= old(self)@);
        }
        stage
    }
}

/// A search changes nothing of the layout but the system files.
proof fn lemma_sys_keeps(b: Seq<u8>, i: int, per: int, s: SysFiles)
    ensures
        sys_in(b, i, per, s).0.geo.count == s.geo.count,
        sys_in(b, i, per, s).0.geo.root == s.geo.root,
    decreases per - i,
{
    if i < per {
        let first = bytes::le32(b, i * 32 + 20);
        let len = bytes::le64(b, i * 32 + 24);
        lemma_sys_keeps(b, i + 1, per, s);
        lemma_sys_keeps(
            b,
            i + 1,
            per,
            SysFiles {
                geo: ExGeo { bmp_cl: first, bmp_bytes: bytes::w32(len as int), ..s.geo },
                bmp: true,
                ..s
            },
        );
        lemma_sys_keeps(
            b,
            i + 1,
            per,
            SysFiles {
                geo: ExGeo { upc_cl: first, upc_bytes: bytes::w32(len as int), ..s.geo },
                upc: true,
                ..s
            },
        );
    }
}

/// Looking into the bitmap writes nothing where nothing is pending.
proof fn lemma_clean_get(s: ExfatView, cl: u32)
    requires
        !s.dirty,
    ensures
        s.bmp_get(cl).0.store == s.store,
{
    reveal(ExfatView::bmp_get);
    reveal(ExfatView::bmp_fetch);
}

/// An open file.
#[derive(Clone)]
pub struct ExfatFd {
    pub is_dir: bool,
    pub path: Vec<u8>,
    pub vol: u64,
}

/// The file service.
#[derive(Clone)]
pub struct ExfatSrv {
    pub fs: Exfat,
    pub own: u64,
    pub fds: Vec<Option<ExfatFd>>,
}

/// The contents of a slot of the table of open files.
pub open spec fn fd_view(f: Option<ExfatFd>) -> Option<ExfatFdView> {
    match f {
        None => None,
        Some(x) => Some(ExfatFdView { is_dir: x.is_dir, path: x.path@, vol: x.vol }),
    }
}

impl ExfatSrv {
    pub open spec fn view(&self) -> ExfatSrvView {
        ExfatSrvView {
            fs: self.fs@,
            own: self.own,
            fds: Seq::new(self.fds@.len(), |i: int| fd_view(self.fds@[i])),
        }
    }

    /// The volume is mounted, and the table of open files has all its slots.
    pub open spec fn inv(&self) -> bool {
        self.fs.inv() && self.fds@.len() == EXFAT_MAX_FD
    }

    /// Starts the service on volume `vol`, or gives the stage at which it is refused.
    pub fn start(store: Store, vol: u64, now: u64) -> (r: Result<ExfatSrv, u32>)
        requires
            store@.wf(),
        ensures
            match (r, ExfatView::mounted(store@, vol, now)) {
                (Ok(s), Ok(fs)) => s.inv() && s@ == (ExfatSrvView {
                    fs,
                    own: vol,
                    fds: Seq::new(EXFAT_MAX_FD as nat, |i: int| None),
                }),
                (Err(a), Err(b)) => a == b,
                _ => false,
            },
    {
        let geo: ExGeo = match read_boot(&store, vol) {
            Ok(g) => g,
            Err(stage) => {
                return Err(stage);
            },
        };
        let mut fs: Exfat = Exfat::fresh(store, vol, geo, now);
        let stage: u32 = fs.examine();
        if stage != 0 {
            return Err(stage);
        }
        let mut fds: Vec<Option<ExfatFd>> = Vec::new();
        let mut i: usize = 0;
        while i < EXFAT_MAX_FD
            invariant
                i <= EXFAT_MAX_FD,
                fds.len() == i,
                forall|k: int| 0 <= k < fds@.len() ==> (#[trigger] fds@[k]) is None,
            decreases EXFAT_MAX_FD - i,
        {
            fds.push(None);
            i = i + 1;
        }
        let s = ExfatSrv { fs, own: vol, fds };
        assert(s@.fds =~= Seq::new(EXFAT_MAX_FD as nat, |i: int| None));
        Ok(s)
    }

    /// Gives a path a descriptor.
    pub fn exfat_fd_alloc(&mut self, path: &Vec<u8>, is_dir: bool) -> (r: Reply)
        requires
            old(self).inv(),
        ensures
            final(self).inv(),
            (final(self)@, r@) == old(self)@.take_fd(path@, is_dir),
    {
        if path.len() > PAYLOAD_LEN {
            return Reply::Fail;
        }
        let mut i: usize = 0;
        while i < self.fds.len() && self.fds[i].is_some()
            invariant
                i <= self.fds.len(),
                free_fd(self@.fds, i as int) == free_fd(self@.fds, 0),
            decreases self.fds.len() - i,
        {
            assert(self@.fds[i as int] == fd_view(self.fds@[i as int]));
            i = i + 1;
        }
        if i < self.fds.len() {
            assert(self@.fds[i as int] == fd_view(self.fds@[i as int]));
            let vol: u64 = self.fs.vol;
            let ghost f = ExfatFdView { is_dir, path: path@, vol };
            let copy: Vec<u8> = bytes::slice_copy(path, 0, path.len());
            assert(copy@ =~= path@);
            self.fds.set(i, Some(ExfatFd { is_dir, path: copy, vol }));
            assert(self@.fds =~= old(self)@.fds.update(i as int, Some(f)));
            Reply::Value(i as u64)
        } else {
            Reply::Fail
        }
    }

    /// The volume of an open file.
    pub fn exfat_fd_get(&self, fd: u32) -> (r: Option<u64>)
        requires
            self.inv(),
        ensures
            r == (match self@.fd_get(fd) {
                Some(f) => Some(f.vol),
                None => None,
            }),
    {
        if fd as usize >= EXFAT_MAX_FD {
            return None;
        }
        assert(self@.fds[fd as int] == fd_view(self.fds@[fd as int]));
        match &self.fds[fd as usize] {
            Some(f) => Some(f.vol),
            None => None,
        }
    }

    /// The path of an open file.
    fn fd_path(&self, fd: u32, is_dir: bool) -> (r: Option<Vec<u8>>)
        requires
            self.inv(),
        ensures
            bytes::opt(r) == self@.fd_path(fd, is_dir),
    {
        if fd as usize >= EXFAT_MAX_FD {
            return None;
        }
        assert(self@.fds[fd as int] == fd_view(self.fds@[fd as int]));
        match &self.fds[fd as usize] {
            Some(f) => {
                if f.is_dir == is_dir {
                    let p: Vec<u8> = bytes::slice_copy(&f.path, 0, f.path.len());
                    assert(p@ =~= f.path@);
                    Some(p)
                } else {
                    None
                }
            },
            None => None,
        }
    }

    /// Gives a descriptor back.
    pub fn exfat_fd_free(&mut self, fd: u32) -> (r: Reply)
        requires
            old(self).inv(),
        ensures
            final(self).inv(),
            (final(self)@, r@) == old(self)@.close(fd),
    {
        if fd as usize >= EXFAT_MAX_FD {
            return Reply::Value(0);
        }
        assert(self@.fds[fd as int] == fd_view(self.fds@[fd as int]));
        if self.fds[fd as usize].is_some() {
            self.fds.set(fd as usize, None);
            assert(self@.fds =~= old(self)@.fds.update(fd as int, None));
            Reply::Value(1)
        } else {
            Reply::Value(0)
        }
    }

    /// What an open file's set says, the directory that holds it, and its name.
    pub fn exfat_fd_parent(&self, fd: u32) -> (r: Option<(ExfatEntry, u32, Vec<u8>)>)
        requires
            self.inv(),
        ensures
            match (r, self@.target_of(fd)) {
                (Some((e, d, n)), Some((e2, d2, n2))) => e@ == e2 && d == d2 && n@ == n2,
                (None, None) => true,
                _ => false,
            },
    {
        proof {
            reveal(ExfatSrvView::target_of);
        }
        let p: Vec<u8> = match self.fd_path(fd, false) {
            Some(p) => p,
            None => {
                return None;
            },
        };
        let (dir, name): (u32, Vec<u8>) = match self.fs.home_of(&p) {
            Some(x) => x,
            None => {
                return None;
            },
        };
        if name.len() > DIR_LONG_MAX {
            return None;
        }
        match self.fs.exfat_resolve(&p) {
            None => None,
            Some(e) => Some((e, dir, name)),
        }
    }

    /// Creates a file or directory.
    pub fn exfat_create(&mut self, p: &Vec<u8>, is_dir: bool) -> (r: Reply)
        requires
            old(self).inv(),
        ensures
            final(self).inv(),
            (final(self)@, r@) == old(self)@.create(p@, is_dir),
    {
        proof {
            reveal(ExfatSrvView::create);
        }
        let root: bool = p.len() == 1 && p[0] == 0x2F;
        assert(root == (p@ =~= seq![0x2Fu8]));
        if p.len() == 0 || root {
            return Reply::Fail;
        }
        match self.fs.exfat_resolve(p) {
            Some(e) => {
                if e.is_dir == is_dir {
                    self.exfat_fd_alloc(p, is_dir)
                } else {
                    Reply::Fail
                }
            },
            None => {
                if self.fs.make(p, is_dir) {
                    self.exfat_fd_alloc(p, is_dir)
                } else {
                    Reply::Fail
                }
            },
        }
    }

    /// Answers a request that reads.
    fn look(&self, req: &Request) -> (r: Reply)
        requires
            self.inv(),
        ensures
            r@ == self@.look(*req),
    {
        proof {
            reveal(ExfatSrvView::look);
        }
        match req {
            Request::Read { fd, offset, count } => match self.fd_path(*fd, false) {
                None => Reply::Fail,
                Some(p) => match self.fs.exfat_resolve(&p) {
                    None => Reply::Fail,
                    Some(e) => {
                        if *offset > 0xFFFF_FFFF {
                            return Reply::Fail;
                        }
                        match self.fs.exfat_read_file(&e, *offset as u32, *count) {
                            None => Reply::Fail,
                            Some(d) => Reply::Data(d),
                        }
                    },
                },
            },
            Request::Readdir { fd } => match self.fd_path(*fd, true) {
                None => Reply::Fail,
                Some(p) => match self.fs.exfat_resolve(&p) {
                    None => Reply::Fail,
                    Some(e) => match self.fs.exfat_readdir(e.first) {
                        None => Reply::Fail,
                        Some(l) => Reply::Entries(l),
                    },
                },
            },
            Request::Stat { path } => match self.fs.exfat_resolve(path) {
                None => Reply::Fail,
                Some(e) => Reply::StatOf(
                    Stat {
                        size: if e.is_dir {
                            0
                        } else {
                            e.size
                        },
                        is_dir: e.is_dir,
                        mode: if e.is_dir {
                            0o755
                        } else {
                            0o644
                        },
                        owner: 0,
                        nlink: 1,
                        mtime: e.mtime,
                        ctime: e.mtime,
                        atime: e.mtime,
                    },
                ),
            },
            _ => Reply::Fail,
        }
    }

    /// Answers a request that changes the volume.
    fn change(&mut self, req: &Request) -> (r: Reply)
        requires
            old(self).inv(),
            req matches Request::Write { data, .. } ==> data.len() <= u32::MAX,
        ensures
            final(self).inv(),
            final(self)@ == (ExfatSrvView { fs: old(self)@.change(*req).0, ..old(self)@ }),
            r@ == old(self)@.change(*req).1,
    {
        proof {
            reveal(ExfatSrvView::change);
        }
        match req {
            Request::Write { fd, offset, data } => match self.exfat_fd_parent(*fd) {
                None => Reply::Fail,
                Some((e, dir, name)) => {
                    if *offset > 0xFFFF_FFFF {
                        return Reply::Fail;
                    }
                    Reply::of_option(
                        self.fs.exfat_write_file(&e, dir, &name, *offset as u32, data),
                    )
                },
            },
            Request::Truncate { fd, size } => match self.exfat_fd_parent(*fd) {
                None => Reply::Fail,
                Some((e, dir, name)) => {
                    if *size > 0xFFFF_FFFF {
                        return Reply::Fail;
                    }
                    Reply::of_option(self.fs.exfat_truncate(&e, dir, &name, *size as u32))
                },
            },
            Request::Unlink { path } => Reply::done(self.fs.exfat_remove(path, false)),
            Request::Rmdir { path } => Reply::done(self.fs.exfat_remove(path, true)),
            _ => Reply::Fail,
        }
    }

    /// Answers a request on the mounted volume.
    fn answer(&mut self, req: &Request) -> (r: Reply)
        requires
            old(self).inv(),
            req matches Request::Write { data, .. } ==> data.len() <= u32::MAX,
        ensures
            final(self).inv(),
            (final(self)@, r@) == old(self)@.answer(*req),
    {
        proof {
            reveal(ExfatSrvView::answer);
        }
        match req {
            Request::Open { path } => match self.fs.exfat_resolve(path) {
                None => Reply::Fail,
                Some(e) => self.exfat_fd_alloc(path, e.is_dir),
            },
            Request::Close { fd } => self.exfat_fd_free(*fd),
            Request::Creat { path } => self.exfat_create(path, false),
            Request::Mkdir { path } => self.exfat_create(path, true),
            Request::Read { .. } | Request::Readdir { .. } | Request::Stat { .. } => self.look(req),
            _ => self.change(req),
        }
    }

    /// Serves a request at time `now`.
    pub fn serve(&mut self, enc: u64, req: &Request, now: u64) -> (r: Reply)
        requires
            old(self).inv(),
            req matches Request::Write { data, .. } ==> data.len() <= u32::MAX,
        ensures
            final(self).inv(),
            (final(self)@, r@) == old(self)@.serve(enc, *req, now),
    {
        let named: u64 = vfs::vol_from_enc(enc, self.own);
        let fd: Option<u32> = match req {
            Request::Truncate { fd, .. } => Some(*fd),
            _ => req.fd(),
        };
        let vol: u64 = match fd {
            None => named,
            Some(f) => match self.exfat_fd_get(f) {
                Some(v) => v,
                None => named,
            },
        };
        self.fs.now = now;
        if vol != self.fs.vol {
            if self.fs.exfat_mount(vol) != 0 {
                return Reply::Fail;
            }
        }
        self.answer(req)
    }
}

} // verus!
