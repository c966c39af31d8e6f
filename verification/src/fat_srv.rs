//! The FAT32 file service: open files and the requests it answers.
use vstd::prelude::*;

use crate::bytes;
use crate::disk::Store;
use crate::fat;
use crate::fat::{
    Fat, Fat32Bpb, FatView, ATTR_DIRECTORY, FAT32_MAX_CLUSTER_BYTES, FAT_EOC, FAT_WALK_MAX,
};
use crate::fat_dir::DirEntryInfo;
use crate::fat_file::OpenNode;
use crate::vfs;
use crate::vfs::{Reply, ReplyView, Request, Stat};

verus! {

/// Most files open at a time.
pub const MAX_FD: usize = 16;

/// The short name of the entry `.`.
pub open spec fn dot_name() -> Seq<u8> {
    seq![0x2Eu8] + Seq::new(10, |i: int| 0x20u8)
}

/// The short name of the entry `..`.
pub open spec fn dotdot_name() -> Seq<u8> {
    seq![0x2Eu8, 0x2Eu8] + Seq::new(9, |i: int| 0x20u8)
}

/// The name that the start-up self-test creates and removes.
pub open spec fn fs1_name() -> Seq<u8> {
    seq![0x46u8, 0x53u8, 0x31u8, 0x54u8, 0x45u8, 0x53u8, 0x54u8]
}

/// Where the start-up self-test failed.
#[derive(Clone, Copy, PartialEq, Eq, Structural)]
pub enum Fs1Fault {
    NoFreeCluster,
    WriteFat,
    FindSlot,
    WriteEntry,
    FindEntry,
    Unlink,
    StillPresent,
    NotFreed,
}

/// Why the service did not start.
#[derive(Clone, Copy, PartialEq, Eq, Structural)]
pub enum FatStartError {
    /// The boot sector cannot be read.
    Unreadable,
    /// The boot sector has no signature.
    NotBoot,
    /// The geometry is not supported.
    Geometry,
    /// The self-test failed.
    SelfTest(Fs1Fault),
}

impl FatView {
    /// An empty file with the given short name created in directory `parent`: the
    /// place of its entry.
    pub open spec fn make_file(self, b: Fat32Bpb, parent: u32, sn: Seq<u8>) -> (
        FatView,
        Option<(u32, u32)>,
    ) {
        let (s, slot) = self.dir_slot(b, parent, FAT_WALK_MAX as nat);
        match slot {
            None => (s, None),
            Some((off, dc)) => {
                let (t, ok) = s.write_entry(b, dc, off, sn, 0, 0, 0);
                if ok {
                    (t, Some((off, dc)))
                } else {
                    (t, None)
                }
            },
        }
    }

    /// A directory with the given short name created in directory `parent`: a cleared
    /// cluster with `.` and `..`, then its entry.
    pub open spec fn make_dir(self, b: Fat32Bpb, parent: u32, sn: Seq<u8>) -> (FatView, bool) {
        let (s, free) = self.find_free(b);
        match free {
            None => (s, false),
            Some(f) => {
                let (s1, ok1) = s.fat_set(b, f, FAT_EOC);
                let (s2, ok2) = s1.put_cluster(b, f, bytes::zeros(b.cb()));
                let (s3, ok3) = s2.write_entry(b, f, 0, dot_name(), ATTR_DIRECTORY, f, 0);
                let (s4, ok4) = s3.write_entry(b, f, 32, dotdot_name(), ATTR_DIRECTORY, parent, 0);
                let (s5, slot) = s4.dir_slot(b, parent, FAT_WALK_MAX as nat);
                if !ok1 {
                    (s1, false)
                } else if !ok2 {
                    (s2, false)
                } else if !ok3 {
                    (s3, false)
                } else if !ok4 {
                    (s4, false)
                } else {
                    match slot {
                        None => (s5, false),
                        Some((off, dc)) => s5.write_entry(b, dc, off, sn, ATTR_DIRECTORY, f, 0),
                    }
                }
            },
        }
    }

    /// The start-up self-test: an entry is created, found, removed and looked for
    /// again.
    pub open spec fn fs1(self, b: Fat32Bpb) -> (FatView, Option<Fs1Fault>) {
        let sn = crate::fat_name::short_name(fs1_name())->0;
        let (s0, free) = self.find_free(b);
        match free {
            None => (s0, Some(Fs1Fault::NoFreeCluster)),
            Some(f) => {
                let (s1, ok1) = s0.fat_set(b, f, FAT_EOC);
                let (s2, slot) = s1.dir_slot(b, b.root_cluster, FAT_WALK_MAX as nat);
                if !ok1 {
                    (s1, Some(Fs1Fault::WriteFat))
                } else {
                    match slot {
                        None => (s2, Some(Fs1Fault::FindSlot)),
                        Some((off, dc)) => {
                            let (s3, ok3) = s2.write_entry(b, dc, off, sn, 0, f, 0);
                            let (s4, found) = s3.find(b, b.root_cluster, fs1_name());
                            if !ok3 {
                                (s3, Some(Fs1Fault::WriteEntry))
                            } else if found is None || found->0.start_cluster != f {
                                (s4, Some(Fs1Fault::FindEntry))
                            } else {
                                let i = found->0;
                                let (s5, ok5) = s4.unlink(
                                    b,
                                    i.dir_cluster,
                                    i.entry_offset,
                                    i.start_cluster,
                                );
                                let (s6, again) = s5.find(b, b.root_cluster, fs1_name());
                                let (s7, e) = s6.fat_get(b, f);
                                if !ok5 {
                                    (s5, Some(Fs1Fault::Unlink))
                                } else if again is Some {
                                    (s6, Some(Fs1Fault::StillPresent))
                                } else if e != 0 {
                                    (s7, Some(Fs1Fault::NotFreed))
                                } else {
                                    (s7, None)
                                }
                            }
                        },
                    }
                }
            },
        }
    }
}

/// The node that an entry opens as.
pub open spec fn node_of(i: DirEntryInfo, vol: u64) -> OpenNode {
    OpenNode {
        is_dir: i.is_dir(),
        start_cluster: i.start_cluster,
        file_size: i.file_size,
        dir_cluster: i.dir_cluster,
        entry_offset: i.entry_offset,
        vol,
    }
}

/// The first free descriptor from `i` on; the table's length where there is none.
pub open spec fn free_fd(fds: Seq<Option<OpenNode>>, i: int) -> int
    decreases fds.len() - i,
{
    if i >= fds.len() || fds[i] is None {
        i
    } else {
        free_fd(fds, i + 1)
    }
}

/// The state of the service.
#[verifier::ext_equal]
pub struct FatSrvView {
    pub fat: FatView,
    /// Geometry of volume `bpb_vol`.
    pub bpb: Fat32Bpb,
    pub bpb_vol: u64,
    /// The service's own volume.
    pub vol: u64,
    pub fds: Seq<Option<OpenNode>>,
}

impl FatSrvView {
    /// The node that descriptor `fd` stands for.
    pub open spec fn lookup(self, fd: u32) -> Option<OpenNode> {
        if fd < MAX_FD {
            self.fds[fd as int]
        } else {
            None
        }
    }

    /// A node given the first free descriptor.
    pub open spec fn take_fd(self, node: OpenNode) -> (FatSrvView, Option<u64>) {
        let i = free_fd(self.fds, 0);
        if i < self.fds.len() {
            (FatSrvView { fds: self.fds.update(i, Some(node)), ..self }, Some(i as u64))
        } else {
            (self, None)
        }
    }

    /// A descriptor given back; the answer tells whether it was in use.
    pub open spec fn close(self, fd: u32) -> (FatSrvView, ReplyView) {
        if self.lookup(fd) is Some {
            (
                FatSrvView { fds: self.fds.update(fd as int, None), ..self },
                ReplyView::Value(1),
            )
        } else {
            (self, ReplyView::Value(0))
        }
    }

    /// The geometry of volume `vol`, the current one, loaded.
    pub open spec fn load_bpb(self, vol: u64) -> (FatSrvView, bool) {
        match self.fat.rd(0, 1) {
            None => (self, false),
            Some(sec) => {
                let b = fat::bpb_of(sec);
                if bytes::le16(sec, 510) != 0xAA55 || !b.wf() {
                    (self, false)
                } else {
                    (
                        FatSrvView {
                            fat: FatView { hint: 2, ..self.fat },
                            bpb: b,
                            bpb_vol: vol,
                            ..self
                        },
                        true,
                    )
                }
            },
        }
    }

    /// The volume that a request is about: that of its descriptor, else the one it
    /// names.
    pub open spec fn target(self, enc: u64, req: Request) -> u64 {
        let named = vfs::vol_from_enc_spec(enc, self.vol);
        match req.fd_spec() {
            Some(fd) => match self.lookup(fd) {
                Some(n) => n.vol,
                None => named,
            },
            None => named,
        }
    }

    /// The path opened.
    pub open spec fn open(self, p: Seq<u8>, vol: u64) -> (FatSrvView, ReplyView) {
        let (f, r) = self.fat.resolve_open(self.bpb, p);
        let s = FatSrvView { fat: f, ..self };
        match r {
            None => (s, ReplyView::Fail),
            Some(i) => {
                let (t, fd) = s.take_fd(node_of(i, vol));
                (t, ReplyView::of_option(fd))
            },
        }
    }

    /// Bytes of an open file read.
    pub open spec fn read(self, fd: u32, offset: u64, count: u32) -> (FatSrvView, ReplyView) {
        match self.lookup(fd) {
            Some(n) => if offset > u32::MAX || n.is_dir {
                (self, ReplyView::Fail)
            } else {
                let (f, r) = self.fat.read_range(
                    self.bpb,
                    n.start_cluster,
                    n.file_size,
                    offset as u32,
                    count,
                );
                (
                    FatSrvView { fat: f, ..self },
                    match r {
                        Some(d) => ReplyView::Data(d),
                        None => ReplyView::Fail,
                    },
                )
            },
            None => (self, ReplyView::Fail),
        }
    }

    /// Bytes written to an open file; the answer is their number.
    pub open spec fn write(self, fd: u32, offset: u64, data: Seq<u8>) -> (FatSrvView, ReplyView) {
        match self.lookup(fd) {
            Some(n) => if offset > u32::MAX || n.is_dir {
                (self, ReplyView::Fail)
            } else {
                let (f, r) = self.fat.write_range(self.bpb, n, offset as u32, data);
                match r {
                    Some(n2) => (
                        FatSrvView { fat: f, fds: self.fds.update(fd as int, Some(n2)), ..self },
                        ReplyView::Value(data.len() as u64),
                    ),
                    None => (FatSrvView { fat: f, ..self }, ReplyView::Fail),
                }
            },
            None => (self, ReplyView::Fail),
        }
    }

    /// An open directory listed.
    pub open spec fn readdir(self, fd: u32) -> (FatSrvView, ReplyView) {
        match self.lookup(fd) {
            Some(n) => if !n.is_dir {
                (self, ReplyView::Fail)
            } else {
                let (f, r) = self.fat.list(
                    self.bpb,
                    n.start_cluster,
                    crate::fat_name::LfnView::empty(),
                    Seq::empty(),
                    FAT_WALK_MAX as nat,
                );
                (
                    FatSrvView { fat: f, ..self },
                    match r {
                        Some(e) => ReplyView::Entries(e),
                        None => ReplyView::Fail,
                    },
                )
            },
            None => (self, ReplyView::Fail),
        }
    }

    /// A file opened, created empty where it is missing.
    pub open spec fn creat(self, p: Seq<u8>, vol: u64) -> (FatSrvView, ReplyView) {
        let (f, r) = self.fat.resolve_parent(self.bpb, p);
        match r {
            None => (FatSrvView { fat: f, ..self }, ReplyView::Fail),
            Some((parent, sn)) => {
                let (g, e) = f.find_short(self.bpb, parent, sn, FAT_WALK_MAX as nat);
                match e {
                    Some(i) => if i.is_dir() {
                        (FatSrvView { fat: g, ..self }, ReplyView::Fail)
                    } else {
                        let (t, fd) = FatSrvView { fat: g, ..self }.take_fd(node_of(i, vol));
                        (t, ReplyView::of_option(fd))
                    },
                    None => {
                        let (h, place) = g.make_file(self.bpb, parent, sn);
                        let s = FatSrvView { fat: h, ..self };
                        match place {
                            None => (s, ReplyView::Fail),
                            Some((off, dc)) => {
                                let (t, fd) = s.take_fd(
                                    OpenNode {
                                        is_dir: false,
                                        start_cluster: 0,
                                        file_size: 0,
                                        dir_cluster: dc,
                                        entry_offset: off,
                                        vol,
                                    },
                                );
                                (t, ReplyView::of_option(fd))
                            },
                        }
                    },
                }
            },
        }
    }

    /// A directory created; a name that is taken is refused.
    pub open spec fn mkdir(self, p: Seq<u8>) -> (FatSrvView, ReplyView) {
        let (f, r) = self.fat.resolve_parent(self.bpb, p);
        match r {
            None => (FatSrvView { fat: f, ..self }, ReplyView::Fail),
            Some((parent, sn)) => {
                let (g, e) = f.find_short(self.bpb, parent, sn, FAT_WALK_MAX as nat);
                if e is Some {
                    (FatSrvView { fat: g, ..self }, ReplyView::Fail)
                } else {
                    let (h, ok) = g.make_dir(self.bpb, parent, sn);
                    (FatSrvView { fat: h, ..self }, ReplyView::done(ok))
                }
            },
        }
    }

    /// A file (`want_dir` false) or an empty directory removed.
    pub open spec fn remove(self, p: Seq<u8>, want_dir: bool) -> (FatSrvView, ReplyView) {
        let (f, r) = self.fat.resolve_parent(self.bpb, p);
        match r {
            None => (FatSrvView { fat: f, ..self }, ReplyView::Fail),
            Some((parent, sn)) => {
                let (g, e) = f.find_short(self.bpb, parent, sn, FAT_WALK_MAX as nat);
                match e {
                    None => (FatSrvView { fat: g, ..self }, ReplyView::Fail),
                    Some(i) => if i.is_dir() != want_dir {
                        (FatSrvView { fat: g, ..self }, ReplyView::Fail)
                    } else {
                        let (h, empty) = if want_dir {
                            g.at_most_two(self.bpb, i.start_cluster, 0, FAT_WALK_MAX as nat)
                        } else {
                            (g, true)
                        };
                        if !empty {
                            (FatSrvView { fat: h, ..self }, ReplyView::Fail)
                        } else {
                            let (k, ok) = h.unlink(
                                self.bpb,
                                i.dir_cluster,
                                i.entry_offset,
                                i.start_cluster,
                            );
                            (FatSrvView { fat: k, ..self }, ReplyView::done(ok))
                        }
                    },
                }
            },
        }
    }

    /// What is known of the file that a path names.
    pub open spec fn stat(self, p: Seq<u8>) -> (FatSrvView, ReplyView) {
        let (f, r) = self.fat.resolve_open(self.bpb, p);
        (
            FatSrvView { fat: f, ..self },
            match r {
                Some(i) => ReplyView::StatOf(Stat::plain_spec(i.file_size as u64, i.is_dir())),
                None => ReplyView::Fail,
            },
        )
    }

    /// A request carried out on the volume `vol`, whose geometry is loaded.
    pub open spec fn dispatch(self, vol: u64, req: Request) -> (FatSrvView, ReplyView) {
        match req {
            Request::Open { path } => self.open(path@, vol),
            Request::Read { fd, offset, count } => self.read(fd, offset, count),
            Request::Write { fd, offset, data } => self.write(fd, offset, data@),
            Request::Readdir { fd } => self.readdir(fd),
            Request::Close { fd } => self.close(fd),
            Request::Creat { path } => self.creat(path@, vol),
            Request::Mkdir { path } => self.mkdir(path@),
            Request::Unlink { path } => self.remove(path@, false),
            Request::Rmdir { path } => self.remove(path@, true),
            Request::Stat { path } => self.stat(path@),
            _ => (self, ReplyView::Fail),
        }
    }

    /// One request served: the service turns to the request's volume, loading its
    /// geometry at need, and carries the request out.
    pub open spec fn serve(self, enc: u64, req: Request) -> (FatSrvView, ReplyView) {
        let vol = self.target(enc, req);
        let s = FatSrvView { fat: FatView { cur: vol, ..self.fat }, ..self };
        if s.bpb_vol == vol {
            s.dispatch(vol, req)
        } else {
            let (t, ok) = s.load_bpb(vol);
            if ok {
                t.dispatch(vol, req)
            } else {
                (t, ReplyView::Fail)
            }
        }
    }
}

/// The FAT32 file service.
#[derive(Clone)]
pub struct FatSrv {
    pub fat: Fat,
    pub bpb: Fat32Bpb,
    pub bpb_vol: u64,
    pub vol: u64,
    pub fds: Vec<Option<OpenNode>>,
}

impl FatSrv {
    pub open spec fn view(&self) -> FatSrvView {
        FatSrvView {
            fat: self.fat@,
            bpb: self.bpb,
            bpb_vol: self.bpb_vol,
            vol: self.vol,
            fds: self.fds@,
        }
    }

    /// Sound volumes, a supported geometry, and a full-size table of descriptors whose
    /// nodes point at whole directory entries.
    pub open spec fn inv(&self) -> bool {
        &&& self.fat.inv()
        &&& self.bpb.wf()
        &&& self.fds@.len() == MAX_FD
        &&& forall|i: int|
            0 <= i < self.fds@.len() ==> (#[trigger] self.fds@[i] matches Some(n)
                ==> n.entry_offset % 32 == 0)
    }

    /// Reads the boot sector of the current volume of `fat` and checks it.
    fn probe(fat: &Fat) -> (r: Result<Fat32Bpb, FatStartError>)
        requires
            fat.inv(),
        ensures
            match fat@.rd(0, 1) {
                None => r == Err::<Fat32Bpb, FatStartError>(FatStartError::Unreadable),
                Some(sec) => if bytes::le16(sec, 510) != 0xAA55 {
                    r == Err::<Fat32Bpb, FatStartError>(FatStartError::NotBoot)
                } else if !fat::bpb_of(sec).wf() {
                    r == Err::<Fat32Bpb, FatStartError>(FatStartError::Geometry)
                } else {
                    r == Ok::<Fat32Bpb, FatStartError>(fat::bpb_of(sec))
                },
            },
    {
        let sec: Vec<u8> = match fat.block_read(0, 1) {
            Some(v) => v,
            None => {
                return Err(FatStartError::Unreadable);
            },
        };
        if bytes::read_u16(&sec, 510) != 0xAA55 {
            return Err(FatStartError::NotBoot);
        }
        let b: Fat32Bpb = Fat32Bpb::parse(&sec);
        let cb: u32 = b.cluster_bytes();
        proof {
            let x = b.sectors_per_cluster as int;
            assert(b.bytes_per_sector == 512 ==> b.cb() == x * 512);
        }
        if b.bytes_per_sector != 512 || cb == 0 || cb > FAT32_MAX_CLUSTER_BYTES {
            return Err(FatStartError::Geometry);
        }
        Ok(b)
    }

    /// Starts the service on its own volume `vol`: checks the volume and runs the
    /// self-test.
    pub fn start(store: Store, vol: u64) -> (r: Result<FatSrv, FatStartError>)
        requires
            store@.wf(),
        ensures
            ({
                let f0 = FatView { store: store@, cur: vol, fat_buf: bytes::zeros(512), hint: 2 };
                match f0.rd(0, 1) {
                    None => r == Err::<FatSrv, FatStartError>(FatStartError::Unreadable),
                    Some(sec) => {
                        let b = fat::bpb_of(sec);
                        if bytes::le16(sec, 510) != 0xAA55 {
                            r == Err::<FatSrv, FatStartError>(FatStartError::NotBoot)
                        } else if !b.wf() {
                            r == Err::<FatSrv, FatStartError>(FatStartError::Geometry)
                        } else {
                            let (f1, fault) = f0.fs1(b);
                            match fault {
                                Some(e) => r == Err::<FatSrv, FatStartError>(
                                    FatStartError::SelfTest(e),
                                ),
                                None => r is Ok && r->Ok_0.inv() && r->Ok_0@ == (FatSrvView {
                                    fat: f1,
                                    bpb: b,
                                    bpb_vol: vol,
                                    vol,
                                    fds: Seq::new(MAX_FD as nat, |i: int| None::<OpenNode>),
                                }),
                            }
                        }
                    },
                }
            }),
    {
        let mut fat: Fat = Fat::new(store, vol);
        let b: Fat32Bpb = match Self::probe(&fat) {
            Ok(b) => b,
            Err(e) => {
                return Err(e);
            },
        };
        match Self::self_test(&mut fat, &b) {
            Some(e) => {
                return Err(FatStartError::SelfTest(e));
            },
            None => {},
        }
        let mut fds: Vec<Option<OpenNode>> = Vec::new();
        while fds.len() < MAX_FD
            invariant
                fds.len() <= MAX_FD,
                fds@ =~= Seq::new(fds@.len(), |i: int| None::<OpenNode>),
            decreases MAX_FD - fds.len(),
        {
            fds.push(None);
        }
        Ok(FatSrv { fat, bpb: b, bpb_vol: vol, vol, fds })
    }

    /// The start-up self-test of the directory and table primitives.
    pub fn self_test(fat: &mut Fat, b: &Fat32Bpb) -> (r: Option<Fs1Fault>)
        requires
            old(fat).inv(),
            b.wf(),
        ensures
            final(fat).inv(),
            (final(fat)@, r) == old(fat)@.fs1(*b),
    {
        let name: Vec<u8> = vec![0x46u8, 0x53u8, 0x31u8, 0x54u8, 0x45u8, 0x53u8, 0x54u8];
        assert(name@ =~= fs1_name());
        let sn: Vec<u8> = match crate::fat_name::short_name_from_query(&name) {
            Some(s) => s,
            None => {
                proof {
                    let n = fs1_name();
                    crate::fat_name::lemma_last_dot(n, 7);
                    assert(forall|i: int| 0 <= i < 7 ==> n[i] != 0x2E);
                    assert(crate::fat_name::last_dot(n, 7) == -1);
                    assert(false);
                }
                return None;
            },
        };
        let free: u32 = match fat.find_free_cluster(b) {
            Some(c) => c,
            None => {
                return Some(Fs1Fault::NoFreeCluster);
            },
        };
        if !fat.write_fat_entry(b, free, FAT_EOC) {
            return Some(Fs1Fault::WriteFat);
        }
        let (off, dc): (u32, u32) = match fat.find_dir_slot(b, b.root_cluster) {
            Some(x) => x,
            None => {
                return Some(Fs1Fault::FindSlot);
            },
        };
        if !fat.write_dir_entry(b, dc, off, &sn, 0, free, 0) {
            return Some(Fs1Fault::WriteEntry);
        }
        let info: DirEntryInfo = match fat.find_entry(b, b.root_cluster, &name) {
            Some(i) => i,
            None => {
                return Some(Fs1Fault::FindEntry);
            },
        };
        if info.start_cluster != free {
            return Some(Fs1Fault::FindEntry);
        }
        if !fat.unlink_entry(b, info.dir_cluster, info.entry_offset, info.start_cluster) {
            return Some(Fs1Fault::Unlink);
        }
        if fat.find_entry(b, b.root_cluster, &name).is_some() {
            return Some(Fs1Fault::StillPresent);
        }
        if fat.read_fat_entry(b, free) != 0 {
            return Some(Fs1Fault::NotFreed);
        }
        None
    }

    /// Gives a node the first free descriptor.
    pub fn fd_alloc(&mut self, node: OpenNode) -> (r: Option<u64>)
        requires
            old(self).inv(),
            node.entry_offset % 32 == 0,
        ensures
            final(self).inv(),
            (final(self)@, r) == old(self)@.take_fd(node),
    {
        let mut i: usize = 0;
        while i < self.fds.len()
            invariant
                i <= self.fds.len(),
                *self == *old(self),
                self.inv(),
                node.entry_offset % 32 == 0,
                free_fd(self.fds@, i as int) == free_fd(self.fds@, 0),
            decreases self.fds.len() - i,
        {
            if self.fds[i].is_none() {
                self.fds.set(i, Some(node));
                return Some(i as u64);
            }
            i = i + 1;
        }
        None
    }

    /// The node that a descriptor stands for.
    pub fn fd_lookup(&self, fd: u32) -> (r: Option<OpenNode>)
        requires
            self.inv(),
        ensures
            r == self@.lookup(fd),
            r matches Some(n) ==> n.entry_offset % 32 == 0,
    {
        if fd as usize >= MAX_FD {
            return None;
        }
        self.fds[fd as usize]
    }

    /// Gives a descriptor back.
    pub fn fd_free(&mut self, fd: u32) -> (r: Reply)
        requires
            old(self).inv(),
        ensures
            final(self).inv(),
            (final(self)@, r@) == old(self)@.close(fd),
    {
        if fd as usize >= MAX_FD {
            return Reply::Value(0);
        }
        if self.fds[fd as usize].is_some() {
            self.fds.set(fd as usize, None);
            Reply::Value(1)
        } else {
            Reply::Value(0)
        }
    }

    /// Loads the geometry of volume `vol`, the current one.
    pub fn fat_load_bpb(&mut self, vol: u64) -> (r: bool)
        requires
            old(self).inv(),
        ensures
            final(self).inv(),
            (final(self)@, r) == old(self)@.load_bpb(vol),
    {
        match Self::probe(&self.fat) {
            Ok(b) => {
                self.bpb = b;
                self.bpb_vol = vol;
                self.fat.hint = 2;
                true
            },
            Err(_) => false,
        }
    }

    fn do_open(&mut self, p: &Vec<u8>, vol: u64) -> (r: Reply)
        requires
            old(self).inv(),
        ensures
            final(self).inv(),
            (final(self)@, r@) == old(self)@.open(p@, vol),
    {
        let b: Fat32Bpb = self.bpb;
        match self.fat.resolve_open_path(&b, p) {
            Some(i) => {
                let node = OpenNode {
                    is_dir: i.attr & ATTR_DIRECTORY != 0,
                    start_cluster: i.start_cluster,
                    file_size: i.file_size,
                    dir_cluster: i.dir_cluster,
                    entry_offset: i.entry_offset,
                    vol,
                };
                let fd: Option<u64> = self.fd_alloc(node);
                Reply::of_option(fd)
            },
            None => Reply::Fail,
        }
    }

    fn do_read(&mut self, fd: u32, offset: u64, count: u32) -> (r: Reply)
        requires
            old(self).inv(),
        ensures
            final(self).inv(),
            (final(self)@, r@) == old(self)@.read(fd, offset, count),
    {
        if offset > u32::MAX as u64 {
            return Reply::Fail;
        }
        let b: Fat32Bpb = self.bpb;
        match self.fd_lookup(fd) {
            Some(n) => {
                if n.is_dir {
                    return Reply::Fail;
                }
                match self.fat.read_file_range(
                    &b,
                    n.start_cluster,
                    n.file_size,
                    offset as u32,
                    count,
                ) {
                    Some(d) => Reply::Data(d),
                    None => Reply::Fail,
                }
            },
            None => Reply::Fail,
        }
    }

    fn do_write(&mut self, fd: u32, offset: u64, data: &Vec<u8>) -> (r: Reply)
        requires
            old(self).inv(),
            data.len() <= u32::MAX,
        ensures
            final(self).inv(),
            (final(self)@, r@) == old(self)@.write(fd, offset, data@),
    {
        if offset > u32::MAX as u64 {
            return Reply::Fail;
        }
        let b: Fat32Bpb = self.bpb;
        match self.fd_lookup(fd) {
            Some(n) => {
                if n.is_dir {
                    return Reply::Fail;
                }
                let mut node: OpenNode = n;
                if self.fat.write_file_range(&b, &mut node, offset as u32, data) {
                    assert(node.entry_offset == n.entry_offset);
                    self.fds.set(fd as usize, Some(node));
                    Reply::Value(data.len() as u64)
                } else {
                    Reply::Fail
                }
            },
            None => Reply::Fail,
        }
    }

    fn do_readdir(&mut self, fd: u32) -> (r: Reply)
        requires
            old(self).inv(),
        ensures
            final(self).inv(),
            (final(self)@, r@) == old(self)@.readdir(fd),
    {
        let b: Fat32Bpb = self.bpb;
        match self.fd_lookup(fd) {
            Some(n) => {
                if !n.is_dir {
                    return Reply::Fail;
                }
                match self.fat.readdir_into(&b, n.start_cluster) {
                    Some(e) => Reply::Entries(e),
                    None => Reply::Fail,
                }
            },
            None => Reply::Fail,
        }
    }

    fn do_creat(&mut self, p: &Vec<u8>, vol: u64) -> (r: Reply)
        requires
            old(self).inv(),
        ensures
            final(self).inv(),
            (final(self)@, r@) == old(self)@.creat(p@, vol),
    {
        let b: Fat32Bpb = self.bpb;
        match self.fat.resolve_parent(&b, p) {
            None => Reply::Fail,
            Some((parent, sn)) => match self.fat.find_entry_sn(&b, parent, &sn) {
                Some(i) => {
                    if i.attr & ATTR_DIRECTORY != 0 {
                        return Reply::Fail;
                    }
                    let node = OpenNode {
                        is_dir: false,
                        start_cluster: i.start_cluster,
                        file_size: i.file_size,
                        dir_cluster: i.dir_cluster,
                        entry_offset: i.entry_offset,
                        vol,
                    };
                    let fd: Option<u64> = self.fd_alloc(node);
                    Reply::of_option(fd)
                },
                None => match self.fat.find_dir_slot(&b, parent) {
                    None => Reply::Fail,
                    Some((off, dc)) => {
                        if !self.fat.write_dir_entry(&b, dc, off, &sn, 0, 0, 0) {
                            return Reply::Fail;
                        }
                        let node = OpenNode {
                            is_dir: false,
                            start_cluster: 0,
                            file_size: 0,
                            dir_cluster: dc,
                            entry_offset: off,
                            vol,
                        };
                        let fd: Option<u64> = self.fd_alloc(node);
                        Reply::of_option(fd)
                    },
                },
            },
        }
    }

    /// Creates a directory with short name `sn` in directory `parent`.
    fn make_dir(fat: &mut Fat, b: &Fat32Bpb, parent: u32, sn: &Vec<u8>) -> (r: bool)
        requires
            old(fat).inv(),
            b.wf(),
            sn@.len() == 11,
        ensures
            final(fat).inv(),
            (final(fat)@, r) == old(fat)@.make_dir(*b, parent, sn@),
    {
        let free: u32 = match fat.find_free_cluster(b) {
            Some(f) => f,
            None => {
                return false;
            },
        };
        if !fat.write_fat_entry(b, free, FAT_EOC) {
            return false;
        }
        let blank: Vec<u8> = bytes::zero_vec(b.cluster_bytes() as usize);
        if !fat.write_cluster(b, free, &blank) {
            return false;
        }
        let mut dot: Vec<u8> = vec![0x20u8; 11];
        dot.set(0, 0x2E);
        assert(dot@ =~= dot_name());
        let mut dotdot: Vec<u8> = vec![0x20u8; 11];
        dotdot.set(0, 0x2E);
        dotdot.set(1, 0x2E);
        assert(dotdot@ =~= dotdot_name());
        if !fat.write_dir_entry(b, free, 0, &dot, ATTR_DIRECTORY, free, 0) {
            return false;
        }
        if !fat.write_dir_entry(b, free, 32, &dotdot, ATTR_DIRECTORY, parent, 0) {
            return false;
        }
        match fat.find_dir_slot(b, parent) {
            None => false,
            Some((off, dc)) => fat.write_dir_entry(b, dc, off, sn, ATTR_DIRECTORY, free, 0),
        }
    }

    fn do_mkdir(&mut self, p: &Vec<u8>) -> (r: Reply)
        requires
            old(self).inv(),
        ensures
            final(self).inv(),
            (final(self)@, r@) == old(self)@.mkdir(p@),
    {
        let b: Fat32Bpb = self.bpb;
        match self.fat.resolve_parent(&b, p) {
            None => Reply::Fail,
            Some((parent, sn)) => {
                if self.fat.find_entry_sn(&b, parent, &sn).is_some() {
                    return Reply::Fail;
                }
                let ok: bool = Self::make_dir(&mut self.fat, &b, parent, &sn);
                Reply::done(ok)
            },
        }
    }

    fn do_remove(&mut self, p: &Vec<u8>, want_dir: bool) -> (r: Reply)
        requires
            old(self).inv(),
        ensures
            final(self).inv(),
            (final(self)@, r@) == old(self)@.remove(p@, want_dir),
    {
        let b: Fat32Bpb = self.bpb;
        match self.fat.resolve_parent(&b, p) {
            None => Reply::Fail,
            Some((parent, sn)) => match self.fat.find_entry_sn(&b, parent, &sn) {
                None => Reply::Fail,
                Some(i) => {
                    let is_dir: bool = i.attr & ATTR_DIRECTORY != 0;
                    if is_dir != want_dir {
                        return Reply::Fail;
                    }
                    if want_dir && !self.fat.dir_is_empty(&b, i.start_cluster) {
                        return Reply::Fail;
                    }
                    let ok: bool = self.fat.unlink_entry(
                        &b,
                        i.dir_cluster,
                        i.entry_offset,
                        i.start_cluster,
                    );
                    Reply::done(ok)
                },
            },
        }
    }

    fn do_stat(&mut self, p: &Vec<u8>) -> (r: Reply)
        requires
            old(self).inv(),
        ensures
            final(self).inv(),
            (final(self)@, r@) == old(self)@.stat(p@),
    {
        let b: Fat32Bpb = self.bpb;
        match self.fat.resolve_open_path(&b, p) {
            Some(i) => Reply::StatOf(
                Stat::plain(i.file_size as u64, i.attr & ATTR_DIRECTORY != 0),
            ),
            None => Reply::Fail,
        }
    }

    /// Serves one request; `enc` is the volume that it names.
    pub fn serve(&mut self, enc: u64, req: &Request) -> (r: Reply)
        requires
            old(self).inv(),
            req matches Request::Write { data, .. } ==> data.len() <= u32::MAX,
        ensures
            final(self).inv(),
            (final(self)@, r@) == old(self)@.serve(enc, *req),
    {
        let mut vol: u64 = vfs::vol_from_enc(enc, self.vol);
        match req.fd() {
            Some(fd) => match self.fd_lookup(fd) {
                Some(n) => {
                    vol = n.vol;
                },
                None => {},
            },
            None => {},
        }
        self.fat.cur = vol;
        if self.bpb_vol != vol && !self.fat_load_bpb(vol) {
            return Reply::Fail;
        }
        match req {
            Request::Open { path } => self.do_open(path, vol),
            Request::Read { fd, offset, count } => self.do_read(*fd, *offset, *count),
            Request::Write { fd, offset, data } => self.do_write(*fd, *offset, data),
            Request::Readdir { fd } => self.do_readdir(*fd),
            Request::Close { fd } => self.fd_free(*fd),
            Request::Creat { path } => self.do_creat(path, vol),
            Request::Mkdir { path } => self.do_mkdir(path),
            Request::Unlink { path } => self.do_remove(path, false),
            Request::Rmdir { path } => self.do_remove(path, true),
            Request::Stat { path } => self.do_stat(path),
            _ => Reply::Fail,
        }
    }
}

} // verus!
