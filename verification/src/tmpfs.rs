//! The in-memory file service: a flat table of nodes named by absolute paths.
use vstd::prelude::*;

use crate::bytes;
use crate::fat_name;
use crate::path;
use crate::vfs;
use crate::vfs::{DirEntry, DirEntryView, Reply, ReplyView, Request, Stat, RESULT_MAX_ENTRIES};

verus! {

/// Most files and directories, the root among them.
pub const TMP_MAX_NODES: usize = 32;

/// Longest path, in normal form.
pub const TMP_PATH_MAX: usize = 96;

/// Bytes for the contents of all files.
pub const TMP_DATA_CAP: usize = 32768;

/// Most files open at a time.
pub const TMP_MAX_FD: usize = 16;

/// A path segment in normal form: upper case, at most eight bytes, then a dot and
/// at most three where there is an extension. A segment with two dots, nothing
/// before the dot or too much on either side has none.
pub open spec fn norm_component(seg: Seq<u8>) -> Option<Seq<u8>> {
    let base = fat_name::name_base(seg);
    let ext = fat_name::name_ext(seg);
    if fat_name::last_dot(base, base.len() as int) >= 0 || base.len() == 0 || base.len() > 8
        || ext.len() > 3 {
        None
    } else if ext.len() == 0 {
        Some(base.map_values(|c: u8| bytes::upper(c)))
    } else {
        Some(
            base.map_values(|c: u8| bytes::upper(c)) + seq![0x2Eu8] + ext.map_values(
                |c: u8| bytes::upper(c),
            ),
        )
    }
}

/// The normal form of the segments from `k` on below `out`.
pub open spec fn norm_segs(segs: Seq<Seq<u8>>, k: int, out: Seq<u8>) -> Option<Seq<u8>>
    decreases segs.len() - k,
{
    if k >= segs.len() {
        Some(out)
    } else if segs[k] == seq![0x2Eu8] {
        norm_segs(segs, k + 1, out)
    } else if segs[k] == seq![0x2Eu8, 0x2Eu8] {
        norm_segs(segs, k + 1, path::pop_segment(out))
    } else {
        match norm_component(segs[k]) {
            None => None,
            Some(comp) => if path::push_segment(out, comp).len() > TMP_PATH_MAX {
                None
            } else {
                norm_segs(segs, k + 1, path::push_segment(out, comp))
            },
        }
    }
}

/// The normal form of an absolute path: `.` and `..` resolved, single slashes, no
/// slash at the end, every segment in normal form.
pub open spec fn normal(p: Seq<u8>) -> Option<Seq<u8>> {
    if p.len() == 0 || p[0] != 0x2F {
        None
    } else {
        norm_segs(path::segs(p), 0, seq![0x2Fu8])
    }
}

/// The eleven-byte name of a path's last segment.
pub open spec fn name_83(p: Seq<u8>) -> Seq<u8> {
    seg_83(path::leaf_of(p))
}

/// The eleven-byte name of a segment: what stands before its first dot and after it,
/// cut to eight and three bytes.
pub open spec fn seg_83(seg: Seq<u8>) -> Seq<u8> {
    let dot = first_dot(seg, 0);
    Seq::new(
        11,
        |i: int|
            if i < 8 {
                if i < dot {
                    seg[i]
                } else {
                    0x20u8
                }
            } else if dot + 1 + (i - 8) < seg.len() {
                seg[dot + 1 + (i - 8)]
            } else {
                0x20u8
            },
    )
}

/// Position of the first dot from `i` on; the length where there is none.
pub open spec fn first_dot(s: Seq<u8>, i: int) -> int
    decreases s.len() - i,
{
    if i >= s.len() || s[i] == 0x2E {
        i
    } else {
        first_dot(s, i + 1)
    }
}

/// A slot of the node table: a file or directory, or (not `used`) what is left of
/// one.
#[verifier::ext_equal]
pub struct TmpNodeView {
    pub used: bool,
    pub is_dir: bool,
    pub path: Seq<u8>,
    pub content: Seq<u8>,
}

/// The state of the service: the node table, the open files, and the bytes of the
/// data area given out so far (they are never taken back).
#[verifier::ext_equal]
pub struct TmpView {
    pub nodes: Seq<TmpNodeView>,
    pub fds: Seq<Option<int>>,
    pub space: int,
}

/// The first node in use with the given path, from `i` on.
pub open spec fn find_node(nodes: Seq<TmpNodeView>, p: Seq<u8>, i: int) -> Option<int>
    decreases nodes.len() - i,
{
    if i >= nodes.len() {
        None
    } else if nodes[i].used && nodes[i].path == p {
        Some(i)
    } else {
        find_node(nodes, p, i + 1)
    }
}

/// The first slot not in use, from `i` on.
pub open spec fn free_node(nodes: Seq<TmpNodeView>, i: int) -> Option<int>
    decreases nodes.len() - i,
{
    if i >= nodes.len() {
        None
    } else if !nodes[i].used {
        Some(i)
    } else {
        free_node(nodes, i + 1)
    }
}

/// Whether node `c` lies directly in directory `dir`.
pub open spec fn is_child(c: TmpNodeView, dir: Seq<u8>) -> bool {
    c.used && c.path != dir && path::parent_of(c.path) == dir
}

/// The listing record of a node.
pub open spec fn record_of(c: TmpNodeView) -> DirEntryView {
    DirEntryView::plain(
        name_83(c.path),
        Seq::empty(),
        if c.is_dir {
            0
        } else {
            c.content.len() as u64
        },
        c.is_dir,
    )
}

/// The listing of directory `dir` after `out`, from node `i` on.
pub open spec fn list_nodes(
    nodes: Seq<TmpNodeView>,
    dir: Seq<u8>,
    i: int,
    out: Seq<DirEntryView>,
) -> Seq<DirEntryView>
    decreases nodes.len() - i,
{
    if i >= nodes.len() {
        out
    } else if !is_child(nodes[i], dir) {
        list_nodes(nodes, dir, i + 1, out)
    } else if out.len() >= RESULT_MAX_ENTRIES {
        out
    } else {
        list_nodes(nodes, dir, i + 1, out.push(record_of(nodes[i])))
    }
}

/// The first free descriptor from `i` on; the table's length where there is none.
pub open spec fn free_slot(fds: Seq<Option<int>>, i: int) -> int
    decreases fds.len() - i,
{
    if i >= fds.len() || fds[i] is None {
        i
    } else {
        free_slot(fds, i + 1)
    }
}

/// The contents of a file after `data` was written at `offset`; a gap reads as
/// zeros.
pub open spec fn overwritten(content: Seq<u8>, offset: int, data: Seq<u8>) -> Seq<u8> {
    let end = offset + data.len();
    Seq::new(
        if end > content.len() {
            end as nat
        } else {
            content.len()
        },
        |k: int|
            if offset <= k < end {
                data[k - offset]
            } else if k < content.len() {
                content[k]
            } else {
                0u8
            },
    )
}

impl TmpView {
    /// The service at start: the root directory alone.
    pub open spec fn init() -> TmpView {
        TmpView {
            nodes: Seq::new(
                TMP_MAX_NODES as nat,
                |i: int|
                    TmpNodeView {
                        used: i == 0,
                        is_dir: i == 0,
                        path: if i == 0 {
                            seq![0x2Fu8]
                        } else {
                            Seq::empty()
                        },
                        content: Seq::empty(),
                    },
            ),
            fds: Seq::new(TMP_MAX_FD as nat, |i: int| None),
            space: 0,
        }
    }

    /// The node with the given path.
    pub open spec fn find(self, p: Seq<u8>) -> Option<int> {
        find_node(self.nodes, p, 0)
    }

    /// The node that descriptor `fd` stands for.
    pub open spec fn fd_node(self, fd: u32) -> Option<int> {
        if fd < TMP_MAX_FD {
            self.fds[fd as int]
        } else {
            None
        }
    }

    /// Node `n` given the first free descriptor.
    pub open spec fn take_fd(self, n: int) -> (TmpView, ReplyView) {
        let i = free_slot(self.fds, 0);
        if i < self.fds.len() {
            (TmpView { fds: self.fds.update(i, Some(n)), ..self }, ReplyView::Value(i as u64))
        } else {
            (self, ReplyView::Fail)
        }
    }

    /// A new, empty node in the first free slot.
    pub open spec fn new_node(self, p: Seq<u8>, is_dir: bool) -> (TmpView, Option<int>) {
        match free_node(self.nodes, 0) {
            None => (self, None),
            Some(i) => (
                TmpView {
                    nodes: self.nodes.update(
                        i,
                        TmpNodeView { used: true, is_dir, path: p, content: Seq::empty() },
                    ),
                    ..self
                },
                Some(i),
            ),
        }
    }

    /// Whether no node lies in directory `dir`.
    pub open spec fn dir_empty(self, dir: Seq<u8>) -> bool {
        forall|i: int| 0 <= i < self.nodes.len() ==> !is_child(#[trigger] self.nodes[i], dir)
    }

    pub open spec fn open(self, p: Seq<u8>) -> (TmpView, ReplyView) {
        match normal(p) {
            None => (self, ReplyView::Fail),
            Some(c) => match self.find(c) {
                None => (self, ReplyView::Fail),
                Some(n) => self.take_fd(n),
            },
        }
    }

    pub open spec fn read(self, fd: u32, offset: u64, count: u32) -> ReplyView {
        match self.fd_node(fd) {
            None => ReplyView::Fail,
            Some(n) => {
                let nd = self.nodes[n];
                if offset > u32::MAX || nd.is_dir {
                    ReplyView::Fail
                } else if offset >= nd.content.len() {
                    ReplyView::Data(Seq::empty())
                } else {
                    ReplyView::Data(
                        nd.content.subrange(
                            offset as int,
                            if count < nd.content.len() - offset {
                                offset + count
                            } else {
                                nd.content.len() as int
                            },
                        ),
                    )
                }
            },
        }
    }

    pub open spec fn write(self, fd: u32, offset: u64, data: Seq<u8>) -> (TmpView, ReplyView) {
        match self.fd_node(fd) {
            None => (self, ReplyView::Fail),
            Some(n) => {
                let nd = self.nodes[n];
                let end = offset + data.len();
                let grows = end > nd.content.len();
                if offset > u32::MAX || nd.is_dir || (grows && self.space + end > TMP_DATA_CAP) {
                    (self, ReplyView::Fail)
                } else {
                    (
                        TmpView {
                            nodes: self.nodes.update(
                                n,
                                TmpNodeView {
                                    content: overwritten(nd.content, offset as int, data),
                                    ..nd
                                },
                            ),
                            space: if grows {
                                self.space + end
                            } else {
                                self.space
                            },
                            ..self
                        },
                        ReplyView::Value(data.len() as u64),
                    )
                }
            },
        }
    }

    pub open spec fn readdir(self, fd: u32) -> ReplyView {
        match self.fd_node(fd) {
            None => ReplyView::Fail,
            Some(n) => if self.nodes[n].is_dir {
                ReplyView::Entries(list_nodes(self.nodes, self.nodes[n].path, 0, Seq::empty()))
            } else {
                ReplyView::Fail
            },
        }
    }

    pub open spec fn close(self, fd: u32) -> (TmpView, ReplyView) {
        if self.fd_node(fd) is Some {
            (TmpView { fds: self.fds.update(fd as int, None), ..self }, ReplyView::Value(1))
        } else {
            (self, ReplyView::Value(0))
        }
    }

    /// Whether the parent of `c` is a directory.
    pub open spec fn has_parent(self, c: Seq<u8>) -> bool {
        match self.find(path::parent_of(c)) {
            None => false,
            Some(n) => self.nodes[n].is_dir,
        }
    }

    pub open spec fn creat(self, p: Seq<u8>) -> (TmpView, ReplyView) {
        match normal(p) {
            None => (self, ReplyView::Fail),
            Some(c) => match self.find(c) {
                Some(n) => if self.nodes[n].is_dir {
                    (self, ReplyView::Fail)
                } else {
                    self.take_fd(n)
                },
                None => if !self.has_parent(c) {
                    (self, ReplyView::Fail)
                } else {
                    let (s, r) = self.new_node(c, false);
                    match r {
                        None => (s, ReplyView::Fail),
                        Some(n) => s.take_fd(n),
                    }
                },
            },
        }
    }

    pub open spec fn mkdir(self, p: Seq<u8>) -> (TmpView, ReplyView) {
        match normal(p) {
            None => (self, ReplyView::Fail),
            Some(c) => if c.len() <= 1 || self.find(c) is Some || !self.has_parent(c) {
                (self, ReplyView::Fail)
            } else {
                let (s, r) = self.new_node(c, true);
                (s, ReplyView::done(r is Some))
            },
        }
    }

    /// The node with path `c` removed.
    pub open spec fn drop_node(self, n: int) -> TmpView {
        TmpView {
            nodes: self.nodes.update(n, TmpNodeView { used: false, ..self.nodes[n] }),
            ..self
        }
    }

    pub open spec fn unlink(self, p: Seq<u8>) -> (TmpView, ReplyView) {
        match normal(p) {
            None => (self, ReplyView::Fail),
            Some(c) => match self.find(c) {
                None => (self, ReplyView::Fail),
                Some(n) => if self.nodes[n].is_dir {
                    (self, ReplyView::Fail)
                } else {
                    (self.drop_node(n), ReplyView::Value(1))
                },
            },
        }
    }

    pub open spec fn rmdir(self, p: Seq<u8>) -> (TmpView, ReplyView) {
        match normal(p) {
            None => (self, ReplyView::Fail),
            Some(c) => match self.find(c) {
                None => (self, ReplyView::Fail),
                Some(n) => if c.len() <= 1 || !self.nodes[n].is_dir || !self.dir_empty(c) {
                    (self, ReplyView::Fail)
                } else {
                    (self.drop_node(n), ReplyView::Value(1))
                },
            },
        }
    }

    pub open spec fn stat(self, p: Seq<u8>) -> ReplyView {
        match normal(p) {
            None => ReplyView::Fail,
            Some(c) => match self.find(c) {
                None => ReplyView::Fail,
                Some(n) => ReplyView::StatOf(
                    Stat::plain_spec(
                        self.nodes[n].content.len() as u64,
                        self.nodes[n].is_dir,
                    ),
                ),
            },
        }
    }

    /// One request served.
    pub open spec fn serve(self, req: Request) -> (TmpView, ReplyView) {
        match req {
            Request::Open { path } => self.open(path@),
            Request::Read { fd, offset, count } => (self, self.read(fd, offset, count)),
            Request::Write { fd, offset, data } => self.write(fd, offset, data@),
            Request::Readdir { fd } => (self, self.readdir(fd)),
            Request::Close { fd } => self.close(fd),
            Request::Creat { path } => self.creat(path@),
            Request::Mkdir { path } => self.mkdir(path@),
            Request::Unlink { path } => self.unlink(path@),
            Request::Rmdir { path } => self.rmdir(path@),
            Request::Stat { path } => (self, self.stat(path@)),
            _ => (self, ReplyView::Fail),
        }
    }
}

/// The normal form of a path segment.
#[verifier::loop_isolation(false)]
pub fn tmp_norm_component(seg: &[u8]) -> (r: Option<Vec<u8>>)
    ensures
        bytes::opt(r) == norm_component(seg@),
        r matches Some(v) ==> v@.len() <= 12,
{
    let d: usize = fat_name::dot_or_len(seg);
    let ghost base = fat_name::name_base(seg@);
    let ghost ext = fat_name::name_ext(seg@);
    assert(base =~= seg@.subrange(0, d as int));
    let mut i: usize = 0;
    while i < d
        invariant
            i <= d <= seg.len(),
            base == seg@.subrange(0, d as int),
            forall|j: int| 0 <= j < i ==> base[j] != 0x2E,
        decreases d - i,
    {
        if seg[i] == 0x2E {
            proof {
                fat_name::lemma_last_dot(base, base.len() as int);
                assert(base[i as int] == 0x2E);
            }
            return None;
        }
        i = i + 1;
    }
    proof {
        fat_name::lemma_last_dot(base, base.len() as int);
    }
    let ext_len: usize = if d < seg.len() {
        seg.len() - d - 1
    } else {
        0
    };
    if d == 0 || d > 8 || ext_len > 3 {
        return None;
    }
    let mut out: Vec<u8> = Vec::new();
    let mut k: usize = 0;
    while k < d
        invariant
            k <= d <= seg.len(),
            out@.len() == k,
            forall|j: int| 0 <= j < k ==> out@[j] == bytes::upper(seg@[j]),
        decreases d - k,
    {
        out.push(bytes::ascii_upper(seg[k]));
        k = k + 1;
    }
    if ext_len == 0 {
        assert(out@ =~= base.map_values(|c: u8| bytes::upper(c)));
        return Some(out);
    }
    out.push(0x2E);
    let mut m: usize = d + 1;
    while m < seg.len()
        invariant
            d + 1 <= m <= seg.len(),
            out@.len() == m,
            forall|j: int| 0 <= j < d ==> out@[j] == bytes::upper(seg@[j]),
            out@[d as int] == 0x2E,
            forall|j: int| d + 1 <= j < m ==> out@[j] == bytes::upper(seg@[j]),
        decreases seg.len() - m,
    {
        out.push(bytes::ascii_upper(seg[m]));
        m = m + 1;
    }
    assert(out@ =~= base.map_values(|c: u8| bytes::upper(c)) + seq![0x2Eu8] + ext.map_values(
        |c: u8| bytes::upper(c),
    ));
    Some(out)
}

/// The normal form of an absolute path.
#[verifier::loop_isolation(false)]
pub fn tmp_normalize(p: &[u8]) -> (r: Option<Vec<u8>>)
    ensures
        bytes::opt(r) == normal(p@),
        r matches Some(v) ==> 1 <= v@.len() <= TMP_PATH_MAX,
{
    if p.len() == 0 || p[0] != 0x2F {
        return None;
    }
    let segs: Vec<Vec<u8>> = path::split(p);
    let mut out: Vec<u8> = vec![0x2Fu8];
    assert(out@ =~= seq![0x2Fu8]);
    let mut k: usize = 0;
    let ghost goal = normal(p@);
    while k < segs.len()
        invariant
            k <= segs.len(),
            1 <= out.len() <= TMP_PATH_MAX,
            bytes::deep(segs@) == path::segs(p@),
            norm_segs(path::segs(p@), k as int, out@) == goal,
        decreases segs.len() - k,
    {
        assert(bytes::deep(segs@)[k as int] == segs@[k as int]@);
        let seg: &Vec<u8> = &segs[k];
        let dot: bool = seg.len() == 1 && seg[0] == 0x2E;
        let dotdot: bool = seg.len() == 2 && seg[0] == 0x2E && seg[1] == 0x2E;
        proof {
            assert(dot == (seg@ =~= seq![0x2Eu8]));
            assert(dotdot == (seg@ =~= seq![0x2Eu8, 0x2Eu8]));
        }
        if dot {
        } else if dotdot {
            if out.len() > 1 {
                let at: usize = path::leaf_start(&out);
                out.truncate(
                    if at > 1 {
                        at - 1
                    } else {
                        1
                    },
                );
            }
        } else {
            let mut comp: Vec<u8> = match tmp_norm_component(seg) {
                Some(c) => c,
                None => {
                    return None;
                },
            };
            let ghost want = path::push_segment(out@, comp@);
            if out.len() > 1 {
                if out.len() + 1 > TMP_PATH_MAX {
                    return None;
                }
                out.push(0x2F);
            }
            if out.len() + comp.len() > TMP_PATH_MAX {
                return None;
            }
            out.append(&mut comp);
            assert(out@ =~= want);
        }
        k = k + 1;
    }
    Some(out)
}

/// The directory that a path lies in.
pub fn tmp_parent(p: &[u8]) -> (r: Vec<u8>)
    ensures
        r@ == path::parent_of(p@),
{
    let n: usize = path::leaf_start(p);
    let mut m: usize = n;
    while m > 1 && p[m - 1] == 0x2F
        invariant
            m <= n <= p.len(),
            path::before_slashes(p@, m as int) == path::before_slashes(p@, n as int),
        decreases m,
    {
        m = m - 1;
    }
    bytes::slice_copy(p, 0, m)
}

/// The eleven-byte name of a path's last segment.
pub fn tmp_name_83(p: &[u8]) -> (r: Vec<u8>)
    ensures
        r@ == name_83(p@),
{
    let k: usize = path::leaf_start(p);
    let seg: Vec<u8> = bytes::slice_copy(p, k, p.len());
    tmp_seg_83(&seg)
}

/// The eleven-byte name of a segment.
pub fn tmp_seg_83(seg: &Vec<u8>) -> (r: Vec<u8>)
    ensures
        r@ == seg_83(seg@),
        r@.len() == 11,
{
    let mut dot: usize = 0;
    while dot < seg.len() && seg[dot] != 0x2E
        invariant
            dot <= seg.len(),
            first_dot(seg@, dot as int) == first_dot(seg@, 0),
        decreases seg.len() - dot,
    {
        dot = dot + 1;
    }
    let mut out: Vec<u8> = Vec::new();
    let mut i: usize = 0;
    while i < 11
        invariant
            i <= 11,
            dot <= seg.len(),
            dot == first_dot(seg@, 0),
            out@ =~= seg_83(seg@).subrange(0, i as int),
        decreases 11 - i,
    {
        let c: u8 = if i < 8 {
            if i < dot {
                seg[i]
            } else {
                0x20
            }
        } else if dot < seg.len() && i - 8 < seg.len() - dot - 1 {
            seg[dot + 1 + (i - 8)]
        } else {
            0x20
        };
        out.push(c);
        i = i + 1;
    }
    assert(seg_83(seg@).subrange(0, 11) =~= seg_83(seg@));
    out
}

/// A slot of the node table; the contents of a file lie in the data area.
pub struct TmpNode {
    pub used: bool,
    pub is_dir: bool,
    pub path: Vec<u8>,
    /// Bytes of the file.
    pub size: usize,
    /// Where they start.
    pub data_off: usize,
}

/// The in-memory file service.
pub struct Tmpfs {
    pub nodes: Vec<TmpNode>,
    pub fds: Vec<Option<usize>>,
    pub data: Vec<u8>,
    pub data_used: usize,
}

impl Tmpfs {
    /// Node `i`, with its contents taken from the data area.
    pub open spec fn node_view(&self, i: int) -> TmpNodeView {
        let n = self.nodes@[i];
        TmpNodeView {
            used: n.used,
            is_dir: n.is_dir,
            path: n.path@,
            content: self.data@.subrange(n.data_off as int, n.data_off + n.size),
        }
    }

    pub open spec fn view(&self) -> TmpView {
        TmpView {
            nodes: Seq::new(self.nodes@.len(), |i: int| self.node_view(i)),
            fds: Seq::new(
                self.fds@.len(),
                |i: int|
                    match self.fds@[i] {
                        Some(n) => Some(n as int),
                        None => None,
                    },
            ),
            space: self.data_used as int,
        }
    }

    /// The contents of the files lie apart in the part of the data area that was given
    /// out; the rest of it is clear.
    pub open spec fn inv(&self) -> bool {
        &&& self.nodes@.len() == TMP_MAX_NODES
        &&& self.fds@.len() == TMP_MAX_FD
        &&& self.data@.len() == TMP_DATA_CAP
        &&& self.data_used <= TMP_DATA_CAP
        &&& forall|i: int|
            0 <= i < self.nodes@.len() ==> (#[trigger] self.nodes@[i]).data_off
                + self.nodes@[i].size <= self.data_used
        &&& forall|i: int, j: int|
            0 <= i < self.nodes@.len() && 0 <= j < self.nodes@.len() && i != j
                && self.nodes@[i].size > 0 && self.nodes@[j].size > 0 ==> (
            #[trigger] self.nodes@[i]).data_off + self.nodes@[i].size <= (
            #[trigger] self.nodes@[j]).data_off || self.nodes@[j].data_off + self.nodes@[j].size
                <= self.nodes@[i].data_off
        &&& forall|k: int| self.data_used <= k < TMP_DATA_CAP ==> self.data@[k] == 0
        &&& forall|i: int|
            0 <= i < self.fds@.len() ==> (#[trigger] self.fds@[i] matches Some(n) ==> n
                < TMP_MAX_NODES)
    }

    /// The service at start: the root directory alone.
    pub fn new() -> (r: Tmpfs)
        ensures
            r.inv(),
            r@ == TmpView::init(),
    {
        let mut nodes: Vec<TmpNode> = Vec::new();
        nodes.push(
            TmpNode { used: true, is_dir: true, path: vec![0x2Fu8], size: 0, data_off: 0 },
        );
        while nodes.len() < TMP_MAX_NODES
            invariant
                1 <= nodes.len() <= TMP_MAX_NODES,
                nodes@[0].used && nodes@[0].is_dir && nodes@[0].path@ =~= seq![0x2Fu8],
                forall|i: int|
                    0 <= i < nodes@.len() ==> (#[trigger] nodes@[i]).size == 0
                        && nodes@[i].data_off == 0,
                forall|i: int|
                    1 <= i < nodes@.len() ==> !(#[trigger] nodes@[i]).used && !nodes@[i].is_dir
                        && nodes@[i].path@ =~= Seq::<u8>::empty(),
            decreases TMP_MAX_NODES - nodes.len(),
        {
            nodes.push(
                TmpNode { used: false, is_dir: false, path: Vec::new(), size: 0, data_off: 0 },
            );
        }
        let mut fds: Vec<Option<usize>> = Vec::new();
        while fds.len() < TMP_MAX_FD
            invariant
                fds.len() <= TMP_MAX_FD,
                forall|i: int| 0 <= i < fds@.len() ==> fds@[i] is None,
            decreases TMP_MAX_FD - fds.len(),
        {
            fds.push(None);
        }
        let r = Tmpfs { nodes, fds, data: bytes::zero_vec(TMP_DATA_CAP), data_used: 0 };
        proof {
            assert forall|i: int| 0 <= i < TMP_MAX_NODES implies r@.nodes[i]
                == TmpView::init().nodes[i] by {
                assert(r@.nodes[i].content =~= Seq::<u8>::empty());
            }
            assert(r@.nodes =~= TmpView::init().nodes);
            assert(r@.fds =~= TmpView::init().fds);
        }
        r
    }

    /// The node with the given path.
    pub fn tmp_find(&self, p: &[u8]) -> (r: Option<usize>)
        requires
            self.inv(),
        ensures
            match r {
                Some(n) => self@.find(p@) == Some(n as int) && n < TMP_MAX_NODES,
                None => self@.find(p@) is None,
            },
    {
        let mut i: usize = 0;
        while i < TMP_MAX_NODES
            invariant
                i <= TMP_MAX_NODES,
                self.inv(),
                find_node(self@.nodes, p@, i as int) == self@.find(p@),
            decreases TMP_MAX_NODES - i,
        {
            assert(self@.nodes[i as int] == self.node_view(i as int));
            if self.nodes[i].used && bytes::bytes_eq(&self.nodes[i].path, p) {
                return Some(i);
            }
            i = i + 1;
        }
        None
    }

    /// Gives node `n` the first free descriptor.
    pub fn tmp_fd_alloc(&mut self, n: usize) -> (r: Reply)
        requires
            old(self).inv(),
            n < TMP_MAX_NODES,
        ensures
            final(self).inv(),
            (final(self)@, r@) == old(self)@.take_fd(n as int),
    {
        let mut i: usize = 0;
        while i < TMP_MAX_FD
            invariant
                i <= TMP_MAX_FD,
                self.inv(),
                n < TMP_MAX_NODES,
                *self == *old(self),
                free_slot(self@.fds, i as int) == free_slot(self@.fds, 0),
            decreases TMP_MAX_FD - i,
        {
            if self.fds[i].is_none() {
                self.fds.set(i, Some(n));
                proof {
                    assert(self@.fds =~= old(self)@.fds.update(i as int, Some(n as int)));
                    assert(self@.nodes =~= old(self)@.nodes);
                }
                return Reply::Value(i as u64);
            }
            i = i + 1;
        }
        Reply::Fail
    }

    /// The node that a descriptor stands for.
    pub fn tmp_fd_node(&self, fd: u32) -> (r: Option<usize>)
        requires
            self.inv(),
        ensures
            match r {
                Some(n) => self@.fd_node(fd) == Some(n as int) && n < TMP_MAX_NODES,
                None => self@.fd_node(fd) is None,
            },
    {
        if fd as usize >= TMP_MAX_FD {
            return None;
        }
        self.fds[fd as usize]
    }

    /// Gives a descriptor back; the answer tells whether it was in use.
    pub fn tmp_fd_free(&mut self, fd: u32) -> (r: Reply)
        requires
            old(self).inv(),
        ensures
            final(self).inv(),
            (final(self)@, r@) == old(self)@.close(fd),
    {
        if fd as usize >= TMP_MAX_FD {
            return Reply::Value(0);
        }
        if self.fds[fd as usize].is_some() {
            self.fds.set(fd as usize, None);
            proof {
                assert(self@.fds =~= old(self)@.fds.update(fd as int, None));
                assert(self@.nodes =~= old(self)@.nodes);
            }
            Reply::Value(1)
        } else {
            Reply::Value(0)
        }
    }

    /// Makes a new, empty node in the first free slot.
    pub fn tmp_alloc_node(&mut self, p: Vec<u8>, is_dir: bool) -> (r: Option<usize>)
        requires
            old(self).inv(),
        ensures
            final(self).inv(),
            final(self)@ == old(self)@.new_node(p@, is_dir).0,
            match r {
                Some(n) => old(self)@.new_node(p@, is_dir).1 == Some(n as int) && n
                    < TMP_MAX_NODES,
                None => old(self)@.new_node(p@, is_dir).1 is None,
            },
    {
        let mut i: usize = 0;
        while i < TMP_MAX_NODES && self.nodes[i].used
            invariant
                i <= TMP_MAX_NODES,
                self.inv(),
                *self == *old(self),
                free_node(self@.nodes, i as int) == free_node(self@.nodes, 0),
            decreases TMP_MAX_NODES - i,
        {
            i = i + 1;
        }
        if i == TMP_MAX_NODES {
            return None;
        }
        let ghost want = old(self)@.new_node(p@, is_dir).0;
        self.nodes.set(i, TmpNode { used: true, is_dir, path: p, size: 0, data_off: 0 });
        proof {
            assert forall|j: int| 0 <= j < TMP_MAX_NODES implies self@.nodes[j] == want.nodes[j] by {
                if j == i {
                    assert(self@.nodes[j].content =~= Seq::<u8>::empty());
                } else {
                    assert(self.node_view(j) == old(self).node_view(j));
                }
            }
            assert(self@.nodes =~= want.nodes);
            assert(self@.fds =~= want.fds);
        }
        Some(i)
    }

    /// Whether no node lies in directory `dir`.
    pub fn tmp_dir_empty(&self, dir: &[u8]) -> (r: bool)
        requires
            self.inv(),
        ensures
            r == self@.dir_empty(dir@),
    {
        let mut i: usize = 0;
        while i < TMP_MAX_NODES
            invariant
                i <= TMP_MAX_NODES,
                self.inv(),
                forall|j: int| 0 <= j < i ==> !is_child(#[trigger] self@.nodes[j], dir@),
            decreases TMP_MAX_NODES - i,
        {
            assert(self@.nodes[i as int] == self.node_view(i as int));
            if self.nodes[i].used && !bytes::bytes_eq(&self.nodes[i].path, dir) {
                let parent: Vec<u8> = tmp_parent(&self.nodes[i].path);
                if bytes::bytes_eq(&parent, dir) {
                    assert(is_child(self@.nodes[i as int], dir@));
                    return false;
                }
            }
            i = i + 1;
        }
        true
    }

    fn do_read(&self, fd: u32, offset: u64, count: u32) -> (r: Reply)
        requires
            self.inv(),
        ensures
            r@ == self@.read(fd, offset, count),
    {
        if offset > u32::MAX as u64 {
            return Reply::Fail;
        }
        match self.tmp_fd_node(fd) {
            None => Reply::Fail,
            Some(n) => {
                let nd: &TmpNode = &self.nodes[n];
                assert(self@.nodes[n as int] == self.node_view(n as int));
                if nd.is_dir {
                    return Reply::Fail;
                }
                if offset >= nd.size as u64 {
                    let none: Vec<u8> = Vec::new();
                    assert(none@ =~= Seq::<u8>::empty());
                    return Reply::Data(none);
                }
                let at: usize = offset as usize;
                let cnt: usize = if (count as u64) < nd.size as u64 - offset {
                    count as usize
                } else {
                    nd.size - at
                };
                let d: Vec<u8> = bytes::slice_copy(
                    &self.data,
                    nd.data_off + at,
                    nd.data_off + at + cnt,
                );
                assert(d@ =~= self@.nodes[n as int].content.subrange(at as int, at + cnt));
                Reply::Data(d)
            },
        }
    }

    /// Reserves `need` bytes of the data area.
    fn tmp_data_alloc(&mut self, need: u64) -> (r: Option<usize>)
        requires
            old(self).inv(),
        ensures
            final(self).nodes == old(self).nodes,
            final(self).fds == old(self).fds,
            final(self).data == old(self).data,
            match r {
                Some(o) => o == old(self).data_used && old(self).data_used + need <= TMP_DATA_CAP
                    && final(self).data_used == old(self).data_used + need,
                None => old(self).data_used + need > TMP_DATA_CAP && *final(self) == *old(self),
            },
    {
        if need > (TMP_DATA_CAP - self.data_used) as u64 {
            return None;
        }
        let o: usize = self.data_used;
        self.data_used = o + need as usize;
        Some(o)
    }

    fn do_write(&mut self, fd: u32, offset: u64, data: &Vec<u8>) -> (r: Reply)
        requires
            old(self).inv(),
            data.len() <= u32::MAX,
        ensures
            final(self).inv(),
            (final(self)@, r@) == old(self)@.write(fd, offset, data@),
    {
        if offset > u32::MAX as u64 {
            return Reply::Fail;
        }
        let n: usize = match self.tmp_fd_node(fd) {
            None => {
                return Reply::Fail;
            },
            Some(n) => n,
        };
        let ghost s0 = *self;
        let ghost nd0 = self.node_view(n as int);
        assert(self@.nodes[n as int] == nd0);
        if self.nodes[n].is_dir {
            return Reply::Fail;
        }
        let end: u64 = offset + data.len() as u64;
        let size: usize = self.nodes[n].size;
        let mut off: usize = self.nodes[n].data_off;
        let mut new_size: usize = size;
        if end > size as u64 {
            match self.tmp_data_alloc(end) {
                None => {
                    return Reply::Fail;
                },
                Some(o) => {
                    let moved: Vec<u8> = bytes::slice_copy(&self.data, off, off + size);
                    bytes::copy_into(&mut self.data, o, &moved, 0, size);
                    off = o;
                    new_size = end as usize;
                },
            }
        }
        bytes::copy_into(&mut self.data, off + offset as usize, data, 0, data.len());
        let path: Vec<u8> = vstd::slice::slice_to_vec(self.nodes[n].path.as_slice());
        let used: bool = self.nodes[n].used;
        self.nodes.set(n, TmpNode { used, is_dir: false, path, size: new_size, data_off: off });
        proof {
            let want = s0@.write(fd, offset, data@).0;
            assert(data@.subrange(0, data@.len() as int) =~= data@);
            assert forall|j: int| 0 <= j < TMP_MAX_NODES implies self@.nodes[j] == want.nodes[j] by {
                assert(self@.nodes[j] == self.node_view(j));
                assert(s0@.nodes[j] == s0.node_view(j));
                if j == n {
                    assert(self@.nodes[j].content =~= overwritten(
                        nd0.content,
                        offset as int,
                        data@,
                    ));
                } else {
                    let a = s0.nodes@[j];
                    let b = s0.nodes@[n as int];
                    assert(self.nodes@[j] == a);
                    assert(self@.nodes[j].content =~= s0@.nodes[j].content);
                }
            }
            assert(self@.nodes =~= want.nodes);
            assert(self@.fds =~= want.fds);
        }
        Reply::Value(data.len() as u64)
    }

    #[verifier::loop_isolation(false)]
    fn do_readdir(&self, fd: u32) -> (r: Reply)
        requires
            self.inv(),
        ensures
            r@ == self@.readdir(fd),
    {
        let n: usize = match self.tmp_fd_node(fd) {
            None => {
                return Reply::Fail;
            },
            Some(n) => n,
        };
        assert(self@.nodes[n as int] == self.node_view(n as int));
        if !self.nodes[n].is_dir {
            return Reply::Fail;
        }
        let dir: &Vec<u8> = &self.nodes[n].path;
        let mut out: Vec<DirEntry> = Vec::new();
        let mut i: usize = 0;
        let ghost goal = list_nodes(self@.nodes, dir@, 0, Seq::empty());
        assert(vfs::entries_view(out@) =~= Seq::empty());
        while i < TMP_MAX_NODES
            invariant
                i <= TMP_MAX_NODES,
                out.len() <= RESULT_MAX_ENTRIES,
                list_nodes(self@.nodes, dir@, i as int, vfs::entries_view(out@)) == goal,
            decreases TMP_MAX_NODES - i,
        {
            let child: &TmpNode = &self.nodes[i];
            assert(self@.nodes[i as int] == self.node_view(i as int));
            let inside: bool = child.used && !bytes::bytes_eq(&child.path, dir) && bytes::bytes_eq(
                &tmp_parent(&child.path),
                dir,
            );
            if inside {
                if out.len() >= RESULT_MAX_ENTRIES {
                    return Reply::Entries(out);
                }
                let size: u64 = if child.is_dir {
                    0
                } else {
                    child.size as u64
                };
                let rec = DirEntry::plain(tmp_name_83(&child.path), Vec::new(), size, child.is_dir);
                let ghost before = out@;
                assert(rec@ =~= record_of(self@.nodes[i as int]));
                out.push(rec);
                assert(vfs::entries_view(out@) =~= vfs::entries_view(before).push(rec@));
            }
            i = i + 1;
        }
        Reply::Entries(out)
    }

    /// Whether the parent of `c` is a directory.
    fn parent_is_dir(&self, c: &[u8]) -> (r: bool)
        requires
            self.inv(),
        ensures
            r == self@.has_parent(c@),
    {
        let parent: Vec<u8> = tmp_parent(c);
        match self.tmp_find(&parent) {
            None => false,
            Some(n) => {
                assert(self@.nodes[n as int] == self.node_view(n as int));
                self.nodes[n].is_dir
            },
        }
    }

    fn do_open(&mut self, p: &Vec<u8>) -> (r: Reply)
        requires
            old(self).inv(),
        ensures
            final(self).inv(),
            (final(self)@, r@) == old(self)@.open(p@),
    {
        match tmp_normalize(p) {
            None => Reply::Fail,
            Some(c) => match self.tmp_find(&c) {
                None => Reply::Fail,
                Some(n) => self.tmp_fd_alloc(n),
            },
        }
    }

    fn do_creat(&mut self, p: &Vec<u8>) -> (r: Reply)
        requires
            old(self).inv(),
        ensures
            final(self).inv(),
            (final(self)@, r@) == old(self)@.creat(p@),
    {
        match tmp_normalize(p) {
            None => Reply::Fail,
            Some(c) => match self.tmp_find(&c) {
                Some(n) => {
                    assert(self@.nodes[n as int] == self.node_view(n as int));
                    if self.nodes[n].is_dir {
                        Reply::Fail
                    } else {
                        self.tmp_fd_alloc(n)
                    }
                },
                None => {
                    if !self.parent_is_dir(&c) {
                        return Reply::Fail;
                    }
                    match self.tmp_alloc_node(c, false) {
                        None => Reply::Fail,
                        Some(n) => self.tmp_fd_alloc(n),
                    }
                },
            },
        }
    }

    fn do_mkdir(&mut self, p: &Vec<u8>) -> (r: Reply)
        requires
            old(self).inv(),
        ensures
            final(self).inv(),
            (final(self)@, r@) == old(self)@.mkdir(p@),
    {
        match tmp_normalize(p) {
            None => Reply::Fail,
            Some(c) => {
                if c.len() <= 1 || self.tmp_find(&c).is_some() || !self.parent_is_dir(&c) {
                    return Reply::Fail;
                }
                let ok: bool = self.tmp_alloc_node(c, true).is_some();
                Reply::done(ok)
            },
        }
    }

    /// Takes node `n` out of use.
    fn drop_node(&mut self, n: usize)
        requires
            old(self).inv(),
            n < TMP_MAX_NODES,
        ensures
            final(self).inv(),
            final(self)@ == old(self)@.drop_node(n as int),
    {
        let ghost s0 = *self;
        let is_dir: bool = self.nodes[n].is_dir;
        let size: usize = self.nodes[n].size;
        let data_off: usize = self.nodes[n].data_off;
        let path: Vec<u8> = vstd::slice::slice_to_vec(self.nodes[n].path.as_slice());
        self.nodes.set(n, TmpNode { used: false, is_dir, path, size, data_off });
        proof {
            let want = s0@.drop_node(n as int);
            assert forall|j: int| 0 <= j < TMP_MAX_NODES implies self@.nodes[j] == want.nodes[j] by {
                assert(self@.nodes[j] == self.node_view(j));
                assert(s0@.nodes[j] == s0.node_view(j));
            }
            assert(self@.nodes =~= want.nodes);
            assert(self@.fds =~= want.fds);
        }
    }

    fn do_unlink(&mut self, p: &Vec<u8>) -> (r: Reply)
        requires
            old(self).inv(),
        ensures
            final(self).inv(),
            (final(self)@, r@) == old(self)@.unlink(p@),
    {
        match tmp_normalize(p) {
            None => Reply::Fail,
            Some(c) => match self.tmp_find(&c) {
                None => Reply::Fail,
                Some(n) => {
                    assert(self@.nodes[n as int] == self.node_view(n as int));
                    if self.nodes[n].is_dir {
                        return Reply::Fail;
                    }
                    self.drop_node(n);
                    Reply::Value(1)
                },
            },
        }
    }

    fn do_rmdir(&mut self, p: &Vec<u8>) -> (r: Reply)
        requires
            old(self).inv(),
        ensures
            final(self).inv(),
            (final(self)@, r@) == old(self)@.rmdir(p@),
    {
        match tmp_normalize(p) {
            None => Reply::Fail,
            Some(c) => match self.tmp_find(&c) {
                None => Reply::Fail,
                Some(n) => {
                    assert(self@.nodes[n as int] == self.node_view(n as int));
                    if c.len() <= 1 || !self.nodes[n].is_dir || !self.tmp_dir_empty(&c) {
                        return Reply::Fail;
                    }
                    self.drop_node(n);
                    Reply::Value(1)
                },
            },
        }
    }

    fn do_stat(&self, p: &Vec<u8>) -> (r: Reply)
        requires
            self.inv(),
        ensures
            r@ == self@.stat(p@),
    {
        match tmp_normalize(p) {
            None => Reply::Fail,
            Some(c) => match self.tmp_find(&c) {
                None => Reply::Fail,
                Some(n) => {
                    assert(self@.nodes[n as int] == self.node_view(n as int));
                    Reply::StatOf(Stat::plain(self.nodes[n].size as u64, self.nodes[n].is_dir))
                },
            },
        }
    }

    /// Serves one request.
    pub fn serve(&mut self, req: &Request) -> (r: Reply)
        requires
            old(self).inv(),
            req matches Request::Write { data, .. } ==> data.len() <= u32::MAX,
        ensures
            final(self).inv(),
            (final(self)@, r@) == old(self)@.serve(*req),
    {
        match req {
            Request::Open { path } => self.do_open(path),
            Request::Read { fd, offset, count } => self.do_read(*fd, *offset, *count),
            Request::Write { fd, offset, data } => self.do_write(*fd, *offset, data),
            Request::Readdir { fd } => self.do_readdir(*fd),
            Request::Close { fd } => self.tmp_fd_free(*fd),
            Request::Creat { path } => self.do_creat(path),
            Request::Mkdir { path } => self.do_mkdir(path),
            Request::Unlink { path } => self.do_unlink(path),
            Request::Rmdir { path } => self.do_rmdir(path),
            Request::Stat { path } => self.do_stat(path),
            _ => Reply::Fail,
        }
    }
}

} // verus!
