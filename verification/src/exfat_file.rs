//! exFAT: paths, and reading, writing, resizing, creating and removing files.
//!
//! Files that this module makes or changes are chains in the table; a file of contiguous
//! clusters is turned into one when it changes. A file is created by preparing its
//! clusters first and writing its set last; it is removed the other way round.
use vstd::prelude::*;

use crate::bytes;
use crate::exfat;
use crate::exfat::{Exfat, ExfatView, EXFAT_FAT_EOC};
use crate::exfat_dir;
use crate::exfat_dir::{EntryView, ExfatEntry, ExfatLoc};
use crate::path;
use crate::vfs;
use crate::vfs::{DirEntry, DirEntryView, PAYLOAD_LEN, RESULT_MAX_ENTRIES};

verus! {

/// The path of the parent directory and the last name of an absolute path. Paths that are
/// too long, the root, and the names `.` and `..` have none.
pub open spec fn split_of(p: Seq<u8>) -> Option<(Seq<u8>, Seq<u8>)> {
    let t = p.subrange(0, path::before_slashes(p, p.len() as int));
    let i = path::after_slash(t, t.len() as int);
    let name = t.subrange(i, t.len() as int);
    if p.len() == 0 || p[0] != 0x2F || p.len() > PAYLOAD_LEN || t.len() <= 1 || name.len() == 0
        || name == seq![0x2Eu8] || name == seq![0x2Eu8, 0x2E] {
        None
    } else if i <= 1 {
        Some((seq![0x2Fu8], name))
    } else {
        Some((t.subrange(0, i - 1), name))
    }
}

/// `a / b`, rounded up.
pub open spec fn div_up(a: int, b: int) -> int {
    (a + b - 1) / b
}

/// The smaller of two numbers.
pub open spec fn min_of(a: int, b: int) -> int {
    if a <= b {
        a
    } else {
        b
    }
}

/// The larger of two numbers.
pub open spec fn max_of(a: int, b: int) -> int {
    if a >= b {
        a
    } else {
        b
    }
}

impl ExfatView {
    /// The root directory, which no set describes.
    pub open spec fn root_entry(self) -> EntryView {
        EntryView {
            is_dir: true,
            contiguous: false,
            first: self.geo.root,
            size: 0,
            valid: 0,
            mtime: 0,
            name: Seq::empty(),
        }
    }

    /// What the rest of a path from position `i` on names, below `cur`. A name that a slash
    /// follows must be that of a directory.
    pub open spec fn walk(self, p: Seq<u8>, i: int, cur: EntryView) -> Option<EntryView>
        decreases p.len() - i,
    {
        if i < 0 || i >= p.len() {
            Some(cur)
        } else {
            proof {
                path::lemma_seg_end(p, i);
            }
            let j = path::seg_end(p, i);
            let next = if j < p.len() {
                j + 1
            } else {
                j
            };
            if next <= i {
                None
            } else if j == i || p.subrange(i, j) == seq![0x2Eu8] {
                self.walk(p, next, cur)
            } else if !cur.is_dir {
                None
            } else {
                match self.lookup(cur.first, p.subrange(i, j)) {
                    None => None,
                    Some(e) => if j < p.len() && !e.is_dir {
                        None
                    } else {
                        self.walk(p, next, e)
                    },
                }
            }
        }
    }

    /// What an absolute path names.
    #[verifier::opaque]
    pub open spec fn resolve(self, p: Seq<u8>) -> Option<EntryView> {
        if p.len() == 0 || p[0] != 0x2F {
            None
        } else {
            self.walk(p, 1, self.root_entry())
        }
    }

    /// The first cluster of the directory that an absolute path names.
    pub open spec fn dir_of(self, p: Seq<u8>) -> Option<u32> {
        match self.resolve(p) {
            Some(e) => if e.is_dir {
                Some(e.first)
            } else {
                None
            },
            None => None,
        }
    }

    /// The directory that holds a path's file, and the file's name.
    #[verifier::opaque]
    pub open spec fn home_of(self, p: Seq<u8>) -> Option<(u32, Seq<u8>)> {
        match split_of(p) {
            None => None,
            Some((parent, name)) => match self.dir_of(parent) {
                None => None,
                Some(d) => Some((d, name)),
            },
        }
    }

    /// How many bytes from `pos` on, before `end`, lie in one cluster.
    pub open spec fn span(self, pos: int, end: int) -> int {
        min_of(end - pos, self.geo.cb() - pos % self.geo.cb())
    }

    /// The bytes of a file from `pos` on up to `end` or the end of a cluster. What was never
    /// written reads as zeros.
    #[verifier::opaque]
    pub open spec fn read_part(self, e: EntryView, pos: int, end: int) -> Option<Seq<u8>> {
        let n = self.span(pos, end);
        let boff = pos % self.geo.cb();
        match self.cluster_at(e.first, e.contiguous, pos / self.geo.cb()) {
            None => Some(bytes::zeros(n)),
            Some(cl) => if pos >= e.valid {
                Some(bytes::zeros(n))
            } else {
                match self.rd_cl(cl) {
                    None => None,
                    Some(b) => {
                        let keep = min_of(n, e.valid - pos);
                        Some(b.subrange(boff, boff + keep) + bytes::zeros(n - keep))
                    },
                }
            },
        }
    }

    /// Bytes `pos` to `end - 1` of a file.
    pub open spec fn read_from(self, e: EntryView, pos: int, end: int) -> Option<Seq<u8>>
        decreases end - pos,
    {
        if pos >= end || self.geo.spc == 0 {
            Some(Seq::empty())
        } else {
            match self.read_part(e, pos, end) {
                None => None,
                Some(d) => match self.read_from(e, pos + self.span(pos, end), end) {
                    None => None,
                    Some(rest) => Some(d + rest),
                },
            }
        }
    }

    /// At most `count` bytes of a file from `offset` on.
    pub open spec fn read_file(self, e: EntryView, offset: u32, count: u32) -> Option<Seq<u8>> {
        if e.is_dir {
            None
        } else if offset >= e.size {
            Some(Seq::empty())
        } else {
            self.read_from(e, offset as int, min_of(offset + count, e.size as int))
        }
    }

    /// The listing of a directory.
    pub open spec fn readdir(self, dir: u32) -> Option<Seq<DirEntryView>> {
        let (v, ok) = self.sets_from(dir, 0, RESULT_MAX_ENTRIES as int, Seq::empty());
        if ok {
            Some(Seq::new(v.len(), |i: int| exfat_dir::record_of(v[i])))
        } else {
            None
        }
    }

    /// Clusters of a file.
    pub open spec fn clusters_of(self, e: EntryView) -> u32 {
        if e.contiguous {
            bytes::w32(div_up(e.size as int, self.geo.cb()))
        } else {
            self.chain_len(e.first, 0) as u32
        }
    }

    /// Clusters number `idx` to `n - 1` of a chain cleared.
    pub open spec fn clear_from(self, first: u32, idx: int, n: int) -> (ExfatView, bool)
        decreases n - idx,
    {
        if idx >= n {
            (self, true)
        } else {
            match self.nth(first, idx) {
                None => (self, false),
                Some(cl) => {
                    let (s, ok) = self.wr_cl(cl, bytes::zeros(self.geo.cb()));
                    if ok {
                        s.clear_from(first, idx + 1, n)
                    } else {
                        (s, false)
                    }
                },
            }
        }
    }

    /// The bytes of `data` from `done` on written into a chain, `data` being written at
    /// `offset`.
    pub open spec fn fill_from(self, first: u32, offset: int, data: Seq<u8>, done: int) -> (
        ExfatView,
        bool,
    )
        decreases data.len() - done,
    {
        if done >= data.len() || self.geo.spc == 0 {
            (self, true)
        } else {
            let cb = self.geo.cb();
            let pos = offset + done;
            let boff = pos % cb;
            let n = min_of(cb - boff, data.len() - done);
            match self.nth(first, pos / cb) {
                None => (self, false),
                Some(cl) => match self.rd_cl(cl) {
                    None => (self, false),
                    Some(b) => {
                        let (s, ok) = self.wr_cl(
                            cl,
                            bytes::splice(b, boff, data.subrange(done, done + n)),
                        );
                        if ok {
                            s.fill_from(first, offset, data, done + n)
                        } else {
                            (s, false)
                        }
                    },
                },
            }
        }
    }

    /// A file made to have at least `need` clusters, those that are new cleared: its first
    /// cluster, and how many it has now.
    #[verifier::opaque]
    pub open spec fn reserve(self, e: EntryView, need: u32) -> (ExfatView, Option<(u32, u32)>) {
        let have = self.clusters_of(e);
        match self.grow_to(e.first, e.contiguous, have, need) {
            (s, None) => (s, None),
            (s, Some((first, n))) => {
                let (t, ok) = s.clear_from(first, min_of(have as int, n as int), n as int);
                if ok {
                    (t, Some((first, n)))
                } else {
                    (t, None)
                }
            },
        }
    }

    /// What a changed file's set says.
    pub open spec fn changed(self, e: EntryView, first: u32, size: u64, valid: u64) -> EntryView {
        EntryView {
            is_dir: e.is_dir,
            contiguous: false,
            first,
            size,
            valid,
            mtime: self.now,
            name: Seq::empty(),
        }
    }

    /// Bytes `from` to `to - 1` of a chain cleared.
    pub open spec fn clear_gap(self, first: u32, from: int, to: int) -> (ExfatView, bool) {
        if from >= to {
            (self, true)
        } else {
            self.fill_from(first, from, bytes::zeros(to - from), 0)
        }
    }

    /// `data` written at `offset` of the file `name` of directory `dir`. What its clusters held
    /// between the end of what was ever written and the offset is cleared.
    #[verifier::opaque]
    pub open spec fn write_file(
        self,
        e: EntryView,
        dir: u32,
        name: Seq<u8>,
        offset: u32,
        data: Seq<u8>,
    ) -> (ExfatView, Option<u64>) {
        if e.is_dir || data.len() == 0 {
            (self, Some(0))
        } else {
            let end = offset + data.len();
            let size = max_of(end, e.size as int);
            match self.reserve(e, bytes::w32(div_up(size, self.geo.cb()))) {
                (s, None) => (s, None),
                (s, Some((first, n))) => {
                    let held = self.clusters_of(e) * self.geo.cb();
                    let (g, clear) = s.clear_gap(
                        first,
                        e.valid as int,
                        min_of(offset as int, held),
                    );
                    let (t, ok) = if clear {
                        g.fill_from(first, offset as int, data, 0)
                    } else {
                        (g, false)
                    };
                    if !ok {
                        (t, None)
                    } else {
                        let valid = min_of(max_of(e.valid as int, end), size);
                        let (u, done) = t.rewrite_set(
                            dir,
                            name,
                            t.changed(e, first, size as u64, valid as u64),
                        );
                        if done {
                            (u, Some(data.len() as u64))
                        } else {
                            (u, None)
                        }
                    }
                },
            }
        }
    }

    /// A chain of `n` clusters cut to its first `need`, the others freed.
    #[verifier::opaque]
    pub open spec fn cut_chain(self, first: u32, n: u32, need: u32) -> (ExfatView, bool) {
        if n <= need {
            (self, true)
        } else {
            match self.nth(first, need - 1) {
                None => (self, false),
                Some(tail) => match self.fat_get(tail) {
                    None => (self, false),
                    Some(next) => {
                        let (s, ok) = self.fat_set(tail, EXFAT_FAT_EOC);
                        if ok && next >= 2 && !exfat::is_end(next) {
                            s.free_chain(next, false, 0)
                        } else {
                            (s, ok)
                        }
                    },
                },
            }
        }
    }

    /// The file `name` of directory `dir` made `size` bytes long.
    #[verifier::opaque]
    pub open spec fn truncate(self, e: EntryView, dir: u32, name: Seq<u8>, size: u32) -> (
        ExfatView,
        Option<u64>,
    ) {
        let need = div_up(size as int, self.geo.cb()) as u32;
        if e.is_dir {
            (self, None)
        } else if need == 0 {
            let (s, ok) = self.free_chain(e.first, e.contiguous, self.clusters_of(e));
            if !ok {
                (s, None)
            } else {
                let (t, done) = s.rewrite_set(dir, name, s.changed(e, 0, 0, 0));
                if done {
                    (t, Some(0))
                } else {
                    (t, None)
                }
            }
        } else {
            match self.reserve(e, need) {
                (s, None) => (s, None),
                (s, Some((first, n))) => {
                    let (t, ok) = s.cut_chain(first, n, need);
                    if !ok {
                        (t, None)
                    } else {
                        let valid = min_of(e.valid as int, size as int);
                        let (u, done) = t.rewrite_set(
                            dir,
                            name,
                            t.changed(e, first, size as u64, valid as u64),
                        );
                        if done {
                            (u, Some(size as u64))
                        } else {
                            (u, None)
                        }
                    }
                },
            }
        }
    }

    /// A set for a new file or directory put into directory `dir`.
    #[verifier::opaque]
    pub open spec fn add_set(self, dir: u32, name: Seq<u8>, is_dir: bool, first: u32) -> (
        ExfatView,
        bool,
    ) {
        let e = EntryView {
            is_dir,
            contiguous: false,
            first,
            size: 0,
            valid: 0,
            mtime: self.now,
            name: Seq::empty(),
        };
        match self.build_set(name, e) {
            None => (self, false),
            Some(set) => match self.make_room(dir, set.len() as int / 32) {
                (s, None) => (s, false),
                (s, Some((cl, i))) => s.put_set(cl, i, set),
            },
        }
    }

    /// A new file or directory at a path that names nothing.
    #[verifier::opaque]
    pub open spec fn make(self, p: Seq<u8>, is_dir: bool) -> (ExfatView, bool) {
        match self.home_of(p) {
            None => (self, false),
            Some((dir, name)) => if is_dir {
                match self.alloc_clear() {
                    (s, None) => (s, false),
                    (s, Some(cl)) => s.add_set(dir, name, true, cl),
                }
            } else {
                self.add_set(dir, name, false, 0)
            },
        }
    }

    /// A file, or (`is_dir`) an empty directory, removed.
    #[verifier::opaque]
    pub open spec fn remove(self, p: Seq<u8>, is_dir: bool) -> (ExfatView, bool) {
        match self.home_of(p) {
            None => (self, false),
            Some((dir, name)) => match self.locate(dir, name) {
                None => (self, false),
                Some((cl, i, sec, e)) => if e.is_dir != is_dir || (e.is_dir && self.sets_from(
                    e.first,
                    0,
                    1,
                    Seq::empty(),
                ).0.len() != 0) {
                    (self, false)
                } else {
                    let (s, ok) = self.del_set(cl, i, 1 + sec);
                    if ok && e.first >= 2 {
                        s.free_chain(e.first, e.contiguous, s.clusters_of(e))
                    } else {
                        (s, ok)
                    }
                },
            },
        }
    }
}

/// Parent directory and last name of an absolute path.
pub fn exfat_split_parent(p: &Vec<u8>) -> (r: Option<(Vec<u8>, Vec<u8>)>)
    ensures
        match (r, split_of(p@)) {
            (Some((d, n)), Some((d2, n2))) => d@ == d2 && n@ == n2,
            (None, None) => true,
            _ => false,
        },
{
    if p.len() == 0 || p[0] != 0x2F || p.len() > PAYLOAD_LEN {
        return None;
    }
    let mut end: usize = p.len();
    while end > 1 && p[end - 1] == 0x2F
        invariant
            end <= p.len(),
            path::before_slashes(p@, end as int) == path::before_slashes(p@, p@.len() as int),
        decreases end,
    {
        end = end - 1;
    }
    if end <= 1 {
        return None;
    }
    let t: Vec<u8> = bytes::slice_copy(p, 0, end);
    let i: usize = path::leaf_start(&t);
    let name: Vec<u8> = bytes::slice_copy(&t, i, t.len());
    let dot: bool = name.len() == 1 && name[0] == 0x2E;
    let dots: bool = name.len() == 2 && name[0] == 0x2E && name[1] == 0x2E;
    assert(dot == (name@ =~= seq![0x2Eu8]));
    assert(dots == (name@ =~= seq![0x2Eu8, 0x2E]));
    if name.len() == 0 || dot || dots {
        return None;
    }
    if i <= 1 {
        let root: Vec<u8> = vec![0x2F];
        assert(root@ =~= seq![0x2Fu8]);
        Some((root, name))
    } else {
        Some((bytes::slice_copy(&t, 0, i - 1), name))
    }
}

/// `a / b`, rounded up, to 32 bits.
fn blocks_for(a: u64, b: u32) -> (r: u32)
    requires
        b > 0,
    ensures
        r == bytes::w32(div_up(a as int, b as int)),
{
    let q: u128 = (a as u128 + b as u128 - 1) / b as u128;
    (q % 0x1_0000_0000) as u32
}

impl Exfat {
    /// The root directory.
    fn root_entry(&self) -> (r: ExfatEntry)
        ensures
            r@ == self@.root_entry(),
    {
        let e = ExfatEntry {
            is_dir: true,
            contiguous: false,
            first: self.geo.root,
            size: 0,
            valid: 0,
            mtime: 0,
            name: Vec::new(),
        };
        assert(e@ =~= self@.root_entry());
        e
    }

    /// What an absolute path names.
    #[verifier::loop_isolation(false)]
    pub fn exfat_resolve(&self, p: &Vec<u8>) -> (r: Option<ExfatEntry>)
        requires
            self.inv(),
        ensures
            match r {
                Some(e) => self@.resolve(p@) == Some(e@),
                None => self@.resolve(p@) is None,
            },
    {
        proof {
            reveal(ExfatView::resolve);
        }
        if p.len() == 0 || p[0] != 0x2F {
            return None;
        }
        let mut cur: ExfatEntry = self.root_entry();
        let ghost goal = self@.resolve(p@);
        let mut i: usize = 1;
        while i < p.len()
            invariant
                1 <= i <= p.len(),
                self@.walk(p@, i as int, cur@) == goal,
            decreases p.len() - i,
        {
            proof {
                path::lemma_seg_end(p@, i as int);
            }
            let start: usize = i;
            while i < p.len() && p[i] != 0x2F
                invariant
                    start <= i <= p.len(),
                    path::seg_end(p@, i as int) == path::seg_end(p@, start as int),
                decreases p.len() - i,
            {
                i = i + 1;
            }
            let comp: Vec<u8> = bytes::slice_copy(p, start, i);
            let sep: bool = i < p.len();
            if sep {
                i = i + 1;
            }
            let dot: bool = comp.len() == 1 && comp[0] == 0x2E;
            assert(dot == (comp@ =~= seq![0x2Eu8]));
            if comp.len() != 0 && !dot {
                if !cur.is_dir {
                    return None;
                }
                match self.exfat_dir_lookup(cur.first, &comp) {
                    None => {
                        return None;
                    },
                    Some(e) => {
                        if sep && !e.is_dir {
                            return None;
                        }
                        cur = e;
                    },
                }
            }
        }
        Some(cur)
    }

    /// The directory that holds a path's file, and the file's name.
    pub fn home_of(&self, p: &Vec<u8>) -> (r: Option<(u32, Vec<u8>)>)
        requires
            self.inv(),
        ensures
            match (r, self@.home_of(p@)) {
                (Some((d, n)), Some((d2, n2))) => d == d2 && n@ == n2,
                (None, None) => true,
                _ => false,
            },
    {
        proof {
            reveal(ExfatView::home_of);
        }
        match exfat_split_parent(p) {
            None => None,
            Some((parent, name)) => match self.exfat_resolve(&parent) {
                None => None,
                Some(e) => {
                    if e.is_dir {
                        Some((e.first, name))
                    } else {
                        None
                    }
                },
            },
        }
    }

    /// Reads the bytes of a file from `pos` on up to `end` or the end of a cluster.
    fn read_part(&self, e: &ExfatEntry, pos: u64, end: u64) -> (r: Option<Vec<u8>>)
        requires
            self.inv(),
            pos < end <= 0x1_FFFF_FFFE,
        ensures
            bytes::opt(r) == self@.read_part(e@, pos as int, end as int),
    {
        proof {
            reveal(ExfatView::read_part);
        }
        let cb: u64 = self.geo.spc as u64 * 512;
        let boff: u64 = pos % cb;
        let n: u64 = if end - pos <= cb - boff {
            end - pos
        } else {
            cb - boff
        };
        let idx: u64 = pos / cb;
        assert(idx <= 0xFFFF_FFFF) by (nonlinear_arith)
            requires
                idx == pos / cb,
                cb >= 1024,
                pos <= 0x1_FFFF_FFFE,
        ;
        if pos >= e.valid {
            return Some(bytes::zero_vec(n as usize));
        }
        match self.exfat_cluster_at(e.first, e.contiguous, idx as u32) {
            None => Some(bytes::zero_vec(n as usize)),
            Some(cl) => match self.exfat_read_cluster(cl) {
                None => None,
                Some(b) => {
                    let keep: u64 = if n <= e.valid - pos {
                        n
                    } else {
                        e.valid - pos
                    };
                    let mut d: Vec<u8> = bytes::slice_copy(
                        &b,
                        boff as usize,
                        (boff + keep) as usize,
                    );
                    let mut z: Vec<u8> = bytes::zero_vec((n - keep) as usize);
                    d.append(&mut z);
                    Some(d)
                },
            },
        }
    }

    /// Reads from a file.
    #[verifier::loop_isolation(false)]
    pub fn exfat_read_file(&self, e: &ExfatEntry, offset: u32, count: u32) -> (r: Option<Vec<u8>>)
        requires
            self.inv(),
        ensures
            bytes::opt(r) == self@.read_file(e@, offset, count),
    {
        if e.is_dir {
            return None;
        }
        let mut out: Vec<u8> = Vec::new();
        if offset as u64 >= e.size {
            assert(out@ =~= Seq::empty());
            return Some(out);
        }
        let whole: u64 = offset as u64 + count as u64;
        let end: u64 = if whole <= e.size {
            whole
        } else {
            e.size
        };
        let cb: u64 = self.geo.spc as u64 * 512;
        let ghost goal = self@.read_from(e@, offset as int, end as int);
        let mut pos: u64 = offset as u64;
        while pos < end
            invariant
                pos <= end,
                match self@.read_from(e@, pos as int, end as int) {
                    None => goal is None,
                    Some(rest) => goal == Some(out@ + rest),
                },
            decreases end - pos,
        {
            let mut part: Vec<u8> = match self.read_part(e, pos, end) {
                None => {
                    return None;
                },
                Some(d) => d,
            };
            let boff: u64 = pos % cb;
            let n: u64 = if end - pos <= cb - boff {
                end - pos
            } else {
                cb - boff
            };
            let ghost d = part@;
            let ghost before = out@;
            out.append(&mut part);
            pos = pos + n;
            proof {
                match self@.read_from(e@, pos as int, end as int) {
                    None => {},
                    Some(rest) => {
                        assert(before + (d + rest) =~= out@ + rest);
                    },
                }
            }
        }
        assert(out@ + Seq::empty() =~= out@);
        Some(out)
    }

    /// Lists a directory.
    #[verifier::loop_isolation(false)]
    pub fn exfat_readdir(&self, dir: u32) -> (r: Option<Vec<DirEntry>>)
        requires
            self.inv(),
        ensures
            match r {
                Some(v) => self@.readdir(dir) == Some(vfs::entries_view(v@)),
                None => self@.readdir(dir) is None,
            },
    {
        let (v, ok): (Vec<ExfatEntry>, bool) = self.exfat_dir_scan(dir, RESULT_MAX_ENTRIES);
        if !ok {
            return None;
        }
        let ghost sets = exfat_dir::entries(v@);
        let mut out: Vec<DirEntry> = Vec::new();
        let mut i: usize = 0;
        while i < v.len()
            invariant
                i <= v.len(),
                vfs::entries_view(out@) =~= Seq::new(
                    i as nat,
                    |k: int| exfat_dir::record_of(sets[k]),
                ),
            decreases v.len() - i,
        {
            let e: DirEntry = exfat_dir::exfat_make_direntry(&v[i]);
            assert(sets[i as int] == v@[i as int]@);
            let ghost before = out@;
            out.push(e);
            assert(vfs::entries_view(out@) =~= vfs::entries_view(before).push(e@));
            i = i + 1;
        }
        Some(out)
    }

    /// Clusters of a file.
    pub fn exfat_entry_clusters(&self, e: &ExfatEntry) -> (r: u32)
        requires
            self.inv(),
        ensures
            r == self@.clusters_of(e@),
    {
        if e.contiguous {
            blocks_for(e.size, self.geo.spc * 512)
        } else {
            self.chain_len(e.first)
        }
    }

    /// Clears clusters of a chain.
    #[verifier::loop_isolation(false)]
    fn clear_from(&mut self, first: u32, from: u32, n: u32) -> (r: bool)
        requires
            old(self).inv(),
        ensures
            final(self).inv(),
            (final(self)@, r) == old(self)@.clear_from(first, from as int, n as int),
            final(self).geo == old(self).geo,
    {
        let ghost goal = old(self)@.clear_from(first, from as int, n as int);
        let z: Vec<u8> = bytes::zero_vec(self.geo.spc as usize * 512);
        let mut idx: u32 = from;
        while idx < n
            invariant
                self.inv(),
                self.geo == old(self).geo,
                z@ == bytes::zeros(self.geo.cb()),
                self@.clear_from(first, idx as int, n as int) == goal,
            decreases n - idx,
        {
            let cl: u32 = match self.exfat_chain_nth(first, idx) {
                Some(c) => c,
                None => {
                    return false;
                },
            };
            if !self.exfat_write_cluster(cl, &z) {
                return false;
            }
            idx = idx + 1;
        }
        true
    }

    /// Writes data into a chain.
    #[verifier::loop_isolation(false)]
    fn fill_from(&mut self, first: u32, offset: u32, data: &Vec<u8>) -> (r: bool)
        requires
            old(self).inv(),
            data.len() <= u32::MAX,
        ensures
            final(self).inv(),
            (final(self)@, r) == old(self)@.fill_from(first, offset as int, data@, 0),
            final(self).geo == old(self).geo,
    {
        let ghost goal = old(self)@.fill_from(first, offset as int, data@, 0);
        let cb: u64 = self.geo.spc as u64 * 512;
        let mut done: usize = 0;
        while done < data.len()
            invariant
                self.inv(),
                self.geo == old(self).geo,
                done <= data.len(),
                self@.fill_from(first, offset as int, data@, done as int) == goal,
            decreases data.len() - done,
        {
            let pos: u64 = offset as u64 + done as u64;
            let boff: usize = (pos % cb) as usize;
            let n: usize = if cb as usize - boff <= data.len() - done {
                cb as usize - boff
            } else {
                data.len() - done
            };
            let idx: u64 = pos / cb;
            assert(idx <= 0xFFFF_FFFF) by (nonlinear_arith)
                requires
                    idx == pos / cb,
                    cb >= 1024,
                    pos <= 0x1_FFFF_FFFE,
            ;
            let cl: u32 = match self.exfat_chain_nth(first, idx as u32) {
                Some(c) => c,
                None => {
                    return false;
                },
            };
            let mut b: Vec<u8> = match self.exfat_read_cluster(cl) {
                Some(b) => b,
                None => {
                    return false;
                },
            };
            bytes::copy_into(&mut b, boff, data, done, n);
            if !self.exfat_write_cluster(cl, &b) {
                return false;
            }
            done = done + n;
        }
        true
    }

    /// Clears bytes `from` to `to - 1` of a chain.
    #[verifier::loop_isolation(false)]
    fn clear_gap(&mut self, first: u32, from: u64, to: u32) -> (r: bool)
        requires
            old(self).inv(),
        ensures
            final(self).inv(),
            (final(self)@, r) == old(self)@.clear_gap(first, from as int, to as int),
            final(self).geo == old(self).geo,
    {
        if from >= to as u64 {
            return true;
        }
        let ghost z = bytes::zeros(to - from);
        let ghost goal = old(self)@.fill_from(first, from as int, z, 0);
        let cb: u64 = self.geo.spc as u64 * 512;
        let empty: Vec<u8> = bytes::zero_vec(cb as usize);
        let mut pos: u64 = from;
        while pos < to as u64
            invariant
                self.inv(),
                self.geo == old(self).geo,
                from <= pos <= to,
                self@.fill_from(first, from as int, z, pos - from) == goal,
            decreases to - pos,
        {
            let boff: usize = (pos % cb) as usize;
            let left: u64 = to as u64 - pos;
            let n: usize = if cb - boff as u64 <= left {
                (cb - boff as u64) as usize
            } else {
                left as usize
            };
            let idx: u64 = pos / cb;
            assert(idx <= 0xFFFF_FFFF) by (nonlinear_arith)
                requires
                    idx == pos / cb,
                    cb >= 1024,
                    pos <= 0xFFFF_FFFF,
            ;
            let cl: u32 = match self.exfat_chain_nth(first, idx as u32) {
                Some(c) => c,
                None => {
                    return false;
                },
            };
            let mut b: Vec<u8> = match self.exfat_read_cluster(cl) {
                Some(b) => b,
                None => {
                    return false;
                },
            };
            bytes::copy_into(&mut b, boff, &empty, 0, n);
            assert(empty@.subrange(0, n as int) =~= z.subrange(pos - from, pos - from + n));
            if !self.exfat_write_cluster(cl, &b) {
                return false;
            }
            pos = pos + n as u64;
        }
        true
    }

    /// Makes a file have at least `need` clusters.
    fn reserve(&mut self, e: &ExfatEntry, need: u32) -> (r: Option<(u32, u32)>)
        requires
            old(self).inv(),
        ensures
            final(self).inv(),
            (final(self)@, r) == old(self)@.reserve(e@, need),
            final(self).geo == old(self).geo,
    {
        proof {
            reveal(ExfatView::reserve);
        }
        let have: u32 = self.exfat_entry_clusters(e);
        let (first, n): (u32, u32) = match self.exfat_grow_to(e.first, e.contiguous, have, need) {
            Some(x) => x,
            None => {
                return None;
            },
        };
        let from: u32 = if have <= n {
            have
        } else {
            n
        };
        if self.clear_from(first, from, n) {
            Some((first, n))
        } else {
            None
        }
    }

    /// What a changed file's set says.
    fn changed(&self, e: &ExfatEntry, first: u32, size: u64, valid: u64) -> (r: ExfatEntry)
        ensures
            r@ == self@.changed(e@, first, size, valid),
    {
        let r = ExfatEntry {
            is_dir: e.is_dir,
            contiguous: false,
            first,
            size,
            valid,
            mtime: self.now,
            name: Vec::new(),
        };
        assert(r@ =~= self@.changed(e@, first, size, valid));
        r
    }

    /// Writes to a file.
    pub fn exfat_write_file(
        &mut self,
        e: &ExfatEntry,
        dir: u32,
        name: &Vec<u8>,
        offset: u32,
        data: &Vec<u8>,
    ) -> (r: Option<u64>)
        requires
            old(self).inv(),
            data.len() <= u32::MAX,
        ensures
            final(self).inv(),
            (final(self)@, r) == old(self)@.write_file(e@, dir, name@, offset, data@),
            final(self).geo == old(self).geo,
    {
        proof {
            reveal(ExfatView::write_file);
        }
        if e.is_dir || data.len() == 0 {
            return Some(0);
        }
        let end: u64 = offset as u64 + data.len() as u64;
        let size: u64 = if end >= e.size {
            end
        } else {
            e.size
        };
        let need: u32 = blocks_for(size, self.geo.spc * 512);
        let have: u64 = self.exfat_entry_clusters(e) as u64;
        let cb: u64 = self.geo.spc as u64 * 512;
        assert(have * cb <= 0xFFFF_FFFF * cb) by (nonlinear_arith)
            requires
                have <= 0xFFFF_FFFF,
        ;
        let held: u64 = have * cb;
        let (first, _n): (u32, u32) = match self.reserve(e, need) {
            Some(x) => x,
            None => {
                return None;
            },
        };
        let to: u32 = if held < offset as u64 {
            held as u32
        } else {
            offset
        };
        if !self.clear_gap(first, e.valid, to) {
            return None;
        }
        if !self.fill_from(first, offset, data) {
            return None;
        }
        let reach: u64 = if e.valid >= end {
            e.valid
        } else {
            end
        };
        let valid: u64 = if reach <= size {
            reach
        } else {
            size
        };
        let e2: ExfatEntry = self.changed(e, first, size, valid);
        if self.exfat_rewrite_set(dir, name, &e2) {
            Some(data.len() as u64)
        } else {
            None
        }
    }

    /// Cuts a chain.
    fn cut_chain(&mut self, first: u32, n: u32, need: u32) -> (r: bool)
        requires
            old(self).inv(),
            need >= 1,
        ensures
            final(self).inv(),
            (final(self)@, r) == old(self)@.cut_chain(first, n, need),
            final(self).geo == old(self).geo,
    {
        proof {
            reveal(ExfatView::cut_chain);
        }
        if n <= need {
            return true;
        }
        let tail: u32 = match self.exfat_chain_nth(first, need - 1) {
            Some(t) => t,
            None => {
                return false;
            },
        };
        let next: u32 = match self.exfat_fat_get(tail) {
            Some(v) => v,
            None => {
                return false;
            },
        };
        if !self.exfat_fat_set(tail, EXFAT_FAT_EOC) {
            return false;
        }
        if next >= 2 && !exfat::exfat_is_eoc(next) {
            self.exfat_free_chain(next, false, 0)
        } else {
            true
        }
    }

    /// Makes a file `size` bytes long.
    pub fn exfat_truncate(&mut self, e: &ExfatEntry, dir: u32, name: &Vec<u8>, size: u32) -> (r:
        Option<u64>)
        requires
            old(self).inv(),
        ensures
            final(self).inv(),
            (final(self)@, r) == old(self)@.truncate(e@, dir, name@, size),
            final(self).geo == old(self).geo,
    {
        proof {
            reveal(ExfatView::truncate);
        }
        if e.is_dir {
            return None;
        }
        let ghost cb = self.geo.cb();
        assert(0 <= div_up(size as int, cb) <= size) by (nonlinear_arith)
            requires
                cb >= 1024,
                size >= 0,
        ;
        let need: u32 = blocks_for(size as u64, self.geo.spc * 512);
        if need == 0 {
            let have: u32 = self.exfat_entry_clusters(e);
            if !self.exfat_free_chain(e.first, e.contiguous, have) {
                return None;
            }
            let e2: ExfatEntry = self.changed(e, 0, 0, 0);
            return if self.exfat_rewrite_set(dir, name, &e2) {
                Some(0)
            } else {
                None
            };
        }
        let (first, n): (u32, u32) = match self.reserve(e, need) {
            Some(x) => x,
            None => {
                return None;
            },
        };
        if !self.cut_chain(first, n, need) {
            return None;
        }
        let valid: u64 = if e.valid <= size as u64 {
            e.valid
        } else {
            size as u64
        };
        let e2: ExfatEntry = self.changed(e, first, size as u64, valid);
        if self.exfat_rewrite_set(dir, name, &e2) {
            Some(size as u64)
        } else {
            None
        }
    }

    /// Puts a set for a new file into a directory.
    fn add_set(&mut self, dir: u32, name: &Vec<u8>, is_dir: bool, first: u32) -> (r: bool)
        requires
            old(self).inv(),
        ensures
            final(self).inv(),
            (final(self)@, r) == old(self)@.add_set(dir, name@, is_dir, first),
            final(self).geo == old(self).geo,
    {
        proof {
            reveal(ExfatView::add_set);
        }
        let e = ExfatEntry {
            is_dir,
            contiguous: false,
            first,
            size: 0,
            valid: 0,
            mtime: self.now,
            name: Vec::new(),
        };
        assert(e@.name =~= Seq::empty());
        let set: Vec<u8> = match self.exfat_build_set(name, &e) {
            Some(s) => s,
            None => {
                return false;
            },
        };
        match self.make_room(dir, set.len() / 32) {
            None => false,
            Some((cl, i)) => self.exfat_dir_put_set(cl, i, &set),
        }
    }

    /// Makes a file or directory at a path that names nothing.
    pub fn make(&mut self, p: &Vec<u8>, is_dir: bool) -> (r: bool)
        requires
            old(self).inv(),
        ensures
            final(self).inv(),
            (final(self)@, r) == old(self)@.make(p@, is_dir),
            final(self).geo == old(self).geo,
    {
        proof {
            reveal(ExfatView::make);
        }
        let (dir, name): (u32, Vec<u8>) = match self.home_of(p) {
            Some(x) => x,
            None => {
                return false;
            },
        };
        if is_dir {
            match self.alloc_clear() {
                None => false,
                Some(cl) => self.add_set(dir, &name, true, cl),
            }
        } else {
            self.add_set(dir, &name, false, 0)
        }
    }

    /// Removes a file or an empty directory.
    pub fn exfat_remove(&mut self, p: &Vec<u8>, is_dir: bool) -> (r: bool)
        requires
            old(self).inv(),
        ensures
            final(self).inv(),
            (final(self)@, r) == old(self)@.remove(p@, is_dir),
            final(self).geo == old(self).geo,
    {
        proof {
            reveal(ExfatView::remove);
        }
        let (dir, name): (u32, Vec<u8>) = match self.home_of(p) {
            Some(x) => x,
            None => {
                return false;
            },
        };
        let (loc, e): (ExfatLoc, ExfatEntry) = match self.exfat_dir_locate(dir, &name) {
            Some(x) => x,
            None => {
                return false;
            },
        };
        if e.is_dir != is_dir {
            return false;
        }
        if e.is_dir && !self.exfat_dir_is_empty(e.first) {
            return false;
        }
        if !self.exfat_dir_del_set(loc.cluster, loc.index, 1 + loc.sec_count) {
            return false;
        }
        if e.first >= 2 {
            let n: u32 = self.exfat_entry_clusters(&e);
            self.exfat_free_chain(e.first, e.contiguous, n)
        } else {
            true
        }
    }
}

} // verus!
