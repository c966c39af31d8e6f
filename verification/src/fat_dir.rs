//! Directories of FAT32 volumes: listing, lookup and path resolution.
use vstd::prelude::*;

use crate::bytes;
use crate::fat::{
    Fat, Fat32Bpb, FatView, ATTR_DIRECTORY, ATTR_LONG_NAME, ATTR_VOLUME_ID, FAT_EOC_MIN,
    FAT_WALK_MAX,
};
use crate::fat_name;
use crate::fat_name::{LfnBuf, LfnView};
use crate::path;
use crate::vfs;
use crate::vfs::{DirEntry, DirEntryView, RESULT_MAX_ENTRIES};

verus! {

/// A directory entry found by name.
#[derive(Clone, Copy)]
pub struct DirEntryInfo {
    pub start_cluster: u32,
    pub file_size: u32,
    pub attr: u8,
    /// Directory cluster that holds the entry.
    pub dir_cluster: u32,
    /// Byte offset of the entry in that cluster.
    pub entry_offset: u32,
}

impl DirEntryInfo {
    /// Whether the entry is a directory.
    pub open spec fn is_dir(self) -> bool {
        self.attr & ATTR_DIRECTORY != 0
    }

    /// The entry that stands for the root directory.
    pub open spec fn root(b: Fat32Bpb) -> DirEntryInfo {
        DirEntryInfo {
            start_cluster: b.root_cluster,
            file_size: 0,
            attr: ATTR_DIRECTORY,
            dir_cluster: b.root_cluster,
            entry_offset: 0,
        }
    }
}

/// The entry at index `i` of directory cluster `c`, whose bytes are `d`.
pub open spec fn info_at(d: Seq<u8>, c: u32, i: int) -> DirEntryInfo {
    let o = i * 32;
    DirEntryInfo {
        start_cluster: (bytes::le16(d, o + 20) * 0x1_0000 + bytes::le16(d, o + 26)) as u32,
        file_size: bytes::le32(d, o + 28),
        attr: d[o + 11],
        dir_cluster: c,
        entry_offset: o as u32,
    }
}

/// What a directory entry is, by its first byte and attributes.
pub enum Slot {
    /// No entry here or later.
    End,
    /// A deleted entry.
    Deleted,
    /// A piece of a long name.
    LongPiece,
    /// The volume label.
    Label,
    /// A file or directory.
    Entry,
}

/// What the directory entry at `o` is.
pub open spec fn slot_kind(d: Seq<u8>, o: int) -> Slot {
    if d[o] == 0 {
        Slot::End
    } else if d[o] == 0xE5 {
        Slot::Deleted
    } else if d[o + 11] & ATTR_LONG_NAME == ATTR_LONG_NAME {
        Slot::LongPiece
    } else if d[o + 11] & ATTR_VOLUME_ID != 0 {
        Slot::Label
    } else {
        Slot::Entry
    }
}

/// Whether the entry at `o` is `.` or `..`.
pub open spec fn is_dot(d: Seq<u8>, o: int) -> bool {
    d[o + 11] & ATTR_DIRECTORY != 0 && d[o] == 0x2E
}

/// Search by name in one directory cluster, from entry `i` on: (whether the search
/// is over, the entry found, the long name in progress). An entry with the short
/// name `sn` ends the search; the first one with the long name `q` is kept in case
/// none has.
pub open spec fn scan_named(
    d: Seq<u8>,
    c: u32,
    i: int,
    n: int,
    sn: Option<Seq<u8>>,
    q: Seq<u8>,
    lfn: LfnView,
    hit: Option<DirEntryInfo>,
) -> (bool, Option<DirEntryInfo>, LfnView)
    decreases n - i,
{
    let o = i * 32;
    if i >= n {
        (false, hit, lfn)
    } else {
        match slot_kind(d, o) {
            Slot::End => (true, hit, lfn),
            Slot::Deleted => scan_named(d, c, i + 1, n, sn, q, lfn.reset(), hit),
            Slot::LongPiece => scan_named(d, c, i + 1, n, sn, q, lfn.push(d, o), hit),
            Slot::Label => scan_named(d, c, i + 1, n, sn, q, lfn.reset(), hit),
            Slot::Entry => if !is_dot(d, o) && sn == Some(d.subrange(o, o + 11)) {
                (true, Some(info_at(d, c, i)), lfn.reset())
            } else {
                let long = !is_dot(d, o) && lfn.active && lfn.belongs(d, o) && fat_name::long_is(
                    lfn.name(),
                    q,
                );
                let hit2 = if long && hit is None {
                    Some(info_at(d, c, i))
                } else {
                    hit
                };
                scan_named(d, c, i + 1, n, sn, q, lfn.reset(), hit2)
            },
        }
    }
}

/// Search by short name alone in one directory cluster: (over, entry found).
pub open spec fn scan_short(d: Seq<u8>, c: u32, i: int, n: int, sn: Seq<u8>) -> (
    bool,
    Option<DirEntryInfo>,
)
    decreases n - i,
{
    let o = i * 32;
    if i >= n {
        (false, None)
    } else {
        match slot_kind(d, o) {
            Slot::End => (true, None),
            Slot::Entry => if d.subrange(o, o + 11) == sn {
                (true, Some(info_at(d, c, i)))
            } else {
                scan_short(d, c, i + 1, n, sn)
            },
            _ => scan_short(d, c, i + 1, n, sn),
        }
    }
}

/// Counts files and directories (`.` and `..` among them) in one directory cluster:
/// (over, count). The count stops at the third.
pub open spec fn scan_count(d: Seq<u8>, i: int, n: int, valid: int) -> (bool, int)
    decreases n - i,
{
    let o = i * 32;
    if i >= n {
        (false, valid)
    } else {
        match slot_kind(d, o) {
            Slot::End => (true, valid),
            Slot::Entry => if valid + 1 > 2 {
                (true, valid + 1)
            } else {
                scan_count(d, i + 1, n, valid + 1)
            },
            _ => scan_count(d, i + 1, n, valid),
        }
    }
}

/// The listing record of the entry at `o`, with its long name where the pieces
/// collected belong to it.
pub open spec fn record_at(d: Seq<u8>, o: int, lfn: LfnView) -> DirEntryView {
    DirEntryView::plain(
        d.subrange(o, o + 11),
        if lfn.active && lfn.belongs(d, o) {
            fat_name::utf8_cut(lfn.name(), 0, Seq::empty())
        } else {
            Seq::empty()
        },
        bytes::le32(d, o + 28) as u64,
        d[o + 11] & ATTR_DIRECTORY != 0,
    )
}

/// Lists one directory cluster from entry `i` on: (over, records so far, long name
/// in progress). The listing ends when a result page is full.
pub open spec fn scan_list(d: Seq<u8>, i: int, n: int, lfn: LfnView, out: Seq<DirEntryView>) -> (
    bool,
    Seq<DirEntryView>,
    LfnView,
)
    decreases n - i,
{
    let o = i * 32;
    if i >= n {
        (false, out, lfn)
    } else {
        match slot_kind(d, o) {
            Slot::End => (true, out, lfn),
            Slot::Deleted => scan_list(d, i + 1, n, lfn.reset(), out),
            Slot::LongPiece => scan_list(d, i + 1, n, lfn.push(d, o), out),
            Slot::Label => scan_list(d, i + 1, n, lfn.reset(), out),
            Slot::Entry => if is_dot(d, o) {
                scan_list(d, i + 1, n, lfn.reset(), out)
            } else if out.len() >= RESULT_MAX_ENTRIES {
                (true, out, lfn)
            } else {
                scan_list(d, i + 1, n, lfn.reset(), out.push(record_at(d, o, lfn)))
            },
        }
    }
}

impl FatView {
    /// Search by name along the directory chain from `c` on. A cluster that cannot be
    /// read ends the search with what was found.
    pub open spec fn find_named(
        self,
        b: Fat32Bpb,
        c: u32,
        sn: Option<Seq<u8>>,
        q: Seq<u8>,
        lfn: LfnView,
        hit: Option<DirEntryInfo>,
        fuel: nat,
    ) -> (FatView, Option<DirEntryInfo>)
        decreases fuel,
    {
        match self.cluster(b, c) {
            None => (self, hit),
            Some(d) => {
                let (over, h, l) = scan_named(d, c, 0, b.cb() / 32, sn, q, lfn, hit);
                if over {
                    (self, h)
                } else {
                    let (s, next) = self.fat_get(b, c);
                    if next >= FAT_EOC_MIN || fuel == 0 {
                        (s, h)
                    } else {
                        s.find_named(b, next, sn, q, l, h, (fuel - 1) as nat)
                    }
                }
            },
        }
    }

    /// The entry with the given name in directory `dir`: by short name first, else by
    /// long name.
    pub open spec fn find(self, b: Fat32Bpb, dir: u32, name: Seq<u8>) -> (
        FatView,
        Option<DirEntryInfo>,
    ) {
        self.find_named(
            b,
            dir,
            fat_name::short_name(name),
            name,
            LfnView::empty(),
            None,
            FAT_WALK_MAX as nat,
        )
    }

    /// Search by short name along the directory chain from `c` on.
    pub open spec fn find_short(self, b: Fat32Bpb, c: u32, sn: Seq<u8>, fuel: nat) -> (
        FatView,
        Option<DirEntryInfo>,
    )
        decreases fuel,
    {
        match self.cluster(b, c) {
            None => (self, None),
            Some(d) => {
                let (over, h) = scan_short(d, c, 0, b.cb() / 32, sn);
                if over {
                    (self, h)
                } else {
                    let (s, next) = self.fat_get(b, c);
                    if next >= FAT_EOC_MIN || fuel == 0 {
                        (s, None)
                    } else {
                        s.find_short(b, next, sn, (fuel - 1) as nat)
                    }
                }
            },
        }
    }

    /// Whether the directory chain from `c` on holds at most two entries, `valid` of
    /// them already counted; a cluster that cannot be read counts as not empty.
    pub open spec fn at_most_two(self, b: Fat32Bpb, c: u32, valid: int, fuel: nat) -> (FatView, bool)
        decreases fuel,
    {
        match self.cluster(b, c) {
            None => (self, false),
            Some(d) => {
                let (over, v) = scan_count(d, 0, b.cb() / 32, valid);
                if over {
                    (self, v <= 2)
                } else {
                    let (s, next) = self.fat_get(b, c);
                    if next >= FAT_EOC_MIN {
                        (s, v <= 2)
                    } else if fuel == 0 {
                        (s, false)
                    } else {
                        s.at_most_two(b, next, v, (fuel - 1) as nat)
                    }
                }
            },
        }
    }

    /// The listing of the directory chain from `c` on, after what is in `out`.
    pub open spec fn list(
        self,
        b: Fat32Bpb,
        c: u32,
        lfn: LfnView,
        out: Seq<DirEntryView>,
        fuel: nat,
    ) -> (FatView, Option<Seq<DirEntryView>>)
        decreases fuel,
    {
        match self.cluster(b, c) {
            None => (self, None),
            Some(d) => {
                let (over, o, l) = scan_list(d, 0, b.cb() / 32, lfn, out);
                if over {
                    (self, Some(o))
                } else {
                    let (s, next) = self.fat_get(b, c);
                    if next >= FAT_EOC_MIN || fuel == 0 {
                        (s, Some(o))
                    } else {
                        s.list(b, next, l, o, (fuel - 1) as nat)
                    }
                }
            },
        }
    }

    /// Resolves the segments from `k` on, starting in directory `dir`. Every segment
    /// but the last must be a directory.
    pub open spec fn walk(self, b: Fat32Bpb, dir: u32, segs: Seq<Seq<u8>>, k: int) -> (
        FatView,
        Option<DirEntryInfo>,
    )
        decreases segs.len() - k,
    {
        if k >= segs.len() {
            (self, None)
        } else {
            let (s, r) = self.find(b, dir, segs[k]);
            match r {
                None => (s, None),
                Some(info) => if k + 1 >= segs.len() {
                    (s, Some(info))
                } else if !info.is_dir() {
                    (s, None)
                } else {
                    s.walk(b, info.start_cluster, segs, k + 1)
                },
            }
        }
    }

    /// The entry that a path names; the path without segments names the root.
    pub open spec fn resolve_open(self, b: Fat32Bpb, p: Seq<u8>) -> (FatView, Option<DirEntryInfo>) {
        if path::segs(p).len() == 0 {
            (self, Some(DirEntryInfo::root(b)))
        } else {
            self.walk(b, b.root_cluster, path::segs(p), 0)
        }
    }

    /// The directory in which the last segment of a path belongs, and that segment's
    /// short name. Segments from `k` on are still to be resolved.
    pub open spec fn walk_parent(self, b: Fat32Bpb, dir: u32, segs: Seq<Seq<u8>>, k: int) -> (
        FatView,
        Option<(u32, Seq<u8>)>,
    )
        decreases segs.len() - k,
    {
        if k >= segs.len() {
            (self, None)
        } else if k + 1 >= segs.len() {
            match fat_name::short_name(segs[k]) {
                Some(sn) => (self, Some((dir, sn))),
                None => (self, None),
            }
        } else {
            let (s, r) = self.find(b, dir, segs[k]);
            match r {
                None => (s, None),
                Some(info) => if !info.is_dir() {
                    (s, None)
                } else {
                    s.walk_parent(b, info.start_cluster, segs, k + 1)
                },
            }
        }
    }

    /// The parent directory and short name that a path to create or delete names.
    pub open spec fn resolve_parent(self, b: Fat32Bpb, p: Seq<u8>) -> (
        FatView,
        Option<(u32, Seq<u8>)>,
    ) {
        self.walk_parent(b, b.root_cluster, path::segs(p), 0)
    }
}

/// The entry at index `i` of directory cluster `c`.
pub fn entry_info(d: &Vec<u8>, c: u32, i: usize) -> (r: DirEntryInfo)
    requires
        i * 32 + 32 <= d.len(),
        d.len() <= 65536,
    ensures
        r == info_at(d@, c, i as int),
        r.entry_offset % 32 == 0,
{
    let o: usize = i * 32;
    let hi: u32 = bytes::read_u16(d, o + 20) as u32;
    let lo: u32 = bytes::read_u16(d, o + 26) as u32;
    DirEntryInfo {
        start_cluster: hi * 0x1_0000 + lo,
        file_size: bytes::read_u32(d, o + 28),
        attr: d[o + 11],
        dir_cluster: c,
        entry_offset: o as u32,
    }
}

/// What the directory entry at `o` is.
fn kind_of(d: &Vec<u8>, o: usize) -> (r: Slot)
    requires
        o + 32 <= d.len(),
    ensures
        r == slot_kind(d@, o as int),
{
    let attr: u8 = d[o + 11];
    if d[o] == 0 {
        Slot::End
    } else if d[o] == 0xE5 {
        Slot::Deleted
    } else if attr & ATTR_LONG_NAME == ATTR_LONG_NAME {
        Slot::LongPiece
    } else if attr & ATTR_VOLUME_ID != 0 {
        Slot::Label
    } else {
        Slot::Entry
    }
}

/// Whether the entry at `o` has the short name `sn`.
pub fn entry_name_matches(d: &Vec<u8>, o: usize, sn: &Vec<u8>) -> (r: bool)
    requires
        o + 32 <= d.len(),
        sn@.len() == 11,
    ensures
        r == (d@.subrange(o as int, o + 11) == sn@),
{
    let name: Vec<u8> = bytes::slice_copy(d, o, o + 11);
    bytes::bytes_eq(&name, sn)
}

/// Searches one directory cluster by name.
#[verifier::loop_isolation(false)]
fn scan_cluster_named(
    d: &Vec<u8>,
    c: u32,
    sn: &Option<Vec<u8>>,
    q: &Vec<u8>,
    lfn: &mut LfnBuf,
    hit: Option<DirEntryInfo>,
) -> (r: (bool, Option<DirEntryInfo>))
    requires
        old(lfn).inv(),
        d.len() <= 65536,
        sn matches Some(v) ==> v@.len() == 11,
    ensures
        final(lfn).inv(),
        (r.0, r.1, final(lfn)@) == scan_named(
            d@,
            c,
            0,
            d@.len() as int / 32,
            bytes::opt(*sn),
            q@,
            old(lfn)@,
            hit,
        ),
        (hit matches Some(h) ==> h.entry_offset % 32 == 0) ==> (r.1 matches Some(x)
            ==> x.entry_offset % 32 == 0),
{
    let n: usize = d.len() / 32;
    let ghost aligned = hit matches Some(h) ==> h.entry_offset % 32 == 0;
    let mut hit: Option<DirEntryInfo> = hit;
    let ghost goal = scan_named(
        d@,
        c,
        0,
        d@.len() as int / 32,
        bytes::opt(*sn),
        q@,
        old(lfn)@,
        hit,
    );
    let mut i: usize = 0;
    while i < n
        invariant
            i <= n,
            n == d.len() / 32,
            d.len() <= 65536,
            lfn.inv(),
            sn matches Some(v) ==> v@.len() == 11,
            scan_named(d@, c, i as int, n as int, bytes::opt(*sn), q@, lfn@, hit) == goal,
            aligned ==> (hit matches Some(h) ==> h.entry_offset % 32 == 0),
        decreases n - i,
    {
        let o: usize = i * 32;
        match kind_of(d, o) {
            Slot::End => {
                return (true, hit);
            },
            Slot::Deleted => {
                lfn.reset();
            },
            Slot::LongPiece => {
                lfn.push(d, o);
            },
            Slot::Label => {
                lfn.reset();
            },
            Slot::Entry => {
                let dot: bool = d[o + 11] & ATTR_DIRECTORY != 0 && d[o] == 0x2E;
                let long: bool = !dot && lfn.active && lfn.checksum_ok(d, o)
                    && fat_name::lfn_name_eq(&lfn.name(), q);
                lfn.reset();
                let short: bool = match sn {
                    Some(s) => !dot && entry_name_matches(d, o, s),
                    None => false,
                };
                if short {
                    return (true, Some(entry_info(d, c, i)));
                }
                if long && hit.is_none() {
                    hit = Some(entry_info(d, c, i));
                }
            },
        }
        i = i + 1;
    }
    (false, hit)
}

/// Lists one directory cluster.
fn scan_cluster_list(d: &Vec<u8>, lfn: &mut LfnBuf, out: &mut Vec<DirEntry>) -> (r: bool)
    requires
        old(lfn).inv(),
        d.len() <= 65536,
        old(out).len() <= RESULT_MAX_ENTRIES,
    ensures
        final(lfn).inv(),
        final(out).len() <= RESULT_MAX_ENTRIES,
        (r, vfs::entries_view(final(out)@), final(lfn)@) == scan_list(
            d@,
            0,
            d@.len() as int / 32,
            old(lfn)@,
            vfs::entries_view(old(out)@),
        ),
{
    let n: usize = d.len() / 32;
    let mut i: usize = 0;
    while i < n
        invariant
            i <= n,
            n == d.len() / 32,
            d.len() <= 65536,
            lfn.inv(),
            out.len() <= RESULT_MAX_ENTRIES,
            scan_list(d@, i as int, n as int, lfn@, vfs::entries_view(out@)) == scan_list(
                d@,
                0,
                n as int,
                old(lfn)@,
                vfs::entries_view(old(out)@),
            ),
        decreases n - i,
    {
        let o: usize = i * 32;
        match kind_of(d, o) {
            Slot::End => {
                return true;
            },
            Slot::Deleted => {
                lfn.reset();
            },
            Slot::LongPiece => {
                lfn.push(d, o);
            },
            Slot::Label => {
                lfn.reset();
            },
            Slot::Entry => {
                let is_dir: bool = d[o + 11] & ATTR_DIRECTORY != 0;
                if is_dir && d[o] == 0x2E {
                    lfn.reset();
                } else {
                    if out.len() >= RESULT_MAX_ENTRIES {
                        return true;
                    }
                    let long: Vec<u8> = if lfn.active && lfn.checksum_ok(d, o) {
                        fat_name::utf16_to_utf8(&lfn.name())
                    } else {
                        Vec::new()
                    };
                    let size: u64 = bytes::read_u32(d, o + 28) as u64;
                    let rec = DirEntry::plain(bytes::slice_copy(d, o, o + 11), long, size, is_dir);
                    let ghost before = out@;
                    assert(rec@ =~= record_at(d@, o as int, lfn@));
                    lfn.reset();
                    out.push(rec);
                    assert(vfs::entries_view(out@) =~= vfs::entries_view(before).push(rec@));
                }
            },
        }
        i = i + 1;
    }
    false
}

impl Fat {
    /// Looks for an entry by name along a directory chain; `sn` is its short name
    /// where it has one.
    #[verifier::loop_isolation(false)]
    pub fn find_entry_named(&mut self, b: &Fat32Bpb, dir: u32, sn: Option<Vec<u8>>, q: &Vec<u8>) -> (r:
        Option<DirEntryInfo>)
        requires
            old(self).inv(),
            b.wf(),
            sn matches Some(v) ==> v@.len() == 11,
        ensures
            final(self).inv(),
            (final(self)@, r) == old(self)@.find_named(
                *b,
                dir,
                bytes::opt(sn),
                q@,
                LfnView::empty(),
                None,
                FAT_WALK_MAX as nat,
            ),
            r matches Some(i) ==> i.entry_offset % 32 == 0,
    {
        let mut c: u32 = dir;
        let mut lfn: LfnBuf = LfnBuf::new();
        let mut hit: Option<DirEntryInfo> = None;
        let mut fuel: u32 = FAT_WALK_MAX;
        let ghost goal = old(self)@.find_named(
            *b,
            dir,
            bytes::opt(sn),
            q@,
            LfnView::empty(),
            None,
            FAT_WALK_MAX as nat,
        );
        loop
            invariant
                self.inv(),
                b.wf(),
                lfn.inv(),
                sn matches Some(v) ==> v@.len() == 11,
                self@.find_named(*b, c, bytes::opt(sn), q@, lfn@, hit, fuel as nat) == goal,
                hit matches Some(i) ==> i.entry_offset % 32 == 0,
            decreases fuel,
        {
            let d: Vec<u8> = match self.read_cluster(b, c) {
                Some(v) => v,
                None => {
                    return hit;
                },
            };
            let (over, h) = scan_cluster_named(&d, c, &sn, q, &mut lfn, hit);
            hit = h;
            if over {
                return hit;
            }
            let next: u32 = self.read_fat_entry(b, c);
            if next >= FAT_EOC_MIN || fuel == 0 {
                return hit;
            }
            c = next;
            fuel = fuel - 1;
        }
    }

    /// Looks for an entry by name: by short name first, else by long name.
    pub fn find_entry(&mut self, b: &Fat32Bpb, dir: u32, name: &Vec<u8>) -> (r: Option<DirEntryInfo>)
        requires
            old(self).inv(),
            b.wf(),
        ensures
            final(self).inv(),
            (final(self)@, r) == old(self)@.find(*b, dir, name@),
            r matches Some(i) ==> i.entry_offset % 32 == 0,
    {
        let sn: Option<Vec<u8>> = fat_name::short_name_from_query(name);
        self.find_entry_named(b, dir, sn, name)
    }

    /// Looks for an entry by its short name alone.
    #[verifier::loop_isolation(false)]
    pub fn find_entry_sn(&mut self, b: &Fat32Bpb, dir: u32, sn: &Vec<u8>) -> (r: Option<DirEntryInfo>)
        requires
            old(self).inv(),
            b.wf(),
            sn@.len() == 11,
        ensures
            final(self).inv(),
            (final(self)@, r) == old(self)@.find_short(*b, dir, sn@, FAT_WALK_MAX as nat),
            r matches Some(i) ==> i.entry_offset % 32 == 0,
    {
        let n: usize = (b.cluster_bytes() / 32) as usize;
        let mut c: u32 = dir;
        let mut fuel: u32 = FAT_WALK_MAX;
        let ghost goal = old(self)@.find_short(*b, dir, sn@, FAT_WALK_MAX as nat);
        loop
            invariant
                self.inv(),
                b.wf(),
                n == b.cb() / 32,
                sn@.len() == 11,
                self@.find_short(*b, c, sn@, fuel as nat) == goal,
            decreases fuel,
        {
            let d: Vec<u8> = match self.read_cluster(b, c) {
                Some(v) => v,
                None => {
                    return None;
                },
            };
            let ghost step = scan_short(d@, c, 0, n as int, sn@);
            let mut i: usize = 0;
            while i < n
                invariant
                    i <= n,
                    n == b.cb() / 32,
                    b.wf(),
                    d.len() == b.cb(),
                    self.inv(),
                    sn@.len() == 11,
                    self@.cluster(*b, c) == Some(d@),
                    step == scan_short(d@, c, 0, n as int, sn@),
                    self@.find_short(*b, c, sn@, fuel as nat) == goal,
                    goal == old(self)@.find_short(*b, dir, sn@, FAT_WALK_MAX as nat),
                    scan_short(d@, c, i as int, n as int, sn@) == step,
                decreases n - i,
            {
                let o: usize = i * 32;
                match kind_of(&d, o) {
                    Slot::End => {
                        return None;
                    },
                    Slot::Entry => {
                        if entry_name_matches(&d, o, sn) {
                            return Some(entry_info(&d, c, i));
                        }
                    },
                    _ => {},
                }
                i = i + 1;
            }
            let next: u32 = self.read_fat_entry(b, c);
            if next >= FAT_EOC_MIN || fuel == 0 {
                return None;
            }
            c = next;
            fuel = fuel - 1;
        }
    }

    /// Whether a directory holds nothing but `.` and `..`.
    #[verifier::loop_isolation(false)]
    pub fn dir_is_empty(&mut self, b: &Fat32Bpb, dir: u32) -> (r: bool)
        requires
            old(self).inv(),
            b.wf(),
        ensures
            final(self).inv(),
            (final(self)@, r) == old(self)@.at_most_two(*b, dir, 0, FAT_WALK_MAX as nat),
    {
        let n: usize = (b.cluster_bytes() / 32) as usize;
        let mut c: u32 = dir;
        let mut valid: u32 = 0;
        let mut fuel: u32 = FAT_WALK_MAX;
        let ghost goal = old(self)@.at_most_two(*b, dir, 0, FAT_WALK_MAX as nat);
        loop
            invariant
                self.inv(),
                b.wf(),
                n == b.cb() / 32,
                valid <= 2,
                self@.at_most_two(*b, c, valid as int, fuel as nat) == goal,
            decreases fuel,
        {
            let d: Vec<u8> = match self.read_cluster(b, c) {
                Some(v) => v,
                None => {
                    return false;
                },
            };
            let ghost step = scan_count(d@, 0, n as int, valid as int);
            let ghost valid0 = valid as int;
            let mut i: usize = 0;
            while i < n
                invariant
                    i <= n,
                    n == b.cb() / 32,
                    b.wf(),
                    d.len() == b.cb(),
                    self.inv(),
                    valid <= 2,
                    self@.cluster(*b, c) == Some(d@),
                    step == scan_count(d@, 0, n as int, valid0),
                    self@.at_most_two(*b, c, valid0, fuel as nat) == goal,
                    goal == old(self)@.at_most_two(*b, dir, 0, FAT_WALK_MAX as nat),
                    scan_count(d@, i as int, n as int, valid as int) == step,
                decreases n - i,
            {
                let o: usize = i * 32;
                match kind_of(&d, o) {
                    Slot::End => {
                        return valid <= 2;
                    },
                    Slot::Entry => {
                        valid = valid + 1;
                        if valid > 2 {
                            return false;
                        }
                    },
                    _ => {},
                }
                i = i + 1;
            }
            let next: u32 = self.read_fat_entry(b, c);
            if next >= FAT_EOC_MIN {
                return valid <= 2;
            }
            if fuel == 0 {
                return false;
            }
            c = next;
            fuel = fuel - 1;
        }
    }

    /// Lists a directory.
    #[verifier::loop_isolation(false)]
    pub fn readdir_into(&mut self, b: &Fat32Bpb, dir: u32) -> (r: Option<Vec<DirEntry>>)
        requires
            old(self).inv(),
            b.wf(),
        ensures
            final(self).inv(),
            (final(self)@, r is Some) == ({
                let (s, o) = old(self)@.list(
                    *b,
                    dir,
                    LfnView::empty(),
                    Seq::empty(),
                    FAT_WALK_MAX as nat,
                );
                (s, o is Some)
            }),
            r matches Some(v) ==> old(self)@.list(
                *b,
                dir,
                LfnView::empty(),
                Seq::empty(),
                FAT_WALK_MAX as nat,
            ).1 == Some(vfs::entries_view(v@)) && v@.len() <= RESULT_MAX_ENTRIES,
    {
        let mut c: u32 = dir;
        let mut lfn: LfnBuf = LfnBuf::new();
        let mut out: Vec<DirEntry> = Vec::new();
        let mut fuel: u32 = FAT_WALK_MAX;
        let ghost goal = old(self)@.list(
            *b,
            dir,
            LfnView::empty(),
            Seq::empty(),
            FAT_WALK_MAX as nat,
        );
        assert(vfs::entries_view(out@) =~= Seq::empty());
        loop
            invariant
                self.inv(),
                b.wf(),
                lfn.inv(),
                out.len() <= RESULT_MAX_ENTRIES,
                self@.list(*b, c, lfn@, vfs::entries_view(out@), fuel as nat) == goal,
            decreases fuel,
        {
            let d: Vec<u8> = match self.read_cluster(b, c) {
                Some(v) => v,
                None => {
                    return None;
                },
            };
            let over: bool = scan_cluster_list(&d, &mut lfn, &mut out);
            if over {
                return Some(out);
            }
            let next: u32 = self.read_fat_entry(b, c);
            if next >= FAT_EOC_MIN || fuel == 0 {
                return Some(out);
            }
            c = next;
            fuel = fuel - 1;
        }
    }

    /// Resolves a path to the entry it names.
    #[verifier::loop_isolation(false)]
    pub fn resolve_path(&mut self, b: &Fat32Bpb, p: &[u8]) -> (r: Option<DirEntryInfo>)
        requires
            old(self).inv(),
            b.wf(),
        ensures
            final(self).inv(),
            (final(self)@, r) == old(self)@.walk(*b, b.root_cluster, path::segs(p@), 0),
            r matches Some(i) ==> i.entry_offset % 32 == 0,
    {
        let segs: Vec<Vec<u8>> = path::split(p);
        let mut dir: u32 = b.root_cluster;
        let mut k: usize = 0;
        let ghost goal = old(self)@.walk(*b, b.root_cluster, path::segs(p@), 0);
        while k < segs.len()
            invariant
                k <= segs.len(),
                self.inv(),
                b.wf(),
                bytes::deep(segs@) == path::segs(p@),
                self@.walk(*b, dir, path::segs(p@), k as int) == goal,
            decreases segs.len() - k,
        {
            assert(bytes::deep(segs@)[k as int] == segs@[k as int]@);
            let info: DirEntryInfo = match self.find_entry(b, dir, &segs[k]) {
                Some(i) => i,
                None => {
                    return None;
                },
            };
            if k + 1 >= segs.len() {
                return Some(info);
            }
            if info.attr & ATTR_DIRECTORY == 0 {
                return None;
            }
            dir = info.start_cluster;
            k = k + 1;
        }
        None
    }

    /// Resolves a path to open; the path without segments names the root.
    pub fn resolve_open_path(&mut self, b: &Fat32Bpb, p: &[u8]) -> (r: Option<DirEntryInfo>)
        requires
            old(self).inv(),
            b.wf(),
        ensures
            final(self).inv(),
            (final(self)@, r) == old(self)@.resolve_open(*b, p@),
            r matches Some(i) ==> i.entry_offset % 32 == 0,
    {
        let segs: Vec<Vec<u8>> = path::split(p);
        assert(bytes::deep(segs@).len() == segs@.len());
        if segs.len() == 0 {
            return Some(
                DirEntryInfo {
                    start_cluster: b.root_cluster,
                    file_size: 0,
                    attr: ATTR_DIRECTORY,
                    dir_cluster: b.root_cluster,
                    entry_offset: 0,
                },
            );
        }
        self.resolve_path(b, p)
    }

    /// Resolves a path to create or delete: its parent directory and short name.
    #[verifier::loop_isolation(false)]
    pub fn resolve_parent(&mut self, b: &Fat32Bpb, p: &[u8]) -> (r: Option<(u32, Vec<u8>)>)
        requires
            old(self).inv(),
            b.wf(),
        ensures
            final(self).inv(),
            final(self)@ == old(self)@.resolve_parent(*b, p@).0,
            match r {
                Some((dir, sn)) => old(self)@.resolve_parent(*b, p@).1 == Some((dir, sn@))
                    && sn@.len() == 11,
                None => old(self)@.resolve_parent(*b, p@).1 is None,
            },
    {
        let segs: Vec<Vec<u8>> = path::split(p);
        let mut dir: u32 = b.root_cluster;
        let mut k: usize = 0;
        let ghost goal = old(self)@.resolve_parent(*b, p@);
        while k < segs.len()
            invariant
                k <= segs.len(),
                self.inv(),
                b.wf(),
                bytes::deep(segs@) == path::segs(p@),
                self@.walk_parent(*b, dir, path::segs(p@), k as int) == goal,
                goal == old(self)@.resolve_parent(*b, p@),
            decreases segs.len() - k,
        {
            assert(bytes::deep(segs@)[k as int] == segs@[k as int]@);
            if k + 1 >= segs.len() {
                return match fat_name::short_name_from_query(&segs[k]) {
                    Some(sn) => Some((dir, sn)),
                    None => None,
                };
            }
            let info: DirEntryInfo = match self.find_entry(b, dir, &segs[k]) {
                Some(i) => i,
                None => {
                    return None;
                },
            };
            if info.attr & ATTR_DIRECTORY == 0 {
                return None;
            }
            dir = info.start_cluster;
            k = k + 1;
        }
        None
    }
}

} // verus!
