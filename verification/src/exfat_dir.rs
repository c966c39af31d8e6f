//! exFAT: names, and the sets of entries that describe files.
//!
//! A set is a file entry, a stream extension and name entries of fifteen UTF-16 units
//! each. It lies within one cluster of its directory and has a checksum.
use vstd::prelude::*;

use crate::bytes;
use crate::calendar;
use crate::exfat;
use crate::exfat::{
    Exfat, ExfatView, EXFAT_TYPE_FILE, EXFAT_TYPE_NAME, EXFAT_TYPE_STREAM, EXFAT_TYPE_UNUSED,
};
use crate::ext2;
use crate::vfs::{DirEntry, DirEntryView, DIR_LONG_MAX};

verus! {

/// Attribute of a directory.
pub const EXFAT_ATTR_DIR: u16 = 0x0010;

/// Attribute of a file.
pub const EXFAT_ATTR_ARCHIVE: u16 = 0x0020;

/// Type of an entry that fills a cluster: deleted, but not unused.
pub const EXFAT_FILLER: u8 = 0x20;

/// UTF-16 units of a name entry.
pub const EXFAT_NAME_UNITS_PER_ENTRY: usize = 15;

/// What a set says of a file.
#[verifier::ext_equal]
pub struct EntryView {
    pub is_dir: bool,
    /// The file takes consecutive clusters, without a chain.
    pub contiguous: bool,
    pub first: u32,
    pub size: u64,
    /// Bytes that were ever written.
    pub valid: u64,
    pub mtime: u64,
    pub name: Seq<u8>,
}

/// Where a set is: the cluster, the number of its first entry in it, and the number of
/// entries after that.
#[derive(Clone, Copy)]
pub struct ExfatLoc {
    pub cluster: u32,
    pub index: usize,
    pub sec_count: usize,
}

/// The next value of a rotating 16-bit sum.
pub open spec fn sum16(h: u16, v: int) -> u16 {
    ((h % 2 * 0x8000 + h / 2 + v) % 0x1_0000) as u16
}

/// The next value of a rotating 32-bit sum.
pub open spec fn sum32(h: u32, v: int) -> u32 {
    ((h % 2 * 0x8000_0000 + h / 2 + v) % 0x1_0000_0000) as u32
}

/// Checksum of the first `n` bytes of a set, its own two bytes left out.
pub open spec fn set_sum(s: Seq<u8>, n: int) -> u16
    decreases n,
{
    if n <= 0 {
        0
    } else if n - 1 == 2 || n - 1 == 3 {
        set_sum(s, n - 1)
    } else {
        sum16(set_sum(s, n - 1), s[n - 1] as int)
    }
}

/// UTF-8 of a UTF-16 unit.
pub open spec fn utf8_of(c: u16) -> Seq<u8> {
    if c < 0x80 {
        seq![c as u8]
    } else if c < 0x800 {
        seq![(0xC0 + c / 64) as u8, (0x80 + c % 64) as u8]
    } else {
        seq![(0xE0 + c / 4096) as u8, (0x80 + c / 64 % 64) as u8, (0x80 + c % 64) as u8]
    }
}

/// Unit `k` of a name whose first name entry starts at byte `o`.
pub open spec fn unit_at(b: Seq<u8>, o: int, k: int) -> u16 {
    bytes::le16(b, o + k / 15 * 32 + 2 + k % 15 * 2)
}

/// UTF-8 of the units from `k` to `units - 1` of a name.
pub open spec fn name_from(b: Seq<u8>, o: int, k: int, units: int) -> Seq<u8>
    decreases units - k,
{
    if k >= units {
        Seq::empty()
    } else {
        utf8_of(unit_at(b, o, k)) + name_from(b, o, k + 1, units)
    }
}

/// A name cut to what a listing holds.
pub open spec fn cut(s: Seq<u8>) -> Seq<u8> {
    if s.len() <= DIR_LONG_MAX {
        s
    } else {
        s.subrange(0, DIR_LONG_MAX as int)
    }
}

/// The set at entry `i` of a cluster of `per` entries, as many entries after the first as that
/// says.
pub open spec fn parse(b: Seq<u8>, i: int, per: int) -> Option<EntryView> {
    parse_set(b, i, per, b[i * 32 + 1] as int)
}

/// The set of an entry and `sec` entries after it at entry `i` of a cluster of `per` entries.
pub open spec fn parse_set(b: Seq<u8>, i: int, per: int, sec: int) -> Option<EntryView> {
    let f = i * 32;
    let units = b[f + 35] as int;
    if sec < 2 || i + 1 + sec > per || b[f + 32] != EXFAT_TYPE_STREAM || units == 0 || 2 + (units
        + 14) / 15 > 1 + sec || bytes::le16(b, f + 2) != set_sum(
        b.subrange(f, f + (1 + sec) * 32),
        (1 + sec) * 32,
    ) {
        None
    } else {
        Some(
            EntryView {
                is_dir: bytes::le16(b, f + 4) / 16 % 2 == 1,
                contiguous: b[f + 33] / 2 % 2 == 1,
                first: bytes::le32(b, f + 52),
                size: bytes::le64(b, f + 56),
                valid: bytes::le64(b, f + 40),
                mtime: calendar::time_of(bytes::le32(b, f + 12), b[f + 21]),
                name: cut(name_from(b, f + 64, 0, units)),
            },
        )
    }
}

/// The number of the entry after the one at `i`, a set taken as one.
pub open spec fn after(b: Seq<u8>, i: int) -> int {
    if b[i * 32] == EXFAT_TYPE_FILE {
        i + 1 + b[i * 32 + 1]
    } else {
        i + 1
    }
}

/// The set with name `want` in a cluster, from entry `i` on: where it is, and what it says.
pub open spec fn find_in(b: Seq<u8>, i: int, per: int, want: Seq<u8>) -> Option<(int, EntryView)>
    decreases per - i,
{
    if i >= per || b[i * 32] == EXFAT_TYPE_UNUSED {
        None
    } else if b[i * 32] == EXFAT_TYPE_FILE && parse(b, i, per) is Some
        && bytes::same_ignoring_case(parse(b, i, per)->Some_0.name, want) {
        Some((i, parse(b, i, per)->Some_0))
    } else if after(b, i) >= per {
        None
    } else {
        find_in(b, after(b, i), per, want)
    }
}

/// The sets of a cluster from entry `i` on.
pub open spec fn sets_in(b: Seq<u8>, i: int, per: int) -> Seq<EntryView>
    decreases per - i,
{
    if i >= per || b[i * 32] == EXFAT_TYPE_UNUSED {
        Seq::empty()
    } else {
        let here = if b[i * 32] == EXFAT_TYPE_FILE {
            match parse(b, i, per) {
                Some(e) => seq![e],
                None => Seq::empty(),
            }
        } else {
            Seq::empty()
        };
        if after(b, i) >= per {
            here
        } else {
            here + sets_in(b, after(b, i), per)
        }
    }
}

/// Whether entries `i` to `i + need - 1` are free.
pub open spec fn all_free(b: Seq<u8>, i: int, need: int) -> bool
    decreases need,
{
    need <= 0 || (b[(i + need - 1) * 32] < 128 && all_free(b, i, need - 1))
}

/// The first of `need` free entries of a cluster, from entry `i` on.
pub open spec fn slot_in(b: Seq<u8>, i: int, per: int, need: int) -> Option<int>
    decreases per - i,
{
    if i >= per {
        None
    } else if b[i * 32] >= 128 {
        if after(b, i) >= per {
            None
        } else {
            slot_in(b, after(b, i), per, need)
        }
    } else if i + need <= per && all_free(b, i, need) {
        Some(i)
    } else {
        slot_in(b, i + 1, per, need)
    }
}

/// The first unused entry of a cluster from `i` on; `per` where there is none.
pub open spec fn unused_from(b: Seq<u8>, i: int, per: int) -> int
    decreases per - i,
{
    if i >= per || b[i * 32] == EXFAT_TYPE_UNUSED {
        i
    } else {
        unused_from(b, i + 1, per)
    }
}

/// A cluster with its entries from `i` on filled.
pub open spec fn fill_from(b: Seq<u8>, i: int, per: int) -> Seq<u8>
    decreases per - i,
{
    if i >= per {
        b
    } else {
        fill_from(b.update(i * 32, EXFAT_FILLER), i + 1, per)
    }
}

/// A cluster with the `n` entries from `i` on marked deleted.
pub open spec fn delete_from(b: Seq<u8>, i: int, n: int) -> Seq<u8>
    decreases n,
{
    if n <= 0 {
        b
    } else {
        delete_from(b.update(i * 32, (b[i * 32] % 128) as u8), i + 1, n - 1)
    }
}

/// The UTF-16 units of a name from byte `i` on, after `out`. Names with characters beyond
/// the first plane, broken ones, empty ones and ones of more than 255 units have none.
pub open spec fn units_from(name: Seq<u8>, i: int, out: Seq<u16>) -> Option<Seq<u16>>
    decreases name.len() - i,
{
    if i >= name.len() {
        if out.len() == 0 {
            None
        } else {
            Some(out)
        }
    } else if out.len() >= 255 {
        None
    } else if name[i] < 0x80 {
        units_from(name, i + 1, out.push(name[i] as u16))
    } else if name[i] / 32 == 6 && i + 1 < name.len() {
        units_from(
            name,
            i + 2,
            out.push((name[i] % 32 * 64 + name[i + 1] % 64) as u16),
        )
    } else if name[i] / 16 == 14 && i + 2 < name.len() {
        units_from(
            name,
            i + 3,
            out.push(
                (name[i] % 16 * 4096 + name[i + 1] % 64 * 64 + name[i + 2] % 64) as u16,
            ),
        )
    } else {
        None
    }
}

/// The UTF-16 units of a name.
pub open spec fn units_of(name: Seq<u8>) -> Option<Seq<u16>> {
    units_from(name, 0, Seq::empty())
}

/// The units from `k` on written into the name entries of a set.
pub open spec fn put_units(b: Seq<u8>, units: Seq<u16>, k: int) -> Seq<u8>
    decreases units.len() - k,
{
    if k >= units.len() {
        b
    } else {
        let o = (2 + k / 15) * 32;
        put_units(
            bytes::put16(b.update(o, EXFAT_TYPE_NAME), o + 2 + k % 15 * 2, units[k]),
            units,
            k + 1,
        )
    }
}

/// The file entry and the stream extension of a set.
pub open spec fn set_head(b: Seq<u8>, e: EntryView, units: int, hash: u16) -> Seq<u8> {
    let (ts, hu) = calendar::stamp_of(e.mtime);
    let b1 = bytes::put16(
        b.update(0, EXFAT_TYPE_FILE).update(1, (1 + (units + 14) / 15) as u8),
        4,
        if e.is_dir {
            EXFAT_ATTR_DIR
        } else {
            EXFAT_ATTR_ARCHIVE
        },
    );
    let b2 = bytes::put32(bytes::put32(bytes::put32(b1, 8, ts), 12, ts), 16, ts).update(
        20,
        hu,
    ).update(21, hu);
    let b3 = b2.update(32, EXFAT_TYPE_STREAM).update(
        33,
        if e.contiguous {
            3
        } else {
            1
        },
    ).update(35, units as u8);
    bytes::put64(
        bytes::put32(bytes::put64(bytes::put16(b3, 36, hash), 40, e.valid), 52, e.first),
        56,
        e.size,
    )
}

impl ExfatView {
    /// Hash of the first `n` units of a name in upper case.
    pub open spec fn hash_to(self, units: Seq<u16>, n: int) -> u16
        decreases n,
    {
        if n <= 0 {
            0
        } else {
            sum16(self.hash_to(units, n - 1), self.upcase(units[n - 1]) as int)
        }
    }

    /// Hash of a name.
    pub open spec fn name_hash(self, units: Seq<u16>) -> u16 {
        sum16(self.hash_to(units, units.len() as int), 0)
    }

    /// The set of a file with the given name.
    #[verifier::opaque]
    pub open spec fn build_set(self, name: Seq<u8>, e: EntryView) -> Option<Seq<u8>> {
        match units_of(name) {
            None => None,
            Some(units) => {
                let total: int = 2 + (units.len() as int + 14) / 15;
                let b = put_units(
                    set_head(
                        bytes::zeros(total * 32),
                        e,
                        units.len() as int,
                        self.name_hash(units),
                    ),
                    units,
                    0,
                );
                Some(bytes::put16(b, 2, set_sum(b, total * 32)))
            },
        }
    }

    /// The set with name `want` in the directory chain from `cl` on.
    pub open spec fn locate_from(self, cl: u32, guard: int, want: Seq<u8>) -> Option<
        (u32, int, int, EntryView),
    >
        decreases 0x2_0000_0000 - guard,
    {
        if cl < 2 || guard > self.geo.count + 1 {
            None
        } else {
            match self.rd_cl(cl) {
                None => None,
                Some(b) => match find_in(b, 0, self.geo.per(), want) {
                    Some((i, e)) => Some((cl, i, b[i * 32 + 1] as int, e)),
                    None => match self.fat_get(cl) {
                        None => None,
                        Some(next) => if exfat::is_end(next) {
                            None
                        } else {
                            self.locate_from(next, guard + 1, want)
                        },
                    },
                },
            }
        }
    }

    /// The set with name `want` in a directory.
    pub open spec fn locate(self, dir: u32, want: Seq<u8>) -> Option<(u32, int, int, EntryView)> {
        self.locate_from(dir, 0, want)
    }

    /// What a directory says of the file with name `want`.
    pub open spec fn lookup(self, dir: u32, want: Seq<u8>) -> Option<EntryView> {
        match self.locate(dir, want) {
            Some((cl, i, sec, e)) => Some(e),
            None => None,
        }
    }

    /// The sets in the directory chain from `cl` on after `out`, up to `max`; and whether the
    /// directory could be read as far as it had to be.
    pub open spec fn sets_from(self, cl: u32, guard: int, max: int, out: Seq<EntryView>) -> (
        Seq<EntryView>,
        bool,
    )
        decreases 0x2_0000_0000 - guard,
    {
        if cl < 2 || guard > self.geo.count + 1 {
            (out, true)
        } else {
            match self.rd_cl(cl) {
                None => (out, false),
                Some(b) => {
                    let all = out + sets_in(b, 0, self.geo.per());
                    if all.len() > max {
                        (all.subrange(0, max), true)
                    } else {
                        match self.fat_get(cl) {
                            None => (all, false),
                            Some(next) => if exfat::is_end(next) {
                                (all, true)
                            } else {
                                self.sets_from(next, guard + 1, max, all)
                            },
                        }
                    }
                },
            }
        }
    }

    /// Room for `need` entries in the directory chain from `cl` on.
    pub open spec fn slot_from(self, cl: u32, guard: int, need: int) -> Option<(u32, int)>
        decreases 0x2_0000_0000 - guard,
    {
        if cl < 2 || guard > self.geo.count + 1 {
            None
        } else {
            match self.rd_cl(cl) {
                None => None,
                Some(b) => match slot_in(b, 0, self.geo.per(), need) {
                    Some(i) => Some((cl, i)),
                    None => match self.fat_get(cl) {
                        None => None,
                        Some(next) => if exfat::is_end(next) {
                            None
                        } else {
                            self.slot_from(next, guard + 1, need)
                        },
                    },
                },
            }
        }
    }

    /// The unused entries of a cluster filled.
    #[verifier::opaque]
    pub open spec fn fill_cluster(self, cl: u32) -> (ExfatView, bool) {
        match self.rd_cl(cl) {
            None => (self, false),
            Some(b) => {
                let i = unused_from(b, 0, self.geo.per());
                if i < self.geo.per() {
                    self.wr_cl(cl, fill_from(b, i, self.geo.per()))
                } else {
                    (self, true)
                }
            },
        }
    }

    /// A cluster taken and cleared.
    #[verifier::opaque]
    pub open spec fn alloc_clear(self) -> (ExfatView, Option<u32>) {
        match self.alloc_cluster() {
            (s, None) => (s, None),
            (s, Some(cl)) => {
                let (t, ok) = s.wr_cl(cl, bytes::zeros(s.geo.cb()));
                if ok {
                    (t, Some(cl))
                } else {
                    (t, None)
                }
            },
        }
    }

    /// A directory extended by a cluster. What is left unused of its last one is filled
    /// first: nothing may follow an unused entry.
    #[verifier::opaque]
    pub open spec fn dir_grow(self, dir: u32) -> (ExfatView, bool) {
        match self.tail_from(dir, 0, self.geo.count + 1) {
            None => (self, false),
            Some((last, n)) => {
                let (s, ok) = self.fill_cluster(last);
                if !ok {
                    (s, false)
                } else {
                    match s.alloc_clear() {
                        (t, None) => (t, false),
                        (t, Some(cl)) => t.fat_set(last, cl),
                    }
                }
            },
        }
    }

    /// A set put at entry `i` of cluster `cl`.
    #[verifier::opaque]
    pub open spec fn put_set(self, cl: u32, i: int, set: Seq<u8>) -> (ExfatView, bool) {
        if i * 32 + set.len() > self.geo.cb() {
            (self, false)
        } else {
            match self.rd_cl(cl) {
                None => (self, false),
                Some(b) => self.wr_cl(cl, bytes::splice(b, i * 32, set)),
            }
        }
    }

    /// The `n` entries from `i` on of cluster `cl` marked deleted.
    #[verifier::opaque]
    pub open spec fn del_set(self, cl: u32, i: int, n: int) -> (ExfatView, bool) {
        if (i + n) * 32 > self.geo.cb() {
            (self, false)
        } else {
            match self.rd_cl(cl) {
                None => (self, false),
                Some(b) => self.wr_cl(cl, delete_from(b, i, n)),
            }
        }
    }

    /// The set of file `name` in a directory written anew; it must keep its length.
    #[verifier::opaque]
    pub open spec fn rewrite_set(self, dir: u32, name: Seq<u8>, e: EntryView) -> (ExfatView, bool) {
        match self.locate(dir, name) {
            None => (self, false),
            Some((cl, i, sec, old)) => match self.build_set(name, e) {
                None => (self, false),
                Some(set) => if set.len() != (1 + sec) * 32 {
                    (self, false)
                } else {
                    self.put_set(cl, i, set)
                },
            },
        }
    }

    /// Room for `need` entries in a directory, which is extended where it has none.
    #[verifier::opaque]
    pub open spec fn make_room(self, dir: u32, need: int) -> (ExfatView, Option<(u32, int)>) {
        match self.slot_from(dir, 0, need) {
            Some(x) => (self, Some(x)),
            None => {
                let (s, ok) = self.dir_grow(dir);
                if ok {
                    (s, s.slot_from(dir, 0, need))
                } else {
                    (s, None)
                }
            },
        }
    }
}

/// The listing record of a file.
pub open spec fn record_of(e: EntryView) -> DirEntryView {
    DirEntryView {
        mtime: e.mtime,
        ..DirEntryView::plain(
            ext2::short_name(e.name),
            ext2::long_name(e.name),
            if e.is_dir {
                0
            } else {
                e.size
            },
            e.is_dir,
        )
    }
}

/// What a set says of a file.
pub struct ExfatEntry {
    pub is_dir: bool,
    pub contiguous: bool,
    pub first: u32,
    pub size: u64,
    pub valid: u64,
    pub mtime: u64,
    pub name: Vec<u8>,
}

impl ExfatEntry {
    pub open spec fn view(&self) -> EntryView {
        EntryView {
            is_dir: self.is_dir,
            contiguous: self.contiguous,
            first: self.first,
            size: self.size,
            valid: self.valid,
            mtime: self.mtime,
            name: self.name@,
        }
    }
}

/// The contents of a list of entries.
pub open spec fn entries(v: Seq<ExfatEntry>) -> Seq<EntryView> {
    Seq::new(v.len(), |i: int| v[i]@)
}

/// The next value of a rotating 16-bit sum.
pub fn step16(h: u16, v: u16) -> (r: u16)
    ensures
        r == sum16(h, v as int),
{
    let top: u32 = if h % 2 == 1 {
        0x8000
    } else {
        0
    };
    ((top + (h / 2) as u32 + v as u32) % 0x1_0000) as u16
}

/// The next value of a rotating 32-bit sum.
pub fn step32(h: u32, v: u8) -> (r: u32)
    ensures
        r == sum32(h, v as int),
{
    let top: u64 = if h % 2 == 1 {
        0x8000_0000
    } else {
        0
    };
    ((top + (h / 2) as u64 + v as u64) % 0x1_0000_0000) as u32
}

/// Checksum of a set.
pub fn exfat_set_checksum(s: &[u8]) -> (r: u16)
    ensures
        r == set_sum(s@, s@.len() as int),
{
    let mut h: u16 = 0;
    let mut i: usize = 0;
    while i < s.len()
        invariant
            i <= s.len(),
            h == set_sum(s@, i as int),
        decreases s.len() - i,
    {
        if i != 2 && i != 3 {
            h = step16(h, s[i] as u16);
        }
        i = i + 1;
    }
    h
}

/// UTF-8 of a UTF-16 unit.
pub fn exfat_utf16_to_utf8(c: u16) -> (r: Vec<u8>)
    ensures
        r@ == utf8_of(c),
{
    let r: Vec<u8> = if c < 0x80 {
        vec![c as u8]
    } else if c < 0x800 {
        vec![(0xC0 + c / 64) as u8, (0x80 + c % 64) as u8]
    } else {
        vec![(0xE0 + c / 4096) as u8, (0x80 + c / 64 % 64) as u8, (0x80 + c % 64) as u8]
    };
    assert(r@ =~= utf8_of(c));
    r
}

/// The name that starts at byte `o`.
#[verifier::loop_isolation(false)]
pub fn exfat_read_name(b: &Vec<u8>, o: usize, units: usize) -> (r: Vec<u8>)
    requires
        units <= 255,
        o + (units + 14) / 15 * 32 <= b.len(),
    ensures
        r@ == cut(name_from(b@, o as int, 0, units as int)),
{
    let ghost goal = name_from(b@, o as int, 0, units as int);
    let mut out: Vec<u8> = Vec::new();
    let mut k: usize = 0;
    assert(out@ + goal =~= goal);
    while k < units
        invariant
            k <= units,
            out.len() <= 3 * k,
            out@ + name_from(b@, o as int, k as int, units as int) == goal,
        decreases units - k,
    {
        let c: u16 = bytes::read_u16(b, o + k / 15 * 32 + 2 + k % 15 * 2);
        let mut part: Vec<u8> = exfat_utf16_to_utf8(c);
        let ghost before = out@;
        let ghost p = part@;
        out.append(&mut part);
        k = k + 1;
        assert(out@ + name_from(b@, o as int, k as int, units as int) =~= before + (p + name_from(
            b@,
            o as int,
            k as int,
            units as int,
        )));
    }
    assert(out@ + Seq::empty() =~= out@);
    if out.len() > DIR_LONG_MAX {
        out.truncate(DIR_LONG_MAX);
        assert(out@ =~= goal.subrange(0, DIR_LONG_MAX as int));
    }
    out
}

/// The set at entry `i` of a cluster.
pub fn exfat_parse_file_set(b: &Vec<u8>, i: usize, per: usize, sec: usize) -> (r: Option<ExfatEntry>)
    requires
        b.len() == per * 32,
        per <= 8192,
        i < per,
    ensures
        match r {
            Some(e) => parse_set(b@, i as int, per as int, sec as int) == Some(e@),
            None => parse_set(b@, i as int, per as int, sec as int) is None,
        },
{
    let f: usize = i * 32;
    if sec < 2 || sec > per || i + 1 + sec > per {
        return None;
    }
    let units: usize = b[f + 35] as usize;
    if b[f + 32] != EXFAT_TYPE_STREAM || units == 0 || 2 + (units + 14) / 15 > 1 + sec {
        return None;
    }
    let set: Vec<u8> = bytes::slice_copy(b, f, f + (1 + sec) * 32);
    if bytes::read_u16(b, f + 2) != exfat_set_checksum(&set) {
        return None;
    }
    let e = ExfatEntry {
        is_dir: bytes::read_u16(b, f + 4) / 16 % 2 == 1,
        contiguous: b[f + 33] / 2 % 2 == 1,
        first: bytes::read_u32(b, f + 52),
        size: bytes::read_u64(b, f + 56),
        valid: bytes::read_u64(b, f + 40),
        mtime: calendar::exfat_decode_time(bytes::read_u32(b, f + 12), b[f + 21]),
        name: exfat_read_name(b, f + 64, units),
    };
    Some(e)
}

/// The number of the entry after the one at `i`.
fn next_entry(b: &Vec<u8>, i: usize) -> (r: usize)
    requires
        i * 32 + 32 <= b.len(),
        b.len() <= 262144,
    ensures
        r == after(b@, i as int),
        i < r <= i + 256,
{
    if b[i * 32] == EXFAT_TYPE_FILE {
        i + 1 + b[i * 32 + 1] as usize
    } else {
        i + 1
    }
}

/// Searches a cluster for a set.
#[verifier::loop_isolation(false)]
fn find_set(b: &Vec<u8>, per: usize, want: &Vec<u8>) -> (r: Option<(usize, ExfatEntry)>)
    requires
        b.len() == per * 32,
        per <= 8192,
    ensures
        match r {
            Some((i, e)) => find_in(b@, 0, per as int, want@) == Some((i as int, e@)) && i < per,
            None => find_in(b@, 0, per as int, want@) is None,
        },
{
    let ghost goal = find_in(b@, 0, per as int, want@);
    let mut i: usize = 0;
    while i < per
        invariant
            i <= per + 256,
            i >= per ==> goal is None,
            i < per ==> find_in(b@, i as int, per as int, want@) == goal,
        decreases per + 256 - i,
    {
        let t: u8 = b[i * 32];
        if t == EXFAT_TYPE_UNUSED {
            return None;
        }
        if t == EXFAT_TYPE_FILE {
            match exfat_parse_file_set(b, i, per, b[i * 32 + 1] as usize) {
                Some(e) => {
                    if bytes::name_eq(&e.name, want, true) {
                        return Some((i, e));
                    }
                },
                None => {},
            }
        }
        i = next_entry(b, i);
    }
    None
}

/// Adds the sets of a cluster to a list.
#[verifier::loop_isolation(false)]
fn add_sets(b: &Vec<u8>, per: usize, out: &mut Vec<ExfatEntry>)
    requires
        b.len() == per * 32,
        per <= 8192,
    ensures
        entries(final(out)@) == entries(old(out)@) + sets_in(b@, 0, per as int),
{
    let ghost goal = entries(old(out)@) + sets_in(b@, 0, per as int);
    let mut i: usize = 0;
    while i < per
        invariant
            i <= per + 256,
            i >= per ==> entries(out@) == goal,
            i < per ==> entries(out@) + sets_in(b@, i as int, per as int) == goal,
        decreases per + 256 - i,
    {
        let t: u8 = b[i * 32];
        if t == EXFAT_TYPE_UNUSED {
            assert(entries(out@) + Seq::empty() =~= entries(out@));
            return;
        }
        let ghost before = entries(out@);
        let ghost mut here: Seq<EntryView> = Seq::empty();
        if t == EXFAT_TYPE_FILE {
            match exfat_parse_file_set(b, i, per, b[i * 32 + 1] as usize) {
                Some(e) => {
                    proof {
                        here = seq![e@];
                    }
                    out.push(e);
                },
                None => {},
            }
        }
        assert(entries(out@) =~= before + here);
        let ghost at = i as int;
        i = next_entry(b, i);
        proof {
            if i < per {
                assert(before + (here + sets_in(b@, i as int, per as int)) =~= (before + here)
                    + sets_in(b@, i as int, per as int));
            } else {
                assert(sets_in(b@, at, per as int) =~= here);
            }
        }
    }
}

/// Whether `need` entries are free.
fn run_free(b: &Vec<u8>, i: usize, need: usize) -> (r: bool)
    requires
        (i + need) * 32 <= b.len(),
    ensures
        r == all_free(b@, i as int, need as int),
{
    let mut k: usize = 0;
    while k < need
        invariant
            k <= need,
            (i + need) * 32 <= b.len(),
            all_free(b@, i as int, k as int),
        decreases need - k,
    {
        if b[(i + k) * 32] >= 128 {
            proof {
                lemma_not_free(b@, i as int, need as int, k as int);
            }
            return false;
        }
        k = k + 1;
    }
    true
}

/// One entry in use is enough.
proof fn lemma_not_free(b: Seq<u8>, i: int, need: int, k: int)
    requires
        0 <= k < need,
        b[(i + k) * 32] >= 128,
    ensures
        !all_free(b, i, need),
    decreases need,
{
    if k < need - 1 {
        lemma_not_free(b, i, need - 1, k);
    }
}

/// Searches a cluster for room.
#[verifier::loop_isolation(false)]
fn find_slot(b: &Vec<u8>, per: usize, need: usize) -> (r: Option<usize>)
    requires
        b.len() == per * 32,
        per <= 8192,
        need <= 8192,
    ensures
        match r {
            Some(i) => slot_in(b@, 0, per as int, need as int) == Some(i as int) && i < per,
            None => slot_in(b@, 0, per as int, need as int) is None,
        },
{
    let ghost goal = slot_in(b@, 0, per as int, need as int);
    let mut i: usize = 0;
    while i < per
        invariant
            i <= per + 256,
            i >= per ==> goal is None,
            i < per ==> slot_in(b@, i as int, per as int, need as int) == goal,
        decreases per + 256 - i,
    {
        if b[i * 32] >= 128 {
            i = next_entry(b, i);
        } else {
            if i + need <= per {
                if run_free(b, i, need) {
                    return Some(i);
                }
            }
            i = i + 1;
        }
    }
    None
}

/// The UTF-16 units of a name.
#[verifier::loop_isolation(false)]
pub fn exfat_encode_name(name: &Vec<u8>) -> (r: Option<Vec<u16>>)
    ensures
        match r {
            Some(u) => units_of(name@) == Some(u@) && 1 <= u.len() <= 255,
            None => units_of(name@) is None,
        },
{
    let ghost goal = units_of(name@);
    let mut out: Vec<u16> = Vec::new();
    assert(out@ =~= Seq::empty());
    let mut i: usize = 0;
    while i < name.len()
        invariant
            i <= name.len(),
            out.len() <= 255,
            units_from(name@, i as int, out@) == goal,
        decreases name.len() - i,
    {
        if out.len() >= 255 {
            return None;
        }
        let b: u8 = name[i];
        if b < 0x80 {
            out.push(b as u16);
            i = i + 1;
        } else if b / 32 == 6 && name.len() - i >= 2 {
            out.push((b % 32) as u16 * 64 + (name[i + 1] % 64) as u16);
            i = i + 2;
        } else if b / 16 == 14 && name.len() - i >= 3 {
            out.push(
                (b % 16) as u16 * 4096 + (name[i + 1] % 64) as u16 * 64 + (name[i + 2] % 64) as u16,
            );
            i = i + 3;
        } else {
            return None;
        }
    }
    if out.len() == 0 {
        None
    } else {
        Some(out)
    }
}

/// Writes the file entry and the stream extension of a set.
fn write_head(b: &mut Vec<u8>, e: &ExfatEntry, units: usize, hash: u16)
    requires
        old(b).len() >= 64,
        units <= 255,
    ensures
        final(b)@ == set_head(old(b)@, e@, units as int, hash),
        final(b).len() == old(b).len(),
{
    let (ts, hu): (u32, u8) = calendar::exfat_encode_time(e.mtime);
    b.set(0, EXFAT_TYPE_FILE);
    b.set(1, (1 + (units + 14) / 15) as u8);
    bytes::write_u16(
        b,
        4,
        if e.is_dir {
            EXFAT_ATTR_DIR
        } else {
            EXFAT_ATTR_ARCHIVE
        },
    );
    bytes::write_u32(b, 8, ts);
    bytes::write_u32(b, 12, ts);
    bytes::write_u32(b, 16, ts);
    b.set(20, hu);
    b.set(21, hu);
    b.set(32, EXFAT_TYPE_STREAM);
    b.set(
        33,
        if e.contiguous {
            3
        } else {
            1
        },
    );
    b.set(35, units as u8);
    bytes::write_u16(b, 36, hash);
    bytes::write_u64(b, 40, e.valid);
    bytes::write_u32(b, 52, e.first);
    bytes::write_u64(b, 56, e.size);
}

/// The listing record of a file.
pub fn exfat_make_direntry(e: &ExfatEntry) -> (r: DirEntry)
    ensures
        r@ == record_of(e@),
{
    let short: Vec<u8> = ext2::ext2_short_name(&e.name);
    let long: Vec<u8> = ext2::ext2_copy_long(&e.name);
    let mut d: DirEntry = DirEntry::plain(
        short,
        long,
        if e.is_dir {
            0
        } else {
            e.size
        },
        e.is_dir,
    );
    d.mtime = e.mtime;
    d
}

impl Exfat {
    /// Entries of a cluster.
    fn per(&self) -> (r: usize)
        requires
            self.inv(),
        ensures
            r == self.geo.per(),
            r <= 8192,
            self.geo.cb() == r * 32,
    {
        self.geo.spc as usize * 16
    }

    /// Hash of a name.
    pub fn exfat_name_hash(&self, units: &Vec<u16>) -> (r: u16)
        requires
            self.inv(),
        ensures
            r == self@.name_hash(units@),
    {
        let mut h: u16 = 0;
        let mut i: usize = 0;
        while i < units.len()
            invariant
                i <= units.len(),
                self.inv(),
                h == self@.hash_to(units@, i as int),
            decreases units.len() - i,
        {
            let u: u16 = self.exfat_upcase_unit(units[i]);
            h = step16(h, u);
            i = i + 1;
        }
        step16(h, 0)
    }

    /// The set of a file.
    #[verifier::loop_isolation(false)]
    pub fn exfat_build_set(&self, name: &Vec<u8>, e: &ExfatEntry) -> (r: Option<Vec<u8>>)
        requires
            self.inv(),
        ensures
            bytes::opt(r) == self@.build_set(name@, e@),
            r matches Some(s) ==> s.len() <= 19 * 32 && s.len() >= 96 && s.len() % 32 == 0,
    {
        proof {
            reveal(ExfatView::build_set);
        }
        let units: Vec<u16> = match exfat_encode_name(name) {
            Some(u) => u,
            None => {
                return None;
            },
        };
        let total: usize = 2 + (units.len() + 14) / 15;
        let hash: u16 = self.exfat_name_hash(&units);
        let mut b: Vec<u8> = bytes::zero_vec(total * 32);
        write_head(&mut b, e, units.len(), hash);
        let ghost goal = put_units(b@, units@, 0);
        let mut k: usize = 0;
        while k < units.len()
            invariant
                k <= units.len(),
                b.len() == total * 32,
                put_units(b@, units@, k as int) == goal,
            decreases units.len() - k,
        {
            let o: usize = (2 + k / 15) * 32;
            assert(k / 15 < total - 2);
            b.set(o, EXFAT_TYPE_NAME);
            bytes::write_u16(&mut b, o + 2 + k % 15 * 2, units[k]);
            k = k + 1;
        }
        let sum: u16 = exfat_set_checksum(&b);
        bytes::write_u16(&mut b, 2, sum);
        Some(b)
    }

    /// The set with name `want` in a directory.
    #[verifier::loop_isolation(false)]
    pub fn exfat_dir_locate(&self, dir: u32, want: &Vec<u8>) -> (r: Option<(ExfatLoc, ExfatEntry)>)
        requires
            self.inv(),
        ensures
            match r {
                Some((l, e)) => self@.locate(dir, want@) == Some(
                    (l.cluster, l.index as int, l.sec_count as int, e@),
                ) && l.index < 8192 && l.sec_count <= 255,
                None => self@.locate(dir, want@) is None,
            },
    {
        let per: usize = self.per();
        let ghost goal = self@.locate(dir, want@);
        let mut cl: u32 = dir;
        let mut guard: u32 = 0;
        while cl >= 2 && guard <= self.geo.count + 1
            invariant
                guard <= self.geo.count + 2,
                self@.locate_from(cl, guard as int, want@) == goal,
            decreases self.geo.count + 3 - guard,
        {
            let b: Vec<u8> = match self.exfat_read_cluster(cl) {
                Some(b) => b,
                None => {
                    return None;
                },
            };
            match find_set(&b, per, want) {
                Some((i, e)) => {
                    return Some(
                        (
                            ExfatLoc {
                                cluster: cl,
                                index: i,
                                sec_count: b[i * 32 + 1] as usize,
                            },
                            e,
                        ),
                    );
                },
                None => {},
            }
            let next: u32 = match self.exfat_fat_get(cl) {
                Some(v) => v,
                None => {
                    return None;
                },
            };
            if exfat::exfat_is_eoc(next) {
                return None;
            }
            cl = next;
            guard = guard + 1;
        }
        None
    }

    /// What a directory says of a file.
    pub fn exfat_dir_lookup(&self, dir: u32, want: &Vec<u8>) -> (r: Option<ExfatEntry>)
        requires
            self.inv(),
        ensures
            match r {
                Some(e) => self@.lookup(dir, want@) == Some(e@),
                None => self@.lookup(dir, want@) is None,
            },
    {
        match self.exfat_dir_locate(dir, want) {
            Some((_loc, e)) => Some(e),
            None => None,
        }
    }

    /// The sets of a directory, at most `max`.
    #[verifier::loop_isolation(false)]
    pub fn exfat_dir_scan(&self, dir: u32, max: usize) -> (r: (Vec<ExfatEntry>, bool))
        requires
            self.inv(),
        ensures
            (entries(r.0@), r.1) == self@.sets_from(dir, 0, max as int, Seq::empty()),
    {
        let per: usize = self.per();
        let ghost goal = self@.sets_from(dir, 0, max as int, Seq::empty());
        let mut out: Vec<ExfatEntry> = Vec::new();
        assert(entries(out@) =~= Seq::empty());
        let mut cl: u32 = dir;
        let mut guard: u32 = 0;
        while cl >= 2 && guard <= self.geo.count + 1
            invariant
                guard <= self.geo.count + 2,
                self@.sets_from(cl, guard as int, max as int, entries(out@)) == goal,
            decreases self.geo.count + 3 - guard,
        {
            let b: Vec<u8> = match self.exfat_read_cluster(cl) {
                Some(b) => b,
                None => {
                    return (out, false);
                },
            };
            add_sets(&b, per, &mut out);
            if out.len() > max {
                let ghost all = entries(out@);
                out.truncate(max);
                assert(entries(out@) =~= all.subrange(0, max as int));
                return (out, true);
            }
            let next: u32 = match self.exfat_fat_get(cl) {
                Some(v) => v,
                None => {
                    return (out, false);
                },
            };
            if exfat::exfat_is_eoc(next) {
                return (out, true);
            }
            cl = next;
            guard = guard + 1;
        }
        (out, true)
    }

    /// Whether a directory holds no set; also where it cannot be read.
    pub fn exfat_dir_is_empty(&self, dir: u32) -> (r: bool)
        requires
            self.inv(),
        ensures
            r == (self@.sets_from(dir, 0, 1, Seq::empty()).0.len() == 0),
    {
        let (v, _ok): (Vec<ExfatEntry>, bool) = self.exfat_dir_scan(dir, 1);
        assert(entries(v@).len() == v@.len());
        v.len() == 0
    }

    /// Room for `need` entries in a directory.
    #[verifier::loop_isolation(false)]
    pub fn exfat_dir_find_slot(&self, dir: u32, need: usize) -> (r: Option<(u32, usize)>)
        requires
            self.inv(),
            need <= 8192,
        ensures
            match r {
                Some((c, i)) => self@.slot_from(dir, 0, need as int) == Some((c, i as int)) && i
                    < 8192,
                None => self@.slot_from(dir, 0, need as int) is None,
            },
    {
        let per: usize = self.per();
        let ghost goal = self@.slot_from(dir, 0, need as int);
        let mut cl: u32 = dir;
        let mut guard: u32 = 0;
        while cl >= 2 && guard <= self.geo.count + 1
            invariant
                guard <= self.geo.count + 2,
                self@.slot_from(cl, guard as int, need as int) == goal,
            decreases self.geo.count + 3 - guard,
        {
            let b: Vec<u8> = match self.exfat_read_cluster(cl) {
                Some(b) => b,
                None => {
                    return None;
                },
            };
            match find_slot(&b, per, need) {
                Some(i) => {
                    return Some((cl, i));
                },
                None => {},
            }
            let next: u32 = match self.exfat_fat_get(cl) {
                Some(v) => v,
                None => {
                    return None;
                },
            };
            if exfat::exfat_is_eoc(next) {
                return None;
            }
            cl = next;
            guard = guard + 1;
        }
        None
    }

    /// Fills the unused entries of a cluster.
    #[verifier::loop_isolation(false)]
    fn fill_cluster(&mut self, cl: u32) -> (r: bool)
        requires
            old(self).inv(),
        ensures
            final(self).inv(),
            (final(self)@, r) == old(self)@.fill_cluster(cl),
            final(self).geo == old(self).geo,
    {
        proof {
            reveal(ExfatView::fill_cluster);
        }
        let per: usize = self.per();
        let mut b: Vec<u8> = match self.exfat_read_cluster(cl) {
            Some(b) => b,
            None => {
                return false;
            },
        };
        let ghost b0 = b@;
        let mut i: usize = 0;
        while i < per && b[i * 32] != EXFAT_TYPE_UNUSED
            invariant
                i <= per,
                b@ == b0,
                unused_from(b@, i as int, per as int) == unused_from(b0, 0, per as int),
            decreases per - i,
        {
            i = i + 1;
        }
        if i >= per {
            return true;
        }
        let ghost goal = fill_from(b@, i as int, per as int);
        let mut k: usize = i;
        while k < per
            invariant
                k <= per,
                b.len() == per * 32,
                fill_from(b@, k as int, per as int) == goal,
            decreases per - k,
        {
            b.set(k * 32, EXFAT_FILLER);
            k = k + 1;
        }
        self.exfat_write_cluster(cl, &b)
    }

    /// Takes a cluster and clears it.
    pub fn alloc_clear(&mut self) -> (r: Option<u32>)
        requires
            old(self).inv(),
        ensures
            final(self).inv(),
            (final(self)@, r) == old(self)@.alloc_clear(),
            final(self).geo == old(self).geo,
    {
        proof {
            reveal(ExfatView::alloc_clear);
        }
        let cl: u32 = match self.exfat_alloc_cluster() {
            Some(c) => c,
            None => {
                return None;
            },
        };
        let z: Vec<u8> = bytes::zero_vec(self.geo.spc as usize * 512);
        if self.exfat_write_cluster(cl, &z) {
            Some(cl)
        } else {
            None
        }
    }

    /// Extends a directory by a cluster.
    pub fn exfat_dir_grow(&mut self, dir: u32) -> (r: bool)
        requires
            old(self).inv(),
        ensures
            final(self).inv(),
            (final(self)@, r) == old(self)@.dir_grow(dir),
            final(self).geo == old(self).geo,
    {
        proof {
            reveal(ExfatView::dir_grow);
        }
        let last: u32 = match self.tail_of(dir, 0) {
            Some((l, _n)) => l,
            None => {
                return false;
            },
        };
        if !self.fill_cluster(last) {
            return false;
        }
        match self.alloc_clear() {
            None => false,
            Some(cl) => self.exfat_fat_set(last, cl),
        }
    }

    /// Puts a set into a cluster.
    pub fn exfat_dir_put_set(&mut self, cl: u32, i: usize, set: &Vec<u8>) -> (r: bool)
        requires
            old(self).inv(),
            i <= 8192,
            set.len() <= 8192,
        ensures
            final(self).inv(),
            (final(self)@, r) == old(self)@.put_set(cl, i as int, set@),
            final(self).geo == old(self).geo,
    {
        proof {
            reveal(ExfatView::put_set);
        }
        if i * 32 + set.len() > self.geo.spc as usize * 512 {
            return false;
        }
        let mut b: Vec<u8> = match self.exfat_read_cluster(cl) {
            Some(b) => b,
            None => {
                return false;
            },
        };
        bytes::copy_into(&mut b, i * 32, set, 0, set.len());
        assert(set@.subrange(0, set@.len() as int) =~= set@);
        self.exfat_write_cluster(cl, &b)
    }

    /// Marks the entries of a set deleted.
    #[verifier::loop_isolation(false)]
    pub fn exfat_dir_del_set(&mut self, cl: u32, i: usize, n: usize) -> (r: bool)
        requires
            old(self).inv(),
            i <= 8192,
            n <= 8192,
        ensures
            final(self).inv(),
            (final(self)@, r) == old(self)@.del_set(cl, i as int, n as int),
            final(self).geo == old(self).geo,
    {
        proof {
            reveal(ExfatView::del_set);
        }
        if (i + n) * 32 > self.geo.spc as usize * 512 {
            return false;
        }
        let mut b: Vec<u8> = match self.exfat_read_cluster(cl) {
            Some(b) => b,
            None => {
                return false;
            },
        };
        let ghost len = b@.len();
        let ghost goal = delete_from(b@, i as int, n as int);
        let mut k: usize = 0;
        while k < n
            invariant
                k <= n,
                b@.len() == len,
                delete_from(b@, i + k, n - k) == goal,
            decreases n - k,
        {
            let v: u8 = b[(i + k) * 32] % 128;
            b.set((i + k) * 32, v);
            k = k + 1;
        }
        self.exfat_write_cluster(cl, &b)
    }

    /// Writes the set of a file anew.
    pub fn exfat_rewrite_set(&mut self, dir: u32, name: &Vec<u8>, e: &ExfatEntry) -> (r: bool)
        requires
            old(self).inv(),
        ensures
            final(self).inv(),
            (final(self)@, r) == old(self)@.rewrite_set(dir, name@, e@),
            final(self).geo == old(self).geo,
    {
        proof {
            reveal(ExfatView::rewrite_set);
        }
        let loc: ExfatLoc = match self.exfat_dir_locate(dir, name) {
            Some((l, _e)) => l,
            None => {
                return false;
            },
        };
        let set: Vec<u8> = match self.exfat_build_set(name, e) {
            Some(s) => s,
            None => {
                return false;
            },
        };
        if set.len() != (1 + loc.sec_count) * 32 {
            return false;
        }
        self.exfat_dir_put_set(loc.cluster, loc.index, &set)
    }

    /// Finds or makes room for `need` entries in a directory.
    pub fn make_room(&mut self, dir: u32, need: usize) -> (r: Option<(u32, usize)>)
        requires
            old(self).inv(),
            need <= 8192,
        ensures
            final(self).inv(),
            final(self)@ == old(self)@.make_room(dir, need as int).0,
            match (r, old(self)@.make_room(dir, need as int).1) {
                (Some((c, i)), Some((c2, i2))) => c == c2 && i == i2 && i < 8192,
                (None, None) => true,
                _ => false,
            },
            final(self).geo == old(self).geo,
    {
        proof {
            reveal(ExfatView::make_room);
        }
        match self.exfat_dir_find_slot(dir, need) {
            Some(x) => {
                return Some(x);
            },
            None => {},
        }
        if !self.exfat_dir_grow(dir) {
            return None;
        }
        self.exfat_dir_find_slot(dir, need)
    }
}

} // verus!
