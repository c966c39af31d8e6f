//! exFAT: geometry, the file allocation table, the allocation bitmap, cluster chains.
//!
//! Of the bitmap one sector is kept in memory; it is written when another one is needed
//! and at the end of each change.
use vstd::prelude::*;

use crate::bytes;
use crate::disk::{Store, StoreView};

verus! {

/// The volume taken where none holds an exFAT file system.
pub const EXFAT_VOL_FALLBACK: u64 = 5;

/// Largest exponent of the sectors per cluster.
pub const EXFAT_MAX_SPC_SHIFT: u8 = 9;

/// Table entry of a free cluster.
pub const EXFAT_FAT_FREE: u32 = 0;

/// Smallest table entry that ends a chain.
pub const EXFAT_FAT_EOC_MIN: u32 = 0xFFFF_FFF8;

/// Table entry that ends a chain.
pub const EXFAT_FAT_EOC: u32 = 0xFFFF_FFFF;

/// Bytes of a directory entry.
pub const EXFAT_DIR_ENTRY: usize = 32;

/// Entry type: none, and none after it in the cluster.
pub const EXFAT_TYPE_UNUSED: u8 = 0x00;

/// Entry type of the allocation bitmap.
pub const EXFAT_TYPE_BITMAP: u8 = 0x81;

/// Entry type of the upcase table.
pub const EXFAT_TYPE_UPCASE: u8 = 0x82;

/// Entry type of a file.
pub const EXFAT_TYPE_FILE: u8 = 0x85;

/// Entry type of a stream extension.
pub const EXFAT_TYPE_STREAM: u8 = 0xC0;

/// Entry type of a file name.
pub const EXFAT_TYPE_NAME: u8 = 0xC1;

/// The layout of a volume, in sectors, clusters and bytes.
#[derive(Clone, Copy)]
pub struct ExGeo {
    pub spc: u32,
    pub fat_off: u32,
    pub fat_len: u32,
    pub heap: u32,
    pub count: u32,
    pub root: u32,
    pub nfats: u32,
    pub bmp_cl: u32,
    pub bmp_bytes: u32,
    pub upc_cl: u32,
    pub upc_bytes: u32,
}

/// The numbers of sectors per cluster there are.
pub open spec fn spc_sizes() -> Seq<u32> {
    seq![2u32, 4, 8, 16, 32, 64, 128, 256, 512]
}

impl ExGeo {
    /// The layout is possible.
    pub open spec fn wf(self) -> bool {
        &&& spc_sizes().contains(self.spc)
        &&& 1 <= self.count <= 0xFFFF_FFFD
        &&& 1 <= self.nfats <= 2
    }

    /// Bytes of a cluster.
    pub open spec fn cb(self) -> int {
        self.spc * 512
    }

    /// Directory entries of a cluster.
    pub open spec fn per(self) -> int {
        self.spc * 16
    }
}

/// A mounted volume: its layout, where the search for a free cluster starts, and the
/// bitmap sector in memory.
#[verifier::ext_equal]
pub struct ExfatView {
    pub store: StoreView,
    pub vol: u64,
    pub geo: ExGeo,
    pub hint: u32,
    /// Number of the bitmap sector in memory.
    pub win: Option<u32>,
    pub win_lba: u32,
    pub win_buf: Seq<u8>,
    /// Whether it differs from the disk.
    pub dirty: bool,
    /// The time, in seconds since 1970.
    pub now: u64,
}

/// Whether a table entry ends a chain.
pub open spec fn is_end(v: u32) -> bool {
    v == EXFAT_FAT_FREE || v >= EXFAT_FAT_EOC_MIN
}

impl ExfatView {
    /// First sector of a cluster.
    pub open spec fn cluster_lba(self, cl: u32) -> u32 {
        bytes::w32(self.geo.heap + (cl - 2) * self.geo.spc)
    }

    /// Cluster `cl`.
    pub open spec fn rd_cl(self, cl: u32) -> Option<Seq<u8>> {
        if cl < 2 {
            None
        } else {
            self.store.read(self.vol, self.cluster_lba(cl), self.geo.spc as int)
        }
    }

    /// Cluster `cl` written.
    pub open spec fn wr_cl(self, cl: u32, data: Seq<u8>) -> (ExfatView, bool) {
        if cl < 2 {
            (self, false)
        } else {
            let (store, ok) = self.store.write(self.vol, self.cluster_lba(cl), data);
            (ExfatView { store, ..self }, ok)
        }
    }

    /// Sector of copy `idx` of the table that holds the entry of a cluster.
    pub open spec fn fat_lba(self, cl: u32, idx: int) -> u32 {
        bytes::w32(self.geo.fat_off + idx * self.geo.fat_len + cl / 128)
    }

    /// The table entry of a cluster.
    pub open spec fn fat_get(self, cl: u32) -> Option<u32> {
        match self.store.read(self.vol, self.fat_lba(cl, 0), 1) {
            None => None,
            Some(b) => Some(bytes::le32(b, cl as int % 128 * 4)),
        }
    }

    /// The table entry of a cluster set in copy `idx`.
    pub open spec fn fat_put(self, cl: u32, v: u32, idx: int) -> (ExfatView, bool) {
        match self.store.read(self.vol, self.fat_lba(cl, idx), 1) {
            None => (self, false),
            Some(b) => {
                let (store, ok) = self.store.write(
                    self.vol,
                    self.fat_lba(cl, idx),
                    bytes::put32(b, cl as int % 128 * 4, v),
                );
                (ExfatView { store, ..self }, ok)
            },
        }
    }

    /// The table entry of a cluster set in all copies.
    #[verifier::opaque]
    pub open spec fn fat_set(self, cl: u32, v: u32) -> (ExfatView, bool) {
        let (s, ok) = self.fat_put(cl, v, 0);
        if ok && self.geo.nfats >= 2 {
            s.fat_put(cl, v, 1)
        } else {
            (s, ok)
        }
    }

    /// The cluster `idx - i` steps behind `cl` in its chain.
    pub open spec fn nth_from(self, cl: u32, i: int, idx: int) -> Option<u32>
        decreases idx - i,
    {
        if i >= idx {
            Some(cl)
        } else {
            match self.fat_get(cl) {
                None => None,
                Some(n) => if is_end(n) || i + 1 > self.geo.count + 1 {
                    None
                } else {
                    self.nth_from(n, i + 1, idx)
                },
            }
        }
    }

    /// Cluster number `idx` of the chain that starts at `first`.
    pub open spec fn nth(self, first: u32, idx: int) -> Option<u32> {
        if first < 2 {
            None
        } else {
            self.nth_from(first, 0, idx)
        }
    }

    /// Sector `sec` of the chain that starts at `first`.
    pub open spec fn chain_lba(self, first: u32, sec: u32) -> Option<u32> {
        match self.nth(first, sec as int / (self.geo.spc as int)) {
            None => None,
            Some(cl) => Some(
                bytes::w32(self.cluster_lba(cl) + sec as int % (self.geo.spc as int)),
            ),
        }
    }

    /// The upper case of a UTF-16 unit, itself where the table does not say.
    pub open spec fn upcase(self, u: u16) -> u16 {
        if u * 2 + 2 > self.geo.upc_bytes {
            u
        } else {
            match self.chain_lba(self.geo.upc_cl, (u / 256) as u32) {
                None => u,
                Some(lba) => match self.store.read(self.vol, lba, 1) {
                    None => u,
                    Some(b) => bytes::le16(b, u as int % 256 * 2),
                },
            }
        }
    }

    /// The bitmap sector in memory written where it differs from the disk.
    pub open spec fn bmp_flush(self) -> (ExfatView, bool) {
        if !self.dirty {
            (self, true)
        } else {
            let (store, ok) = self.store.write(self.vol, self.win_lba, self.win_buf);
            if ok {
                (ExfatView { store, dirty: false, ..self }, true)
            } else {
                (ExfatView { store, ..self }, false)
            }
        }
    }

    /// The bitmap sector of a cluster fetched into memory; fails for a cluster that the
    /// bitmap does not describe.
    #[verifier::opaque]
    pub open spec fn bmp_fetch(self, cl: u32) -> (ExfatView, bool) {
        let byte = (cl - 2) / 8;
        let sec = (byte / 512) as u32;
        if cl < 2 || byte >= self.geo.bmp_bytes {
            (self, false)
        } else if self.win == Some(sec) {
            (self, true)
        } else {
            let (s, ok) = self.bmp_flush();
            if !ok {
                (s, false)
            } else {
                match s.chain_lba(s.geo.bmp_cl, sec) {
                    None => (s, false),
                    Some(lba) => match s.store.read(s.vol, lba, 1) {
                        None => (s, false),
                        Some(b) => (
                            ExfatView { win: Some(sec), win_lba: lba, win_buf: b, ..s },
                            true,
                        ),
                    },
                }
            }
        }
    }

    /// Whether a cluster is in use; not where the bitmap cannot be read.
    #[verifier::opaque]
    pub open spec fn bmp_get(self, cl: u32) -> (ExfatView, bool) {
        let (s, ok) = self.bmp_fetch(cl);
        (s, ok && bytes::bit_at(s.win_buf[(cl - 2) / 8 % 512], (cl - 2) % 8))
    }

    /// A cluster marked in use or free, in memory.
    #[verifier::opaque]
    pub open spec fn bmp_put(self, cl: u32, used: bool) -> (ExfatView, bool) {
        let (s, ok) = self.bmp_fetch(cl);
        if !ok {
            (s, false)
        } else {
            let o = (cl - 2) / 8 % 512;
            (
                ExfatView {
                    win_buf: s.win_buf.update(
                        o,
                        bytes::with_bit(s.win_buf[o], (cl - 2) % 8, used),
                    ),
                    dirty: true,
                    ..s
                },
                true,
            )
        }
    }

    /// A cluster that was found free taken: its bit set, its table entry the end of a chain.
    #[verifier::opaque]
    pub open spec fn take(self, cl: u32) -> (ExfatView, bool) {
        let (s1, ok1) = self.bmp_put(cl, true);
        if !ok1 {
            (s1, false)
        } else {
            let (s2, ok2) = s1.fat_set(cl, EXFAT_FAT_EOC);
            if !ok2 {
                (s2, false)
            } else {
                let (s3, ok3) = s2.bmp_flush();
                if !ok3 {
                    (s3, false)
                } else {
                    (
                        ExfatView {
                            hint: if cl + 1 < s3.geo.count + 2 {
                                (cl + 1) as u32
                            } else {
                                2
                            },
                            ..s3
                        },
                        true,
                    )
                }
            }
        }
    }

    /// The `i`th cluster tried.
    pub open spec fn candidate(self, start: u32, i: int) -> u32 {
        (2 + (start - 2 + i) % (self.geo.count as int)) as u32
    }

    /// A free cluster taken, from the `i`th candidate on.
    pub open spec fn alloc_from(self, start: u32, i: int) -> (ExfatView, Option<u32>)
        decreases self.geo.count - i,
    {
        if i >= self.geo.count {
            (self, None)
        } else {
            let cl = self.candidate(start, i);
            let (s, used) = self.bmp_get(cl);
            if used {
                if s.geo == self.geo {
                    s.alloc_from(start, i + 1)
                } else {
                    (s, None)
                }
            } else {
                let (t, ok) = s.take(cl);
                if ok {
                    (t, Some(cl))
                } else {
                    (t, None)
                }
            }
        }
    }

    /// A free cluster taken.
    #[verifier::opaque]
    pub open spec fn alloc_cluster(self) -> (ExfatView, Option<u32>) {
        self.alloc_from(self.hint, 0)
    }

    /// The chain from `cl` on freed, `i` clusters of it being freed already. With
    /// `contiguous` it is the following clusters up to `n` in all.
    pub open spec fn free_from(self, cl: u32, i: int, contiguous: bool, n: u32) -> (
        ExfatView,
        bool,
    )
        decreases 0x2_0000_0000 - i,
    {
        if cl < 2 || i > self.geo.count + 1 {
            (self, false)
        } else {
            let (s, ok) = self.bmp_put(cl, false);
            if !ok || s.geo != self.geo {
                (s, false)
            } else if contiguous {
                if i + 1 >= n {
                    s.bmp_flush()
                } else {
                    s.free_from(bytes::w32(cl + 1), i + 1, contiguous, n)
                }
            } else {
                match s.fat_get(cl) {
                    None => (s, false),
                    Some(next) => {
                        let (t, ok2) = s.fat_set(cl, EXFAT_FAT_FREE);
                        if !ok2 || t.geo != self.geo {
                            (t, false)
                        } else if is_end(next) {
                            t.bmp_flush()
                        } else {
                            t.free_from(next, i + 1, contiguous, n)
                        }
                    },
                }
            }
        }
    }

    /// A chain freed; a file without clusters has none.
    #[verifier::opaque]
    pub open spec fn free_chain(self, first: u32, contiguous: bool, n: u32) -> (ExfatView, bool) {
        if first < 2 {
            (self, true)
        } else {
            self.free_from(first, 0, contiguous, n)
        }
    }

    /// The last cluster of the chain from `cl` on, and how many there are; `k` counts up to
    /// `cl`, and more than `limit` is a fault.
    pub open spec fn tail_from(self, cl: u32, k: int, limit: int) -> Option<(u32, int)>
        decreases limit + 1 - k,
    {
        match self.fat_get(cl) {
            None => None,
            Some(n) => if is_end(n) {
                Some((cl, k))
            } else if k + 1 > limit {
                None
            } else {
                self.tail_from(n, k + 1, limit)
            },
        }
    }

    /// The clusters `first` to `first + have - 1` linked, from the `i`th on.
    pub open spec fn link_run(self, first: u32, i: int, have: int) -> (ExfatView, bool)
        decreases have - i,
    {
        if i + 1 >= have {
            self.fat_set(bytes::w32(first + have - 1), EXFAT_FAT_EOC)
        } else {
            let (s, ok) = self.fat_set(bytes::w32(first + i), bytes::w32(first + i + 1));
            if ok {
                s.link_run(first, i + 1, have)
            } else {
                (s, false)
            }
        }
    }

    /// A chain of `n` clusters that ends with `tail` extended to `needed`.
    pub open spec fn extend(self, tail: u32, n: int, needed: int) -> (ExfatView, Option<int>)
        decreases needed - n,
    {
        if n >= needed {
            (self, Some(n))
        } else {
            match self.alloc_cluster() {
                (s, None) => (s, None),
                (s, Some(nc)) => {
                    let (t, ok) = s.fat_set(tail, nc);
                    if ok {
                        t.extend(nc, n + 1, needed)
                    } else {
                        (t, None)
                    }
                },
            }
        }
    }

    /// A chain extended to at least `needed` clusters: its first cluster and its length. One
    /// of `have` contiguous clusters is linked first; where there is none, one is taken.
    #[verifier::opaque]
    pub open spec fn grow_to(self, first: u32, contiguous: bool, have: u32, needed: u32) -> (
        ExfatView,
        Option<(u32, u32)>,
    ) {
        if needed == 0 {
            (self, Some((0, 0)))
        } else {
            match self.have_first(first, have) {
                (s, None) => (s, None),
                (s, Some((f, h))) => {
                    let (t, ok) = if contiguous {
                        s.link_run(f, 0, h as int)
                    } else {
                        (s, true)
                    };
                    if !ok {
                        (t, None)
                    } else {
                        match t.tail_from(f, 1, t.geo.count + 1) {
                            None => (t, None),
                            Some((tail, n)) => match t.extend(tail, n, needed as int) {
                                (u, None) => (u, None),
                                (u, Some(m)) => (u, Some((f, m as u32))),
                            },
                        }
                    }
                },
            }
        }
    }

    /// The first cluster of a chain and its length; a cluster is taken where there is none.
    #[verifier::opaque]
    pub open spec fn have_first(self, first: u32, have: u32) -> (ExfatView, Option<(u32, u32)>) {
        if first < 2 || have == 0 {
            match self.alloc_cluster() {
                (s, None) => (s, None),
                (s, Some(cl)) => (s, Some((cl, 1))),
            }
        } else {
            (self, Some((first, have)))
        }
    }

    /// Length of the chain from `cl` on, after `n` clusters.
    pub open spec fn chain_len(self, cl: u32, n: int) -> int
        decreases 0x2_0000_0000 - n,
    {
        if cl < 2 || n > self.geo.count + 1 {
            n
        } else {
            match self.fat_get(cl) {
                None => n + 1,
                Some(v) => if is_end(v) {
                    n + 1
                } else {
                    self.chain_len(v, n + 1)
                },
            }
        }
    }

    /// The cluster `idx - i` steps behind `cl`.
    pub open spec fn step_from(self, cl: u32, i: int, idx: int) -> Option<u32>
        decreases idx - i,
    {
        if i >= idx {
            if cl < 2 {
                None
            } else {
                Some(cl)
            }
        } else {
            match self.fat_get(cl) {
                None => None,
                Some(n) => if is_end(n) {
                    None
                } else {
                    self.step_from(n, i + 1, idx)
                },
            }
        }
    }

    /// Cluster number `idx` of a file.
    pub open spec fn cluster_at(self, first: u32, contiguous: bool, idx: int) -> Option<u32> {
        if contiguous {
            if first + idx > u32::MAX || first + idx < 2 || first + idx >= self.geo.count + 2 {
                None
            } else {
                Some((first + idx) as u32)
            }
        } else {
            self.step_from(first, 0, idx)
        }
    }
}

/// A mounted volume.
#[derive(Clone)]
pub struct Exfat {
    pub store: Store,
    pub vol: u64,
    pub geo: ExGeo,
    pub hint: u32,
    pub win: Option<u32>,
    pub win_lba: u32,
    pub win_buf: Vec<u8>,
    pub dirty: bool,
    pub now: u64,
}

/// Whether a table entry ends a chain.
pub fn exfat_is_eoc(v: u32) -> (r: bool)
    ensures
        r == is_end(v),
{
    v == EXFAT_FAT_FREE || v >= EXFAT_FAT_EOC_MIN
}

impl Exfat {
    pub open spec fn view(&self) -> ExfatView {
        ExfatView {
            store: self.store@,
            vol: self.vol,
            geo: self.geo,
            hint: self.hint,
            win: self.win,
            win_lba: self.win_lba,
            win_buf: self.win_buf@,
            dirty: self.dirty,
            now: self.now,
        }
    }

    /// The layout is possible, the sector in memory is one, the cursor is a cluster.
    pub open spec fn inv(&self) -> bool {
        &&& self.store@.wf()
        &&& self.geo.wf()
        &&& self.win_buf@.len() == 512
        &&& 2 <= self.hint <= self.geo.count + 1
    }

    /// First sector of a cluster.
    pub fn exfat_cluster_lba(&self, cl: u32) -> (r: u32)
        requires
            self.inv(),
        ensures
            r == self@.cluster_lba(cl),
    {
        let spc: u64 = self.geo.spc as u64;
        let n: u64 = cl as u64 + 0xFFFF_FFFE;
        assert(n * spc <= 0x1_FFFF_FFFD * 512) by (nonlinear_arith)
            requires
                n <= 0x1_FFFF_FFFD,
                spc <= 512,
        ;
        assert(self.geo.heap + n * spc == self.geo.heap + (cl - 2) * spc + 0x1_0000_0000 * spc)
            by (nonlinear_arith)
            requires
                n == cl + 0xFFFF_FFFE,
        ;
        assert((self.geo.heap + (cl - 2) * spc + 0x1_0000_0000 * spc) % 0x1_0000_0000 == (
        self.geo.heap + (cl - 2) * spc) % 0x1_0000_0000) by {
            vstd::arithmetic::div_mod::lemma_mod_multiples_vanish(
                spc as int,
                self.geo.heap + (cl - 2) * spc,
                0x1_0000_0000,
            );
        }
        ((self.geo.heap as u64 + n * spc) % 0x1_0000_0000) as u32
    }

    /// Reads a cluster.
    pub fn exfat_read_cluster(&self, cl: u32) -> (r: Option<Vec<u8>>)
        requires
            self.inv(),
        ensures
            bytes::opt(r) == self@.rd_cl(cl),
            r matches Some(v) ==> v.len() == self.geo.cb(),
    {
        if cl < 2 {
            return None;
        }
        let lba: u32 = self.exfat_cluster_lba(cl);
        self.store.read(self.vol, lba, self.geo.spc)
    }

    /// Writes a cluster.
    pub fn exfat_write_cluster(&mut self, cl: u32, data: &Vec<u8>) -> (r: bool)
        requires
            old(self).inv(),
            data.len() == old(self).geo.cb(),
        ensures
            final(self).inv(),
            (final(self)@, r) == old(self)@.wr_cl(cl, data@),
            final(self).geo == old(self).geo,
    {
        if cl < 2 {
            return false;
        }
        let lba: u32 = self.exfat_cluster_lba(cl);
        self.store.write(self.vol, lba, data)
    }

    /// Sector of the table that holds the entry of a cluster.
    fn fat_lba(&self, cl: u32, idx: u32) -> (r: u32)
        requires
            self.inv(),
            idx <= 1,
        ensures
            r == self@.fat_lba(cl, idx as int),
    {
        let extra: u64 = if idx == 0 {
            0
        } else {
            self.geo.fat_len as u64
        };
        assert(extra == idx * self.geo.fat_len) by (nonlinear_arith)
            requires
                idx == 0 || idx == 1,
                extra == (if idx == 0 {
                    0
                } else {
                    self.geo.fat_len as int
                }),
        ;
        ((self.geo.fat_off as u64 + extra + (cl / 128) as u64) % 0x1_0000_0000) as u32
    }

    /// The table entry of a cluster.
    pub fn exfat_fat_get(&self, cl: u32) -> (r: Option<u32>)
        requires
            self.inv(),
        ensures
            r == self@.fat_get(cl),
    {
        let lba: u32 = self.fat_lba(cl, 0);
        match self.store.read(self.vol, lba, 1) {
            None => None,
            Some(b) => Some(bytes::read_u32(&b, (cl % 128) as usize * 4)),
        }
    }

    /// Sets the table entry of a cluster in one copy.
    fn fat_put(&mut self, cl: u32, v: u32, idx: u32) -> (r: bool)
        requires
            old(self).inv(),
            idx <= 1,
        ensures
            final(self).inv(),
            (final(self)@, r) == old(self)@.fat_put(cl, v, idx as int),
            final(self).geo == old(self).geo,
    {
        let lba: u32 = self.fat_lba(cl, idx);
        match self.store.read(self.vol, lba, 1) {
            None => false,
            Some(b0) => {
                let mut b: Vec<u8> = b0;
                bytes::write_u32(&mut b, (cl % 128) as usize * 4, v);
                self.store.write(self.vol, lba, &b)
            },
        }
    }

    /// Sets the table entry of a cluster in all copies.
    pub fn exfat_fat_set(&mut self, cl: u32, v: u32) -> (r: bool)
        requires
            old(self).inv(),
        ensures
            final(self).inv(),
            (final(self)@, r) == old(self)@.fat_set(cl, v),
            final(self).geo == old(self).geo,
    {
        proof {
            reveal(ExfatView::fat_set);
        }
        if !self.fat_put(cl, v, 0) {
            return false;
        }
        if self.geo.nfats >= 2 {
            return self.fat_put(cl, v, 1);
        }
        true
    }

    /// Cluster number `idx` of a chain.
    #[verifier::loop_isolation(false)]
    pub fn exfat_chain_nth(&self, first: u32, idx: u32) -> (r: Option<u32>)
        requires
            self.inv(),
        ensures
            r == self@.nth(first, idx as int),
    {
        if first < 2 {
            return None;
        }
        let ghost goal = self@.nth_from(first, 0, idx as int);
        let mut cl: u32 = first;
        let mut i: u32 = 0;
        while i < idx
            invariant
                i <= idx,
                self@.nth_from(cl, i as int, idx as int) == goal,
            decreases idx - i,
        {
            let next: u32 = match self.exfat_fat_get(cl) {
                Some(v) => v,
                None => {
                    return None;
                },
            };
            if exfat_is_eoc(next) || i > self.geo.count {
                return None;
            }
            cl = next;
            i = i + 1;
        }
        Some(cl)
    }

    /// Sector `sec` of a chain.
    pub fn exfat_chain_sec_lba(&self, first: u32, sec: u32) -> (r: Option<u32>)
        requires
            self.inv(),
        ensures
            r == self@.chain_lba(first, sec),
    {
        match self.exfat_chain_nth(first, sec / self.geo.spc) {
            None => None,
            Some(cl) => {
                let lba: u32 = self.exfat_cluster_lba(cl);
                Some(((lba as u64 + (sec % self.geo.spc) as u64) % 0x1_0000_0000) as u32)
            },
        }
    }

    /// The upper case of a UTF-16 unit.
    pub fn exfat_upcase_unit(&self, u: u16) -> (r: u16)
        requires
            self.inv(),
        ensures
            r == self@.upcase(u),
    {
        if u as u32 * 2 + 2 > self.geo.upc_bytes {
            return u;
        }
        match self.exfat_chain_sec_lba(self.geo.upc_cl, (u / 256) as u32) {
            None => u,
            Some(lba) => match self.store.read(self.vol, lba, 1) {
                None => u,
                Some(b) => bytes::read_u16(&b, (u % 256) as usize * 2),
            },
        }
    }

    /// Writes the bitmap sector in memory where it differs from the disk.
    pub fn exfat_bitmap_flush(&mut self) -> (r: bool)
        requires
            old(self).inv(),
        ensures
            final(self).inv(),
            (final(self)@, r) == old(self)@.bmp_flush(),
            final(self).geo == old(self).geo,
    {
        if !self.dirty {
            return true;
        }
        if !self.store.write(self.vol, self.win_lba, &self.win_buf) {
            return false;
        }
        self.dirty = false;
        true
    }

    /// Fetches the bitmap sector of a cluster.
    pub fn exfat_bitmap_byte(&mut self, cl: u32) -> (r: bool)
        requires
            old(self).inv(),
        ensures
            final(self).inv(),
            (final(self)@, r) == old(self)@.bmp_fetch(cl),
            final(self).geo == old(self).geo,
            r ==> cl >= 2,
    {
        proof {
            reveal(ExfatView::bmp_fetch);
        }
        if cl < 2 {
            return false;
        }
        let byte: u32 = (cl - 2) / 8;
        if byte >= self.geo.bmp_bytes {
            return false;
        }
        let sec: u32 = byte / 512;
        let here: bool = match self.win {
            Some(w) => w == sec,
            None => false,
        };
        if here {
            return true;
        }
        if !self.exfat_bitmap_flush() {
            return false;
        }
        let lba: u32 = match self.exfat_chain_sec_lba(self.geo.bmp_cl, sec) {
            Some(l) => l,
            None => {
                return false;
            },
        };
        match self.store.read(self.vol, lba, 1) {
            None => false,
            Some(b) => {
                self.win_buf = b;
                self.win = Some(sec);
                self.win_lba = lba;
                true
            },
        }
    }

    /// Whether a cluster is in use.
    pub fn exfat_bitmap_get(&mut self, cl: u32) -> (r: bool)
        requires
            old(self).inv(),
        ensures
            final(self).inv(),
            (final(self)@, r) == old(self)@.bmp_get(cl),
            final(self).geo == old(self).geo,
    {
        proof {
            reveal(ExfatView::bmp_get);
        }
        if !self.exfat_bitmap_byte(cl) {
            return false;
        }
        bytes::get_bit(self.win_buf[((cl - 2) / 8 % 512) as usize], ((cl - 2) % 8) as usize)
    }

    /// Marks a cluster in use or free.
    pub fn exfat_bitmap_put(&mut self, cl: u32, used: bool) -> (r: bool)
        requires
            old(self).inv(),
        ensures
            final(self).inv(),
            (final(self)@, r) == old(self)@.bmp_put(cl, used),
            final(self).geo == old(self).geo,
    {
        proof {
            reveal(ExfatView::bmp_put);
        }
        if !self.exfat_bitmap_byte(cl) {
            return false;
        }
        let o: usize = ((cl - 2) / 8 % 512) as usize;
        let v: u8 = bytes::set_bit(self.win_buf[o], ((cl - 2) % 8) as usize, used);
        self.win_buf.set(o, v);
        self.dirty = true;
        true
    }

    /// Takes a cluster that was found free.
    fn take(&mut self, cl: u32) -> (r: bool)
        requires
            old(self).inv(),
            2 <= cl <= old(self).geo.count + 1,
        ensures
            final(self).inv(),
            (final(self)@, r) == old(self)@.take(cl),
            final(self).geo == old(self).geo,
    {
        proof {
            reveal(ExfatView::take);
        }
        if !self.exfat_bitmap_put(cl, true) {
            return false;
        }
        if !self.exfat_fat_set(cl, EXFAT_FAT_EOC) {
            return false;
        }
        if !self.exfat_bitmap_flush() {
            return false;
        }
        self.hint = if cl < self.geo.count + 1 {
            cl + 1
        } else {
            2
        };
        true
    }

    /// Takes a free cluster.
    #[verifier::loop_isolation(false)]
    pub fn exfat_alloc_cluster(&mut self) -> (r: Option<u32>)
        requires
            old(self).inv(),
        ensures
            final(self).inv(),
            (final(self)@, r) == old(self)@.alloc_cluster(),
            final(self).geo == old(self).geo,
            r matches Some(cl) ==> cl >= 2,
    {
        proof {
            reveal(ExfatView::alloc_cluster);
        }
        let start: u32 = self.hint;
        let count: u32 = self.geo.count;
        let ghost goal = old(self)@.alloc_from(start, 0);
        let mut i: u32 = 0;
        while i < count
            invariant
                i <= count,
                self.inv(),
                self.geo == old(self).geo,
                self@.alloc_from(start, i as int) == goal,
            decreases count - i,
        {
            let cl: u32 = 2 + ((start as u64 - 2 + i as u64) % count as u64) as u32;
            if !self.exfat_bitmap_get(cl) {
                if !self.take(cl) {
                    return None;
                }
                return Some(cl);
            }
            i = i + 1;
        }
        None
    }

    /// Frees a chain.
    #[verifier::loop_isolation(false)]
    pub fn exfat_free_chain(&mut self, first: u32, contiguous: bool, n: u32) -> (r: bool)
        requires
            old(self).inv(),
        ensures
            final(self).inv(),
            (final(self)@, r) == old(self)@.free_chain(first, contiguous, n),
            final(self).geo == old(self).geo,
    {
        proof {
            reveal(ExfatView::free_chain);
        }
        if first < 2 {
            return true;
        }
        let ghost goal = old(self)@.free_from(first, 0, contiguous, n);
        let mut cl: u32 = first;
        let mut i: u32 = 0;
        loop
            invariant
                self.inv(),
                self.geo == old(self).geo,
                self@.free_from(cl, i as int, contiguous, n) == goal,
            decreases u32::MAX - i,
        {
            if cl < 2 || i > self.geo.count + 1 {
                return false;
            }
            if !self.exfat_bitmap_put(cl, false) {
                return false;
            }
            if contiguous {
                if i + 1 >= n {
                    return self.exfat_bitmap_flush();
                }
                cl = if cl == 0xFFFF_FFFF {
                    0
                } else {
                    cl + 1
                };
            } else {
                let next: u32 = match self.exfat_fat_get(cl) {
                    Some(v) => v,
                    None => {
                        return false;
                    },
                };
                if !self.exfat_fat_set(cl, EXFAT_FAT_FREE) {
                    return false;
                }
                if exfat_is_eoc(next) {
                    return self.exfat_bitmap_flush();
                }
                cl = next;
            }
            i = i + 1;
        }
    }

    /// The last cluster of a chain.
    #[verifier::loop_isolation(false)]
    pub fn tail_of(&self, first: u32, start: u32) -> (r: Option<(u32, u32)>)
        requires
            self.inv(),
            start <= 1,
        ensures
            match (r, self@.tail_from(first, start as int, self.geo.count + 1)) {
                (Some((t, n)), Some((t2, n2))) => t == t2 && n == n2,
                (None, None) => true,
                _ => false,
            },
    {
        let limit: u32 = self.geo.count + 1;
        let ghost goal = self@.tail_from(first, start as int, limit as int);
        let mut cl: u32 = first;
        let mut k: u32 = start;
        loop
            invariant
                k <= limit,
                self@.tail_from(cl, k as int, limit as int) == goal,
            decreases limit - k,
        {
            let next: u32 = match self.exfat_fat_get(cl) {
                Some(v) => v,
                None => {
                    return None;
                },
            };
            if exfat_is_eoc(next) {
                return Some((cl, k));
            }
            if k >= limit {
                return None;
            }
            cl = next;
            k = k + 1;
        }
    }

    /// Links the clusters of a contiguous file.
    #[verifier::loop_isolation(false)]
    fn link_run(&mut self, first: u32, have: u32) -> (r: bool)
        requires
            old(self).inv(),
            have >= 1,
        ensures
            final(self).inv(),
            (final(self)@, r) == old(self)@.link_run(first, 0, have as int),
            final(self).geo == old(self).geo,
    {
        let ghost goal = old(self)@.link_run(first, 0, have as int);
        let mut i: u32 = 0;
        while i < have - 1
            invariant
                i <= have - 1,
                self.inv(),
                self.geo == old(self).geo,
                self@.link_run(first, i as int, have as int) == goal,
            decreases have - i,
        {
            let a: u32 = ((first as u64 + i as u64) % 0x1_0000_0000) as u32;
            let b: u32 = ((first as u64 + i as u64 + 1) % 0x1_0000_0000) as u32;
            if !self.exfat_fat_set(a, b) {
                return false;
            }
            i = i + 1;
        }
        let last: u32 = ((first as u64 + have as u64 - 1) % 0x1_0000_0000) as u32;
        self.exfat_fat_set(last, EXFAT_FAT_EOC)
    }

    /// Extends a chain.
    #[verifier::loop_isolation(false)]
    fn extend(&mut self, tail: u32, n: u32, needed: u32) -> (r: Option<u32>)
        requires
            old(self).inv(),
        ensures
            final(self).inv(),
            final(self)@ == old(self)@.extend(tail, n as int, needed as int).0,
            match (r, old(self)@.extend(tail, n as int, needed as int).1) {
                (Some(a), Some(b)) => a == b,
                (None, None) => true,
                _ => false,
            },
            final(self).geo == old(self).geo,
    {
        let ghost goal = old(self)@.extend(tail, n as int, needed as int);
        let mut t: u32 = tail;
        let mut m: u32 = n;
        while m < needed
            invariant
                self.inv(),
                self.geo == old(self).geo,
                self@.extend(t, m as int, needed as int) == goal,
            decreases needed - m,
        {
            let nc: u32 = match self.exfat_alloc_cluster() {
                Some(c) => c,
                None => {
                    return None;
                },
            };
            if !self.exfat_fat_set(t, nc) {
                return None;
            }
            t = nc;
            m = m + 1;
        }
        Some(m)
    }

    /// The first cluster of a chain and its length, taken where there is none.
    fn have_first(&mut self, first: u32, have: u32) -> (r: Option<(u32, u32)>)
        requires
            old(self).inv(),
        ensures
            final(self).inv(),
            (final(self)@, r) == old(self)@.have_first(first, have),
            final(self).geo == old(self).geo,
            r matches Some((f, h)) ==> f >= 2 && h >= 1,
    {
        proof {
            reveal(ExfatView::have_first);
        }
        if first < 2 || have == 0 {
            match self.exfat_alloc_cluster() {
                None => None,
                Some(cl) => Some((cl, 1)),
            }
        } else {
            Some((first, have))
        }
    }

    /// Extends a chain to at least `needed` clusters.
    pub fn exfat_grow_to(&mut self, first: u32, contiguous: bool, have: u32, needed: u32) -> (r:
        Option<(u32, u32)>)
        requires
            old(self).inv(),
        ensures
            final(self).inv(),
            (final(self)@, r) == old(self)@.grow_to(first, contiguous, have, needed),
            final(self).geo == old(self).geo,
    {
        proof {
            reveal(ExfatView::grow_to);
        }
        if needed == 0 {
            return Some((0, 0));
        }
        let (f, h): (u32, u32) = match self.have_first(first, have) {
            Some(x) => x,
            None => {
                return None;
            },
        };
        if contiguous {
            if !self.link_run(f, h) {
                return None;
            }
        }
        let (tail, n): (u32, u32) = match self.tail_of(f, 1) {
            Some(x) => x,
            None => {
                return None;
            },
        };
        match self.extend(tail, n, needed) {
            None => None,
            Some(m) => Some((f, m)),
        }
    }

    /// Length of the chain of a file.
    #[verifier::loop_isolation(false)]
    pub fn chain_len(&self, first: u32) -> (r: u32)
        requires
            self.inv(),
        ensures
            r == self@.chain_len(first, 0),
    {
        let ghost goal = self@.chain_len(first, 0);
        let mut cl: u32 = first;
        let mut n: u32 = 0;
        while cl >= 2 && n <= self.geo.count + 1
            invariant
                n <= self.geo.count + 2,
                self@.chain_len(cl, n as int) == goal,
            decreases self.geo.count + 3 - n,
        {
            match self.exfat_fat_get(cl) {
                Some(v) => {
                    if exfat_is_eoc(v) {
                        return n + 1;
                    }
                    cl = v;
                },
                None => {
                    return n + 1;
                },
            }
            n = n + 1;
        }
        n
    }

    /// Cluster number `idx` of a file.
    #[verifier::loop_isolation(false)]
    pub fn exfat_cluster_at(&self, first: u32, contiguous: bool, idx: u32) -> (r: Option<u32>)
        requires
            self.inv(),
        ensures
            r == self@.cluster_at(first, contiguous, idx as int),
    {
        if contiguous {
            let cl: u64 = first as u64 + idx as u64;
            if cl < 2 || cl >= self.geo.count as u64 + 2 {
                return None;
            }
            return Some(cl as u32);
        }
        let ghost goal = self@.step_from(first, 0, idx as int);
        let mut cl: u32 = first;
        let mut i: u32 = 0;
        while i < idx
            invariant
                i <= idx,
                self@.step_from(cl, i as int, idx as int) == goal,
            decreases idx - i,
        {
            let next: u32 = match self.exfat_fat_get(cl) {
                Some(v) => v,
                None => {
                    return None;
                },
            };
            if exfat_is_eoc(next) {
                return None;
            }
            cl = next;
            i = i + 1;
        }
        if cl < 2 {
            return None;
        }
        Some(cl)
    }
}

} // verus!
