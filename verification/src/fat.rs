//! FAT32 volumes: geometry, the allocation table, clusters and raw directory
//! entries.
use vstd::prelude::*;

use crate::bytes;
use crate::disk::{Store, StoreView};

verus! {

/// Directory entry attribute: a directory.
pub const ATTR_DIRECTORY: u8 = 0x10;

/// Directory entry attribute: the volume label.
pub const ATTR_VOLUME_ID: u8 = 0x08;

/// Directory entry attribute: a piece of a long name.
pub const ATTR_LONG_NAME: u8 = 0x0F;

/// Chain end mark written by this driver (28 bits).
pub const FAT_EOC: u32 = 0x0FFF_FFFF;

/// Table entries from this value on end a chain.
pub const FAT_EOC_MIN: u32 = 0x0FFF_FFF8;

/// Largest cluster that the cluster buffer holds.
pub const FAT32_MAX_CLUSTER_BYTES: u32 = 65536;

/// Clusters after which a walk along a chain must be going round in a circle:
/// the table has 28-bit entries.
pub const FAT_WALK_MAX: u32 = 0x1000_0000;

/// Layout parameters of a FAT32 volume, from its boot sector.
#[derive(Clone, Copy)]
pub struct Fat32Bpb {
    pub bytes_per_sector: u16,
    pub sectors_per_cluster: u8,
    pub reserved_sectors: u16,
    pub num_fats: u8,
    /// Sectors of one copy of the table.
    pub fat_size: u32,
    /// Sectors of the whole volume.
    pub total_sectors: u32,
    pub root_cluster: u32,
}

/// The parameters that a boot sector holds.
pub open spec fn bpb_of(s: Seq<u8>) -> Fat32Bpb {
    Fat32Bpb {
        bytes_per_sector: bytes::le16(s, 11),
        sectors_per_cluster: s[13],
        reserved_sectors: bytes::le16(s, 14),
        num_fats: s[16],
        fat_size: bytes::le32(s, 36),
        total_sectors: bytes::le32(s, 32),
        root_cluster: bytes::le32(s, 44),
    }
}

impl Fat32Bpb {
    /// The geometry that the driver accepts: 512-byte sectors and a cluster of at
    /// least one sector that fits the cluster buffer.
    pub open spec fn wf(self) -> bool {
        self.bytes_per_sector == 512 && 0 < self.sectors_per_cluster <= 128
    }

    /// Sectors per cluster.
    pub open spec fn spc(self) -> int {
        self.sectors_per_cluster as int
    }

    /// Bytes per cluster.
    pub open spec fn cb(self) -> int {
        self.sectors_per_cluster * self.bytes_per_sector
    }

    /// First sector of the data area (cluster 2).
    pub open spec fn data_start(self) -> u32 {
        bytes::w32(self.reserved_sectors + self.num_fats * self.fat_size)
    }

    /// First sector of a cluster.
    pub open spec fn sector_of(self, c: u32) -> u32 {
        bytes::w32(self.data_start() + (c - 2) * self.spc())
    }

    /// Clusters in the data area; their numbers start at 2.
    pub open spec fn clusters(self) -> u32 {
        (bytes::w32(self.total_sectors - self.data_start()) / self.sectors_per_cluster as u32)
    }

    /// The sector, in one copy of the table, of the entry of cluster `c`.
    pub open spec fn fat_rel(c: u32) -> int {
        (c % 0x4000_0000) as int / 128
    }

    /// The byte offset of the entry of cluster `c` in its sector.
    pub open spec fn fat_off(c: u32) -> int {
        (c % 128) * 4
    }

    /// The sector of the entry of cluster `c` in copy `k` of the table.
    pub open spec fn fat_sector(self, k: int, c: u32) -> u32 {
        bytes::w32(self.reserved_sectors + k * self.fat_size + Self::fat_rel(c))
    }

    /// Parses the boot sector.
    pub fn parse(sector0: &[u8]) -> (r: Fat32Bpb)
        requires
            sector0.len() >= 512,
        ensures
            r == bpb_of(sector0@),
    {
        Fat32Bpb {
            bytes_per_sector: bytes::read_u16(sector0, 11),
            sectors_per_cluster: sector0[13],
            reserved_sectors: bytes::read_u16(sector0, 14),
            num_fats: sector0[16],
            fat_size: bytes::read_u32(sector0, 36),
            total_sectors: bytes::read_u32(sector0, 32),
            root_cluster: bytes::read_u32(sector0, 44),
        }
    }

    /// Bytes per cluster.
    pub fn cluster_bytes(&self) -> (r: u32)
        ensures
            r == self.cb(),
    {
        proof {
            let a = self.sectors_per_cluster as int;
            let b = self.bytes_per_sector as int;
            assert(0 <= a * b <= 255 * 65535) by (nonlinear_arith)
                requires
                    0 <= a <= 255,
                    0 <= b <= 65535,
            ;
        }
        self.sectors_per_cluster as u32 * self.bytes_per_sector as u32
    }

    /// First sector of the first copy of the table.
    pub fn fat_start_sector(&self) -> (r: u32)
        ensures
            r == self.reserved_sectors,
    {
        self.reserved_sectors as u32
    }

    /// First sector of the data area.
    pub fn data_start_sector(&self) -> (r: u32)
        ensures
            r == self.data_start(),
    {
        proof {
            let a = self.num_fats as int;
            let b = self.fat_size as int;
            assert(0 <= a * b <= 255 * 0xFFFF_FFFF) by (nonlinear_arith)
                requires
                    0 <= a <= 255,
                    0 <= b <= 0xFFFF_FFFF,
            ;
        }
        ((self.reserved_sectors as u64 + self.num_fats as u64 * self.fat_size as u64)
            % 0x1_0000_0000) as u32
    }

    /// First sector of cluster `c` (cluster 2 is the first of the data area).
    pub fn cluster_to_sector(&self, c: u32) -> (r: u32)
        ensures
            r == self.sector_of(c),
    {
        let ds: u32 = self.data_start_sector();
        proof {
            let a = self.spc();
            let m = 0x1_0000_0000int;
            let x = c as int;
            assert(0 <= (x + 0xFFFF_FFFE) * a <= 0x2_0000_0000 * 255) by (nonlinear_arith)
                requires
                    0 <= a <= 255,
                    0 <= x <= 0xFFFF_FFFF,
            ;
            assert(ds + (x + 0xFFFF_FFFE) * a == m * a + (ds + (x - 2) * a)) by (nonlinear_arith)
                requires
                    m == 0x1_0000_0000,
            ;
            vstd::arithmetic::div_mod::lemma_mod_multiples_vanish(a, ds + (x - 2) * a, m);
        }
        ((ds as u64 + (c as u64 + 0xFFFF_FFFE) * self.sectors_per_cluster as u64) % 0x1_0000_0000)
            as u32
    }

    /// Clusters in the data area.
    pub fn total_clusters(&self) -> (r: u32)
        requires
            self.wf(),
        ensures
            r == self.clusters(),
    {
        let ds: u32 = self.data_start_sector();
        let sectors: u32 = if self.total_sectors >= ds {
            self.total_sectors - ds
        } else {
            (self.total_sectors as u64 + 0x1_0000_0000 - ds as u64) as u32
        };
        sectors / self.sectors_per_cluster as u32
    }

    /// The sector of the entry of cluster `c` in copy `k` of the table.
    fn fat_sector_of(&self, k: u8, c: u32) -> (r: u32)
        ensures
            r == self.fat_sector(k as int, c),
    {
        proof {
            let a = k as int;
            let b = self.fat_size as int;
            assert(0 <= a * b <= 255 * 0xFFFF_FFFF) by (nonlinear_arith)
                requires
                    0 <= a <= 255,
                    0 <= b <= 0xFFFF_FFFF,
            ;
        }
        ((self.reserved_sectors as u64 + k as u64 * self.fat_size as u64 + (c % 0x4000_0000 / 128)
            as u64) % 0x1_0000_0000) as u32
    }
}

/// What a FAT32 driver works on: the volumes, the one it is working on, the
/// sector of the table it holds, and the cluster from which it looks for a free
/// one.
#[verifier::ext_equal]
pub struct FatView {
    pub store: StoreView,
    pub cur: u64,
    pub fat_buf: Seq<u8>,
    pub hint: u32,
}

impl FatView {
    /// Reads `n` sectors of the current volume.
    pub open spec fn rd(self, sector: u32, n: int) -> Option<Seq<u8>> {
        self.store.read(self.cur, sector, n)
    }

    /// Writes sectors of the current volume.
    pub open spec fn wr(self, sector: u32, bytes: Seq<u8>) -> (FatView, bool) {
        let (store, ok) = self.store.write(self.cur, sector, bytes);
        (FatView { store, ..self }, ok)
    }

    /// The table sector of `c` brought into the buffer; where it cannot be read, the
    /// buffer stays as it is.
    pub open spec fn load_fat(self, b: Fat32Bpb, c: u32) -> FatView {
        match self.rd(b.fat_sector(0, c), 1) {
            Some(v) => FatView { fat_buf: v, ..self },
            None => self,
        }
    }

    /// The table entry of cluster `c`, without its four reserved bits.
    pub open spec fn fat_get(self, b: Fat32Bpb, c: u32) -> (FatView, u32) {
        let s = self.load_fat(b, c);
        (s, bytes::le32(s.fat_buf, Fat32Bpb::fat_off(c)) & 0x0FFF_FFFF)
    }

    /// Writes the buffered table sector of `c` to copies `k` and up.
    pub open spec fn put_copies(self, b: Fat32Bpb, c: u32, k: int) -> (FatView, bool)
        decreases b.num_fats - k,
    {
        if k >= b.num_fats {
            (self, true)
        } else {
            let (s, ok) = self.wr(b.fat_sector(k, c), self.fat_buf);
            if ok {
                s.put_copies(b, c, k + 1)
            } else {
                (s, false)
            }
        }
    }

    /// The table entry of cluster `c` set to `v` in every copy, its four reserved bits
    /// kept.
    pub open spec fn fat_set(self, b: Fat32Bpb, c: u32, v: u32) -> (FatView, bool) {
        match self.rd(b.fat_sector(0, c), 1) {
            None => (self, false),
            Some(sec) => {
                let o = Fat32Bpb::fat_off(c);
                let e = (bytes::le32(sec, o) & 0xF000_0000) | (v & 0x0FFF_FFFF);
                FatView { fat_buf: bytes::put32(sec, o, e), ..self }.put_copies(b, c, 0)
            },
        }
    }

    /// The bytes of cluster `c`.
    pub open spec fn cluster(self, b: Fat32Bpb, c: u32) -> Option<Seq<u8>> {
        self.rd(b.sector_of(c), b.spc())
    }

    /// Cluster `c` overwritten with `bytes`.
    pub open spec fn put_cluster(self, b: Fat32Bpb, c: u32, bytes: Seq<u8>) -> (FatView, bool) {
        self.wr(b.sector_of(c), bytes)
    }

    /// The cluster after `c` in the search for a free one: after the last comes
    /// cluster 2.
    pub open spec fn next_candidate(b: Fat32Bpb, c: u32) -> u32 {
        if bytes::w32(c + 1) > bytes::w32(b.clusters() + 1) {
            2
        } else {
            bytes::w32(c + 1)
        }
    }

    /// The search for a free cluster from `c` on, which ends where it started.
    pub open spec fn search_free(self, b: Fat32Bpb, start: u32, c: u32, fuel: nat) -> (
        FatView,
        Option<u32>,
    )
        decreases fuel,
    {
        let (s, e) = self.fat_get(b, c);
        let c2 = Self::next_candidate(b, c);
        if e == 0 {
            (FatView { hint: c2, ..s }, Some(c))
        } else if c2 == start || fuel == 0 {
            (s, None)
        } else {
            s.search_free(b, start, c2, (fuel - 1) as nat)
        }
    }

    /// Where the search for a free cluster begins.
    pub open spec fn search_start(self) -> u32 {
        if self.hint < 2 {
            2
        } else {
            self.hint
        }
    }

    /// The first cluster, from the hint on and round to it again, whose table entry is
    /// 0; the hint moves past it.
    pub open spec fn find_free(self, b: Fat32Bpb) -> (FatView, Option<u32>) {
        self.search_free(b, self.search_start(), self.search_start(), 0xFFFF_FFFF)
    }

    /// Sector and offset in it of the entry at byte `off` of directory cluster `dc`.
    pub open spec fn entry_sector(b: Fat32Bpb, dc: u32, off: u32) -> u32 {
        bytes::w32(b.sector_of(dc) + off as int / 512)
    }

    /// First cluster and size of a directory entry replaced.
    pub open spec fn update_entry(self, b: Fat32Bpb, dc: u32, off: u32, start: u32, size: u32) -> (
        FatView,
        bool,
    ) {
        match self.rd(Self::entry_sector(b, dc, off), 1) {
            None => (self, false),
            Some(sec) => self.wr(
                Self::entry_sector(b, dc, off),
                entry_with_start(sec, off as int % 512, start, size),
            ),
        }
    }

    /// A whole directory entry written; its time stamps are cleared.
    pub open spec fn write_entry(
        self,
        b: Fat32Bpb,
        dc: u32,
        off: u32,
        sn: Seq<u8>,
        attr: u8,
        start: u32,
        size: u32,
    ) -> (FatView, bool) {
        match self.rd(Self::entry_sector(b, dc, off), 1) {
            None => (self, false),
            Some(sec) => self.wr(
                Self::entry_sector(b, dc, off),
                bytes::splice(sec, off as int % 512, entry_bytes(sn, attr, start, size)),
            ),
        }
    }

    /// The chain from `c` on cleared in the table, `steps` of its entries already done;
    /// chains of more than 4096 clusters are not released to the end.
    pub open spec fn free_chain(self, b: Fat32Bpb, c: u32, steps: int) -> (FatView, bool)
        decreases 4096 - steps,
    {
        if c == 0 || c >= FAT_EOC_MIN {
            (self, true)
        } else if steps >= 4096 {
            (self, false)
        } else {
            let (s, next) = self.fat_get(b, c);
            let (t, ok) = s.fat_set(b, c, 0);
            if ok {
                t.free_chain(b, next, steps + 1)
            } else {
                (t, false)
            }
        }
    }

    /// A directory entry removed: its chain is released first, then the entry is
    /// marked.
    pub open spec fn unlink(self, b: Fat32Bpb, dc: u32, off: u32, start: u32) -> (FatView, bool) {
        let (s, ok) = if start != 0 {
            self.free_chain(b, start, 0)
        } else {
            (self, true)
        };
        if !ok {
            (s, false)
        } else {
            match s.rd(Self::entry_sector(b, dc, off), 1) {
                None => (s, false),
                Some(sec) => s.wr(
                    Self::entry_sector(b, dc, off),
                    sec.update(off as int % 512, 0xE5u8),
                ),
            }
        }
    }

    /// The first unused entry (deleted or never used) of a directory cluster, from
    /// entry `i` on.
    pub open spec fn unused_slot(d: Seq<u8>, i: int, n: int) -> Option<int>
        decreases n - i,
    {
        if i >= n {
            None
        } else if d[i * 32] == 0xE5 || d[i * 32] == 0 {
            Some(i)
        } else {
            Self::unused_slot(d, i + 1, n)
        }
    }

    /// A cleared cluster appended to the chain that ends in `c`.
    pub open spec fn grow_dir(self, b: Fat32Bpb, c: u32) -> (FatView, Option<(u32, u32)>) {
        let (s, free) = self.find_free(b);
        match free {
            None => (s, None),
            Some(f) => {
                let (s1, ok1) = s.fat_set(b, c, f);
                if !ok1 {
                    (s1, None)
                } else {
                    let (s2, ok2) = s1.fat_set(b, f, FAT_EOC);
                    if !ok2 {
                        (s2, None)
                    } else {
                        let (s3, ok3) = s2.put_cluster(b, f, bytes::zeros(b.cb()));
                        if ok3 {
                            (s3, Some((0u32, f)))
                        } else {
                            (s3, None)
                        }
                    }
                }
            },
        }
    }

    /// A place for a new directory entry: (offset in the cluster, cluster). The first
    /// unused entry along the chain, or the start of a new cluster at its end.
    pub open spec fn dir_slot(self, b: Fat32Bpb, c: u32, fuel: nat) -> (
        FatView,
        Option<(u32, u32)>,
    )
        decreases fuel,
    {
        match self.cluster(b, c) {
            None => (self, None),
            Some(d) => match Self::unused_slot(d, 0, b.cb() / 32) {
                Some(i) => (self, Some(((i * 32) as u32, c))),
                None => {
                    let (s, next) = self.fat_get(b, c);
                    if next >= FAT_EOC_MIN {
                        s.grow_dir(b, c)
                    } else if fuel == 0 {
                        (s, None)
                    } else {
                        s.dir_slot(b, next, (fuel - 1) as nat)
                    }
                },
            },
        }
    }
}

/// A sector in which the directory entry at `o` has the given first cluster and
/// size.
pub open spec fn entry_with_start(sec: Seq<u8>, o: int, start: u32, size: u32) -> Seq<u8> {
    bytes::put32(
        bytes::put16(
            bytes::put16(sec, o + 20, (start / 0x1_0000) as u16),
            o + 26,
            (start % 0x1_0000) as u16,
        ),
        o + 28,
        size,
    )
}

/// The 32 bytes of a directory entry whose time stamps are clear.
pub open spec fn entry_bytes(sn: Seq<u8>, attr: u8, start: u32, size: u32) -> Seq<u8> {
    sn + seq![attr] + bytes::zeros(8) + bytes::bytes16((start / 0x1_0000) as u16) + bytes::zeros(4)
        + bytes::bytes16((start % 0x1_0000) as u16) + bytes::bytes32(size)
}

/// A FAT32 driver's working state.
#[derive(Clone)]
pub struct Fat {
    pub store: Store,
    pub cur: u64,
    pub fat_buf: Vec<u8>,
    pub hint: u32,
}

impl Fat {
    pub open spec fn view(&self) -> FatView {
        FatView {
            store: self.store@,
            cur: self.cur,
            fat_buf: self.fat_buf@,
            hint: self.hint,
        }
    }

    /// The volumes are sound and the table buffer is one sector.
    pub open spec fn inv(&self) -> bool {
        self.store@.wf() && self.fat_buf@.len() == 512
    }

    /// A driver on `store`, working on volume `cur`.
    pub fn new(store: Store, cur: u64) -> (r: Fat)
        requires
            store@.wf(),
        ensures
            r.inv(),
            r@ == (FatView { store: store@, cur, fat_buf: bytes::zeros(512), hint: 2 }),
    {
        Fat { store, cur, fat_buf: bytes::zero_vec(512), hint: 2 }
    }

    /// Reads `n` sectors of the current volume.
    pub fn block_read(&self, sector: u32, n: u32) -> (r: Option<Vec<u8>>)
        requires
            self.inv(),
        ensures
            bytes::opt(r) == self@.rd(sector, n as int),
            r matches Some(v) ==> v@.len() == n * 512,
    {
        self.store.read(self.cur, sector, n)
    }

    /// Writes sectors of the current volume.
    pub fn block_write(&mut self, sector: u32, data: &Vec<u8>) -> (r: bool)
        requires
            old(self).inv(),
            data@.len() % 512 == 0,
            data@.len() <= 0x1FF_FFFF_FE00,
        ensures
            final(self).inv(),
            (final(self)@, r) == old(self)@.wr(sector, data@),
    {
        self.store.write(self.cur, sector, data)
    }

    /// Reads the table entry of cluster `c`.
    pub fn read_fat_entry(&mut self, b: &Fat32Bpb, c: u32) -> (r: u32)
        requires
            old(self).inv(),
        ensures
            final(self).inv(),
            (final(self)@, r) == old(self)@.fat_get(*b, c),
    {
        match self.block_read(b.fat_sector_of(0, c), 1) {
            Some(v) => {
                self.fat_buf = v;
            },
            None => {},
        }
        bytes::read_u32(&self.fat_buf, (c % 128) as usize * 4) & 0x0FFF_FFFF
    }

    /// Sets the table entry of cluster `c` in every copy of the table.
    pub fn write_fat_entry(&mut self, b: &Fat32Bpb, c: u32, v: u32) -> (r: bool)
        requires
            old(self).inv(),
        ensures
            final(self).inv(),
            (final(self)@, r) == old(self)@.fat_set(*b, c, v),
    {
        let off: usize = (c % 128) as usize * 4;
        match self.block_read(b.fat_sector_of(0, c), 1) {
            Some(sec) => {
                self.fat_buf = sec;
            },
            None => {
                return false;
            },
        }
        let e: u32 = bytes::read_u32(&self.fat_buf, off);
        bytes::write_u32(&mut self.fat_buf, off, (e & 0xF000_0000) | (v & 0x0FFF_FFFF));
        let ghost entry = self@;
        let mut k: u8 = 0;
        while k < b.num_fats
            invariant
                k <= b.num_fats,
                self.inv(),
                self@.put_copies(*b, c, k as int) == entry.put_copies(*b, c, 0),
                entry.put_copies(*b, c, 0) == old(self)@.fat_set(*b, c, v),
            decreases b.num_fats - k,
        {
            let sector: u32 = b.fat_sector_of(k, c);
            let ok: bool = self.store.write(self.cur, sector, &self.fat_buf);
            if !ok {
                return false;
            }
            k = k + 1;
        }
        true
    }

    /// Reads the whole cluster `c`.
    pub fn read_cluster(&self, b: &Fat32Bpb, c: u32) -> (r: Option<Vec<u8>>)
        requires
            self.inv(),
            b.wf(),
        ensures
            bytes::opt(r) == self@.cluster(*b, c),
            r matches Some(v) ==> v@.len() == b.cb(),
    {
        self.block_read(b.cluster_to_sector(c), b.sectors_per_cluster as u32)
    }

    /// Overwrites the whole cluster `c`.
    pub fn write_cluster(&mut self, b: &Fat32Bpb, c: u32, data: &Vec<u8>) -> (r: bool)
        requires
            old(self).inv(),
            b.wf(),
            data@.len() == b.cb(),
        ensures
            final(self).inv(),
            (final(self)@, r) == old(self)@.put_cluster(*b, c, data@),
    {
        self.block_write(b.cluster_to_sector(c), data)
    }

    /// Looks for a free cluster, from the hint on, and moves the hint past it.
    pub fn find_free_cluster(&mut self, b: &Fat32Bpb) -> (r: Option<u32>)
        requires
            old(self).inv(),
            b.wf(),
        ensures
            final(self).inv(),
            (final(self)@, r) == old(self)@.find_free(*b),
    {
        let total: u32 = b.total_clusters();
        let last: u32 = if total == 0xFFFF_FFFF {
            0
        } else {
            total + 1
        };
        let start: u32 = if self.hint < 2 {
            2
        } else {
            self.hint
        };
        let mut c: u32 = start;
        let mut fuel: u32 = 0xFFFF_FFFF;
        loop
            invariant
                self.inv(),
                b.wf(),
                last == bytes::w32(b.clusters() + 1),
                self@.search_free(*b, start, c, fuel as nat) == old(self)@.find_free(*b),
            decreases fuel,
        {
            let e: u32 = self.read_fat_entry(b, c);
            let up: u32 = if c == 0xFFFF_FFFF {
                0
            } else {
                c + 1
            };
            let c2: u32 = if up > last {
                2
            } else {
                up
            };
            if e == 0 {
                self.hint = c2;
                return Some(c);
            }
            if c2 == start || fuel == 0 {
                return None;
            }
            c = c2;
            fuel = fuel - 1;
        }
    }

    /// The sector of the entry at byte `off` of directory cluster `dc`.
    fn entry_sector(b: &Fat32Bpb, dc: u32, off: u32) -> (r: u32)
        ensures
            r == FatView::entry_sector(*b, dc, off),
    {
        ((b.cluster_to_sector(dc) as u64 + (off / 512) as u64) % 0x1_0000_0000) as u32
    }

    /// Stores first cluster and size in the directory entry at byte `off` of cluster
    /// `dc`.
    pub fn update_dir_entry(&mut self, b: &Fat32Bpb, dc: u32, off: u32, start: u32, size: u32) -> (r:
        bool)
        requires
            old(self).inv(),
            off % 32 == 0,
        ensures
            final(self).inv(),
            (final(self)@, r) == old(self)@.update_entry(*b, dc, off, start, size),
    {
        let sector: u32 = Self::entry_sector(b, dc, off);
        let o: usize = (off % 512) as usize;
        let mut sec: Vec<u8> = match self.block_read(sector, 1) {
            Some(v) => v,
            None => {
                return false;
            },
        };
        bytes::write_u16(&mut sec, o + 20, (start / 0x1_0000) as u16);
        bytes::write_u16(&mut sec, o + 26, (start % 0x1_0000) as u16);
        bytes::write_u32(&mut sec, o + 28, size);
        self.block_write(sector, &sec)
    }

    /// Writes a whole directory entry at byte `off` of cluster `dc`.
    pub fn write_dir_entry(
        &mut self,
        b: &Fat32Bpb,
        dc: u32,
        off: u32,
        sn: &Vec<u8>,
        attr: u8,
        start: u32,
        size: u32,
    ) -> (r: bool)
        requires
            old(self).inv(),
            off % 32 == 0,
            sn@.len() == 11,
        ensures
            final(self).inv(),
            (final(self)@, r) == old(self)@.write_entry(*b, dc, off, sn@, attr, start, size),
    {
        let sector: u32 = Self::entry_sector(b, dc, off);
        let o: usize = (off % 512) as usize;
        let mut sec: Vec<u8> = match self.block_read(sector, 1) {
            Some(v) => v,
            None => {
                return false;
            },
        };
        let ghost sec0 = sec@;
        bytes::copy_into(&mut sec, o, sn, 0, 11);
        sec.set(o + 11, attr);
        bytes::zero_bytes(&mut sec, o + 12, 8);
        bytes::write_u16(&mut sec, o + 20, (start / 0x1_0000) as u16);
        bytes::zero_bytes(&mut sec, o + 22, 4);
        bytes::write_u16(&mut sec, o + 26, (start % 0x1_0000) as u16);
        bytes::write_u32(&mut sec, o + 28, size);
        assert(sec@ =~= bytes::splice(sec0, o as int, entry_bytes(sn@, attr, start, size)));
        self.block_write(sector, &sec)
    }

    /// Releases the chain that starts at `start`.
    pub fn free_cluster_chain(&mut self, b: &Fat32Bpb, start: u32) -> (r: bool)
        requires
            old(self).inv(),
        ensures
            final(self).inv(),
            (final(self)@, r) == old(self)@.free_chain(*b, start, 0),
    {
        let mut c: u32 = start;
        let mut steps: u32 = 0;
        while c != 0 && c < FAT_EOC_MIN
            invariant
                self.inv(),
                steps <= 4096,
                self@.free_chain(*b, c, steps as int) == old(self)@.free_chain(*b, start, 0),
            decreases 4096 - steps,
        {
            if steps >= 4096 {
                return false;
            }
            let next: u32 = self.read_fat_entry(b, c);
            if !self.write_fat_entry(b, c, 0) {
                return false;
            }
            c = next;
            steps = steps + 1;
        }
        true
    }

    /// Removes the directory entry at byte `off` of cluster `dc` and releases its
    /// chain.
    pub fn unlink_entry(&mut self, b: &Fat32Bpb, dc: u32, off: u32, start: u32) -> (r: bool)
        requires
            old(self).inv(),
        ensures
            final(self).inv(),
            (final(self)@, r) == old(self)@.unlink(*b, dc, off, start),
    {
        if start != 0 && !self.free_cluster_chain(b, start) {
            return false;
        }
        let sector: u32 = Self::entry_sector(b, dc, off);
        let mut sec: Vec<u8> = match self.block_read(sector, 1) {
            Some(v) => v,
            None => {
                return false;
            },
        };
        sec.set((off % 512) as usize, 0xE5);
        self.block_write(sector, &sec)
    }

    /// Finds a place for a new directory entry, growing the directory at need.
    pub fn find_dir_slot(&mut self, b: &Fat32Bpb, dir: u32) -> (r: Option<(u32, u32)>)
        requires
            old(self).inv(),
            b.wf(),
        ensures
            final(self).inv(),
            (final(self)@, r) == old(self)@.dir_slot(*b, dir, FAT_WALK_MAX as nat),
            r matches Some((off, c)) ==> off % 32 == 0 && off + 32 <= b.cb(),
    {
        let n: usize = (b.cluster_bytes() / 32) as usize;
        let mut c: u32 = dir;
        let mut fuel: u32 = FAT_WALK_MAX;
        loop
            invariant
                self.inv(),
                b.wf(),
                n == b.cb() / 32,
                self@.dir_slot(*b, c, fuel as nat) == old(self)@.dir_slot(
                    *b,
                    dir,
                    FAT_WALK_MAX as nat,
                ),
            decreases fuel,
        {
            let d: Vec<u8> = match self.read_cluster(b, c) {
                Some(v) => v,
                None => {
                    return None;
                },
            };
            let mut i: usize = 0;
            while i < n
                invariant
                    i <= n,
                    d.len() == b.cb(),
                    n == b.cb() / 32,
                    b.wf(),
                    self.inv(),
                    self@.cluster(*b, c) == Some(d@),
                    self@.dir_slot(*b, c, fuel as nat) == old(self)@.dir_slot(
                        *b,
                        dir,
                        FAT_WALK_MAX as nat,
                    ),
                    FatView::unused_slot(d@, i as int, n as int) == FatView::unused_slot(
                        d@,
                        0,
                        n as int,
                    ),
                decreases n - i,
            {
                if d[i * 32] == 0xE5 || d[i * 32] == 0 {
                    return Some(((i * 32) as u32, c));
                }
                i = i + 1;
            }
            let next: u32 = self.read_fat_entry(b, c);
            if next >= FAT_EOC_MIN {
                let free: u32 = match self.find_free_cluster(b) {
                    Some(f) => f,
                    None => {
                        return None;
                    },
                };
                if !self.write_fat_entry(b, c, free) {
                    return None;
                }
                if !self.write_fat_entry(b, free, FAT_EOC) {
                    return None;
                }
                let blank: Vec<u8> = bytes::zero_vec(b.cluster_bytes() as usize);
                if !self.write_cluster(b, free, &blank) {
                    return None;
                }
                return Some((0, free));
            }
            if fuel == 0 {
                return None;
            }
            c = next;
            fuel = fuel - 1;
        }
    }
}

} // verus!
