//! MorionFS: volumes. Finding the primary volume, loading the state of a file system,
//! making a new one.
use vstd::prelude::*;

use crate::bytes;
use crate::disk::{Store, StoreView};
use crate::mfs;
use crate::mfs::{
    Mfs, MfsSnap, MfsView, MFS_BLOCK, MFS_DEFAULT_TOTAL_BLOCKS, MFS_MAGIC_BMPHDR, MFS_MAGIC_DIR,
    MFS_MAGIC_ITABX, MFS_MAGIC_SUPER, MFS_MAX_BLOCKS, MFS_MAX_SNAP, MFS_MIN_TOTAL_BLOCKS,
    MFS_ROOT_INO, MFS_SLOTS, MFS_VERSION,
};
use crate::mfs_dir;
use crate::mfs_dir::MFS_MODE_DIR;
use crate::vfs::MODE_FTYPE_DIR;
use crate::volume;
use crate::volume::{VolumeDesc, VOL_KIND_MFS, VOL_KIND_UNKNOWN};

verus! {

/// The volume taken where none holds a MorionFS.
pub const MFS_VOL_FALLBACK: u64 = 1;

/// Whether a block is a superblock of this version.
pub open spec fn is_super(b: Seq<u8>) -> bool {
    mfs::block_ok(b, MFS_MAGIC_SUPER) && bytes::le32(b, 8) == MFS_VERSION
}

/// The primary serial in one copy of a volume's superblock, 0 for none.
pub open spec fn primary_copy(store: StoreView, vol: u64, copy: u32) -> u64 {
    match store.read(vol, (copy * 8) as u32, 8) {
        None => 0,
        Some(b) => if is_super(b) {
            bytes::le64(b, 264)
        } else {
            0
        },
    }
}

/// The larger of two serials.
pub open spec fn larger(a: u64, b: u64) -> u64 {
    if b > a {
        b
    } else {
        a
    }
}

/// The primary serial of a volume, 0 for none.
#[verifier::opaque]
pub open spec fn primary_of(store: StoreView, vol: u64) -> u64 {
    larger(primary_copy(store, vol, 0), primary_copy(store, vol, 1))
}

/// The largest of `m` and the serials of the MorionFS volumes from the `i`th on, but for
/// `target`.
pub open spec fn largest_from(
    store: StoreView,
    list: Seq<VolumeDesc>,
    target: u64,
    i: int,
    m: u64,
) -> u64
    decreases list.len() - i,
{
    if i >= list.len() {
        m
    } else if list[i].kind == VOL_KIND_MFS && list[i].id as u64 != target {
        largest_from(
            store,
            list,
            target,
            i + 1,
            larger(m, primary_of(store, list[i].id as u64)),
        )
    } else {
        largest_from(store, list, target, i + 1, m)
    }
}

/// The serial that makes `target` the primary volume: one more than any there is.
pub open spec fn next_serial(store: StoreView, list: Seq<VolumeDesc>, target: u64) -> u64 {
    ((largest_from(store, list, target, 0, primary_of(store, target)) + 1)
        % 0x1_0000_0000_0000_0000) as u64
}

/// The MorionFS volume with the largest serial above `s`, from the `i`th on; `v` where
/// there is none.
pub open spec fn best_from(
    store: StoreView,
    list: Seq<VolumeDesc>,
    i: int,
    s: u64,
    v: Option<u32>,
) -> Option<u32>
    decreases list.len() - i,
{
    if i >= list.len() {
        v
    } else {
        let p = primary_of(store, list[i].id as u64);
        if list[i].kind == VOL_KIND_MFS && p > s {
            best_from(store, list, i + 1, p, Some(list[i].id))
        } else {
            best_from(store, list, i + 1, s, v)
        }
    }
}

/// The volume to mount: the one with the largest serial, else the first MorionFS volume,
/// else the fallback.
pub open spec fn claimed(store: StoreView, list: Seq<VolumeDesc>) -> u64 {
    match best_from(store, list, 0, 0, None) {
        Some(v) => v as u64,
        None => match volume::first_of_kind(list, VOL_KIND_MFS, 0) {
            Some(v) => v as u64,
            None => MFS_VOL_FALLBACK,
        },
    }
}

/// The snapshot record `i` of a superblock.
pub open spec fn snap_at(b: Seq<u8>, i: int) -> MfsSnap {
    let o = 56 + 24 * i;
    MfsSnap {
        gen: bytes::le64(b, o),
        itab: bytes::le32(b, o + 8),
        ino_hint: bytes::le32(b, o + 12),
        alloc_next: bytes::le32(b, o + 16),
    }
}

/// Number of snapshots of a superblock.
pub open spec fn snap_count(b: Seq<u8>) -> int {
    if bytes::le32(b, 28) <= MFS_MAX_SNAP {
        bytes::le32(b, 28) as int
    } else {
        MFS_MAX_SNAP as int
    }
}

/// What the copies tried so far gave.
pub struct Found {
    pub any: bool,
    pub gen: u64,
    pub bitmap: bool,
}

/// Blocks of a new file system on a volume of `sectors` sectors.
pub open spec fn format_blocks(sectors: u32) -> u32 {
    if sectors == 0 {
        MFS_DEFAULT_TOTAL_BLOCKS
    } else {
        mfs::clamp(
            sectors as int / 8,
            MFS_MIN_TOTAL_BLOCKS as int,
            MFS_MAX_BLOCKS as int,
        ) as u32
    }
}

/// A bitmap window whose first `n` bits are `v`.
pub open spec fn filled(m: Seq<bool>, n: int, v: bool) -> Seq<bool> {
    Seq::new(
        m.len(),
        |i: int|
            if i < n {
                v
            } else {
                m[i]
            },
    )
}

/// The sectors of a volume by the list; 0 for one that it does not name.
pub open spec fn listed_sectors(list: Seq<VolumeDesc>, vol: u64) -> u32 {
    match volume::desc_from(list, vol, 0) {
        Some(d) => d.sectors,
        None => 0,
    }
}

impl MfsView {
    /// Whether a superblock can be taken: its size is possible and fits the volume, and
    /// its inode table index can be read.
    pub open spec fn usable(self, b: Seq<u8>) -> bool {
        let total = bytes::le32(b, 16);
        let itab = bytes::le32(b, 40);
        &&& total != 0
        &&& itab != 0
        &&& total <= MFS_MAX_BLOCKS
        &&& (self.sectors == 0 || total * 8 <= self.sectors)
        &&& self.load(itab, MFS_MAGIC_ITABX) is Some
    }

    /// The state that a superblock describes.
    pub open spec fn adopted(self, b: Seq<u8>) -> MfsView {
        let total = bytes::le32(b, 16);
        MfsView {
            total,
            bmp: self.widened(total),
            alloc_next: bytes::le32(b, 24),
            gen: bytes::le64(b, 32),
            itab: bytes::le32(b, 40),
            ino_count: bytes::le32(b, 20),
            ino_hint: if bytes::le32(b, 44) < MFS_ROOT_INO + 1 {
                (MFS_ROOT_INO + 1) as u32
            } else {
                bytes::le32(b, 44)
            },
            primary: bytes::le64(b, 264),
            snaps: Seq::new(snap_count(b) as nat, |i: int| snap_at(b, i)),
            ..self
        }.itab_reload().0
    }

    /// Bitmap block `c` taken from disk.
    #[verifier::opaque]
    pub open spec fn with_bitmap_block(self, c: int, d: Seq<u8>) -> MfsView {
        MfsView { bmp: mfs::unpacked(self.bmp, c, d), ..self }
    }

    /// The bitmap blocks of copy `copy` loaded, from block `c` on, each with the CRC that
    /// the header names.
    pub open spec fn bitmap_from(self, head: Seq<u8>, copy: int, c: int) -> (MfsView, bool)
        decreases mfs::bb_for(self.total) - c,
    {
        if c >= mfs::bb_for(self.total) {
            (self, true)
        } else {
            match self.rd((self.bmp_start(copy) + c) as u32) {
                None => (self, false),
                Some(d) => {
                    let s = self.with_bitmap_block(c, d);
                    if mfs::crc32(d) == bytes::le32(head, 24 + 4 * c) && s.total == self.total {
                        s.bitmap_from(head, copy, c + 1)
                    } else {
                        (s, false)
                    }
                },
            }
        }
    }

    /// The bitmap of copy `copy` loaded.
    #[verifier::opaque]
    pub open spec fn load_bitmap(self, copy: int) -> (MfsView, bool) {
        match self.load((2 + copy) as u32, MFS_MAGIC_BMPHDR) {
            None => (self, false),
            Some(h) => if bytes::le64(h, 8) == self.gen && bytes::le32(h, 16) == self.total
                && bytes::le32(h, 20) == mfs::bb_for(self.total) {
                self.bitmap_from(h, copy, 0)
            } else {
                (self, false)
            },
        }
    }

    /// Copy `copy` tried: it is taken where it can be used and is newer than what was
    /// found, or as new where the bitmap was not.
    #[verifier::opaque]
    pub open spec fn load_copy(self, copy: int, f: Found) -> (MfsView, Found) {
        match self.rd(copy as u32) {
            None => (self, f),
            Some(b) => {
                let gen = bytes::le64(b, 32);
                if !is_super(b) || (f.any && (gen < f.gen || (gen == f.gen && f.bitmap)))
                    || !self.usable(b) {
                    (self, f)
                } else {
                    let (s, ok) = self.adopted(b).load_bitmap(copy);
                    (s, Found { any: true, gen, bitmap: ok })
                }
            },
        }
    }

    /// The inode tables of the snapshots from `i` on marked in use.
    pub open spec fn mark_snaps(self, i: int) -> MfsView
        decreases self.snaps.len() - i,
    {
        if i >= self.snaps.len() {
            self
        } else {
            let s = self.mark_itab(self.snaps[i].itab);
            if s.snaps == self.snaps {
                s.mark_snaps(i + 1)
            } else {
                s
            }
        }
    }

    /// The bitmap built anew from what is reached; it starts with every block in use.
    #[verifier::opaque]
    pub open spec fn rebuild(self) -> (MfsView, bool) {
        let (s, r) = MfsView {
            bmp: filled(self.bmp, mfs::bb_for(self.total) * 32768, true),
            free: 0,
            ..self
        }.gc();
        (s, r is Some)
    }

    /// The state of the current volume loaded from the better copy.
    #[verifier::opaque]
    pub open spec fn load_state(self) -> (MfsView, bool) {
        let (s1, f1) = self.load_copy(0, Found { any: false, gen: 0, bitmap: false });
        let (s2, f2) = s1.load_copy(1, f1);
        if !f2.any {
            (s2, false)
        } else if f2.bitmap {
            let s3 = s2.recount().set_range(0, mfs::data_start(s2.total));
            (s3.mark_itab(s3.itab).mark_snaps(0), true)
        } else {
            s2.rebuild()
        }
    }

    /// The state of an empty file system, before anything is written.
    pub open spec fn blank_state(self) -> MfsView {
        let total = format_blocks(self.sectors);
        let n = mfs::bb_for(total);
        MfsView {
            total,
            bmp: filled(self.widened(total), n * 32768, false),
            dirty: filled(self.dirty, n, true),
            free: total,
            alloc_next: mfs::data_start(total) as u32,
            gen: 0,
            snaps: Seq::empty(),
            itab: 0,
            itab_mem: Seq::new(MFS_SLOTS as nat, |i: int| 0u32),
            tab_idx: u32::MAX,
            ino_count: 0,
            ino_hint: (MFS_ROOT_INO + 1) as u32,
            ..self
        }
    }

    /// The node of an empty root directory.
    pub open spec fn root_block(self) -> Seq<u8> {
        mfs_dir::with_meta(
            mfs_dir::empty_dir(bytes::zeros(4096)),
            true,
            MODE_FTYPE_DIR,
            0,
            MFS_MODE_DIR,
            self.now,
        )
    }

    /// A new, empty file system on the current volume.
    #[verifier::opaque]
    pub open spec fn format(self) -> (MfsView, bool) {
        let b = self.blank_state();
        let s0 = b.set_range(0, mfs::data_start(b.total));
        let (s1, r1) = s0.commit(self.root_block(), MFS_MAGIC_DIR);
        match r1 {
            None => (s1, false),
            Some(root) => {
                let (s2, ok2) = s1.itab_flush();
                if !ok2 {
                    (s2, false)
                } else {
                    let (s3, ok3) = s2.itab_set(MFS_ROOT_INO, root);
                    if !ok3 {
                        (s3, false)
                    } else {
                        MfsView {
                            ino_count: 1,
                            ino_hint: (MFS_ROOT_INO + 1) as u32,
                            ..s3
                        }.flush()
                    }
                }
            },
        }
    }

    /// The current volume loaded, or else made anew.
    #[verifier::opaque]
    pub open spec fn mount_or_format(self) -> (MfsView, bool) {
        let (s, ok) = self.load_state();
        if ok {
            (s, true)
        } else {
            MfsView { primary: 0, ..s }.format()
        }
    }

    /// Nothing loaded yet of volume `vol`, which has `sectors` sectors.
    pub open spec fn other(self, vol: u64, sectors: u32) -> MfsView {
        MfsView { now: self.now, ..MfsView::init(self.store, vol, sectors) }
    }

    /// Volume `vol` made current. Where it cannot be loaded the current volume stays current,
    /// with its own tables.
    #[verifier::opaque]
    pub open spec fn switch_vol(self, list: Seq<VolumeDesc>, vol: u64) -> (MfsView, bool) {
        let (s, ok) = self.other(vol, listed_sectors(list, vol)).load_state();
        if ok {
            (s, true)
        } else {
            (MfsView { store: s.store, ..self }, false)
        }
    }

    /// A new file system on volume `vol`, which becomes the primary one; the current volume
    /// stays current, and is loaded again. Where that fails it keeps its own tables, or those
    /// of the new file system where that was made on it. Refused where the volume holds
    /// another file system.
    #[verifier::opaque]
    pub open spec fn mkfs(self, list: Seq<VolumeDesc>, vol: u64) -> (MfsView, Option<u64>) {
        match volume::desc_from(list, vol, 0) {
            None => (self, None),
            Some(d) => if d.kind != VOL_KIND_UNKNOWN && d.kind != VOL_KIND_MFS {
                (self, None)
            } else {
                let (s1, ok1) = MfsView {
                    primary: next_serial(self.store, list, vol),
                    ..self.other(vol, d.sectors)
                }.format();
                let (s2, ok2) = s1.other(self.vol, self.sectors).load_state();
                let t = if ok2 {
                    s2
                } else if vol == self.vol {
                    MfsView { store: s2.store, ..s1 }
                } else {
                    MfsView { store: s2.store, ..self }
                };
                let landed = primary_of(t.store, vol);
                if !ok2 || !ok1 || landed == 0 {
                    (t, None)
                } else {
                    (t, Some(landed))
                }
            },
        }
    }
}

/// The primary serial in one copy of a volume's superblock.
fn primary_in(store: &Store, vol: u64, copy: u32) -> (r: u64)
    requires
        store@.wf(),
        copy < 2,
    ensures
        r == primary_copy(store@, vol, copy),
{
    match store.read(vol, copy * 8, 8) {
        None => 0,
        Some(b) => {
            if mfs::mfs_ok(&b, MFS_MAGIC_SUPER) && bytes::read_u32(&b, 8) == MFS_VERSION {
                bytes::read_u64(&b, 264)
            } else {
                0
            }
        },
    }
}

/// The primary serial of a volume, 0 for none.
pub fn mfs_primary_of_vol(store: &Store, vol: u64) -> (r: u64)
    requires
        store@.wf(),
    ensures
        r == primary_of(store@, vol),
{
    proof {
        reveal(primary_of);
    }
    let a: u64 = primary_in(store, vol, 0);
    let b: u64 = primary_in(store, vol, 1);
    if b > a {
        b
    } else {
        a
    }
}

/// The serial that makes `target` the primary volume.
#[verifier::loop_isolation(false)]
pub fn mfs_next_primary_serial(store: &Store, list: &Vec<VolumeDesc>, target: u64) -> (r: u64)
    requires
        store@.wf(),
    ensures
        r == next_serial(store@, list@, target),
{
    let mut m: u64 = mfs_primary_of_vol(store, target);
    let ghost goal = largest_from(store@, list@, target, 0, m);
    let mut i: usize = 0;
    while i < list.len()
        invariant
            i <= list.len(),
            largest_from(store@, list@, target, i as int, m) == goal,
        decreases list.len() - i,
    {
        if list[i].kind == VOL_KIND_MFS && list[i].id as u64 != target {
            let p: u64 = mfs_primary_of_vol(store, list[i].id as u64);
            if p > m {
                m = p;
            }
        }
        i = i + 1;
    }
    if m == u64::MAX {
        0
    } else {
        m + 1
    }
}

/// The volume to mount.
#[verifier::loop_isolation(false)]
pub fn mfs_vol_claim(store: &Store, list: &Vec<VolumeDesc>) -> (r: u64)
    requires
        store@.wf(),
    ensures
        r == claimed(store@, list@),
{
    let mut best: Option<u32> = None;
    let mut s: u64 = 0;
    let ghost goal = best_from(store@, list@, 0, 0, None);
    let mut i: usize = 0;
    while i < list.len()
        invariant
            i <= list.len(),
            best_from(store@, list@, i as int, s, best) == goal,
        decreases list.len() - i,
    {
        if list[i].kind == VOL_KIND_MFS {
            let p: u64 = mfs_primary_of_vol(store, list[i].id as u64);
            if p > s {
                s = p;
                best = Some(list[i].id);
            }
        }
        i = i + 1;
    }
    match best {
        Some(v) => v as u64,
        None => match volume::vol_find_kind(list, VOL_KIND_MFS) {
            Some(v) => v as u64,
            None => MFS_VOL_FALLBACK,
        },
    }
}

/// Law: the serial given to a volume that is made anew is above that of every MorionFS
/// volume, so the volume is the one mounted next.
pub proof fn law_mkfs_wins(store: StoreView, list: Seq<VolumeDesc>, target: u64, i: int)
    requires
        0 <= i < list.len(),
        list[i].kind == VOL_KIND_MFS,
        largest_from(store, list, target, 0, primary_of(store, target)) < u64::MAX,
    ensures
        next_serial(store, list, target) > primary_of(store, list[i].id as u64),
{
    lemma_largest(store, list, target, 0, primary_of(store, target), i);
}

/// Law: a volume that holds another file system, and one that is not listed, is never made
/// anew: the request is refused and nothing changes.
pub proof fn law_other_kinds_stay(s: MfsView, list: Seq<VolumeDesc>, vol: u64)
    requires
        volume::desc_from(list, vol, 0) matches Some(d) ==> d.kind != VOL_KIND_UNKNOWN && d.kind
            != VOL_KIND_MFS,
    ensures
        s.mkfs(list, vol) == (s, None::<u64>),
{
    reveal(MfsView::mkfs);
}

/// The largest serial is at least each one that it was taken over.
proof fn lemma_largest(
    store: StoreView,
    list: Seq<VolumeDesc>,
    target: u64,
    i: int,
    m: u64,
    k: int,
)
    requires
        0 <= i <= list.len(),
        i <= k < list.len() ==> list[k].kind == VOL_KIND_MFS,
    ensures
        largest_from(store, list, target, i, m) >= m,
        i <= k < list.len() && list[k].id as u64 != target ==> largest_from(
            store,
            list,
            target,
            i,
            m,
        ) >= primary_of(store, list[k].id as u64),
    decreases list.len() - i,
{
    if i < list.len() {
        if list[i].kind == VOL_KIND_MFS && list[i].id as u64 != target {
            lemma_largest(
                store,
                list,
                target,
                i + 1,
                larger(m, primary_of(store, list[i].id as u64)),
                k,
            );
        } else {
            lemma_largest(store, list, target, i + 1, m, k);
        }
    }
}

impl Mfs {
    /// Whether a superblock can be taken.
    fn usable(&self, b: &Vec<u8>) -> (r: bool)
        requires
            self.inv(),
            b.len() == MFS_BLOCK,
        ensures
            r == self@.usable(b@),
    {
        let total: u32 = bytes::read_u32(b, 16);
        let itab: u32 = bytes::read_u32(b, 40);
        if total == 0 || itab == 0 || total > MFS_MAX_BLOCKS {
            return false;
        }
        if self.sectors != 0 && total as u64 * 8 > self.sectors as u64 {
            return false;
        }
        self.load(itab, MFS_MAGIC_ITABX).is_some()
    }

    /// Takes the state that a superblock describes.
    #[verifier::loop_isolation(false)]
    fn adopt(&mut self, b: &Vec<u8>)
        requires
            old(self).inv(),
            b.len() == MFS_BLOCK,
            old(self)@.usable(b@),
        ensures
            final(self).inv(),
            final(self)@ == old(self)@.adopted(b@),
    {
        let total: u32 = bytes::read_u32(b, 16);
        self.set_total(total);
        self.alloc_next = bytes::read_u32(b, 24);
        self.gen = bytes::read_u64(b, 32);
        self.itab = bytes::read_u32(b, 40);
        self.ino_count = bytes::read_u32(b, 20);
        let hint: u32 = bytes::read_u32(b, 44);
        self.ino_hint = if hint < MFS_ROOT_INO + 1 {
            MFS_ROOT_INO + 1
        } else {
            hint
        };
        self.primary = bytes::read_u64(b, 264);
        let raw: u32 = bytes::read_u32(b, 28);
        let count: usize = if raw <= 8 {
            raw as usize
        } else {
            MFS_MAX_SNAP
        };
        let mut snaps: Vec<MfsSnap> = Vec::new();
        let mut i: usize = 0;
        while i < count
            invariant
                i <= count <= MFS_MAX_SNAP,
                snaps@ =~= Seq::new(i as nat, |k: int| snap_at(b@, k)),
            decreases count - i,
        {
            let o: usize = 56 + 24 * i;
            snaps.push(
                MfsSnap {
                    gen: bytes::read_u64(b, o),
                    itab: bytes::read_u32(b, o + 8),
                    ino_hint: bytes::read_u32(b, o + 12),
                    alloc_next: bytes::read_u32(b, o + 16),
                },
            );
            i = i + 1;
        }
        self.snaps = snaps;
        let _loaded: bool = self.mfs_itab_reload();
    }

    /// Takes bitmap block `c` from disk.
    #[verifier::loop_isolation(false)]
    fn unpack_block(&mut self, c: u32, d: &Vec<u8>)
        requires
            old(self).inv(),
            c < mfs::bb_for(old(self).total),
            d.len() == MFS_BLOCK,
        ensures
            final(self).inv(),
            final(self)@ == old(self)@.with_bitmap_block(c as int, d@),
            final(self).total == old(self).total,
    {
        proof {
            reveal(MfsView::with_bitmap_block);
        }
        let base: usize = c as usize * 32768;
        let mut k: usize = 0;
        while k < 32768
            invariant
                k <= 32768,
                self.inv(),
                self.total == old(self).total,
                self.bmp.len() == old(self).bmp.len(),
                self@ == (MfsView { bmp: self.bmp@, ..old(self)@ }),
                self.bmp@ =~= Seq::new(
                    old(self).bmp@.len(),
                    |i: int|
                        if base <= i < base + k {
                            mfs::bit_of(d@, i - base)
                        } else {
                            old(self).bmp@[i]
                        },
                ),
            decreases 32768 - k,
        {
            let v: bool = mfs::mfs_bit(d, k);
            self.bmp.set(base + k, v);
            k = k + 1;
        }
        assert(self@.bmp =~= mfs::unpacked(old(self)@.bmp, c as int, d@));
    }

    /// Loads the bitmap of copy `copy`.
    #[verifier::loop_isolation(false)]
    pub fn mfs_load_bitmap_copy(&mut self, copy: u32) -> (r: bool)
        requires
            old(self).inv(),
            copy < 2,
        ensures
            final(self).inv(),
            (final(self)@, r) == old(self)@.load_bitmap(copy as int),
    {
        proof {
            reveal(MfsView::load_bitmap);
        }
        let h: Vec<u8> = match self.load(2 + copy, MFS_MAGIC_BMPHDR) {
            Some(h) => h,
            None => {
                return false;
            },
        };
        let bb: u32 = mfs::mfs_bb_for(self.total);
        if bytes::read_u64(&h, 8) != self.gen || bytes::read_u32(&h, 16) != self.total
            || bytes::read_u32(&h, 20) != bb {
            return false;
        }
        let start: u32 = if copy == 0 {
            4
        } else {
            4 + bb
        };
        assert(start == self@.bmp_start(copy as int)) by (nonlinear_arith)
            requires
                copy == 0 || copy == 1,
                bb == mfs::bb_for(self.total),
                start == (if copy == 0 {
                    4
                } else {
                    4 + bb
                }),
        ;
        let ghost goal = self@.bitmap_from(h@, copy as int, 0);
        let mut c: u32 = 0;
        while c < bb
            invariant
                c <= bb,
                self.inv(),
                self.total == old(self).total,
                self@.bitmap_from(h@, copy as int, c as int) == goal,
            decreases bb - c,
        {
            let d: Vec<u8> = match self.mfs_read_blk(start + c) {
                Some(d) => d,
                None => {
                    return false;
                },
            };
            self.unpack_block(c, &d);
            if mfs::mfs_crc32(&d) != bytes::read_u32(&h, 24 + 4 * c as usize) {
                return false;
            }
            c = c + 1;
        }
        true
    }

    /// Tries copy `copy`.
    fn load_copy(&mut self, copy: u32, f: Found) -> (r: Found)
        requires
            old(self).inv(),
            copy < 2,
        ensures
            final(self).inv(),
            (final(self)@, r) == old(self)@.load_copy(copy as int, f),
    {
        proof {
            reveal(MfsView::load_copy);
        }
        let b: Vec<u8> = match self.mfs_read_blk(copy) {
            Some(b) => b,
            None => {
                return f;
            },
        };
        if !mfs::mfs_ok(&b, MFS_MAGIC_SUPER) || bytes::read_u32(&b, 8) != MFS_VERSION {
            return f;
        }
        let gen: u64 = bytes::read_u64(&b, 32);
        if f.any && (gen < f.gen || (gen == f.gen && f.bitmap)) {
            return f;
        }
        if !self.usable(&b) {
            return f;
        }
        self.adopt(&b);
        let ok: bool = self.mfs_load_bitmap_copy(copy);
        Found { any: true, gen, bitmap: ok }
    }

    /// Sets the first `n` bits of the bitmap window.
    #[verifier::loop_isolation(false)]
    fn fill_bmp(&mut self, n: usize, v: bool)
        requires
            old(self).inv(),
            n <= old(self).bmp.len(),
        ensures
            final(self).inv(),
            final(self)@ == (MfsView { bmp: filled(old(self)@.bmp, n as int, v), ..old(self)@ }),
    {
        let mut i: usize = 0;
        while i < n
            invariant
                i <= n,
                self.inv(),
                self@ == (MfsView { bmp: self.bmp@, ..old(self)@ }),
                self.bmp@ =~= filled(old(self)@.bmp, i as int, v),
                n <= self.bmp.len(),
            decreases n - i,
        {
            self.bmp.set(i, v);
            i = i + 1;
        }
    }

    /// Builds the bitmap anew from what is reached.
    pub fn mfs_rebuild_bitmap(&mut self) -> (r: bool)
        requires
            old(self).inv(),
        ensures
            final(self).inv(),
            (final(self)@, r) == old(self)@.rebuild(),
    {
        proof {
            reveal(MfsView::rebuild);
        }
        let n: usize = mfs::mfs_bb_for(self.total) as usize * 32768;
        self.fill_bmp(n, true);
        self.free = 0;
        self.mfs_gc().is_some()
    }

    /// Loads the state of the current volume.
    #[verifier::loop_isolation(false)]
    pub fn mfs_load_state(&mut self) -> (r: bool)
        requires
            old(self).inv(),
        ensures
            final(self).inv(),
            (final(self)@, r) == old(self)@.load_state(),
    {
        proof {
            reveal(MfsView::load_state);
        }
        let f1: Found = self.load_copy(0, Found { any: false, gen: 0, bitmap: false });
        let f2: Found = self.load_copy(1, f1);
        if !f2.any {
            return false;
        }
        if !f2.bitmap {
            return self.mfs_rebuild_bitmap();
        }
        self.mfs_bmp_recount();
        let end: u32 = self.mfs_data_start();
        self.set_range(0, end);
        let itab: u32 = self.itab;
        self.mfs_mark_itab_meta(itab);
        let ghost goal = self@.mark_snaps(0);
        let mut i: usize = 0;
        while i < self.snaps.len()
            invariant
                i <= self.snaps.len(),
                self.inv(),
                self@.mark_snaps(i as int) == goal,
            decreases self.snaps.len() - i,
        {
            let t: u32 = self.snaps[i].itab;
            self.mfs_mark_itab_meta(t);
            i = i + 1;
        }
        true
    }

    /// Blocks of a new file system on the current volume.
    pub fn mfs_format_total_blocks(&self) -> (r: u32)
        ensures
            r == format_blocks(self.sectors),
            r <= MFS_MAX_BLOCKS,
    {
        if self.sectors == 0 {
            return MFS_DEFAULT_TOTAL_BLOCKS;
        }
        let blocks: u32 = self.sectors / 8;
        if blocks < MFS_MIN_TOTAL_BLOCKS {
            MFS_MIN_TOTAL_BLOCKS
        } else if blocks > MFS_MAX_BLOCKS {
            MFS_MAX_BLOCKS
        } else {
            blocks
        }
    }

    /// Makes the state that of an empty file system.
    #[verifier::loop_isolation(false)]
    fn set_blank(&mut self)
        requires
            old(self).inv(),
        ensures
            final(self).inv(),
            final(self)@ == old(self)@.blank_state(),
    {
        let total: u32 = self.mfs_format_total_blocks();
        self.set_total(total);
        let bb: usize = mfs::mfs_bb_for(total) as usize;
        self.fill_bmp(bb * 32768, false);
        self.free = total;
        self.alloc_next = self.mfs_data_start();
        self.gen = 0;
        self.snaps = Vec::new();
        self.itab = 0;
        self.itab_mem = vec![0u32; 1022];
        self.tab_idx = u32::MAX;
        self.ino_count = 0;
        self.ino_hint = MFS_ROOT_INO + 1;
        assert(self@.snaps =~= Seq::empty());
        assert(self@.itab_mem =~= Seq::new(MFS_SLOTS as nat, |i: int| 0u32));
        let ghost before = self@;
        let mut c: usize = 0;
        while c < bb
            invariant
                c <= bb <= 1018,
                self.inv(),
                self@ == (MfsView { dirty: self.dirty@, ..before }),
                self.dirty@ =~= filled(old(self)@.dirty, c as int, true),
            decreases bb - c,
        {
            self.dirty.set(c, true);
            c = c + 1;
        }
    }

    /// Makes a new, empty file system on the current volume.
    pub fn mfs_format(&mut self) -> (r: bool)
        requires
            old(self).inv(),
        ensures
            final(self).inv(),
            (final(self)@, r) == old(self)@.format(),
    {
        proof {
            reveal(MfsView::format);
        }
        let now: u64 = self.now;
        self.set_blank();
        let end: u32 = self.mfs_data_start();
        self.set_range(0, end);
        let mut buf: Vec<u8> = bytes::zero_vec(4096);
        mfs_dir::mfs_dir_init_empty(&mut buf);
        mfs_dir::mfs_init_meta(&mut buf, true, MODE_FTYPE_DIR, 0, MFS_MODE_DIR, now);
        let root: u32 = match self.mfs_commit(&mut buf, MFS_MAGIC_DIR) {
            Some(b) => b,
            None => {
                return false;
            },
        };
        if !self.mfs_itab_flush() {
            return false;
        }
        if !self.mfs_itab_set(MFS_ROOT_INO, root) {
            return false;
        }
        self.ino_count = 1;
        self.ino_hint = MFS_ROOT_INO + 1;
        self.mfs_bmp_flush()
    }

    /// Loads the current volume, or else makes it anew.
    pub fn mfs_mount_or_format(&mut self) -> (r: bool)
        requires
            old(self).inv(),
        ensures
            final(self).inv(),
            (final(self)@, r) == old(self)@.mount_or_format(),
    {
        proof {
            reveal(MfsView::mount_or_format);
        }
        if self.mfs_load_state() {
            return true;
        }
        self.primary = 0;
        self.mfs_format()
    }

    /// Makes volume `vol` current.
    pub fn mfs_switch_vol(&mut self, list: &Vec<VolumeDesc>, vol: u64) -> (r: bool)
        requires
            old(self).inv(),
        ensures
            final(self).inv(),
            (final(self)@, r) == old(self)@.switch_vol(list@, vol),
    {
        proof {
            reveal(MfsView::switch_vol);
        }
        let mut t: Mfs = self.other(vol, volume::vol_sectors(list, vol));
        if t.mfs_load_state() {
            *self = t;
            true
        } else {
            self.store = t.store;
            false
        }
    }

    /// Hands the volumes over to a state of volume `vol` that has nothing loaded yet.
    fn other(&mut self, vol: u64, sectors: u32) -> (r: Mfs)
        requires
            old(self).inv(),
        ensures
            r.inv(),
            r@ == old(self)@.other(vol, sectors),
            final(self)@ == (MfsView { store: final(self)@.store, ..old(self)@ }),
            final(self)@.store.wf(),
            final(self).inv(),
    {
        let mut store: Store = Store { disks: Vec::new(), log: Vec::new() };
        std::mem::swap(&mut store, &mut self.store);
        let mut t: Mfs = Mfs::new(store, vol, sectors);
        t.now = self.now;
        t
    }

    /// Makes a new file system on volume `vol`.
    pub fn mfs_mkfs_volume(&mut self, list: &Vec<VolumeDesc>, vol: u64) -> (r: Option<u64>)
        requires
            old(self).inv(),
        ensures
            final(self).inv(),
            (final(self)@, r) == old(self)@.mkfs(list@, vol),
    {
        proof {
            reveal(MfsView::mkfs);
        }
        let d: VolumeDesc = match volume::vol_find_desc(list, vol) {
            Some(d) => d,
            None => {
                return None;
            },
        };
        if d.kind != VOL_KIND_UNKNOWN && d.kind != VOL_KIND_MFS {
            return None;
        }
        let serial: u64 = mfs_next_primary_serial(&self.store, list, vol);
        let mut t: Mfs = self.other(vol, d.sectors);
        t.primary = serial;
        let ok: bool = t.mfs_format();
        let mut u: Mfs = t.other(self.vol, self.sectors);
        let back: bool = u.mfs_load_state();
        if back {
            *self = u;
        } else if vol == self.vol {
            t.store = u.store;
            *self = t;
        } else {
            self.store = u.store;
        }
        let landed: u64 = mfs_primary_of_vol(&self.store, vol);
        if !back || !ok || landed == 0 {
            return None;
        }
        Some(landed)
    }
}

} // verus!
