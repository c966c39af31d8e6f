//! Block volumes: what the file systems read and write, sector by sector.
//!
//! A volume is a run of 512-byte sectors, each of which the device can or
//! cannot transfer. Every write is also recorded in order, so that the caller
//! can carry the writes out on the device in the order in which they were made.
use vstd::prelude::*;

use crate::bytes;

verus! {

/// Bytes per sector.
pub const SECTOR: usize = 512;

/// What a volume holds: its bytes, and which sectors can be transferred.
#[verifier::ext_equal]
pub struct DiskView {
    pub data: Seq<u8>,
    pub ok: Seq<bool>,
}

/// One completed write.
#[verifier::ext_equal]
pub struct WriteView {
    pub dev: u64,
    pub lba: u32,
    pub bytes: Seq<u8>,
}

/// All volumes and the writes made so far, oldest first.
#[verifier::ext_equal]
pub struct StoreView {
    pub disks: Seq<DiskView>,
    pub log: Seq<WriteView>,
}

impl StoreView {
    /// Whether `n` sectors from `lba` on of volume `dev` can be transferred.
    pub open spec fn can(self, dev: u64, lba: int, n: int) -> bool {
        &&& dev < self.disks.len()
        &&& 0 < n
        &&& 0 <= lba
        &&& lba + n <= self.disks[dev as int].ok.len()
        &&& forall|i: int| lba <= i < lba + n ==> #[trigger] self.disks[dev as int].ok[i]
    }

    /// Whether the volume has the sectors, be they such as can be transferred or not.
    pub open spec fn has(self, dev: u64, lba: int, n: int) -> bool {
        &&& dev < self.disks.len()
        &&& 0 <= lba
        &&& 0 <= n
        &&& lba + n <= self.disks[dev as int].ok.len()
    }

    /// The bytes of `n` sectors from `lba` on.
    pub open spec fn get(self, dev: u64, lba: int, n: int) -> Seq<u8> {
        self.disks[dev as int].data.subrange(lba * 512, (lba + n) * 512)
    }

    /// The store after `bytes` (whole sectors) were written at `lba`.
    pub open spec fn put(self, dev: u64, lba: u32, bytes: Seq<u8>) -> StoreView {
        StoreView {
            disks: self.disks.update(
                dev as int,
                DiskView {
                    data: bytes::splice(self.disks[dev as int].data, lba * 512, bytes),
                    ok: self.disks[dev as int].ok,
                },
            ),
            log: self.log.push(WriteView { dev, lba, bytes }),
        }
    }

    /// What a read of `n` sectors gives: the bytes, or nothing.
    pub open spec fn read(self, dev: u64, lba: u32, n: int) -> Option<Seq<u8>> {
        if self.can(dev, lba as int, n) {
            Some(self.get(dev, lba as int, n))
        } else {
            None
        }
    }

    /// What a write of whole sectors leaves, and whether it was done.
    pub open spec fn write(self, dev: u64, lba: u32, bytes: Seq<u8>) -> (StoreView, bool) {
        if self.can(dev, lba as int, bytes.len() as int / 512) {
            (self.put(dev, lba, bytes), true)
        } else {
            (self, false)
        }
    }

    /// Each volume holds as many bytes as its sectors have.
    pub open spec fn wf(self) -> bool {
        forall|d: int|
            0 <= d < self.disks.len() ==> (#[trigger] self.disks[d]).data.len() == 512
                * self.disks[d].ok.len()
    }
}

/// Only volume `vol` may differ, and only writes to it were logged.
pub open spec fn only(s: StoreView, t: StoreView, vol: u64) -> bool {
    &&& t.disks.len() == s.disks.len()
    &&& forall|v: int| 0 <= v < s.disks.len() && v != vol ==> #[trigger] t.disks[v] == s.disks[v]
    &&& s.log.len() <= t.log.len()
    &&& t.log.subrange(0, s.log.len() as int) == s.log
    &&& forall|i: int| s.log.len() <= i < t.log.len() ==> (#[trigger] t.log[i]).dev == vol
}

/// One write.
pub proof fn lemma_write(s: StoreView, vol: u64, lba: u32, data: Seq<u8>)
    ensures
        only(s, s.write(vol, lba, data).0, vol),
{
    lemma_refl(s, vol);
    let t = s.write(vol, lba, data).0;
    if s.write(vol, lba, data).1 {
        assert(t.log.subrange(0, s.log.len() as int) =~= s.log);
    }
}

/// No write.
pub proof fn lemma_refl(s: StoreView, vol: u64)
    ensures
        only(s, s, vol),
{
    assert(s.log.subrange(0, s.log.len() as int) =~= s.log);
}

/// Writes one after the other.
pub proof fn lemma_trans(s: StoreView, t: StoreView, u: StoreView, vol: u64)
    requires
        only(s, t, vol),
        only(t, u, vol),
    ensures
        only(s, u, vol),
{
    assert forall|v: int| 0 <= v < s.disks.len() && v != vol implies #[trigger] u.disks[v]
        == s.disks[v] by {
        assert(t.disks[v] == s.disks[v]);
    }
    assert(u.log.subrange(0, s.log.len() as int) =~= s.log) by {
        assert forall|i: int| 0 <= i < s.log.len() implies u.log[i] == s.log[i] by {
            assert(u.log.subrange(0, t.log.len() as int)[i] == t.log[i]);
            assert(t.log.subrange(0, s.log.len() as int)[i] == s.log[i]);
        }
    }
    assert forall|i: int| s.log.len() <= i < u.log.len() implies (#[trigger] u.log[i]).dev
        == vol by {
        if i < t.log.len() {
            assert(u.log.subrange(0, t.log.len() as int)[i] == t.log[i]);
        }
    }
}

/// Law: what was written is read back.
pub proof fn law_read_after_write(s: StoreView, dev: u64, lba: u32, bytes: Seq<u8>)
    requires
        s.wf(),
        bytes.len() % 512 == 0,
        s.write(dev, lba, bytes).1,
    ensures
        s.write(dev, lba, bytes).0.read(dev, lba, bytes.len() as int / 512) == Some(bytes),
{
    let t = s.write(dev, lba, bytes).0;
    let n = bytes.len() as int / 512;
    lemma_put_can(s, dev, lba, bytes, dev, lba as int, n);
    assert(t.get(dev, lba as int, n) =~= bytes);
}

/// A write changes neither which sectors can be transferred nor any size.
pub proof fn lemma_put_can(
    s: StoreView,
    dev: u64,
    lba: u32,
    bytes: Seq<u8>,
    dev2: u64,
    lba2: int,
    n: int,
)
    requires
        dev < s.disks.len(),
    ensures
        s.put(dev, lba, bytes).can(dev2, lba2, n) == s.can(dev2, lba2, n),
{
    let t = s.put(dev, lba, bytes);
    if dev2 < s.disks.len() {
        assert(t.disks[dev2 as int].ok == s.disks[dev2 as int].ok);
    }
}

/// Law: a write leaves every sector outside it, on any volume, as it was.
pub proof fn law_write_frame(
    s: StoreView,
    dev: u64,
    lba: u32,
    bytes: Seq<u8>,
    dev2: u64,
    lba2: u32,
    n: int,
)
    requires
        s.wf(),
        bytes.len() % 512 == 0,
        dev != dev2 || lba2 + n <= lba || lba + bytes.len() as int / 512 <= lba2,
    ensures
        s.write(dev, lba, bytes).0.read(dev2, lba2, n) == s.read(dev2, lba2, n),
{
    let t = s.write(dev, lba, bytes).0;
    if s.write(dev, lba, bytes).1 {
        lemma_put_can(s, dev, lba, bytes, dev2, lba2 as int, n);
        if s.can(dev2, lba2 as int, n) {
            assert(t.get(dev2, lba2 as int, n) =~= s.get(dev2, lba2 as int, n));
        }
    }
}

/// The bytes of sectors outside a write, even of those that cannot be transferred.
pub proof fn lemma_get_kept(s: StoreView, dev: u64, lba: u32, bytes: Seq<u8>, lba2: int, n: int)
    requires
        s.wf(),
        bytes.len() % 512 == 0,
        s.has(dev, lba2, n),
        lba2 + n <= lba || lba + bytes.len() as int / 512 <= lba2,
    ensures
        s.write(dev, lba, bytes).0.get(dev, lba2, n) == s.get(dev, lba2, n),
{
    let t = s.write(dev, lba, bytes).0;
    if s.write(dev, lba, bytes).1 {
        assert(t.get(dev, lba2, n) =~= s.get(dev, lba2, n));
    }
}

/// A well-formed store stays well-formed.
pub proof fn lemma_write_wf(s: StoreView, dev: u64, lba: u32, bytes: Seq<u8>)
    requires
        s.wf(),
    ensures
        s.write(dev, lba, bytes).0.wf(),
{
}

/// One volume: its bytes, and which of its sectors can be transferred.
#[derive(Clone)]
pub struct Disk {
    pub data: Vec<u8>,
    pub ok: Vec<bool>,
}

impl Disk {
    pub open spec fn view(&self) -> DiskView {
        DiskView { data: self.data@, ok: self.ok@ }
    }

    /// A volume of `sectors` cleared sectors, all of which can be transferred.
    pub fn blank(sectors: u32) -> (r: Disk)
        ensures
            r@.data == bytes::zeros(sectors * 512),
            r@.ok == Seq::new(sectors as nat, |i: int| true),
    {
        let ok: Vec<bool> = vec![true; sectors as usize];
        assert(ok@ =~= Seq::new(sectors as nat, |i: int| true));
        let mut data: Vec<u8> = Vec::new();
        let mut i: u32 = 0;
        while i < sectors
            invariant
                i <= sectors,
                data@ == bytes::zeros(i * 512),
            decreases sectors - i,
        {
            let mut piece: Vec<u8> = bytes::zero_vec(512);
            data.append(&mut piece);
            i = i + 1;
            assert(data@ =~= bytes::zeros(i * 512));
        }
        Disk { data, ok }
    }
}

/// One completed write.
#[derive(Clone)]
pub struct WriteRec {
    pub dev: u64,
    pub lba: u32,
    pub bytes: Vec<u8>,
}

impl WriteRec {
    pub open spec fn view(&self) -> WriteView {
        WriteView { dev: self.dev, lba: self.lba, bytes: self.bytes@ }
    }
}

/// The volumes that a service reaches, and the writes it made.
#[derive(Clone)]
pub struct Store {
    pub disks: Vec<Disk>,
    pub log: Vec<WriteRec>,
}

impl Store {
    pub open spec fn view(&self) -> StoreView {
        StoreView {
            disks: Seq::new(self.disks@.len(), |i: int| self.disks@[i]@),
            log: Seq::new(self.log@.len(), |i: int| self.log@[i]@),
        }
    }

    /// A store of the given volumes with an empty record of writes; `None` when a
    /// volume's size is not that of its sectors.
    pub fn new(disks: Vec<Disk>) -> (r: Option<Store>)
        ensures
            r is Some <==> forall|d: int|
                0 <= d < disks@.len() ==> (#[trigger] disks@[d]).data@.len() == 512
                    * disks@[d].ok@.len(),
            r matches Some(s) ==> s@.wf() && s.disks == disks && s@.log == Seq::<
                WriteView,
            >::empty(),
    {
        let mut i: usize = 0;
        while i < disks.len()
            invariant
                i <= disks@.len(),
                forall|d: int|
                    0 <= d < i ==> (#[trigger] disks@[d]).data@.len() == 512 * disks@[d].ok@.len(),
            decreases disks@.len() - i,
        {
            if disks[i].data.len() % 512 != 0 || disks[i].data.len() / 512 != disks[i].ok.len() {
                return None;
            }
            i = i + 1;
        }
        let s = Store { disks, log: Vec::new() };
        assert(s@.log =~= Seq::<WriteView>::empty());
        Some(s)
    }

    /// Whether `n` sectors from `lba` on of volume `dev` can be transferred.
    #[verifier::loop_isolation(false)]
    pub fn can(&self, dev: u64, lba: u32, n: u32) -> (r: bool)
        ensures
            r == self@.can(dev, lba as int, n as int),
            r ==> dev < self.disks.len() && lba + n <= self.disks@[dev as int].ok.len(),
    {
        if dev >= self.disks.len() as u64 || n == 0 {
            return false;
        }
        let d: &Disk = &self.disks[dev as usize];
        if lba as u64 + n as u64 > d.ok.len() as u64 {
            return false;
        }
        let first: usize = lba as usize;
        let last: usize = lba as usize + n as usize;
        let mut i: usize = first;
        while i < last
            invariant
                first <= i <= last,
                last <= d.ok@.len(),
                forall|k: int| first <= k < i ==> #[trigger] d.ok@[k],
            decreases last - i,
        {
            if !d.ok[i] {
                proof {
                    assert(self@.disks[dev as int].ok == d.ok@);
                    assert(!self@.disks[dev as int].ok[i as int]);
                }
                return false;
            }
            i = i + 1;
        }
        assert(self@.disks[dev as int].ok == d.ok@);
        true
    }

    /// Reads `n` sectors from `lba` on.
    pub fn read(&self, dev: u64, lba: u32, n: u32) -> (r: Option<Vec<u8>>)
        requires
            self@.wf(),
        ensures
            bytes::opt(r) == self@.read(dev, lba, n as int),
            r matches Some(v) ==> v@.len() == n * 512,
    {
        if !self.can(dev, lba, n) {
            return None;
        }
        let d: &Disk = &self.disks[dev as usize];
        proof {
            assert(self@.disks[dev as int] == d@);
            assert(d.data.len() == 512 * d.ok.len());
        }
        Some(bytes::slice_copy(&d.data, lba as usize * 512, (lba as usize + n as usize) * 512))
    }

    /// Writes whole sectors at `lba`.
    pub fn write(&mut self, dev: u64, lba: u32, bytes: &Vec<u8>) -> (r: bool)
        requires
            old(self)@.wf(),
            bytes@.len() % 512 == 0,
            bytes@.len() <= 0x1FF_FFFF_FE00,
        ensures
            (final(self)@, r) == old(self)@.write(dev, lba, bytes@),
            final(self)@.wf(),
    {
        let n: u32 = (bytes.len() / 512) as u32;
        if !self.can(dev, lba, n) {
            return false;
        }
        let ghost before = self@;
        let ghost old_disks = self.disks@;
        let mut d: Disk = Disk { data: Vec::new(), ok: Vec::new() };
        std::mem::swap(&mut d, &mut self.disks[dev as usize]);
        proof {
            assert(before.disks[dev as int] == d@);
            assert(d.data.len() == 512 * d.ok.len());
        }
        bytes::copy_into(&mut d.data, lba as usize * 512, bytes, 0, bytes.len());
        std::mem::swap(&mut d, &mut self.disks[dev as usize]);
        assert(bytes@.subrange(0, bytes@.len() as int) =~= bytes@);
        let rec = WriteRec { dev, lba, bytes: vstd::slice::slice_to_vec(bytes.as_slice()) };
        self.log.push(rec);
        proof {
            let after = before.put(dev, lba, bytes@);
            assert(self@.disks =~= after.disks);
            assert(self@.log =~= after.log);
            assert(self@ == after);
        }
        true
    }

    /// Hands out the record of writes, oldest first, and starts a new one.
    pub fn take_log(&mut self) -> (r: Vec<WriteRec>)
        ensures
            Seq::new(r@.len(), |i: int| r@[i]@) == old(self)@.log,
            final(self)@.disks == old(self)@.disks,
            final(self)@.log == Seq::<WriteView>::empty(),
    {
        let mut out: Vec<WriteRec> = Vec::new();
        std::mem::swap(&mut out, &mut self.log);
        assert(self@.log =~= Seq::<WriteView>::empty());
        out
    }
}

} // verus!
