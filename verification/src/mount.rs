//! The mount service: which file service, and which of its volumes, a path belongs to.
use vstd::prelude::*;

use crate::bytes;
use crate::print;
use crate::vfs::{Reply, ReplyView};

verus! {

/// Slots of the mount table.
pub const MOUNT_MAX: usize = 16;

/// A mount point must be shorter than this.
pub const MOUNT_PREFIX_MAX: usize = 24;

/// Domain of the FAT32 service.
pub const FAT32_DOMAIN: u64 = 6;

/// Domain of the memory file system.
pub const TMPFS_DOMAIN: u64 = 10;

/// Domain of the MorionFS service.
pub const MFS_DOMAIN: u64 = 11;

/// Domain of the ext2 service.
pub const EXT2_DOMAIN: u64 = 12;

/// Domain of the exFAT service.
pub const EXFAT_DOMAIN: u64 = 13;

/// One mount: where, which service, which of its volumes (0 is its own).
#[verifier::ext_equal]
pub struct MountView {
    pub prefix: Seq<u8>,
    pub domain: u64,
    pub vol_enc: u32,
}

/// The root directory.
pub open spec fn root() -> Seq<u8> {
    seq![0x2Fu8]
}

/// The encoding of a volume in a request: one more than its number.
pub open spec fn enc_of(vol: u64) -> u32 {
    bytes::w32(vol + 1)
}

/// How many bytes of a path the mount point covers, where the path lies under it. A mount
/// point ends where a name ends.
pub open spec fn covers(path: Seq<u8>, prefix: Seq<u8>) -> Option<int> {
    if path.len() == 0 || path[0] != 0x2F {
        None
    } else if prefix == root() {
        Some(1)
    } else if prefix.len() <= path.len() && path.subrange(0, prefix.len() as int) == prefix && (
    path.len() == prefix.len() || path[prefix.len() as int] == 0x2F) {
        Some(prefix.len() as int)
    } else {
        None
    }
}

/// The first slot from `i` on with mount point `prefix`.
pub open spec fn find_from(t: Seq<Option<MountView>>, prefix: Seq<u8>, i: int) -> Option<int>
    decreases t.len() - i,
{
    if i >= t.len() {
        None
    } else if t[i] is Some && t[i]->Some_0.prefix == prefix {
        Some(i)
    } else {
        find_from(t, prefix, i + 1)
    }
}

/// The slot with mount point `prefix`.
pub open spec fn find(t: Seq<Option<MountView>>, prefix: Seq<u8>) -> Option<int> {
    find_from(t, prefix, 0)
}

/// The first free slot from `i` on; the table's length where there is none.
pub open spec fn free_from(t: Seq<Option<MountView>>, i: int) -> int
    decreases t.len() - i,
{
    if i >= t.len() || t[i] is None {
        i
    } else {
        free_from(t, i + 1)
    }
}

/// The table with a mount added, and its slot, counted from 1. Refused are mount points that
/// are empty, relative, too long or taken, and domain 0.
pub open spec fn with_mount(t: Seq<Option<MountView>>, m: MountView) -> (
    Seq<Option<MountView>>,
    Option<u64>,
) {
    let i = free_from(t, 0);
    if m.prefix.len() == 0 || m.prefix[0] != 0x2F || m.prefix.len() >= MOUNT_PREFIX_MAX || m.domain
        == 0 || find(t, m.prefix) is Some || i >= t.len() {
        (t, None)
    } else {
        (t.update(i, Some(m)), Some((i + 1) as u64))
    }
}

/// The mount point `/mnt<n>`.
pub open spec fn mnt_name(n: int) -> Seq<u8> {
    seq![0x2Fu8, 0x6D, 0x6E, 0x74] + print::dec(n)
}

/// The mount point `/usb<vol>`.
pub open spec fn usb_name(vol: u64) -> Seq<u8> {
    seq![0x2Fu8, 0x75, 0x73, 0x62] + print::dec(vol as int)
}

/// A service mounted at the first `/mnt<n>` from `n` on that is free.
pub open spec fn with_auto(t: Seq<Option<MountView>>, domain: u64, n: int) -> (
    Seq<Option<MountView>>,
    Option<u64>,
)
    decreases MOUNT_MAX - n,
{
    if n >= MOUNT_MAX {
        (t, None)
    } else if find(t, mnt_name(n)) is None {
        with_mount(t, MountView { prefix: mnt_name(n), domain, vol_enc: 0 })
    } else {
        with_auto(t, domain, n + 1)
    }
}

/// A volume of a service mounted at `/usb<vol>`; it is no fault where it already is.
pub open spec fn with_volume(t: Seq<Option<MountView>>, domain: u64, vol: u64) -> (
    Seq<Option<MountView>>,
    Option<u64>,
) {
    match find(t, usb_name(vol)) {
        Some(i) => if t[i]->Some_0.domain == domain && t[i]->Some_0.vol_enc == enc_of(vol) {
            (t, Some((i + 1) as u64))
        } else {
            (t, None)
        },
        None => with_mount(
            t,
            MountView { prefix: usb_name(vol), domain, vol_enc: enc_of(vol) },
        ),
    }
}

/// The table without a mount point, and whether it was there; the root stays.
pub open spec fn without(t: Seq<Option<MountView>>, prefix: Seq<u8>) -> (
    Seq<Option<MountView>>,
    bool,
) {
    match find(t, prefix) {
        Some(i) => if prefix == root() {
            (t, false)
        } else {
            (t.update(i, None), true)
        },
        None => (t, false),
    }
}

/// The better of two answers: the one that covers more of the path, the earlier of equals.
pub open spec fn better(a: Option<(u64, u32, int)>, m: Option<MountView>, path: Seq<u8>) -> Option<
    (u64, u32, int),
> {
    match m {
        None => a,
        Some(x) => match covers(path, x.prefix) {
            None => a,
            Some(n) => if a is None || n > a->Some_0.2 {
                Some((x.domain, x.vol_enc, n))
            } else {
                a
            },
        },
    }
}

/// Service, volume and length of the longest of the first `n` mount points that covers a path.
pub open spec fn best(t: Seq<Option<MountView>>, path: Seq<u8>, n: int) -> Option<(u64, u32, int)>
    decreases n,
{
    if n <= 0 {
        None
    } else {
        better(best(t, path, n - 1), t[n - 1], path)
    }
}

/// Service, volume and length of the mount point that a path belongs to.
pub open spec fn route(t: Seq<Option<MountView>>, path: Seq<u8>) -> Option<(u64, u32, int)> {
    best(t, path, t.len() as int)
}

/// A route in one word: volume from bit 40 on, domain from bit 32 on, length.
pub open spec fn packed(domain: u64, vol_enc: u32, len: u64) -> u64 {
    ((vol_enc as u64) << 40u64) | (domain << 32u64) | len
}

/// No mount point occurs twice.
pub open spec fn unique(t: Seq<Option<MountView>>) -> bool {
    forall|i: int, j: int|
        #![trigger t[i], t[j]]
        0 <= i < t.len() && 0 <= j < t.len() && i != j && t[i] is Some && t[j] is Some
            ==> t[i]->Some_0.prefix != t[j]->Some_0.prefix
}

/// The mounts that are there from the start.
pub open spec fn initial() -> Seq<Option<MountView>> {
    let t0 = Seq::new(MOUNT_MAX as nat, |i: int| None::<MountView>);
    let t1 = with_mount(t0, MountView { prefix: root(), domain: FAT32_DOMAIN, vol_enc: 0 }).0;
    let t2 = with_mount(
        t1,
        MountView { prefix: seq![0x2Fu8, 0x74, 0x6D, 0x70], domain: TMPFS_DOMAIN, vol_enc: 0 },
    ).0;
    let t3 = with_mount(
        t2,
        MountView { prefix: seq![0x2Fu8, 0x6D, 0x66, 0x73], domain: MFS_DOMAIN, vol_enc: 0 },
    ).0;
    let t4 = with_mount(
        t3,
        MountView { prefix: seq![0x2Fu8, 0x65, 0x78, 0x74, 0x32], domain: EXT2_DOMAIN, vol_enc: 0 },
    ).0;
    with_mount(
        t4,
        MountView { prefix: seq![0x2Fu8, 0x75, 0x73, 0x62], domain: EXFAT_DOMAIN, vol_enc: 0 },
    ).0
}

/// A slot found holds the mount point, and none before it does.
pub proof fn lemma_find(t: Seq<Option<MountView>>, prefix: Seq<u8>, i: int)
    requires
        0 <= i <= t.len(),
    ensures
        match find_from(t, prefix, i) {
            Some(k) => i <= k < t.len() && t[k] is Some && t[k]->Some_0.prefix == prefix,
            None => forall|k: int|
                i <= k < t.len() && (#[trigger] t[k]) is Some ==> t[k]->Some_0.prefix != prefix,
        },
    decreases t.len() - i,
{
    if i < t.len() {
        lemma_find(t, prefix, i + 1);
    }
}

/// A free slot is free.
pub proof fn lemma_free(t: Seq<Option<MountView>>, i: int)
    requires
        0 <= i <= t.len(),
    ensures
        i <= free_from(t, i) <= t.len(),
        free_from(t, i) < t.len() ==> t[free_from(t, i)] is None,
    decreases t.len() - i,
{
    if i < t.len() && t[i] is Some {
        lemma_free(t, i + 1);
    }
}

/// Law: a mount point never occurs twice: every change of the table keeps that.
pub proof fn law_unique(t: Seq<Option<MountView>>, m: MountView, domain: u64, vol: u64, n: int)
    requires
        unique(t),
    ensures
        unique(with_mount(t, m).0),
        unique(with_auto(t, domain, n).0),
        unique(with_volume(t, domain, vol).0),
        unique(without(t, m.prefix).0),
    decreases MOUNT_MAX - n,
{
    lemma_find(t, m.prefix, 0);
    lemma_add_unique(t, m);
    lemma_add_unique(t, MountView { prefix: mnt_name(n), domain, vol_enc: 0 });
    lemma_add_unique(t, MountView { prefix: usb_name(vol), domain, vol_enc: enc_of(vol) });
    if n < MOUNT_MAX {
        law_unique(t, m, domain, vol, n + 1);
    }
}

/// Adding a mount keeps mount points apart.
proof fn lemma_add_unique(t: Seq<Option<MountView>>, m: MountView)
    requires
        unique(t),
    ensures
        unique(with_mount(t, m).0),
{
    lemma_find(t, m.prefix, 0);
    lemma_free(t, 0);
}

/// Law: the mounts that are there from the start have different mount points.
pub proof fn law_initial_unique()
    ensures
        unique(initial()),
{
    let t0 = Seq::new(MOUNT_MAX as nat, |i: int| None::<MountView>);
    let m1 = MountView { prefix: root(), domain: FAT32_DOMAIN, vol_enc: 0 };
    let t1 = with_mount(t0, m1).0;
    lemma_add_unique(t0, m1);
    let m2 = MountView {
        prefix: seq![0x2Fu8, 0x74, 0x6D, 0x70],
        domain: TMPFS_DOMAIN,
        vol_enc: 0,
    };
    let t2 = with_mount(t1, m2).0;
    lemma_add_unique(t1, m2);
    let m3 = MountView { prefix: seq![0x2Fu8, 0x6D, 0x66, 0x73], domain: MFS_DOMAIN, vol_enc: 0 };
    let t3 = with_mount(t2, m3).0;
    lemma_add_unique(t2, m3);
    let m4 = MountView {
        prefix: seq![0x2Fu8, 0x65, 0x78, 0x74, 0x32],
        domain: EXT2_DOMAIN,
        vol_enc: 0,
    };
    let t4 = with_mount(t3, m4).0;
    lemma_add_unique(t3, m4);
    let m5 = MountView { prefix: seq![0x2Fu8, 0x75, 0x73, 0x62], domain: EXFAT_DOMAIN, vol_enc: 0 };
    lemma_add_unique(t4, m5);
}

/// Law: a path is routed to a mount point that covers it, and none covers more of it; a path
/// that none covers is not routed.
pub proof fn law_longest(t: Seq<Option<MountView>>, path: Seq<u8>, n: int)
    requires
        0 <= n <= t.len(),
    ensures
        match best(t, path, n) {
            Some((d, v, len)) => (exists|k: int|
                0 <= k < n && (#[trigger] t[k]) is Some && t[k]->Some_0.domain == d
                    && t[k]->Some_0.vol_enc == v && covers(path, t[k]->Some_0.prefix) == Some(len))
                && forall|k: int|
                0 <= k < n && (#[trigger] t[k]) is Some ==> (covers(path, t[k]->Some_0.prefix)
                    matches Some(c) ==> c <= len),
            None => forall|k: int|
                0 <= k < n && (#[trigger] t[k]) is Some ==> covers(
                    path,
                    t[k]->Some_0.prefix,
                ) is None,
        },
    decreases n,
{
    if n > 0 {
        law_longest(t, path, n - 1);
        assert(t[n - 1] == t[n - 1]);
    }
}

/// Law: after a mount, the mount point itself is routed to the service and volume mounted
/// there, whatever else is mounted.
pub proof fn law_mounted_is_routed(t: Seq<Option<MountView>>, m: MountView)
    requires
        unique(t),
        with_mount(t, m).1 is Some,
    ensures
        route(with_mount(t, m).0, m.prefix) == Some((m.domain, m.vol_enc, m.prefix.len() as int)),
{
    let u = with_mount(t, m).0;
    let i = free_from(t, 0);
    lemma_free(t, 0);
    lemma_add_unique(t, m);
    law_longest(u, m.prefix, u.len() as int);
    assert(u[i] == Some(m));
    assert(m.prefix.subrange(0, m.prefix.len() as int) =~= m.prefix);
    assert(covers(m.prefix, m.prefix) == Some(m.prefix.len() as int));
    let (d, v, len) = route(u, m.prefix)->Some_0;
    let k = choose|k: int|
        0 <= k < u.len() && (#[trigger] u[k]) is Some && u[k]->Some_0.domain == d
            && u[k]->Some_0.vol_enc == v && covers(m.prefix, u[k]->Some_0.prefix) == Some(len);
    let q = u[k]->Some_0.prefix;
    if q == root() {
        assert(m.prefix =~= root());
    } else {
        assert(q == m.prefix.subrange(0, q.len() as int));
        assert(q.len() == m.prefix.len());
        assert(q =~= m.prefix);
    }
    assert(k == i);
}

/// Law: after an unmount the mount point is gone, every other mount is where it was.
pub proof fn law_unmounted_is_gone(t: Seq<Option<MountView>>, prefix: Seq<u8>)
    requires
        unique(t),
        without(t, prefix).1,
    ensures
        find(without(t, prefix).0, prefix) is None,
        forall|k: int|
            0 <= k < t.len() && (#[trigger] t[k]) is Some && t[k]->Some_0.prefix != prefix
                ==> without(t, prefix).0[k] == t[k],
{
    let u = without(t, prefix).0;
    lemma_find(t, prefix, 0);
    lemma_find(u, prefix, 0);
}

/// Law: the root cannot be unmounted.
pub proof fn law_root_stays(t: Seq<Option<MountView>>)
    ensures
        without(t, root()) == (t, false),
{
}

/// Law: while the root is mounted every absolute path is routed.
pub proof fn law_absolute_is_routed(t: Seq<Option<MountView>>, path: Seq<u8>)
    requires
        find(t, root()) is Some,
        path.len() > 0,
        path[0] == 0x2F,
    ensures
        route(t, path) is Some,
{
    lemma_find(t, root(), 0);
    law_longest(t, path, t.len() as int);
    let k = find(t, root())->Some_0;
    assert(t[k] is Some);
}

/// Law: the parts of a packed route can be taken apart.
pub proof fn law_packed_parts(domain: u64, vol_enc: u32, len: u64)
    requires
        domain < 256,
        vol_enc < 0x100_0000,
        len < 0x1_0000_0000,
    ensures
        packed(domain, vol_enc, len) & 0xFFFF_FFFF == len,
        (packed(domain, vol_enc, len) >> 32u64) & 0xFF == domain,
        packed(domain, vol_enc, len) >> 40u64 == vol_enc,
{
    let e = vol_enc as u64;
    let w = packed(domain, vol_enc, len);
    assert((w & 0xFFFF_FFFF == len) && ((w >> 32u64) & 0xFF == domain) && (w >> 40u64 == e))
        by (bit_vector)
        requires
            w == (e << 40u64) | (domain << 32u64) | len,
            domain < 256,
            e < 0x100_0000,
            len < 0x1_0000_0000,
    ;
}

/// One mount.
pub struct MountEntry {
    pub prefix: Vec<u8>,
    pub domain: u64,
    pub vol_enc: u32,
}

impl MountEntry {
    pub open spec fn view(&self) -> MountView {
        MountView { prefix: self.prefix@, domain: self.domain, vol_enc: self.vol_enc }
    }
}

/// A request to the mount service.
pub enum MountReq {
    Lookup { path: Vec<u8> },
    /// An empty mount point asks for the next `/mnt<n>`.
    Mount { domain: u64, prefix: Vec<u8> },
    MountVolume { domain: u64, vol: u64 },
    Unmount { prefix: Vec<u8> },
    Unknown,
}

/// The contents of a request to the mount service.
pub enum MountReqView {
    Lookup { path: Seq<u8> },
    Mount { domain: u64, prefix: Seq<u8> },
    MountVolume { domain: u64, vol: u64 },
    Unmount { prefix: Seq<u8> },
    Unknown,
}

impl MountReq {
    pub open spec fn view(&self) -> MountReqView {
        match self {
            MountReq::Lookup { path } => MountReqView::Lookup { path: path@ },
            MountReq::Mount { domain, prefix } => MountReqView::Mount {
                domain: *domain,
                prefix: prefix@,
            },
            MountReq::MountVolume { domain, vol } => MountReqView::MountVolume {
                domain: *domain,
                vol: *vol,
            },
            MountReq::Unmount { prefix } => MountReqView::Unmount { prefix: prefix@ },
            MountReq::Unknown => MountReqView::Unknown,
        }
    }
}

/// The mount table.
pub struct Mounts {
    pub slots: Vec<Option<MountEntry>>,
}

/// The contents of a slot.
pub open spec fn slot_view(m: Option<MountEntry>) -> Option<MountView> {
    match m {
        None => None,
        Some(x) => Some(x@),
    }
}

/// The encoding of a volume in a request.
pub fn enc_of_vol(vol: u64) -> (r: u32)
    ensures
        r == enc_of(vol),
{
    ((vol as u128 + 1) % 0x1_0000_0000) as u32
}

/// How many bytes of a path the mount point covers.
pub fn mount_prefix_match(path: &[u8], prefix: &[u8]) -> (r: Option<usize>)
    ensures
        match r {
            Some(n) => covers(path@, prefix@) == Some(n as int),
            None => covers(path@, prefix@) is None,
        },
{
    if path.len() == 0 || path[0] != 0x2F {
        return None;
    }
    if prefix.len() == 1 && prefix[0] == 0x2F {
        assert(prefix@ =~= root());
        return Some(1);
    }
    if prefix.len() > path.len() {
        return None;
    }
    let head: Vec<u8> = bytes::slice_copy(path, 0, prefix.len());
    if !bytes::bytes_eq(&head, prefix) {
        return None;
    }
    if path.len() == prefix.len() || path[prefix.len()] == 0x2F {
        Some(prefix.len())
    } else {
        None
    }
}

impl Mounts {
    pub open spec fn view(&self) -> Seq<Option<MountView>> {
        Seq::new(self.slots@.len(), |i: int| slot_view(self.slots@[i]))
    }

    /// The table has all its slots, and no mount point occurs twice.
    pub open spec fn inv(&self) -> bool {
        self.slots@.len() == MOUNT_MAX && unique(self@)
    }

    /// The slot with mount point `prefix`.
    pub fn mount_find(&self, prefix: &[u8]) -> (r: Option<usize>)
        requires
            self.inv(),
        ensures
            match r {
                Some(i) => find(self@, prefix@) == Some(i as int) && i < MOUNT_MAX,
                None => find(self@, prefix@) is None,
            },
    {
        let mut i: usize = 0;
        while i < self.slots.len()
            invariant
                self.inv(),
                i <= self.slots.len(),
                find_from(self@, prefix@, i as int) == find(self@, prefix@),
            decreases self.slots.len() - i,
        {
            assert(self@[i as int] == slot_view(self.slots@[i as int]));
            match &self.slots[i] {
                Some(m) => {
                    if bytes::bytes_eq(&m.prefix, prefix) {
                        return Some(i);
                    }
                },
                None => {},
            }
            i = i + 1;
        }
        None
    }

    /// Adds a mount.
    pub fn mount_add(&mut self, prefix: &[u8], domain: u64, vol_enc: u32) -> (r: Option<u64>)
        requires
            old(self).inv(),
        ensures
            final(self).inv(),
            (final(self)@, r) == with_mount(
                old(self)@,
                (MountView { prefix: prefix@, domain, vol_enc }),
            ),
    {
        let ghost m = MountView { prefix: prefix@, domain, vol_enc };
        if prefix.len() == 0 || prefix[0] != 0x2F || prefix.len() >= MOUNT_PREFIX_MAX || domain
            == 0 {
            return None;
        }
        if self.mount_find(prefix).is_some() {
            return None;
        }
        let mut i: usize = 0;
        while i < self.slots.len() && self.slots[i].is_some()
            invariant
                i <= self.slots.len(),
                free_from(self@, i as int) == free_from(self@, 0),
            decreases self.slots.len() - i,
        {
            assert(self@[i as int] == slot_view(self.slots@[i as int]));
            i = i + 1;
        }
        if i >= self.slots.len() {
            return None;
        }
        assert(self@[i as int] == slot_view(self.slots@[i as int]));
        let copy: Vec<u8> = bytes::slice_copy(prefix, 0, prefix.len());
        assert(copy@ =~= prefix@);
        self.slots.set(i, Some(MountEntry { prefix: copy, domain, vol_enc }));
        assert(self@ =~= old(self)@.update(i as int, Some(m)));
        proof {
            lemma_add_unique(old(self)@, m);
        }
        Some((i + 1) as u64)
    }

    /// Mounts a service at the first free `/mnt<n>`.
    #[verifier::loop_isolation(false)]
    pub fn mount_auto(&mut self, domain: u64) -> (r: Option<u64>)
        requires
            old(self).inv(),
        ensures
            final(self).inv(),
            (final(self)@, r) == with_auto(old(self)@, domain, 0),
    {
        let mut n: usize = 0;
        while n < MOUNT_MAX
            invariant
                n <= MOUNT_MAX,
                self@ == old(self)@,
                self.inv(),
                with_auto(self@, domain, n as int) == with_auto(old(self)@, domain, 0),
            decreases MOUNT_MAX - n,
        {
            let mut name: Vec<u8> = vec![0x2F, 0x6D, 0x6E, 0x74];
            let mut digits: Vec<u8> = print::dec_bytes(n as u64);
            name.append(&mut digits);
            assert(name@ =~= mnt_name(n as int));
            if self.mount_find(&name).is_none() {
                return self.mount_add(&name, domain, 0);
            }
            n = n + 1;
        }
        None
    }

    /// Mounts a volume of a service at `/usb<vol>`.
    pub fn mount_auto_vol(&mut self, domain: u64, vol: u64) -> (r: Option<u64>)
        requires
            old(self).inv(),
        ensures
            final(self).inv(),
            (final(self)@, r) == with_volume(old(self)@, domain, vol),
    {
        let mut name: Vec<u8> = vec![0x2F, 0x75, 0x73, 0x62];
        let mut digits: Vec<u8> = print::dec_bytes(vol);
        name.append(&mut digits);
        assert(name@ =~= usb_name(vol));
        match self.mount_find(&name) {
            Some(i) => {
                proof {
                    lemma_find(self@, usb_name(vol), 0);
                }
                assert(self@[i as int] == slot_view(self.slots@[i as int]));
                match &self.slots[i] {
                    Some(m) => {
                        if m.domain == domain && m.vol_enc == enc_of_vol(vol) {
                            Some((i + 1) as u64)
                        } else {
                            None
                        }
                    },
                    None => None,
                }
            },
            None => self.mount_add(&name, domain, enc_of_vol(vol)),
        }
    }

    /// Removes a mount.
    pub fn mount_del(&mut self, prefix: &[u8]) -> (r: bool)
        requires
            old(self).inv(),
        ensures
            final(self).inv(),
            (final(self)@, r) == without(old(self)@, prefix@),
    {
        let is_root: bool = prefix.len() == 1 && prefix[0] == 0x2F;
        assert(is_root == (prefix@ =~= root()));
        if is_root {
            return false;
        }
        match self.mount_find(prefix) {
            Some(i) => {
                self.slots.set(i, None);
                assert(self@ =~= old(self)@.update(i as int, None));
                true
            },
            None => false,
        }
    }

    /// The table with the mounts that are there from the start.
    pub fn mounts_init() -> (r: Mounts)
        ensures
            r.inv(),
            r@ == initial(),
    {
        let mut slots: Vec<Option<MountEntry>> = Vec::new();
        let mut i: usize = 0;
        while i < MOUNT_MAX
            invariant
                i <= MOUNT_MAX,
                slots.len() == i,
                forall|k: int| 0 <= k < slots@.len() ==> (#[trigger] slots@[k]) is None,
            decreases MOUNT_MAX - i,
        {
            slots.push(None);
            i = i + 1;
        }
        let mut m = Mounts { slots };
        assert(m@ =~= Seq::new(MOUNT_MAX as nat, |i: int| None::<MountView>));
        let p1: [u8; 1] = [0x2F];
        let p2: [u8; 4] = [0x2F, 0x74, 0x6D, 0x70];
        let p3: [u8; 4] = [0x2F, 0x6D, 0x66, 0x73];
        let p4: [u8; 5] = [0x2F, 0x65, 0x78, 0x74, 0x32];
        let p5: [u8; 4] = [0x2F, 0x75, 0x73, 0x62];
        assert(p1@ =~= root());
        assert(p2@ =~= seq![0x2Fu8, 0x74, 0x6D, 0x70]);
        assert(p3@ =~= seq![0x2Fu8, 0x6D, 0x66, 0x73]);
        assert(p4@ =~= seq![0x2Fu8, 0x65, 0x78, 0x74, 0x32]);
        assert(p5@ =~= seq![0x2Fu8, 0x75, 0x73, 0x62]);
        m.mount_add(&p1, FAT32_DOMAIN, 0);
        m.mount_add(&p2, TMPFS_DOMAIN, 0);
        m.mount_add(&p3, MFS_DOMAIN, 0);
        m.mount_add(&p4, EXT2_DOMAIN, 0);
        m.mount_add(&p5, EXFAT_DOMAIN, 0);
        m
    }

    /// Service, volume and length of the mount point that a path belongs to.
    pub fn mount_resolve(&self, path: &[u8]) -> (r: Option<(u64, u32, usize)>)
        requires
            self.inv(),
        ensures
            match (r, route(self@, path@)) {
                (Some((d, v, n)), Some((d2, v2, n2))) => d == d2 && v == v2 && n == n2,
                (None, None) => true,
                _ => false,
            },
    {
        let mut found: Option<(u64, u32, usize)> = None;
        let mut i: usize = 0;
        while i < self.slots.len()
            invariant
                i <= self.slots.len(),
                match (found, best(self@, path@, i as int)) {
                    (Some((d, v, n)), Some((d2, v2, n2))) => d == d2 && v == v2 && n == n2,
                    (None, None) => true,
                    _ => false,
                },
            decreases self.slots.len() - i,
        {
            assert(self@[i as int] == slot_view(self.slots@[i as int]));
            match &self.slots[i] {
                Some(m) => {
                    match mount_prefix_match(path, &m.prefix) {
                        Some(n) => {
                            let longer: bool = match found {
                                None => true,
                                Some((_d, _v, len)) => n > len,
                            };
                            if longer {
                                found = Some((m.domain, m.vol_enc, n));
                            }
                        },
                        None => {},
                    }
                },
                None => {},
            }
            i = i + 1;
        }
        found
    }

    /// Serves a request.
    pub fn serve(&mut self, req: &MountReq) -> (r: Reply)
        requires
            old(self).inv(),
        ensures
            final(self).inv(),
            (final(self)@, r@) == served(old(self)@, *req),
    {
        match req {
            MountReq::Lookup { path } => match self.mount_resolve(path) {
                None => Reply::Fail,
                Some((domain, vol_enc, len)) => Reply::Value(
                    ((vol_enc as u64) << 40u64) | (domain << 32u64) | len as u64,
                ),
            },
            MountReq::Mount { domain, prefix } => {
                if prefix.len() == 0 {
                    Reply::of_option(self.mount_auto(*domain))
                } else {
                    Reply::of_option(self.mount_add(prefix, *domain, 0))
                }
            },
            MountReq::MountVolume { domain, vol } => Reply::of_option(
                self.mount_auto_vol(*domain, *vol),
            ),
            MountReq::Unmount { prefix } => Reply::done(self.mount_del(prefix)),
            MountReq::Unknown => Reply::Fail,
        }
    }
}

/// The table after a request, and the answer.
pub open spec fn served(t: Seq<Option<MountView>>, req: MountReq) -> (
    Seq<Option<MountView>>,
    ReplyView,
) {
    match req {
        MountReq::Lookup { path } => match route(t, path@) {
            None => (t, ReplyView::Fail),
            Some((domain, vol_enc, len)) => (
                t,
                ReplyView::Value(packed(domain, vol_enc, len as u64)),
            ),
        },
        MountReq::Mount { domain, prefix } => {
            let (u, r) = if prefix@.len() == 0 {
                with_auto(t, domain, 0)
            } else {
                with_mount(t, MountView { prefix: prefix@, domain, vol_enc: 0 })
            };
            (u, ReplyView::of_option(r))
        },
        MountReq::MountVolume { domain, vol } => {
            let (u, r) = with_volume(t, domain, vol);
            (u, ReplyView::of_option(r))
        },
        MountReq::Unmount { prefix } => {
            let (u, ok) = without(t, prefix@);
            (u, ReplyView::done(ok))
        },
        MountReq::Unknown => (t, ReplyView::Fail),
    }
}

} // verus!
