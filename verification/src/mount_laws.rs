//! What holds of the mounts that are there from the start, and of those that are made on their own.
use vstd::prelude::*;

use crate::bytes;
use crate::mount;
use crate::mount::MountView;
use crate::print;
use crate::vfs;
use crate::vfs::ReplyView;

verus! {

/// Law: numbers are stored with the lowest byte first.
pub proof fn law_lowest_first(s: Seq<u8>, o: int)
    ensures
        bytes::le16(s, o) == s[o] + 0x100 * s[o + 1],
        bytes::le32(s, o) == s[o] + 0x100 * s[o + 1] + 0x1_0000 * s[o + 2] + 0x100_0000 * s[o + 3],
        bytes::le64(s, o) == bytes::le32(s, o) + 0x1_0000_0000 * bytes::le32(s, o + 4),
{
}

/// The slots up to `n` are taken, the others free.
spec fn taken(t: Seq<Option<MountView>>, n: int) -> bool {
    &&& t.len() == 16
    &&& 0 <= n < 16
    &&& forall|i: int| 0 <= i < 16 ==> (#[trigger] t[i] is Some <==> i < n)
}

/// The first free slot.
proof fn lemma_free(t: Seq<Option<MountView>>, i: int, n: int)
    requires
        taken(t, n),
        0 <= i <= n,
    ensures
        mount::free_from(t, i) == n,
    decreases n - i,
{
    if i < n {
        assert(t[i] is Some);
        lemma_free(t, i + 1, n);
    } else {
        assert(!(t[n] is Some));
    }
}

/// One more mount.
proof fn lemma_mount(t: Seq<Option<MountView>>, m: MountView, n: int)
    requires
        taken(t, n),
        n < 15,
        0 < m.prefix.len() < 24,
        m.prefix[0] == 0x2F,
        m.domain != 0,
        forall|i: int| 0 <= i < n ==> (#[trigger] t[i])->Some_0.prefix != m.prefix,
    ensures
        mount::with_mount(t, m).0 == t.update(n, Some(m)),
        taken(t.update(n, Some(m)), n + 1),
{
    lemma_free(t, 0, n);
    mount::lemma_find(t, m.prefix, 0);
    if mount::find(t, m.prefix) is Some {
        let k = mount::find(t, m.prefix)->Some_0;
        assert(t[k] is Some);
        assert(t[k]->Some_0.prefix == m.prefix);
    }
}

/// A mount of a whole service.
pub open spec fn of_service(prefix: Seq<u8>, domain: u64) -> Option<MountView> {
    Some(MountView { prefix, domain, vol_enc: 0 })
}

/// Law: from the start `/` is served by domain 6, `/tmp` by 10, `/mfs` by 11, `/ext2` by 12 and
/// `/usb` by 13, each with its own volume, and nothing else is mounted.
pub proof fn law_mounts_at_start(i: int)
    ensures
        ({
            let t = mount::initial();
            &&& t.len() == 16
            &&& t[0] == of_service(seq![0x2Fu8], 6)
            &&& t[1] == of_service(seq![0x2Fu8, 0x74, 0x6D, 0x70], 10)
            &&& t[2] == of_service(seq![0x2Fu8, 0x6D, 0x66, 0x73], 11)
            &&& t[3] == of_service(seq![0x2Fu8, 0x65, 0x78, 0x74, 0x32], 12)
            &&& t[4] == of_service(seq![0x2Fu8, 0x75, 0x73, 0x62], 13)
            &&& 5 <= i < 16 ==> t[i] is None
        }),
{
    let p1 = seq![0x2Fu8];
    let p2 = seq![0x2Fu8, 0x74, 0x6D, 0x70];
    let p3 = seq![0x2Fu8, 0x6D, 0x66, 0x73];
    let p4 = seq![0x2Fu8, 0x65, 0x78, 0x74, 0x32];
    let p5 = seq![0x2Fu8, 0x75, 0x73, 0x62];
    assert(p1.len() == 1 && p2.len() == 4 && p3.len() == 4 && p4.len() == 5 && p5.len() == 4);
    assert(p2[1] == 0x74 && p3[1] == 0x6D && p5[1] == 0x75);
    let t0 = Seq::new(16, |i: int| None::<MountView>);
    assert(t0 =~= Seq::new(mount::MOUNT_MAX as nat, |i: int| None::<MountView>));
    let m1 = MountView { prefix: p1, domain: 6, vol_enc: 0 };
    lemma_mount(t0, m1, 0);
    let t1 = t0.update(0, Some(m1));
    let m2 = MountView { prefix: p2, domain: 10, vol_enc: 0 };
    lemma_mount(t1, m2, 1);
    let t2 = t1.update(1, Some(m2));
    let m3 = MountView { prefix: p3, domain: 11, vol_enc: 0 };
    lemma_mount(t2, m3, 2);
    let t3 = t2.update(2, Some(m3));
    let m4 = MountView { prefix: p4, domain: 12, vol_enc: 0 };
    lemma_mount(t3, m4, 3);
    let t4 = t3.update(3, Some(m4));
    let m5 = MountView { prefix: p5, domain: 13, vol_enc: 0 };
    lemma_mount(t4, m5, 4);
}

/// Law: a volume is mounted at `/usb` and its number, and what is asked below it is asked of that
/// volume: the encoding that the mount holds names it, whatever the service's own is.
pub proof fn law_volume_mounted(t: Seq<Option<MountView>>, domain: u64, vol: u64, own: u64)
    requires
        mount::unique(t),
        vol < 0xFFFF_FFFF,
        mount::find(t, seq![0x2Fu8, 0x75, 0x73, 0x62] + print::dec(vol as int)) is None,
        mount::with_volume(t, domain, vol).1 is Some,
    ensures
        ({
            let name = seq![0x2Fu8, 0x75, 0x73, 0x62] + print::dec(vol as int);
            let u = mount::with_volume(t, domain, vol).0;
            mount::route(u, name) matches Some((d, enc, n)) && d == domain && n == name.len()
                && vfs::vol_from_enc_spec(enc as u64, own) == vol
        }),
        vfs::vol_from_enc_spec(0, own) == own,
{
    let m = MountView {
        prefix: mount::usb_name(vol),
        domain,
        vol_enc: mount::enc_of(vol),
    };
    mount::law_mounted_is_routed(t, m);
    assert(bytes::w32(vol + 1) == vol + 1);
}

/// `/mnt` and a number.
pub open spec fn numbered(j: int) -> Seq<u8> {
    seq![0x2Fu8, 0x6D, 0x6E, 0x74] + print::dec(j)
}

/// Law: a service that names no mount point gets the first `/mnt` with a number from `n` on that is
/// not taken, below 16.
pub proof fn law_next_free_name(t: Seq<Option<MountView>>, domain: u64, n: int, k: int)
    requires
        0 <= n <= k < 16,
        forall|j: int|
            n <= j < k ==> mount::find(t, #[trigger] numbered(j)) is Some,
        mount::find(t, numbered(k)) is None,
    ensures
        mount::with_auto(t, domain, n) == mount::with_mount(
            t,
            (MountView { prefix: numbered(k), domain, vol_enc: 0 }),
        ),
    decreases k - n,
{
    if n < k {
        assert(mount::find(t, numbered(n)) is Some);
        law_next_free_name(t, domain, n + 1, k);
    }
}

/// Law: each request to the mount service does what it says: one asks where a path leads and changes
/// nothing, one mounts a service under a name, or under the next free one where it gives none, one
/// mounts a volume, one takes a mount away.
pub proof fn law_requests(
    t: Seq<Option<MountView>>,
    p: Vec<u8>,
    domain: u64,
    vol: u64,
)
    ensures
        mount::served(t, mount::MountReq::Lookup { path: p }).0 == t,
        mount::served(t, mount::MountReq::Lookup { path: p }).1 == match mount::route(t, p@) {
            Some((d, enc, n)) => ReplyView::Value(mount::packed(d, enc, n as u64)),
            None => ReplyView::Fail,
        },
        p@.len() > 0 ==> mount::served(t, mount::MountReq::Mount { domain, prefix: p }).0
            == mount::with_mount(t, (MountView { prefix: p@, domain, vol_enc: 0 })).0,
        p@.len() == 0 ==> mount::served(t, mount::MountReq::Mount { domain, prefix: p }).0
            == mount::with_auto(t, domain, 0).0,
        mount::served(t, mount::MountReq::MountVolume { domain, vol }).0 == mount::with_volume(
            t,
            domain,
            vol,
        ).0,
        mount::served(t, mount::MountReq::Unmount { prefix: p }).0 == mount::without(t, p@).0,
        mount::served(t, mount::MountReq::Unmount { prefix: p }).1 == if mount::without(t, p@).1 {
            ReplyView::Value(1)
        } else {
            ReplyView::Fail
        },
        mount::served(t, mount::MountReq::Unknown) == (t, ReplyView::Fail),
{
}

} // verus!
