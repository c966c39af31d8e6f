//! What holds of an exFAT volume when it is mounted and when sets are made for it: how its upper
//! case table is read, how names are hashed, what a new set says, and how its boot region and system
//! files are told to be in order.
use vstd::prelude::*;

use crate::bytes;
use crate::calendar;
use crate::disk::StoreView;
use crate::exfat::{ExGeo, ExfatView};
use crate::exfat_dir;
use crate::exfat_dir::EntryView;
use crate::exfat_laws;
use crate::exfat_laws::{data_of, entry, fit, fits, linked, valid};
use crate::exfat_srv;
use crate::exfat_srv::{SysEnd, SysFiles};

verus! {

/// Cluster number `k` of a chain.
proof fn lemma_nth(s: ExfatView, ch: Seq<u32>, i: int, k: int)
    requires
        exfat_laws::good_geo(s.geo),
        exfat_laws::ready(s),
        linked(s, ch),
        0 <= i <= k < ch.len(),
    ensures
        s.nth_from(ch[i], i, k) == Some(ch[k]),
    decreases k - i,
{
    if i < k {
        assert(valid(s.geo, ch[i]));
        exfat_laws::lemma_rd_cl(s, ch[i]);
        exfat_laws::lemma_chain_fits(s.geo, ch);
        assert(entry(s, ch[i]) == ch[i + 1]);
        assert(valid(s.geo, ch[i + 1]));
        lemma_nth(s, ch, i + 1, k);
    }
}

/// Law: the upper case of a character is the number at its place in the table that the volume has
/// for it, two bytes each, and itself where the table does not reach so far.
pub proof fn law_upper_case(s: ExfatView, ch: Seq<u32>, u: u16)
    requires
        exfat_laws::good_geo(s.geo),
        exfat_laws::ready(s),
        linked(s, ch),
        fits(s, ch),
        ch.len() > 0,
        ch[0] == s.geo.upc_cl,
        s.geo.upc_bytes <= ch.len() * (512 * s.geo.spc),
    ensures
        2 * u + 2 > s.geo.upc_bytes ==> s.upcase(u) == u,
        2 * u + 2 <= s.geo.upc_bytes ==> s.upcase(u) == bytes::le16(
            data_of(s, ch[2 * u as int / (512 * s.geo.spc as int)]),
            2 * u as int % (512 * s.geo.spc as int),
        ),
{
    if 2 * u + 2 <= s.geo.upc_bytes {
        exfat_laws::lemma_spc(s.geo);
        let spc = s.geo.spc as int;
        let cb = 512 * spc;
        let sec = u as int / 256;
        let k = sec / spc;
        let r = sec % spc;
        crate::fat_laws::lemma_div(sec, spc);
        assert(2 * u as int == k * cb + (512 * r + u as int % 256 * 2)) by {
            assert(k * cb == 512 * (k * spc)) by (nonlinear_arith)
                requires
                    cb == 512 * spc,
            ;
        }
        crate::fat_laws::lemma_pos(k, 512 * r + u as int % 256 * 2, cb);
        assert(k < ch.len()) by (nonlinear_arith)
            requires
                k * cb <= 2 * u,
                2 * u + 2 <= ch.len() * cb,
                cb > 0,
        ;
        let c = ch[k];
        assert(valid(s.geo, c));
        assert(valid(s.geo, ch[0]));
        lemma_nth(s, ch, 0, k);
        exfat_laws::lemma_geo(s, 0, c);
        assert(fit(s, c));
        reveal(data_of);
        let lba = s.cluster_lba(c) + r;
        assert(bytes::w32(lba) == lba);
        assert(s.store.can(s.vol, lba, 1));
        let b = s.store.get(s.vol, lba, 1);
        let d = data_of(s, c);
        let o = u as int % 256 * 2;
        assert(b[o] == d[512 * r + o] && b[o + 1] == d[512 * r + o + 1]);
    }
}

/// The sums of a name: each character in upper case is added to the sum so far, rotated to the right
/// by one bit.
pub open spec fn name_sums(s: ExfatView, u: Seq<u16>, t: Seq<u16>) -> bool {
    &&& t.len() == u.len() + 1
    &&& t[0] == 0
    &&& forall|i: int|
        0 <= i < u.len() ==> t[i + 1] == ((t[i] >> 1u16 | t[i] << 15u16) + s.upcase(
            #[trigger] u[i],
        )) % 65536
}

/// A sum rotated.
proof fn lemma_rotated(h: u16, v: int)
    ensures
        exfat_dir::sum16(h, v) == (((h >> 1u16 | h << 15u16) + v) % 65536) as u16,
{
    assert((h >> 1u16 | h << 15u16) == h / 2 + 0x8000 * (h % 2)) by (bit_vector);
}

/// The sums so far.
proof fn lemma_hash(s: ExfatView, u: Seq<u16>, t: Seq<u16>, n: int)
    requires
        name_sums(s, u, t),
        0 <= n <= u.len(),
    ensures
        s.hash_to(u, n) == t[n],
    decreases n,
{
    if n > 0 {
        lemma_hash(s, u, t, n - 1);
        lemma_rotated(t[n - 1], s.upcase(u[n - 1]) as int);
        assert(t[(n - 1) + 1] == t[n]);
    }
}

/// Law: the hash of a name is the sum over its characters, rotated once more.
pub proof fn law_name_hash(s: ExfatView, u: Seq<u16>, t: Seq<u16>)
    requires
        name_sums(s, u, t),
    ensures
        s.name_hash(u) == (t.last() >> 1u16 | t.last() << 15u16),
{
    lemma_hash(s, u, t, u.len() as int);
    let h = t.last();
    lemma_rotated(h, 0);
    assert((h >> 1u16 | h << 15u16) <= 65535);
}

/// Law: the first two entries of a new set say that it is a file or a directory, how many entries
/// follow, when it was made, changed and last used, whether its clusters follow each other, how many
/// characters its name has and their hash, how much was written, where it starts and how long it is.
pub proof fn law_new_set(b: Seq<u8>, e: EntryView, units: int, hash: u16)
    requires
        b.len() >= 96,
        1 <= units <= 255,
    ensures
        ({
            let h = exfat_dir::set_head(b, e, units, hash);
            let (ts, hu) = calendar::stamp_of(e.mtime);
            &&& h[0] == 0x85
            &&& h[1] == 1 + (units + 14) / 15
            &&& bytes::le16(h, 4) == if e.is_dir {
                0x10
            } else {
                0x20int
            }
            &&& bytes::le32(h, 8) == ts && bytes::le32(h, 12) == ts && bytes::le32(h, 16) == ts
            &&& h[20] == hu && h[21] == hu
            &&& h[32] == 0xC0
            &&& h[33] == if e.contiguous {
                3
            } else {
                1int
            }
            &&& h[35] == units
            &&& bytes::le16(h, 36) == hash
            &&& bytes::le64(h, 40) == e.valid
            &&& bytes::le32(h, 52) == e.first
            &&& bytes::le64(h, 56) == e.size
        }),
{
    let (ts, hu) = calendar::stamp_of(e.mtime);
    let attr: u16 = if e.is_dir {
        0x10
    } else {
        0x20
    };
    let a0 = b.update(0, 0x85u8).update(1, (1 + (units + 14) / 15) as u8);
    let a1 = bytes::put16(a0, 4, attr);
    let a2 = bytes::put32(a1, 8, ts);
    let a3 = bytes::put32(a2, 12, ts);
    let a4 = bytes::put32(a3, 16, ts);
    let a5 = a4.update(20, hu).update(21, hu);
    let a6 = a5.update(32, 0xC0u8).update(
        33,
        if e.contiguous {
            3
        } else {
            1
        },
    ).update(35, units as u8);
    let a7 = bytes::put16(a6, 36, hash);
    let a8 = bytes::put64(a7, 40, e.valid);
    let a9 = bytes::put32(a8, 52, e.first);
    let h = bytes::put64(a9, 56, e.size);
    assert(h == exfat_dir::set_head(b, e, units, hash));
    bytes::law_put16_reads_back(a0, 4, attr);
    bytes::law_put32_reads_back(a1, 8, ts);
    bytes::law_put32_reads_back(a2, 12, ts);
    bytes::law_put32_reads_back(a3, 16, ts);
    bytes::law_put16_reads_back(a6, 36, hash);
    bytes::law_put64_reads_back(a7, 40, e.valid);
    bytes::law_put32_reads_back(a8, 52, e.first);
    bytes::law_put64_reads_back(a9, 56, e.size);
    assert forall|k: int| 0 <= k < 36 implies #[trigger] h[k] == a6[k] by {}
    assert forall|k: int| 0 <= k < 20 implies #[trigger] a6[k] == a4[k] by {}
    assert forall|k: int| 0 <= k < 16 implies #[trigger] a4[k] == a3[k] by {}
    assert forall|k: int| 0 <= k < 12 implies #[trigger] a3[k] == a2[k] by {}
    assert forall|k: int| 0 <= k < 8 implies #[trigger] a2[k] == a1[k] by {}
    assert(h[4] == a1[4] && h[5] == a1[5]);
    assert(h[8] == a2[8] && h[9] == a2[9] && h[10] == a2[10] && h[11] == a2[11]);
    assert(h[12] == a3[12] && h[13] == a3[13] && h[14] == a3[14] && h[15] == a3[15]);
    assert(h[16] == a4[16] && h[17] == a4[17] && h[18] == a4[18] && h[19] == a4[19]);
    assert(h[36] == a7[36] && h[37] == a7[37]);
    assert forall|k: int| 40 <= k < 48 implies #[trigger] h[k] == a8[k] by {}
    assert(h[40] == a8[40] && h[41] == a8[41] && h[42] == a8[42] && h[43] == a8[43]);
    assert(h[44] == a8[44] && h[45] == a8[45] && h[46] == a8[46] && h[47] == a8[47]);
    assert(h[52] == a9[52] && h[53] == a9[53] && h[54] == a9[54] && h[55] == a9[55]);
}

/// Law: the system files are those that the entries of the root directory name: an entry of type
/// 0x81 the bitmap, which must have a bit for each cluster, one of type 0x82 the upper case table;
/// each says where its file starts and how long it is. The search ends at the first entry that was
/// never used.
pub proof fn law_system_files(b: Seq<u8>, i: int, per: int, s: SysFiles)
    requires
        0 <= i < per,
    ensures
        ({
            let t = b[32 * i];
            let first = bytes::le32(b, 32 * i + 20);
            let len = bytes::le64(b, 32 * i + 24);
            let r = exfat_srv::sys_in(b, i, per, s);
            &&& t == 0 ==> r == (s, SysEnd::Stop)
            &&& t == 0x81 ==> if first >= 2 && len > 0 && s.geo.count <= 8 * len {
                r == exfat_srv::sys_in(
                    b,
                    i + 1,
                    per,
                    SysFiles {
                        geo: ExGeo { bmp_cl: first, bmp_bytes: bytes::w32(len as int), ..s.geo },
                        bmp: true,
                        upc: s.upc,
                    },
                )
            } else {
                r == (s, SysEnd::Bad)
            }
            &&& t == 0x82 ==> if first >= 2 && len > 0 {
                r == exfat_srv::sys_in(
                    b,
                    i + 1,
                    per,
                    SysFiles {
                        geo: ExGeo { upc_cl: first, upc_bytes: bytes::w32(len as int), ..s.geo },
                        upc: true,
                        bmp: s.bmp,
                    },
                )
            } else {
                r == (s, SysEnd::Bad)
            }
            &&& t != 0 && t != 0x81 && t != 0x82 ==> r == exfat_srv::sys_in(b, i + 1, per, s)
        }),
{
    assert(i * 32 == 32 * i);
}

/// The sum after byte `i` of the boot region: the byte is added to the sum so far, rotated to the
/// right by one bit; the flags and the fill grade of the volume do not count.
pub open spec fn boot_after(h: u32, i: int, c: u8) -> int {
    if i == 106 || i == 107 || i == 112 {
        h as int
    } else {
        ((h >> 1u32 | h << 31u32) + c) % 0x1_0000_0000
    }
}

/// The sums of the first eleven sectors of a volume, byte by byte.
pub open spec fn boot_sums(data: Seq<u8>, t: Seq<u32>) -> bool {
    &&& t.len() == 5633
    &&& t[0] == 0
    &&& forall|i: int| 0 <= i < 5632 ==> t[i + 1] == boot_after(t[i], i, #[trigger] data[i])
}

/// The sums in one sector.
proof fn lemma_sector(data: Seq<u8>, t: Seq<u32>, b: Seq<u8>, sec: int, i: int)
    requires
        boot_sums(data, t),
        0 <= sec < 11,
        0 <= i <= 512,
        forall|k: int| 0 <= k < 512 ==> #[trigger] b[k] == data[512 * sec + k],
    ensures
        exfat_srv::sector_sum(b, sec, i, t[512 * sec]) == t[512 * sec + i],
    decreases i,
{
    if i > 0 {
        lemma_sector(data, t, b, sec, i - 1);
        let x = 512 * sec + (i - 1);
        let h = t[x];
        assert((h >> 1u32 | h << 31u32) == h / 2 + 0x8000_0000 * (h % 2)) by (bit_vector);
        assert(b[i - 1] == data[x]);
        assert(t[x + 1] == boot_after(t[x], x, data[x]));
        assert(sec * 512 + i - 1 == x);
    }
}

/// The sums from one sector on.
proof fn lemma_boot(s: ExfatView, t: Seq<u32>, sec: int)
    requires
        s.store.wf(),
        s.vol < s.store.disks.len(),
        boot_sums(s.store.disks[s.vol as int].data, t),
        0 <= sec <= 11,
        forall|k: int| 0 <= k < 12 ==> #[trigger] s.store.can(s.vol, k, 1),
    ensures
        exfat_srv::boot_sum(s.store, s.vol, sec, t[512 * sec]) == Some(t[5632]),
    decreases 11 - sec,
{
    if sec < 11 {
        assert(s.store.can(s.vol, sec, 1));
        let data = s.store.disks[s.vol as int].data;
        let b = s.store.get(s.vol, sec, 1);
        assert forall|k: int| 0 <= k < 512 implies #[trigger] b[k] == data[512 * sec + k] by {}
        lemma_sector(data, t, b, sec, 512);
        lemma_boot(s, t, sec + 1);
    }
}

/// Law: the boot region of a volume is taken exactly where the first number of its twelfth sector is
/// the sum over the eleven before it.
pub proof fn law_boot_region(s: ExfatView, t: Seq<u32>)
    requires
        s.store.wf(),
        s.vol < s.store.disks.len(),
        boot_sums(s.store.disks[s.vol as int].data, t),
        forall|k: int| 0 <= k < 12 ==> #[trigger] s.store.can(s.vol, k, 1),
    ensures
        exfat_srv::boot_ok(s.store, s.vol) <==> bytes::le32(
            s.store.disks[s.vol as int].data,
            512 * 11int,
        ) == t[5632],
{
    lemma_boot(s, t, 0);
    assert(s.store.can(s.vol, 11, 1));
    let data = s.store.disks[s.vol as int].data;
    let b = s.store.get(s.vol, 11, 1);
    assert(b[0] == data[5632] && b[1] == data[5633] && b[2] == data[5634] && b[3] == data[5635]);
}

/// Law: a volume is refused at the first thing of its first sector that is not in order: with 2 where it
/// has not the mark, 3 where it is not signed, 4 to 6 where the sizes of its sectors or clusters or the
/// number of its tables cannot be, 7 where the table is empty, or there are no clusters, or the root
/// directory is in none.
pub proof fn law_refused_at(store: StoreView, vol: u64, now: u64, b: Seq<u8>)
    requires
        store.read(vol, 0, 1) == Some(b),
        b.len() == 512,
    ensures
        ({
            let r = ExfatView::mounted(store, vol, now);
            let marked = b.subrange(3, 11) == seq![0x45u8, 0x58, 0x46, 0x41, 0x54, 0x20, 0x20, 0x20];
            let signed = b[510] == 0x55 && b[511] == 0xAA;
            &&& !marked ==> r == Err::<ExfatView, u32>(2)
            &&& marked && !signed ==> r == Err::<ExfatView, u32>(3)
            &&& marked && signed && b[108] != 9 ==> r == Err::<ExfatView, u32>(4)
            &&& marked && signed && b[108] == 9 && (b[109] == 0 || b[109] > 9) ==> r == Err::<
                ExfatView,
                u32,
            >(5)
            &&& marked && signed && b[108] == 9 && 1 <= b[109] <= 9 && (b[110] == 0 || b[110] > 2)
                ==> r == Err::<ExfatView, u32>(6)
            &&& marked && signed && b[108] == 9 && 1 <= b[109] <= 9 && 1 <= b[110] <= 2 && (
            bytes::le32(b, 84) == 0 || bytes::le32(b, 92) == 0 || bytes::le32(b, 96) < 2) ==> r
                == Err::<ExfatView, u32>(7)
        }),
{
    reveal(exfat_srv::boot_layout);
    assert(exfat_srv::boot_mark() =~= seq![0x45u8, 0x58, 0x46, 0x41, 0x54, 0x20, 0x20, 0x20]);
    assert(bytes::le16(b, 510) == 0xAA55 <==> b[510] == 0x55 && b[511] == 0xAA);
}

/// Law: a volume whose first sector is in order is refused with 8 where the sum over its boot region
/// is wrong, with 9 where a system file is missing, with 12 where its root directory is free; else it
/// is mounted.
pub proof fn law_examined(s: ExfatView)
    ensures
        ({
            let ok = exfat_srv::boot_ok(s.store, s.vol);
            let f = s.sys_from(
                s.geo.root,
                0,
                (SysFiles { geo: s.geo, bmp: false, upc: false }),
            );
            &&& !ok ==> s.examined() == Err::<ExfatView, u32>(8)
            &&& ok && f is None ==> s.examined() == Err::<ExfatView, u32>(9)
            &&& ok && f is Some ==> {
                let (t, used) = (ExfatView { geo: f->Some_0, ..s }).bmp_get(f->Some_0.root);
                s.examined() == if used {
                    Ok::<ExfatView, u32>(t)
                } else {
                    Err(12)
                }
            }
        }),
{
    reveal(ExfatView::examined);
}

} // verus!
