//! What holds of the volumes that are found on disks: one for each partition that a table
//! describes, in the order of the table, and what file system each one holds.
use vstd::prelude::*;

use crate::bytes;
use crate::disk::StoreView;
use crate::print;
use crate::print::PrintView;
use crate::volume;
use crate::volume::Volume;

verus! {

/// Entry `j` of the four of a sector describes a partition: its type, its start and its size
/// are not zero, and it is marked as bootable or as not.
pub open spec fn is_part(sec: Seq<u8>, j: int) -> bool {
    let o = 446 + 16 * j;
    &&& sec[o + 4] != 0
    &&& bytes::le32(sec, o + 8) != 0
    &&& bytes::le32(sec, o + 12) != 0
    &&& sec[o] == 0 || sec[o] == 0x80
}

/// The start and the size that entry `j` says.
pub open spec fn part_at(sec: Seq<u8>, j: int) -> (u32, u32) {
    (bytes::le32(sec, 446 + 16 * j + 8), bytes::le32(sec, 446 + 16 * j + 12))
}

/// `js` are the numbers from `from` to `to - 1` that `p` holds of, in their order.
pub open spec fn just_those(p: spec_fn(int) -> bool, from: int, to: int, js: Seq<int>) -> bool {
    &&& forall|x: int| 0 <= x < js.len() ==> from <= #[trigger] js[x] < to && p(js[x])
    &&& forall|x: int, y: int| 0 <= x < y < js.len() ==> #[trigger] js[x] < #[trigger] js[y]
    &&& forall|j: int| from <= j < to && #[trigger] p(j) ==> js.contains(j)
}

/// One number in front.
proof fn lemma_those_front(p: spec_fn(int) -> bool, from: int, to: int, js: Seq<int>)
    requires
        just_those(p, from + 1, to, js),
        from < to,
    ensures
        p(from) ==> just_those(p, from, to, seq![from] + js),
        !p(from) ==> just_those(p, from, to, js),
{
    if p(from) {
        let all = seq![from] + js;
        assert forall|x: int| 0 <= x < all.len() implies from <= #[trigger] all[x] < to && p(
            all[x],
        ) by {
            if x > 0 {
                assert(all[x] == js[x - 1]);
            }
        }
        assert forall|x: int, y: int| 0 <= x < y < all.len() implies #[trigger] all[x]
            < #[trigger] all[y] by {
            assert(all[y] == js[y - 1]);
            if x > 0 {
                assert(all[x] == js[x - 1]);
            }
        }
        assert forall|j: int| from <= j < to && #[trigger] p(j) implies all.contains(j) by {
            if j > from {
                let x = choose|x: int| 0 <= x < js.len() && js[x] == j;
                assert(all[x + 1] == j);
            } else {
                assert(all[0] == j);
            }
        }
    }
}

/// The partitions of a sector.
proof fn lemma_parts(sec: Seq<u8>, i: int) -> (js: Seq<int>)
    requires
        0 <= i <= 4,
        sec[510] == 0x55,
        sec[511] == 0xAA,
    ensures
        just_those(|j: int| is_part(sec, j), i, 4, js),
        volume::mbr_parts(sec, i).len() == js.len(),
        forall|x: int|
            0 <= x < js.len() ==> #[trigger] volume::mbr_parts(sec, i)[x] == part_at(sec, js[x]),
    decreases 4 - i,
{
    let p = |j: int| is_part(sec, j);
    if i < 4 {
        let rest = lemma_parts(sec, i + 1);
        lemma_those_front(p, i, 4, rest);
        assert(volume::mbr_used(sec, i) == p(i));
        if p(i) {
            let js = seq![i] + rest;
            assert forall|x: int| 0 <= x < js.len() implies #[trigger] volume::mbr_parts(sec, i)[x]
                == part_at(sec, js[x]) by {
                if x > 0 {
                    assert(js[x] == rest[x - 1]);
                    assert(volume::mbr_parts(sec, i)[x] == volume::mbr_parts(sec, i + 1)[x - 1]);
                }
            }
            js
        } else {
            rest
        }
    } else {
        Seq::empty()
    }
}

/// The table `t` is `vols` followed by the volumes `vs`, as many as 16 in all.
pub open spec fn gained(vols: Seq<Volume>, vs: Seq<Volume>, t: Seq<Volume>) -> bool {
    &&& t.len() == if vols.len() + vs.len() <= 16 {
        vols.len() + vs.len()
    } else {
        16
    }
    &&& forall|x: int| 0 <= x < vols.len() ==> #[trigger] t[x] == vols[x]
    &&& forall|x: int|
        0 <= x < vs.len() && vols.len() + x < 16 ==> t[vols.len() + x] == #[trigger] vs[x]
}

/// One volume gained, then others.
proof fn lemma_gained(vols: Seq<Volume>, v: Volume, vs: Seq<Volume>, t: Seq<Volume>)
    requires
        vols.len() <= 16,
        gained(volume::with_volume(vols, v), vs, t),
    ensures
        gained(vols, seq![v] + vs, t),
{
    let w = volume::with_volume(vols, v);
    let all = seq![v] + vs;
    assert forall|x: int| 0 <= x < vols.len() implies #[trigger] t[x] == vols[x] by {
        assert(t[x] == w[x]);
    }
    assert forall|x: int| 0 <= x < all.len() && vols.len() + x < 16 implies t[vols.len() + x]
        == #[trigger] all[x] by {
        if x == 0 {
            assert(t[vols.len() as int] == w[vols.len() as int]);
        } else {
            assert(all[x] == vs[x - 1]);
            assert(t[w.len() + (x - 1)] == vs[x - 1]);
        }
    }
}

/// A volume on disk `nsid`.
pub open spec fn vol_at(ns: StoreView, nsid: u32, start: u32, sectors: u32) -> Volume {
    Volume { nsid, start_lba: start, sectors, kind: volume::probe(ns, nsid, start) }
}

/// The partitions from `k` on taken in.
proof fn lemma_taken(
    vols: Seq<Volume>,
    ns: StoreView,
    nsid: u32,
    parts: Seq<(u32, u32)>,
    k: int,
)
    requires
        vols.len() <= 16,
        0 <= k <= parts.len(),
    ensures
        gained(
            vols,
            Seq::new(
                (parts.len() - k) as nat,
                |x: int| vol_at(ns, nsid, parts[k + x].0, parts[k + x].1),
            ),
            volume::with_parts(vols, ns, nsid, parts, k),
        ),
    decreases parts.len() - k,
{
    let vs = Seq::new(
        (parts.len() - k) as nat,
        |x: int| vol_at(ns, nsid, parts[k + x].0, parts[k + x].1),
    );
    if k < parts.len() {
        let v = vol_at(ns, nsid, parts[k].0, parts[k].1);
        let w = volume::with_volume(vols, v);
        lemma_taken(w, ns, nsid, parts, k + 1);
        let rest = Seq::new(
            (parts.len() - (k + 1)) as nat,
            |x: int| vol_at(ns, nsid, parts[k + 1 + x].0, parts[k + 1 + x].1),
        );
        lemma_gained(vols, v, rest, volume::with_parts(vols, ns, nsid, parts, k));
        assert(seq![v] + rest =~= vs);
    }
}

/// Law: a disk whose first sector is signed and that has no table of the newer form has one
/// volume for each of the four entries that describes a partition, in the order of the entries,
/// with the start and the size that the entry says, as long as the table of volumes has room.
/// Where none of the four does, the whole disk is one volume. Nothing else is gained. The numbers
/// of the entries are handed back.
pub proof fn law_partitions_are_volumes(
    vols: Seq<Volume>,
    ns: StoreView,
    nsid: u32,
    whole: u32,
    sec: Seq<u8>,
) -> (js: Seq<int>)
    requires
        vols.len() <= 16,
        ns.read(nsid as u64, 0, 1) == Some(sec),
        sec[510] == 0x55,
        sec[511] == 0xAA,
        sec[450] != 0xEE,
    ensures
        just_those(|j: int| is_part(sec, j), 0, 4, js),
        js.len() > 0 ==> gained(
            vols,
            Seq::new(
                js.len(),
                |x: int| vol_at(ns, nsid, part_at(sec, js[x]).0, part_at(sec, js[x]).1),
            ),
            volume::with_disk(vols, ns, nsid, whole),
        ),
        js.len() == 0 ==> gained(
            vols,
            seq![vol_at(ns, nsid, 0, whole)],
            volume::with_disk(vols, ns, nsid, whole),
        ),
{
    let js = lemma_parts(sec, 0);
    let parts = volume::mbr_parts(sec, 0);
    lemma_taken(vols, ns, nsid, parts, 0);
    assert(Seq::new(
        (parts.len() - 0) as nat,
        |x: int| vol_at(ns, nsid, parts[0 + x].0, parts[0 + x].1),
    ) =~= Seq::new(
        js.len(),
        |x: int| vol_at(ns, nsid, part_at(sec, js[x]).0, part_at(sec, js[x]).1),
    ));
    js
}

/// Law: a disk whose first sector is not signed is one volume as a whole; one whose first sector
/// cannot be read has none.
pub proof fn law_unsigned_disk(vols: Seq<Volume>, ns: StoreView, nsid: u32, whole: u32)
    requires
        vols.len() <= 16,
        ns.read(nsid as u64, 0, 1) matches Some(sec) ==> sec[510] != 0x55 || sec[511] != 0xAA,
    ensures
        gained(
            vols,
            if ns.read(nsid as u64, 0, 1) is Some {
                seq![vol_at(ns, nsid, 0, whole)]
            } else {
                Seq::empty()
            },
            volume::with_disk(vols, ns, nsid, whole),
        ),
{
    if ns.read(nsid as u64, 0, 1) is Some {
        let sec = ns.read(nsid as u64, 0, 1)->Some_0;
        lemma_unsigned(sec, 0);
    }
}

/// A sector that is not signed describes no partition.
proof fn lemma_unsigned(sec: Seq<u8>, i: int)
    requires
        sec[510] != 0x55 || sec[511] != 0xAA,
    ensures
        volume::mbr_parts(sec, i).len() == 0,
    decreases 4 - i,
{
    if i < 4 {
        lemma_unsigned(sec, i + 1);
    }
}

/// The entry at byte `at` of a disk describes a volume: its type is not all zeros, it ends where
/// it starts or behind that, and it starts where a sector number can say.
pub open spec fn is_entry(data: Seq<u8>, at: int) -> bool {
    &&& exists|x: int| 0 <= x < 16 && #[trigger] data[at + x] != 0
    &&& bytes::le64(data, at + 32) <= bytes::le64(data, at + 40)
    &&& bytes::le64(data, at + 32) <= 0xFFFF_FFFF
}

/// The volume of the entry at byte `at`: from its first to its last sector.
pub open spec fn entry_vol(ns: StoreView, nsid: u32, data: Seq<u8>, at: int) -> Volume {
    let first = bytes::le64(data, at + 32);
    let last = bytes::le64(data, at + 40);
    vol_at(
        ns,
        nsid,
        first as u32,
        if last - first + 1 <= 0xFFFF_FFFF {
            (last - first + 1) as u32
        } else {
            0xFFFF_FFFF
        },
    )
}

/// Entry `idx` of a table of entries of `esize` bytes lies within one sector.
pub open spec fn within(esize: int, idx: int) -> bool {
    idx * esize % 512 + esize <= 512
}

/// An entry as it is read out of its sector.
proof fn lemma_entry(ns: StoreView, nsid: u32, sec: int, o: int, at: int)
    requires
        ns.wf(),
        nsid < ns.disks.len(),
        ns.can(nsid as u64, sec, 1),
        0 <= sec <= 0xFFFF_FFFF,
        0 <= o <= 384,
        at == sec * 512 + o,
    ensures
        ({
            let b = ns.get(nsid as u64, sec, 1);
            let data = ns.disks[nsid as int].data;
            volume::gpt_volume(ns, nsid, b, o) == if is_entry(data, at) {
                Some(entry_vol(ns, nsid, data, at))
            } else {
                None
            }
        }),
{
    let b = ns.get(nsid as u64, sec, 1);
    let data = ns.disks[nsid as int].data;
    assert(b.len() == 512);
    assert forall|x: int| 0 <= x < 512 implies #[trigger] b[x] == data[sec * 512 + x] by {}
    assert(bytes::le64(b, o + 32) == bytes::le64(data, at + 32));
    assert(bytes::le64(b, o + 40) == bytes::le64(data, at + 40));
    assert(volume::gpt_used(b, o) <==> exists|x: int| 0 <= x < 16 && #[trigger] data[at + x] != 0)
        by {
        let g = b.subrange(o, o + 16);
        if exists|x: int| 0 <= x < 16 && #[trigger] data[at + x] != 0 {
            let x = choose|x: int| 0 <= x < 16 && #[trigger] data[at + x] != 0;
            assert(g[x] == data[at + x]);
            assert(bytes::zeros(16)[x] == 0);
        } else {
            assert forall|x: int| 0 <= x < 16 implies g[x] == bytes::zeros(16)[x] by {
                assert(data[at + x] == 0);
            }
            assert(g =~= bytes::zeros(16));
        }
    }
}

/// The entries from `idx` on taken in.
proof fn lemma_gpt(
    vols: Seq<Volume>,
    ns: StoreView,
    nsid: u32,
    lba: u64,
    num: u32,
    esize: u32,
    idx: int,
) -> (js: Seq<int>)
    requires
        ns.wf(),
        vols.len() <= 16,
        nsid < ns.disks.len(),
        0 <= idx <= num,
        128 <= esize <= 512,
        lba + num * esize / 512 <= 0xFFFF_FFFF,
        forall|x: int|
            0 <= x <= num * esize / 512 ==> #[trigger] ns.can(nsid as u64, lba + x, 1),
    ensures
        ({
            let data = ns.disks[nsid as int].data;
            &&& just_those(
                |j: int| within(esize as int, j) && is_entry(data, lba * 512 + j * esize),
                idx,
                num as int,
                js,
            )
            &&& gained(
                vols,
                Seq::new(
                    js.len(),
                    |x: int| entry_vol(ns, nsid, data, lba * 512 + js[x] * esize),
                ),
                volume::gpt_from(vols, ns, nsid, lba, num, esize, idx),
            )
        }),
    decreases num - idx,
{
    let data = ns.disks[nsid as int].data;
    let p = |j: int| within(esize as int, j) && is_entry(data, lba * 512 + j * esize);
    if idx >= num {
        let js = Seq::<int>::empty();
        assert(Seq::new(js.len(), |x: int| entry_vol(ns, nsid, data, lba * 512 + js[x] * esize))
            =~= Seq::empty());
        js
    } else {
        let off = idx * esize;
        let q = off / 512;
        assert(0 <= off <= num * esize) by (nonlinear_arith)
            requires
                off == idx * esize,
                0 <= idx <= num,
                0 <= esize,
        ;
        let sec = lba + q;
        assert(ns.can(nsid as u64, lba + q, 1));
        let b = ns.get(nsid as u64, sec, 1);
        let o = off % 512;
        let at = lba * 512 + off;
        let v = volume::gpt_volume(ns, nsid, b, o);
        let w = if within(esize as int, idx) {
            match v {
                Some(x) => volume::with_volume(vols, x),
                None => vols,
            }
        } else {
            vols
        };
        let rest = lemma_gpt(w, ns, nsid, lba, num, esize, idx + 1);
        lemma_those_front(p, idx, num as int, rest);
        let t = volume::gpt_from(vols, ns, nsid, lba, num, esize, idx);
        assert(t == volume::gpt_from(w, ns, nsid, lba, num, esize, idx + 1));
        let vs = Seq::new(rest.len(), |x: int| entry_vol(ns, nsid, data, lba * 512 + rest[x] * esize));
        if within(esize as int, idx) {
            lemma_entry(ns, nsid, sec, o, at);
        }
        if p(idx) {
            let js = seq![idx] + rest;
            let x = entry_vol(ns, nsid, data, at);
            assert(v == Some(x));
            lemma_gained(vols, x, vs, t);
            assert(seq![x] + vs =~= Seq::new(
                js.len(),
                |x: int| entry_vol(ns, nsid, data, lba * 512 + js[x] * esize),
            )) by {
                assert(js[0] == idx);
                assert forall|y: int| 1 <= y < js.len() implies js[y] == rest[y - 1] by {}
            }
            js
        } else {
            assert(w == vols);
            rest
        }
    }
}

/// Law: a disk whose first sector says that it has a table of the newer form has one volume for
/// each entry of that table that describes one, in their order: entry `j` is `j` entry sizes
/// behind the first, whose sector the header in the second sector names, as it does the number
/// and the size of the entries. Entries that reach over the end of a sector are passed over. The
/// numbers of the entries are handed back.
pub proof fn law_entries_are_volumes(
    vols: Seq<Volume>,
    ns: StoreView,
    nsid: u32,
    whole: u32,
    sec: Seq<u8>,
) -> (js: Seq<int>)
    requires
        ns.wf(),
        vols.len() <= 16,
        nsid < ns.disks.len(),
        ns.read(nsid as u64, 0, 1) == Some(sec),
        sec[510] == 0x55,
        sec[511] == 0xAA,
        sec[450] == 0xEE,
        ns.can(nsid as u64, 1, 1),
        ({
            let data = ns.disks[nsid as int].data;
            let lba = bytes::le64(data, 512 + 72int);
            let num = bytes::le32(data, 512 + 80int);
            let esize = bytes::le32(data, 512 + 84int);
            &&& data.subrange(512, 520) == seq![
                0x45u8,
                0x46,
                0x49,
                0x20,
                0x50,
                0x41,
                0x52,
                0x54,
            ]
            &&& 1 <= num <= 128
            &&& 128 <= esize <= 512
            &&& lba + num * esize / 512 <= 0xFFFF_FFFF
            &&& forall|x: int|
                0 <= x <= num * esize / 512 ==> #[trigger] ns.can(nsid as u64, lba + x, 1)
        }),
    ensures
        ({
            let data = ns.disks[nsid as int].data;
            let lba = bytes::le64(data, 512 + 72int);
            let num = bytes::le32(data, 512 + 80int);
            let esize = bytes::le32(data, 512 + 84int);
            &&& just_those(
                |j: int| within(esize as int, j) && is_entry(data, lba * 512 + j * esize),
                0,
                num as int,
                js,
            )
            &&& gained(
                vols,
                Seq::new(
                    js.len(),
                    |x: int| entry_vol(ns, nsid, data, lba * 512 + js[x] * esize),
                ),
                volume::with_disk(vols, ns, nsid, whole),
            )
        }),
{
    let data = ns.disks[nsid as int].data;
    let h = ns.get(nsid as u64, 1, 1);
    assert(h.len() == 512);
    assert forall|x: int| 0 <= x < 512 implies #[trigger] h[x] == data[512 + x] by {}
    assert(bytes::le64(h, 0x48) == bytes::le64(data, 512 + 72int));
    assert(bytes::le32(h, 0x50) == bytes::le32(data, 512 + 80int));
    assert(bytes::le32(h, 0x54) == bytes::le32(data, 512 + 84int));
    assert(h.subrange(0, 8) =~= data.subrange(512, 520));
    assert(volume::gpt_sig() =~= data.subrange(512, 520));
    lemma_gpt(
        vols,
        ns,
        nsid,
        bytes::le64(data, 512 + 72int),
        bytes::le32(data, 512 + 80int),
        bytes::le32(data, 512 + 84int),
        0,
    )
}

/// Law: which file system a volume holds is told by its first 4096 bytes. exFAT has its name
/// behind the first three bytes; else MorionFS starts with a digit and `SFM`; else ext2 has its
/// two magic bytes 1080 bytes on; else FAT has a signed first sector; anything else is not known.
/// The numbers that stand for them are 2, 3, 4, 1 and 0.
pub proof fn law_kind(ns: StoreView, nsid: u32, start: u32, b: Seq<u8>)
    requires
        ns.wf(),
        ns.read(nsid as u64, start, 8) == Some(b),
    ensures
        ({
            let exfat = b[3] == 0x45 && b[4] == 0x58 && b[5] == 0x46 && b[6] == 0x41 && b[7]
                == 0x54 && b[8] == 0x20 && b[9] == 0x20 && b[10] == 0x20;
            let mfs = 0x30 <= b[0] <= 0x39 && b[1] == 0x53 && b[2] == 0x46 && b[3] == 0x4D;
            let ext2 = b[1080] == 0x53 && b[1081] == 0xEF;
            let fat = b[510] == 0x55 && b[511] == 0xAA;
            &&& exfat ==> volume::probe(ns, nsid, start) == 2
            &&& !exfat && mfs ==> volume::probe(ns, nsid, start) == 3
            &&& !exfat && !mfs && ext2 ==> volume::probe(ns, nsid, start) == 4
            &&& !exfat && !mfs && !ext2 && fat ==> volume::probe(ns, nsid, start) == 1
            &&& !exfat && !mfs && !ext2 && !fat ==> volume::probe(ns, nsid, start) == 0
        }),
{
    let g = b.subrange(3, 11);
    let exfat = b[3] == 0x45 && b[4] == 0x58 && b[5] == 0x46 && b[6] == 0x41 && b[7] == 0x54 && b[8]
        == 0x20 && b[9] == 0x20 && b[10] == 0x20;
    assert(b.len() == 4096);
    assert(exfat <==> g == volume::exfat_sig()) by {
        if exfat {
            assert(g =~= volume::exfat_sig());
        }
        if g == volume::exfat_sig() {
            assert(g[0] == 0x45 && g[1] == 0x58 && g[2] == 0x46 && g[3] == 0x41 && g[4] == 0x54
                && g[5] == 0x20 && g[6] == 0x20 && g[7] == 0x20);
        }
    }
}

/// Law: the volume of a kind that is found in the list is the first of that kind, and none is found
/// only where there is none.
pub proof fn law_first_of_kind(list: Seq<volume::VolumeDesc>, kind: u32, i: int)
    requires
        0 <= i <= list.len(),
    ensures
        match volume::first_of_kind(list, kind, i) {
            None => forall|x: int| i <= x < list.len() ==> (#[trigger] list[x]).kind != kind,
            Some(id) => exists|x: int|
                i <= x < list.len() && (#[trigger] list[x]).kind == kind && list[x].id == id
                    && forall|y: int| i <= y < x ==> (#[trigger] list[y]).kind != kind,
        },
    decreases list.len() - i,
{
    if i < list.len() && list[i].kind != kind {
        law_first_of_kind(list, kind, i + 1);
        if volume::first_of_kind(list, kind, i) is Some {
            let id = volume::first_of_kind(list, kind, i)->Some_0;
            let x = choose|x: int|
                i + 1 <= x < list.len() && (#[trigger] list[x]).kind == kind && list[x].id == id
                    && forall|y: int| i + 1 <= y < x ==> (#[trigger] list[y]).kind != kind;
            assert forall|y: int| i <= y < x implies (#[trigger] list[y]).kind != kind by {
                if y > i {
                    assert(i + 1 <= y);
                }
            }
        }
    } else if i < list.len() {
        assert(list[i].kind == kind);
    }
}

/// Law: a disk whose first sector says that it has a table of the newer form, but whose second
/// sector does not start with its mark, cannot be read, or names no entries, too many, too small
/// ones, or a place that a sector number cannot say, has no volumes.
pub proof fn law_bad_table(
    vols: Seq<Volume>,
    ns: StoreView,
    nsid: u32,
    whole: u32,
    sec: Seq<u8>,
    h: Seq<u8>,
)
    requires
        ns.read(nsid as u64, 0, 1) == Some(sec),
        sec[510] == 0x55,
        sec[511] == 0xAA,
        sec[450] == 0xEE,
        ns.read(nsid as u64, 1, 1) is None || {
            &&& ns.read(nsid as u64, 1, 1) == Some(h)
            &&& h.len() == 512
            &&& {
                ||| exists|k: int| 0 <= k < 8 && #[trigger] h[k] != efi_part()[k]
                ||| bytes::le32(h, 80) == 0
                ||| bytes::le32(h, 80) > 128
                ||| bytes::le32(h, 84) < 128
                ||| bytes::le64(h, 72) > 0xFFFF_FFFF
            }
        },
    ensures
        volume::with_disk(vols, ns, nsid, whole) == vols,
{
    if h.len() == 512 && exists|k: int| 0 <= k < 8 && #[trigger] h[k] != efi_part()[k] {
        let k = choose|k: int| 0 <= k < 8 && #[trigger] h[k] != efi_part()[k];
        assert(h.subrange(0, 8)[k] == h[k]);
        assert(volume::gpt_sig() =~= efi_part());
    }
}

/// The mark of a table of the newer form: `EFI PART`.
pub open spec fn efi_part() -> Seq<u8> {
    seq![0x45, 0x46, 0x49, 0x20, 0x50, 0x41, 0x52, 0x54]
}

/// Law: the list of volumes says of each volume its number in the table, its disk, where it starts,
/// how large it is and what it holds.
pub proof fn law_described(i: int, v: Volume)
    requires
        0 <= i <= 0xFFFF_FFFF,
    ensures
        volume::desc_of(i, v).id == i,
        volume::desc_of(i, v).nsid == v.nsid,
        volume::desc_of(i, v).start_lba == v.start_lba,
        volume::desc_of(i, v).sectors == v.sectors,
        volume::desc_of(i, v).kind == v.kind,
{
}

/// Law: what the list says of a volume is what its first entry with that number says; nothing only
/// where no entry has it.
pub proof fn law_found_by_number(list: Seq<volume::VolumeDesc>, vol: u64, i: int)
    requires
        0 <= i <= list.len(),
    ensures
        match volume::desc_from(list, vol, i) {
            None => forall|x: int| i <= x < list.len() ==> (#[trigger] list[x]).id != vol,
            Some(d) => exists|x: int|
                i <= x < list.len() && #[trigger] list[x] == d && d.id == vol && forall|y: int|
                    i <= y < x ==> (#[trigger] list[y]).id != vol,
        },
    decreases list.len() - i,
{
    if i < list.len() && list[i].id != vol {
        law_found_by_number(list, vol, i + 1);
        if volume::desc_from(list, vol, i) is Some {
            let d = volume::desc_from(list, vol, i)->Some_0;
            let x = choose|x: int|
                i + 1 <= x < list.len() && #[trigger] list[x] == d && d.id == vol && forall|
                    y: int,
                |
                    i + 1 <= y < x ==> (#[trigger] list[y]).id != vol;
            assert forall|y: int| i <= y < x implies (#[trigger] list[y]).id != vol by {
                if y > i {
                    assert(i + 1 <= y);
                }
            }
        }
    } else if i < list.len() {
        assert(list[i].id == vol);
    }
}

/// One more text on the console.
proof fn lemma_more(p: PrintView, s: Seq<u8>)
    requires
        p.wf(),
    ensures
        p.text(s).all() == p.all() + s,
        p.text(s).wf(),
{
    print::law_nothing_lost(p, s, 0);
    assert(s.subrange(0, s.len() as int) =~= s);
}

/// Law: the line of a volume says its number, its disk, its first sector, how many sectors it has
/// and the name of its file system: `fat32` for 1, `exfat` for 2, `mfs` for 3, `ext2` for 4.
pub proof fn law_line(p: PrintView, i: int, v: Volume, name: &'static str)
    requires
        p.wf(),
        v.kind == 1 ==> name == "fat32",
        v.kind == 2 ==> name == "exfat",
        v.kind == 3 ==> name == "mfs",
        v.kind == 4 ==> name == "ext2",
        v.kind == 0 || v.kind > 4 ==> name == "unknown",
    ensures
        volume::line_of(p, i, v).all() == p.all() + print::txt("vol: ") + print::dec(i)
            + print::txt(" nsid=") + print::dec(v.nsid as int) + print::txt(" lba=") + print::dec(
            v.start_lba as int,
        ) + print::txt(" sectors=") + print::dec(v.sectors as int) + print::txt(" kind=")
            + print::txt(name) + seq![0x0Au8],
        volume::line_of(p, i, v).wf(),
{
    let a = p.text(print::txt("vol: "));
    lemma_more(p, print::txt("vol: "));
    let b = a.text(print::dec(i));
    lemma_more(a, print::dec(i));
    let c = b.text(print::txt(" nsid="));
    lemma_more(b, print::txt(" nsid="));
    let d = c.text(print::dec(v.nsid as int));
    lemma_more(c, print::dec(v.nsid as int));
    let e = d.text(print::txt(" lba="));
    lemma_more(d, print::txt(" lba="));
    let f = e.text(print::dec(v.start_lba as int));
    lemma_more(e, print::dec(v.start_lba as int));
    let g = f.text(print::txt(" sectors="));
    lemma_more(f, print::txt(" sectors="));
    let h = g.text(print::dec(v.sectors as int));
    lemma_more(g, print::dec(v.sectors as int));
    let k = h.text(print::txt(" kind="));
    lemma_more(h, print::txt(" kind="));
    let l = k.text(print::txt(name));
    lemma_more(k, print::txt(name));
    lemma_more(l, seq![0x0Au8]);
    assert(l.text(seq![0x0Au8]) == l.byte(0x0A)) by {
        reveal_with_fuel(PrintView::text_from, 2);
    }
    print::law_flush(l.byte(0x0A));
}

} // verus!
