//! Volumes: what the block service finds on its disks.
//!
//! A disk with a partition table holds one volume per partition, a disk without
//! one is a volume as a whole.
use vstd::prelude::*;

use crate::bytes;
use crate::disk::{Store, StoreView};
use crate::print;
use crate::print::{PrintView, Printer};

verus! {

/// Most volumes.
pub const VOL_MAX: usize = 16;

/// No known file system.
pub const VOL_KIND_UNKNOWN: u32 = 0;

/// FAT.
pub const VOL_KIND_FAT: u32 = 1;

/// exFAT.
pub const VOL_KIND_EXFAT: u32 = 2;

/// MorionFS.
pub const VOL_KIND_MFS: u32 = 3;

/// ext2.
pub const VOL_KIND_EXT2: u32 = 4;

/// A run of sectors of one disk. `sectors` is 0 where the size is not known.
#[derive(Clone, Copy)]
pub struct Volume {
    pub nsid: u32,
    pub start_lba: u32,
    pub sectors: u32,
    pub kind: u32,
}

/// A volume as it is listed to clients.
#[derive(Clone, Copy)]
pub struct VolumeDesc {
    pub id: u32,
    pub nsid: u32,
    pub start_lba: u32,
    pub sectors: u32,
    pub kind: u32,
}

/// The eight bytes `EXFAT   `.
pub open spec fn exfat_sig() -> Seq<u8> {
    seq![0x45u8, 0x58u8, 0x46u8, 0x41u8, 0x54u8, 0x20u8, 0x20u8, 0x20u8]
}

/// The eight bytes `EFI PART`.
pub open spec fn gpt_sig() -> Seq<u8> {
    seq![0x45u8, 0x46u8, 0x49u8, 0x20u8, 0x50u8, 0x41u8, 0x52u8, 0x54u8]
}

/// The file system whose signature the first 4096 bytes of a volume hold. The
/// strongest signature decides.
pub open spec fn detect(b: Seq<u8>) -> u32 {
    if b.subrange(3, 11) == exfat_sig() {
        VOL_KIND_EXFAT
    } else if bytes::le32(b, 0) / 0x100 == 0x4D_4653 && 0x30 <= bytes::le32(b, 0) % 0x100 <= 0x39 {
        VOL_KIND_MFS
    } else if bytes::le16(b, 1080) == 0xEF53 {
        VOL_KIND_EXT2
    } else if b[510] == 0x55 && b[511] == 0xAA {
        VOL_KIND_FAT
    } else {
        VOL_KIND_UNKNOWN
    }
}

/// The file system of the volume that starts at `start`.
pub open spec fn probe(ns: StoreView, nsid: u32, start: u32) -> u32 {
    match ns.read(nsid as u64, start, 8) {
        Some(b) => detect(b),
        None => VOL_KIND_UNKNOWN,
    }
}

/// A volume added to the table; a full table stays as it is.
pub open spec fn with_volume(vols: Seq<Volume>, v: Volume) -> Seq<Volume> {
    if vols.len() < VOL_MAX {
        vols.push(v)
    } else {
        vols
    }
}

/// Whether a GPT entry is in use: its type is not all zeros.
pub open spec fn gpt_used(sec: Seq<u8>, o: int) -> bool {
    sec.subrange(o, o + 16) != bytes::zeros(16)
}

/// The volume of the GPT entry at `o`, where it describes one.
pub open spec fn gpt_volume(ns: StoreView, nsid: u32, sec: Seq<u8>, o: int) -> Option<Volume> {
    let first = bytes::le64(sec, o + 0x20);
    let last = bytes::le64(sec, o + 0x28);
    if gpt_used(sec, o) && last >= first && first <= u32::MAX {
        Some(
            Volume {
                nsid,
                start_lba: first as u32,
                sectors: if last - first + 1 > u32::MAX {
                    u32::MAX
                } else {
                    (last - first + 1) as u32
                },
                kind: probe(ns, nsid, first as u32),
            },
        )
    } else {
        None
    }
}

/// The table after GPT entries `idx` and up were taken in. An entry that crosses a
/// sector is skipped; a sector that cannot be read ends the scan.
pub open spec fn gpt_from(
    vols: Seq<Volume>,
    ns: StoreView,
    nsid: u32,
    entry_lba: u64,
    num: u32,
    esize: u32,
    idx: int,
) -> Seq<Volume>
    decreases num - idx,
{
    let off = idx * esize;
    let sec = entry_lba + off / 512;
    if idx >= num {
        vols
    } else if sec > u32::MAX || off % 512 + esize > 512 {
        gpt_from(vols, ns, nsid, entry_lba, num, esize, idx + 1)
    } else {
        match ns.read(nsid as u64, sec as u32, 1) {
            None => vols,
            Some(b) => gpt_from(
                match gpt_volume(ns, nsid, b, off % 512) {
                    Some(v) => with_volume(vols, v),
                    None => vols,
                },
                ns,
                nsid,
                entry_lba,
                num,
                esize,
                idx + 1,
            ),
        }
    }
}

/// The table after the GPT of a disk was taken in.
pub open spec fn with_gpt(vols: Seq<Volume>, ns: StoreView, nsid: u32) -> Seq<Volume> {
    match ns.read(nsid as u64, 1, 1) {
        None => vols,
        Some(h) => {
            let entry_lba = bytes::le64(h, 0x48);
            let num = bytes::le32(h, 0x50);
            let esize = bytes::le32(h, 0x54);
            if h.subrange(0, 8) != gpt_sig() || esize < 128 || num == 0 || num > 128 || entry_lba
                > u32::MAX {
                vols
            } else {
                gpt_from(vols, ns, nsid, entry_lba, num, esize, 0)
            }
        },
    }
}

/// Whether MBR entry `i` describes a partition. Its boot flag must be 0x00 or 0x80
/// and it cannot start at sector 0: the boot code of a volume without a partition
/// table must not be taken for one.
pub open spec fn mbr_used(s: Seq<u8>, i: int) -> bool {
    let o = 446 + 16 * i;
    &&& s[510] == 0x55 && s[511] == 0xAA
    &&& s[o + 4] != 0
    &&& bytes::le32(s, o + 12) != 0
    &&& s[o] == 0x00 || s[o] == 0x80
    &&& bytes::le32(s, o + 8) != 0
}

/// The partitions, (start, sectors), of the MBR entries from `i` on.
pub open spec fn mbr_parts(s: Seq<u8>, i: int) -> Seq<(u32, u32)>
    decreases 4 - i,
{
    if i >= 4 {
        Seq::empty()
    } else if mbr_used(s, i) {
        seq![(bytes::le32(s, 446 + 16 * i + 8), bytes::le32(s, 446 + 16 * i + 12))] + mbr_parts(
            s,
            i + 1,
        )
    } else {
        mbr_parts(s, i + 1)
    }
}

/// The table after the partitions from `k` on were taken in.
pub open spec fn with_parts(
    vols: Seq<Volume>,
    ns: StoreView,
    nsid: u32,
    parts: Seq<(u32, u32)>,
    k: int,
) -> Seq<Volume>
    decreases parts.len() - k,
{
    if k >= parts.len() {
        vols
    } else {
        with_parts(
            with_volume(
                vols,
                Volume {
                    nsid,
                    start_lba: parts[k].0,
                    sectors: parts[k].1,
                    kind: probe(ns, nsid, parts[k].0),
                },
            ),
            ns,
            nsid,
            parts,
            k + 1,
        )
    }
}

/// The table after disk `nsid`, of `whole` sectors (0 where not known), was scanned.
pub open spec fn with_disk(vols: Seq<Volume>, ns: StoreView, nsid: u32, whole: u32) -> Seq<Volume> {
    match ns.read(nsid as u64, 0, 1) {
        None => vols,
        Some(s) => if s[510] == 0x55 && s[511] == 0xAA && s[450] == 0xEE {
            with_gpt(vols, ns, nsid)
        } else if mbr_parts(s, 0).len() == 0 {
            with_volume(
                vols,
                Volume { nsid, start_lba: 0, sectors: whole, kind: probe(ns, nsid, 0) },
            )
        } else {
            with_parts(vols, ns, nsid, mbr_parts(s, 0), 0)
        },
    }
}

/// The file system whose signature the first 4096 bytes of a volume hold.
pub fn vol_detect_kind(b: &Vec<u8>) -> (r: u32)
    requires
        b.len() >= 1082,
    ensures
        r == detect(b@),
{
    let sig: Vec<u8> = vec![0x45u8, 0x58u8, 0x46u8, 0x41u8, 0x54u8, 0x20u8, 0x20u8, 0x20u8];
    assert(sig@ =~= exfat_sig());
    let head: Vec<u8> = bytes::slice_copy(b, 3, 11);
    if bytes::bytes_eq(&head, &sig) {
        return VOL_KIND_EXFAT;
    }
    let m: u32 = bytes::read_u32(b, 0);
    if m / 0x100 == 0x4D_4653 && 0x30 <= m % 0x100 && m % 0x100 <= 0x39 {
        return VOL_KIND_MFS;
    }
    if bytes::read_u16(b, 1080) == 0xEF53 {
        return VOL_KIND_EXT2;
    }
    if b[510] == 0x55 && b[511] == 0xAA {
        return VOL_KIND_FAT;
    }
    VOL_KIND_UNKNOWN
}

/// The file system of the volume that starts at `start` of disk `nsid`.
pub fn vol_probe_kind(ns: &Store, nsid: u32, start: u32) -> (r: u32)
    requires
        ns@.wf(),
    ensures
        r == probe(ns@, nsid, start),
{
    match ns.read(nsid as u64, start, 8) {
        Some(b) => vol_detect_kind(&b),
        None => VOL_KIND_UNKNOWN,
    }
}

/// Adds a volume to the table, if there is room.
pub fn vol_push(vols: &mut Vec<Volume>, v: Volume)
    ensures
        final(vols)@ == with_volume(old(vols)@, v),
{
    if vols.len() < VOL_MAX {
        vols.push(v);
    }
}

/// The volume with number `i`.
pub fn vol_get(vols: &Vec<Volume>, i: u64) -> (r: Option<Volume>)
    ensures
        r == (if i < vols@.len() {
            Some(vols@[i as int])
        } else {
            None
        }),
{
    if i >= vols.len() as u64 {
        None
    } else {
        Some(vols[i as usize])
    }
}

/// Takes in the GPT of disk `nsid`.
#[verifier::loop_isolation(false)]
pub fn vol_scan_gpt(vols: &mut Vec<Volume>, ns: &Store, nsid: u32)
    requires
        ns@.wf(),
    ensures
        final(vols)@ == with_gpt(old(vols)@, ns@, nsid),
{
    let h: Vec<u8> = match ns.read(nsid as u64, 1, 1) {
        Some(v) => v,
        None => {
            return;
        },
    };
    let want: Vec<u8> = vec![0x45u8, 0x46u8, 0x49u8, 0x20u8, 0x50u8, 0x41u8, 0x52u8, 0x54u8];
    assert(want@ =~= gpt_sig());
    let sig: Vec<u8> = bytes::slice_copy(&h, 0, 8);
    if !bytes::bytes_eq(&sig, &want) {
        return;
    }
    let entry_lba: u64 = bytes::read_u64(&h, 0x48);
    let num: u32 = bytes::read_u32(&h, 0x50);
    let esize: u32 = bytes::read_u32(&h, 0x54);
    if esize < 128 || num == 0 || num > 128 || entry_lba > u32::MAX as u64 {
        return;
    }
    let ghost goal = with_gpt(old(vols)@, ns@, nsid);
    let mut idx: u32 = 0;
    while idx < num
        invariant
            idx <= num <= 128,
            gpt_from(vols@, ns@, nsid, entry_lba, num, esize, idx as int) == goal,
        decreases num - idx,
    {
        assert(0 <= idx * esize <= 128 * 0xFFFF_FFFF) by (nonlinear_arith)
            requires
                0 <= idx <= 128,
                0 <= esize <= 0xFFFF_FFFF,
        ;
        let off: u64 = idx as u64 * esize as u64;
        let sec: u64 = entry_lba + off / 512;
        let within: u64 = off % 512;
        if sec > u32::MAX as u64 || within + esize as u64 > 512 {
            idx = idx + 1;
            continue;
        }
        let b: Vec<u8> = match ns.read(nsid as u64, sec as u32, 1) {
            Some(v) => v,
            None => {
                return;
            },
        };
        let o: usize = within as usize;
        let guid: Vec<u8> = bytes::slice_copy(&b, o, o + 16);
        let clear: Vec<u8> = bytes::zero_vec(16);
        let used: bool = !bytes::bytes_eq(&guid, &clear);
        if used {
            let first: u64 = bytes::read_u64(&b, o + 0x20);
            let last: u64 = bytes::read_u64(&b, o + 0x28);
            if last >= first && first <= u32::MAX as u64 {
                let sectors: u32 = if last - first >= u32::MAX as u64 {
                    u32::MAX
                } else {
                    (last - first + 1) as u32
                };
                let kind: u32 = vol_probe_kind(ns, nsid, first as u32);
                vol_push(vols, Volume { nsid, start_lba: first as u32, sectors, kind });
            }
        }
        idx = idx + 1;
    }
}

/// Scans disk `nsid`: one volume per partition, or the whole disk.
#[verifier::loop_isolation(false)]
pub fn vol_scan_namespace(vols: &mut Vec<Volume>, ns: &Store, nsid: u32, whole: u32)
    requires
        ns@.wf(),
    ensures
        final(vols)@ == with_disk(old(vols)@, ns@, nsid, whole),
{
    let s: Vec<u8> = match ns.read(nsid as u64, 0, 1) {
        Some(v) => v,
        None => {
            return;
        },
    };
    let boot: bool = s[510] == 0x55 && s[511] == 0xAA;
    if boot && s[450] == 0xEE {
        vol_scan_gpt(vols, ns, nsid);
        return;
    }
    let mut parts: Vec<(u32, u32)> = Vec::new();
    let mut i: usize = 0;
    assert(parts@ + mbr_parts(s@, 0) =~= mbr_parts(s@, 0));
    while i < 4
        invariant
            i <= 4,
            parts@ + mbr_parts(s@, i as int) == mbr_parts(s@, 0),
        decreases 4 - i,
    {
        let o: usize = 446 + 16 * i;
        let start: u32 = bytes::read_u32(&s, o + 8);
        let count: u32 = bytes::read_u32(&s, o + 12);
        let plausible: bool = (s[o] == 0x00 || s[o] == 0x80) && start != 0;
        let ghost before = parts@;
        if boot && s[o + 4] != 0 && count != 0 && plausible {
            parts.push((start, count));
        }
        i = i + 1;
        assert(parts@ + mbr_parts(s@, i as int) =~= before + mbr_parts(s@, i - 1));
    }
    assert(parts@ =~= mbr_parts(s@, 0));
    if parts.len() == 0 {
        let kind: u32 = vol_probe_kind(ns, nsid, 0);
        vol_push(vols, Volume { nsid, start_lba: 0, sectors: whole, kind });
        return;
    }
    let ghost goal = with_parts(old(vols)@, ns@, nsid, parts@, 0);
    let mut k: usize = 0;
    while k < parts.len()
        invariant
            k <= parts.len(),
            with_parts(vols@, ns@, nsid, parts@, k as int) == goal,
        decreases parts.len() - k,
    {
        let (start, count): (u32, u32) = parts[k];
        let kind: u32 = vol_probe_kind(ns, nsid, start);
        vol_push(vols, Volume { nsid, start_lba: start, sectors: count, kind });
        k = k + 1;
    }
}

/// The name of a file system.
pub open spec fn kind_name(kind: u32) -> &'static str {
    if kind == VOL_KIND_FAT {
        "fat32"
    } else if kind == VOL_KIND_EXFAT {
        "exfat"
    } else if kind == VOL_KIND_MFS {
        "mfs"
    } else if kind == VOL_KIND_EXT2 {
        "ext2"
    } else {
        "unknown"
    }
}

/// The name of a file system.
pub fn vol_kind_name(kind: u32) -> (r: &'static str)
    ensures
        r == kind_name(kind),
{
    if kind == VOL_KIND_FAT {
        "fat32"
    } else if kind == VOL_KIND_EXFAT {
        "exfat"
    } else if kind == VOL_KIND_MFS {
        "mfs"
    } else if kind == VOL_KIND_EXT2 {
        "ext2"
    } else {
        "unknown"
    }
}

/// The console after the line of volume `i` was printed.
pub open spec fn line_of(p: PrintView, i: int, v: Volume) -> PrintView {
    p.text(print::txt("vol: ")).text(print::dec(i)).text(print::txt(" nsid=")).text(
        print::dec(v.nsid as int),
    ).text(print::txt(" lba=")).text(print::dec(v.start_lba as int)).text(
        print::txt(" sectors="),
    ).text(print::dec(v.sectors as int)).text(print::txt(" kind=")).text(
        print::txt(kind_name(v.kind)),
    ).byte(0x0A).flush()
}

/// The console after the lines of volumes `i` and up were printed.
pub open spec fn table_from(p: PrintView, vols: Seq<Volume>, i: int) -> PrintView
    decreases vols.len() - i,
{
    if i >= vols.len() {
        p
    } else {
        table_from(line_of(p, i, vols[i]), vols, i + 1)
    }
}

/// Prints the table of volumes, one line each.
pub fn vol_print_table(p: &mut Printer, vols: &Vec<Volume>)
    ensures
        final(p)@ == table_from(old(p)@, vols@, 0),
{
    let mut i: usize = 0;
    while i < vols.len()
        invariant
            i <= vols.len(),
            table_from(p@, vols@, i as int) == table_from(old(p)@, vols@, 0),
        decreases vols.len() - i,
    {
        let v: Volume = vols[i];
        print::print(p, "vol: ");
        print::print_u64(p, i as u64);
        print::print(p, " nsid=");
        print::print_u64(p, v.nsid as u64);
        print::print(p, " lba=");
        print::print_u64(p, v.start_lba as u64);
        print::print(p, " sectors=");
        print::print_u64(p, v.sectors as u64);
        print::print(p, " kind=");
        print::println(p, vol_kind_name(v.kind));
        i = i + 1;
    }
}

/// What the list of volumes says of volume `i`.
pub open spec fn desc_of(i: int, v: Volume) -> VolumeDesc {
    VolumeDesc {
        id: i as u32,
        nsid: v.nsid,
        start_lba: v.start_lba,
        sectors: v.sectors,
        kind: v.kind,
    }
}

/// The list of volumes, at most `max` of them.
pub fn list_volumes(vols: &Vec<Volume>, max: u64) -> (r: Vec<VolumeDesc>)
    requires
        vols.len() <= VOL_MAX,
    ensures
        r@ == Seq::new(
            if max < vols@.len() {
                max as nat
            } else {
                vols@.len()
            },
            |i: int| desc_of(i, vols@[i]),
        ),
{
    let n: usize = if max < vols.len() as u64 {
        max as usize
    } else {
        vols.len()
    };
    let mut out: Vec<VolumeDesc> = Vec::new();
    let mut i: usize = 0;
    while i < n
        invariant
            i <= n <= vols.len(),
            vols.len() <= VOL_MAX,
            out@ =~= Seq::new(i as nat, |j: int| desc_of(j, vols@[j])),
        decreases n - i,
    {
        let v: Volume = vols[i];
        out.push(
            VolumeDesc {
                id: i as u32,
                nsid: v.nsid,
                start_lba: v.start_lba,
                sectors: v.sectors,
                kind: v.kind,
            },
        );
        i = i + 1;
    }
    out
}

/// The number of the first volume of a kind in a list, from entry `i` on.
pub open spec fn first_of_kind(list: Seq<VolumeDesc>, kind: u32, i: int) -> Option<u32>
    decreases list.len() - i,
{
    if i >= list.len() {
        None
    } else if list[i].kind == kind {
        Some(list[i].id)
    } else {
        first_of_kind(list, kind, i + 1)
    }
}

/// The number of the first volume of a kind in a list.
pub fn vol_find_kind(list: &Vec<VolumeDesc>, kind: u32) -> (r: Option<u32>)
    ensures
        r == first_of_kind(list@, kind, 0),
{
    let mut i: usize = 0;
    while i < list.len()
        invariant
            i <= list.len(),
            first_of_kind(list@, kind, i as int) == first_of_kind(list@, kind, 0),
        decreases list.len() - i,
    {
        if list[i].kind == kind {
            return Some(list[i].id);
        }
        i = i + 1;
    }
    None
}

/// The volume that a file service takes for its own: the first of its kind, else
/// the agreed one.
pub fn vol_claim(list: &Vec<VolumeDesc>, kind: u32, fallback: u64) -> (r: u64)
    ensures
        r == (match first_of_kind(list@, kind, 0) {
            Some(v) => v as u64,
            None => fallback,
        }),
{
    match vol_find_kind(list, kind) {
        Some(v) => v as u64,
        None => fallback,
    }
}

/// The first entry of a list with number `vol`, from entry `i` on.
pub open spec fn desc_from(list: Seq<VolumeDesc>, vol: u64, i: int) -> Option<VolumeDesc>
    decreases list.len() - i,
{
    if i >= list.len() {
        None
    } else if list[i].id as u64 == vol {
        Some(list[i])
    } else {
        desc_from(list, vol, i + 1)
    }
}

/// The entry of a list with number `vol`.
pub fn vol_find_desc(list: &Vec<VolumeDesc>, vol: u64) -> (r: Option<VolumeDesc>)
    ensures
        r == desc_from(list@, vol, 0),
{
    let mut i: usize = 0;
    while i < list.len()
        invariant
            i <= list.len(),
            desc_from(list@, vol, i as int) == desc_from(list@, vol, 0),
        decreases list.len() - i,
    {
        if list[i].id as u64 == vol {
            return Some(list[i]);
        }
        i = i + 1;
    }
    None
}

/// The file system of volume `vol`.
pub fn vol_kind_of(list: &Vec<VolumeDesc>, vol: u64) -> (r: u32)
    ensures
        r == (match desc_from(list@, vol, 0) {
            Some(d) => d.kind,
            None => VOL_KIND_UNKNOWN,
        }),
{
    match vol_find_desc(list, vol) {
        Some(d) => d.kind,
        None => VOL_KIND_UNKNOWN,
    }
}

/// The size of volume `vol` in sectors, 0 where it is not known.
pub fn vol_sectors(list: &Vec<VolumeDesc>, vol: u64) -> (r: u32)
    ensures
        r == (match desc_from(list@, vol, 0) {
            Some(d) => d.sectors,
            None => 0,
        }),
{
    match vol_find_desc(list, vol) {
        Some(d) => d.sectors,
        None => 0,
    }
}

/// The volumes of a kind other than the service's own.
pub fn extra_volumes(list: &Vec<VolumeDesc>, kind: u32, own: u64) -> (r: Vec<u64>)
    ensures
        r@ == list@.filter(|d: VolumeDesc| d.kind == kind && d.id as u64 != own).map_values(
            |d: VolumeDesc| d.id as u64,
        ),
{
    let mut out: Vec<u64> = Vec::new();
    let mut i: usize = 0;
    let ghost want = |d: VolumeDesc| d.kind == kind && d.id as u64 != own;
    let ghost num = |d: VolumeDesc| d.id as u64;
    assert(list@.subrange(0, 0).filter(want) =~= Seq::empty()) by {
        reveal(Seq::filter);
    }
    while i < list.len()
        invariant
            i <= list.len(),
            want == (|d: VolumeDesc| d.kind == kind && d.id as u64 != own),
            num == (|d: VolumeDesc| d.id as u64),
            out@ =~= list@.subrange(0, i as int).filter(want).map_values(num),
        decreases list.len() - i,
    {
        proof {
            reveal(Seq::filter);
            assert(list@.subrange(0, i + 1).drop_last() =~= list@.subrange(0, i as int));
        }
        let d: VolumeDesc = list[i];
        if d.kind == kind && d.id as u64 != own {
            out.push(d.id as u64);
        }
        i = i + 1;
    }
    assert(list@.subrange(0, list@.len() as int) =~= list@);
    out
}

/// Law: scanning disks only ever appends to the table of volumes, and never beyond
/// its size: numbers given out stay valid.
pub proof fn law_scan_appends(vols: Seq<Volume>, ns: StoreView, nsid: u32, whole: u32)
    requires
        vols.len() <= VOL_MAX,
    ensures
        with_disk(vols, ns, nsid, whole).len() <= VOL_MAX,
        vols.len() <= with_disk(vols, ns, nsid, whole).len(),
        with_disk(vols, ns, nsid, whole).subrange(0, vols.len() as int) == vols,
{
    match ns.read(nsid as u64, 0, 1) {
        None => {
            assert(vols.subrange(0, vols.len() as int) =~= vols);
        },
        Some(s) => {
            lemma_parts_append(vols, ns, nsid, mbr_parts(s, 0), 0);
            match ns.read(nsid as u64, 1, 1) {
                None => {
                    assert(vols.subrange(0, vols.len() as int) =~= vols);
                },
                Some(h) => {
                    lemma_gpt_append(
                        vols,
                        ns,
                        nsid,
                        bytes::le64(h, 0x48),
                        bytes::le32(h, 0x50),
                        bytes::le32(h, 0x54),
                        0,
                    );
                    assert(vols.subrange(0, vols.len() as int) =~= vols);
                },
            }
            let v = Volume { nsid, start_lba: 0, sectors: whole, kind: probe(ns, nsid, 0) };
            assert(with_volume(vols, v).subrange(0, vols.len() as int) =~= vols);
        },
    }
}

proof fn lemma_parts_append(
    vols: Seq<Volume>,
    ns: StoreView,
    nsid: u32,
    parts: Seq<(u32, u32)>,
    k: int,
)
    requires
        vols.len() <= VOL_MAX,
        0 <= k,
    ensures
        ({
            let r = with_parts(vols, ns, nsid, parts, k);
            &&& vols.len() <= r.len() <= VOL_MAX
            &&& r.subrange(0, vols.len() as int) == vols
        }),
    decreases parts.len() - k,
{
    if k < parts.len() {
        let v = Volume {
            nsid,
            start_lba: parts[k].0,
            sectors: parts[k].1,
            kind: probe(ns, nsid, parts[k].0),
        };
        let w = with_volume(vols, v);
        lemma_parts_append(w, ns, nsid, parts, k + 1);
        let r = with_parts(vols, ns, nsid, parts, k);
        assert(r.subrange(0, vols.len() as int) =~= r.subrange(0, w.len() as int).subrange(
            0,
            vols.len() as int,
        ));
        assert(w.subrange(0, vols.len() as int) =~= vols);
    } else {
        assert(vols.subrange(0, vols.len() as int) =~= vols);
    }
}

proof fn lemma_gpt_append(
    vols: Seq<Volume>,
    ns: StoreView,
    nsid: u32,
    entry_lba: u64,
    num: u32,
    esize: u32,
    idx: int,
)
    requires
        vols.len() <= VOL_MAX,
        0 <= idx,
    ensures
        ({
            let r = gpt_from(vols, ns, nsid, entry_lba, num, esize, idx);
            &&& vols.len() <= r.len() <= VOL_MAX
            &&& r.subrange(0, vols.len() as int) == vols
        }),
    decreases num - idx,
{
    let off = idx * esize;
    let sec = entry_lba + off / 512;
    let r = gpt_from(vols, ns, nsid, entry_lba, num, esize, idx);
    if idx >= num {
        assert(vols.subrange(0, vols.len() as int) =~= vols);
    } else if sec > u32::MAX || off % 512 + esize > 512 {
        lemma_gpt_append(vols, ns, nsid, entry_lba, num, esize, idx + 1);
    } else {
        match ns.read(nsid as u64, sec as u32, 1) {
            None => {
                assert(vols.subrange(0, vols.len() as int) =~= vols);
            },
            Some(b) => {
                let w = match gpt_volume(ns, nsid, b, off % 512) {
                    Some(v) => with_volume(vols, v),
                    None => vols,
                };
                lemma_gpt_append(w, ns, nsid, entry_lba, num, esize, idx + 1);
                assert(r.subrange(0, vols.len() as int) =~= r.subrange(0, w.len() as int).subrange(
                    0,
                    vols.len() as int,
                ));
                assert(w.subrange(0, vols.len() as int) =~= vols);
            },
        }
    }
}

} // verus!
