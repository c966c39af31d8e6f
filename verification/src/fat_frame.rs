//! What requests to the FAT32 service leave alone: reading changes no volume, and every write
//! goes to the volume that the request is about.
use vstd::prelude::*;

use crate::bytes;
use crate::disk;
use crate::fat;
use crate::fat::{Fat32Bpb, FatView, FAT_EOC, FAT_EOC_MIN, FAT_WALK_MAX};
use crate::fat_dir::DirEntryInfo;
use crate::fat_file::{OpenNode, WritePlan};
use crate::fat_name::LfnView;
use crate::fat_srv;
use crate::fat_srv::FatSrvView;
use crate::vfs::{DirEntryView, Request};

verus! {

/// What was done changed nothing on the volumes.
pub open spec fn still(s: FatView, t: FatView) -> bool {
    t.store == s.store && t.cur == s.cur
}

/// What was done changed only the current volume.
pub open spec fn within(s: FatView, t: FatView) -> bool {
    disk::only(s.store, t.store, s.cur) && t.cur == s.cur
}

/// What changed nothing changed only the current volume.
proof fn lemma_still(s: FatView, t: FatView)
    requires
        still(s, t),
    ensures
        within(s, t),
{
    disk::lemma_refl(s.store, s.cur);
}

/// One step after another.
proof fn lemma_then(s: FatView, t: FatView, u: FatView)
    requires
        within(s, t),
        within(t, u),
    ensures
        within(s, u),
{
    disk::lemma_trans(s.store, t.store, u.store, s.cur);
}

/// A write.
proof fn lemma_wr(s: FatView, sector: u32, data: Seq<u8>)
    ensures
        within(s, s.wr(sector, data).0),
{
    disk::lemma_write(s.store, s.cur, sector, data);
}

/// The buffered table sector written to the copies.
proof fn lemma_put_copies(s: FatView, b: Fat32Bpb, c: u32, k: int)
    ensures
        within(s, s.put_copies(b, c, k).0),
    decreases b.num_fats - k,
{
    lemma_still(s, s);
    if k < b.num_fats {
        lemma_wr(s, b.fat_sector(k, c), s.fat_buf);
        let t = s.wr(b.fat_sector(k, c), s.fat_buf).0;
        lemma_put_copies(t, b, c, k + 1);
        lemma_then(s, t, t.put_copies(b, c, k + 1).0);
    }
}

/// A table entry set.
proof fn lemma_fat_set(s: FatView, b: Fat32Bpb, c: u32, v: u32)
    ensures
        within(s, s.fat_set(b, c, v).0),
{
    lemma_still(s, s);
    match s.rd(b.fat_sector(0, c), 1) {
        None => {},
        Some(sec) => {
            let o = Fat32Bpb::fat_off(c);
            let e = (bytes::le32(sec, o) & 0xF000_0000) | (v & 0x0FFF_FFFF);
            let t = FatView { fat_buf: bytes::put32(sec, o, e), ..s };
            lemma_put_copies(t, b, c, 0);
        },
    }
}

/// A cluster written.
proof fn lemma_put_cluster(s: FatView, b: Fat32Bpb, c: u32, data: Seq<u8>)
    ensures
        within(s, s.put_cluster(b, c, data).0),
{
    lemma_wr(s, b.sector_of(c), data);
}

/// The search for a free cluster.
proof fn lemma_search_free(s: FatView, b: Fat32Bpb, start: u32, c: u32, fuel: nat)
    ensures
        still(s, s.search_free(b, start, c, fuel).0),
    decreases fuel,
{
    let t = s.fat_get(b, c).0;
    if fuel > 0 {
        lemma_search_free(t, b, start, FatView::next_candidate(b, c), (fuel - 1) as nat);
    }
}

/// A free cluster found.
proof fn lemma_find_free(s: FatView, b: Fat32Bpb)
    ensures
        still(s, s.find_free(b).0),
{
    lemma_search_free(s, b, s.search_start(), s.search_start(), 0xFFFF_FFFF);
}

/// A directory entry changed.
proof fn lemma_update_entry(s: FatView, b: Fat32Bpb, dc: u32, off: u32, start: u32, size: u32)
    ensures
        within(s, s.update_entry(b, dc, off, start, size).0),
{
    lemma_still(s, s);
    match s.rd(FatView::entry_sector(b, dc, off), 1) {
        None => {},
        Some(sec) => {
            lemma_wr(
                s,
                FatView::entry_sector(b, dc, off),
                fat::entry_with_start(sec, off as int % 512, start, size),
            );
        },
    }
}

/// A directory entry written.
proof fn lemma_write_entry(
    s: FatView,
    b: Fat32Bpb,
    dc: u32,
    off: u32,
    sn: Seq<u8>,
    attr: u8,
    start: u32,
    size: u32,
)
    ensures
        within(s, s.write_entry(b, dc, off, sn, attr, start, size).0),
{
    lemma_still(s, s);
    match s.rd(FatView::entry_sector(b, dc, off), 1) {
        None => {},
        Some(sec) => {
            lemma_wr(
                s,
                FatView::entry_sector(b, dc, off),
                bytes::splice(sec, off as int % 512, fat::entry_bytes(sn, attr, start, size)),
            );
        },
    }
}

/// A chain released.
proof fn lemma_free_chain(s: FatView, b: Fat32Bpb, c: u32, steps: int)
    ensures
        within(s, s.free_chain(b, c, steps).0),
    decreases 4096 - steps,
{
    lemma_still(s, s);
    if !(c == 0 || c >= FAT_EOC_MIN) && steps < 4096 {
        let (t, next) = s.fat_get(b, c);
        lemma_still(s, t);
        lemma_fat_set(t, b, c, 0);
        let u = t.fat_set(b, c, 0).0;
        lemma_then(s, t, u);
        lemma_free_chain(u, b, next, steps + 1);
        lemma_then(s, u, u.free_chain(b, next, steps + 1).0);
    }
}

/// An entry removed.
proof fn lemma_unlink(s: FatView, b: Fat32Bpb, dc: u32, off: u32, start: u32)
    ensures
        within(s, s.unlink(b, dc, off, start).0),
{
    lemma_still(s, s);
    lemma_free_chain(s, b, start, 0);
    let t = if start != 0 {
        s.free_chain(b, start, 0).0
    } else {
        s
    };
    match t.rd(FatView::entry_sector(b, dc, off), 1) {
        None => {},
        Some(sec) => {
            let data = sec.update(off as int % 512, 0xE5u8);
            lemma_wr(t, FatView::entry_sector(b, dc, off), data);
            lemma_then(s, t, t.wr(FatView::entry_sector(b, dc, off), data).0);
        },
    }
}

/// A directory extended.
proof fn lemma_grow_dir(s: FatView, b: Fat32Bpb, c: u32)
    ensures
        within(s, s.grow_dir(b, c).0),
{
    lemma_find_free(s, b);
    let (s0, free) = s.find_free(b);
    lemma_still(s, s0);
    if free is Some {
        let f = free->Some_0;
        lemma_fat_set(s0, b, c, f);
        let s1 = s0.fat_set(b, c, f).0;
        lemma_then(s, s0, s1);
        lemma_fat_set(s1, b, f, FAT_EOC);
        let s2 = s1.fat_set(b, f, FAT_EOC).0;
        lemma_then(s, s1, s2);
        lemma_put_cluster(s2, b, f, bytes::zeros(b.cb()));
        lemma_then(s, s2, s2.put_cluster(b, f, bytes::zeros(b.cb())).0);
    }
}

/// A place for an entry found.
proof fn lemma_dir_slot(s: FatView, b: Fat32Bpb, c: u32, fuel: nat)
    ensures
        within(s, s.dir_slot(b, c, fuel).0),
    decreases fuel,
{
    lemma_still(s, s);
    let (t, next) = s.fat_get(b, c);
    lemma_still(s, t);
    lemma_grow_dir(t, b, c);
    lemma_then(s, t, t.grow_dir(b, c).0);
    if fuel > 0 {
        lemma_dir_slot(t, b, next, (fuel - 1) as nat);
        lemma_then(s, t, t.dir_slot(b, next, (fuel - 1) as nat).0);
    }
}

/// A search by name.
proof fn lemma_find_named(
    s: FatView,
    b: Fat32Bpb,
    c: u32,
    sn: Option<Seq<u8>>,
    q: Seq<u8>,
    lfn: LfnView,
    hit: Option<DirEntryInfo>,
    fuel: nat,
)
    ensures
        still(s, s.find_named(b, c, sn, q, lfn, hit, fuel).0),
    decreases fuel,
{
    if fuel > 0 && s.cluster(b, c) is Some {
        let d = s.cluster(b, c)->Some_0;
        let (over, h, l) = crate::fat_dir::scan_named(d, c, 0, b.cb() / 32, sn, q, lfn, hit);
        let (t, next) = s.fat_get(b, c);
        lemma_find_named(t, b, next, sn, q, l, h, (fuel - 1) as nat);
    }
}

/// A name looked up.
pub proof fn lemma_find(s: FatView, b: Fat32Bpb, dir: u32, name: Seq<u8>)
    ensures
        still(s, s.find(b, dir, name).0),
{
    lemma_find_named(
        s,
        b,
        dir,
        crate::fat_name::short_name(name),
        name,
        LfnView::empty(),
        None,
        FAT_WALK_MAX as nat,
    );
}

/// A search by short name.
pub proof fn lemma_find_short(s: FatView, b: Fat32Bpb, c: u32, sn: Seq<u8>, fuel: nat)
    ensures
        still(s, s.find_short(b, c, sn, fuel).0),
    decreases fuel,
{
    if fuel > 0 {
        let (t, next) = s.fat_get(b, c);
        lemma_find_short(t, b, next, sn, (fuel - 1) as nat);
    }
}

/// Entries counted.
pub proof fn lemma_at_most_two(s: FatView, b: Fat32Bpb, c: u32, n: int, fuel: nat)
    ensures
        still(s, s.at_most_two(b, c, n, fuel).0),
    decreases fuel,
{
    if fuel > 0 && s.cluster(b, c) is Some {
        let d = s.cluster(b, c)->Some_0;
        let (over, v) = crate::fat_dir::scan_count(d, 0, b.cb() / 32, n);
        let (t, next) = s.fat_get(b, c);
        lemma_at_most_two(t, b, next, v, (fuel - 1) as nat);
    }
}

/// A directory listed.
proof fn lemma_list(
    s: FatView,
    b: Fat32Bpb,
    c: u32,
    lfn: LfnView,
    out: Seq<DirEntryView>,
    fuel: nat,
)
    ensures
        still(s, s.list(b, c, lfn, out, fuel).0),
    decreases fuel,
{
    if fuel > 0 && s.cluster(b, c) is Some {
        let d = s.cluster(b, c)->Some_0;
        let (over, o, l) = crate::fat_dir::scan_list(d, 0, b.cb() / 32, lfn, out);
        let (t, next) = s.fat_get(b, c);
        lemma_list(t, b, next, l, o, (fuel - 1) as nat);
    }
}

/// A path resolved.
pub proof fn lemma_walk(s: FatView, b: Fat32Bpb, dir: u32, segs: Seq<Seq<u8>>, k: int)
    ensures
        still(s, s.walk(b, dir, segs, k).0),
    decreases segs.len() - k,
{
    if k < segs.len() {
        lemma_find(s, b, dir, segs[k]);
        let (t, r) = s.find(b, dir, segs[k]);
        if r is Some && k + 1 < segs.len() {
            lemma_walk(t, b, r->Some_0.start_cluster, segs, k + 1);
        }
    }
}

/// The directory of a path resolved.
pub proof fn lemma_walk_parent(s: FatView, b: Fat32Bpb, dir: u32, segs: Seq<Seq<u8>>, k: int)
    ensures
        still(s, s.walk_parent(b, dir, segs, k).0),
    decreases segs.len() - k,
{
    if k + 1 < segs.len() {
        lemma_find(s, b, dir, segs[k]);
        let (t, r) = s.find(b, dir, segs[k]);
        if r is Some {
            lemma_walk_parent(t, b, r->Some_0.start_cluster, segs, k + 1);
        }
    }
}

/// A position found in a chain.
proof fn lemma_skip_to(s: FatView, b: Fat32Bpb, c: u32, at: int, offset: int)
    ensures
        still(s, s.skip_to(b, c, at, offset).0),
    decreases offset - at,
{
    if b.cb() > 0 && at + b.cb() <= offset {
        let (t, next) = s.fat_get(b, c);
        lemma_skip_to(t, b, next, at + b.cb(), offset);
    }
}

/// Clusters read.
proof fn lemma_gather(
    s: FatView,
    b: Fat32Bpb,
    c: u32,
    at: int,
    offset: int,
    want: int,
    out: Seq<u8>,
)
    ensures
        still(s, s.gather(b, c, at, offset, want, out).0),
    decreases want - out.len(),
{
    let skip = if offset > at {
        offset - at
    } else {
        0
    };
    let take = if want - out.len() < b.cb() - skip {
        want - out.len()
    } else {
        b.cb() - skip
    };
    if out.len() < want && take > 0 && s.cluster(b, c) is Some {
        let out2 = out + s.cluster(b, c)->Some_0.subrange(skip, skip + take);
        if out2.len() < want && out2.len() > out.len() {
            let (t, next) = s.fat_get(b, c);
            lemma_gather(t, b, next, at + b.cb(), offset, want, out2);
        }
    }
}

/// A file read.
proof fn lemma_read_range(s: FatView, b: Fat32Bpb, start: u32, size: u32, offset: u32, count: u32)
    ensures
        still(s, s.read_range(b, start, size, offset, count).0),
{
    if offset < size {
        let want = if count < size - offset {
            count as int
        } else {
            size - offset
        };
        lemma_skip_to(s, b, start, 0, offset as int);
        let (t, at) = s.skip_to(b, start, 0, offset as int);
        if at is Some {
            let (c, pos) = at->Some_0;
            lemma_gather(t, b, c, pos, offset as int, want, Seq::empty());
        }
    }
}

/// A chain collected.
proof fn lemma_chain_from(s: FatView, b: Fat32Bpb, c: u32, chain: Seq<u32>)
    ensures
        still(s, s.chain_from(b, c, chain).0),
    decreases crate::fat_file::MAX_CHAIN - chain.len(),
{
    if !(c == 0 || c >= FAT_EOC_MIN) && chain.len() < crate::fat_file::MAX_CHAIN {
        let (t, next) = s.fat_get(b, c);
        lemma_chain_from(t, b, next, chain.push(c));
    }
}

/// A chain extended.
proof fn lemma_extend_chain(s: FatView, b: Fat32Bpb, chain: Seq<u32>, needed: int)
    ensures
        within(s, s.extend_chain(b, chain, needed).0),
    decreases needed - chain.len(),
{
    lemma_still(s, s);
    if chain.len() < needed {
        lemma_find_free(s, b);
        let (s0, free) = s.find_free(b);
        lemma_still(s, s0);
        if free is Some {
            let f = free->Some_0;
            lemma_fat_set(s0, b, chain.last(), f);
            let s1 = if chain.len() > 0 {
                s0.fat_set(b, chain.last(), f).0
            } else {
                s0
            };
            lemma_still(s0, s0);
            lemma_then(s, s0, s1);
            lemma_fat_set(s1, b, f, FAT_EOC);
            let s2 = s1.fat_set(b, f, FAT_EOC).0;
            lemma_then(s, s1, s2);
            lemma_extend_chain(s2, b, chain.push(f), needed);
            lemma_then(s, s2, s2.extend_chain(b, chain.push(f), needed).0);
        }
    }
}

/// A cluster of a file brought up to date.
proof fn lemma_write_one(s: FatView, b: Fat32Bpb, chain: Seq<u32>, p: WritePlan, i: int)
    ensures
        within(s, s.write_one(b, chain, p, i).0),
{
    lemma_still(s, s);
    let cb = b.cb();
    lemma_put_cluster(
        s,
        b,
        chain[i],
        p.data.subrange(i * cb - p.offset, (i + 1) * cb - p.offset),
    );
    if s.cluster(b, chain[i]) is Some {
        lemma_put_cluster(s, b, chain[i], p.image(cb, i, s.cluster(b, chain[i])->Some_0));
    }
    lemma_put_cluster(s, b, chain[i], p.image(cb, i, bytes::zeros(cb)));
}

/// The clusters of a file brought up to date.
proof fn lemma_write_all(s: FatView, b: Fat32Bpb, chain: Seq<u32>, p: WritePlan, i: int)
    ensures
        within(s, s.write_all(b, chain, p, i).0),
    decreases p.needed - i,
{
    lemma_still(s, s);
    if i < p.needed {
        lemma_write_one(s, b, chain, p, i);
        let t = s.write_one(b, chain, p, i).0;
        lemma_write_all(t, b, chain, p, i + 1);
        lemma_then(s, t, t.write_all(b, chain, p, i + 1).0);
    }
}

/// A file written.
proof fn lemma_write_range(s: FatView, b: Fat32Bpb, node: OpenNode, offset: u32, data: Seq<u8>)
    ensures
        within(s, s.write_range(b, node, offset, data).0),
{
    lemma_still(s, s);
    if data.len() > 0 {
        let end = if offset + data.len() > u32::MAX {
            u32::MAX as int
        } else {
            offset + data.len()
        };
        let new_size = if node.file_size > end {
            node.file_size as int
        } else {
            end
        };
        let needed = FatView::clusters_for(b, new_size);
        lemma_chain_from(s, b, node.start_cluster, Seq::empty());
        let (s1, chain) = s.chain_from(b, node.start_cluster, Seq::empty());
        lemma_still(s, s1);
        if chain is Some {
            let old = chain->Some_0;
            lemma_extend_chain(s1, b, old, needed);
            let (s2, full) = s1.extend_chain(b, old, needed);
            lemma_then(s, s1, s2);
            if full is Some {
                let ch = full->Some_0;
                let p = WritePlan {
                    data,
                    offset: offset as int,
                    old_size: node.file_size as int,
                    new_size,
                    old_clusters: old.len() as int,
                    needed,
                };
                lemma_write_all(s2, b, ch, p, 0);
                let s3 = s2.write_all(b, ch, p, 0).0;
                lemma_then(s, s2, s3);
                lemma_update_entry(
                    s3,
                    b,
                    node.dir_cluster,
                    node.entry_offset,
                    ch[0],
                    new_size as u32,
                );
                lemma_then(
                    s,
                    s3,
                    s3.update_entry(
                        b,
                        node.dir_cluster,
                        node.entry_offset,
                        ch[0],
                        new_size as u32,
                    ).0,
                );
            }
        }
    }
}

/// A file created.
proof fn lemma_make_file(s: FatView, b: Fat32Bpb, parent: u32, sn: Seq<u8>)
    ensures
        within(s, s.make_file(b, parent, sn).0),
{
    lemma_dir_slot(s, b, parent, FAT_WALK_MAX as nat);
    let (t, slot) = s.dir_slot(b, parent, FAT_WALK_MAX as nat);
    if slot is Some {
        let (off, dc) = slot->Some_0;
        lemma_write_entry(t, b, dc, off, sn, 0, 0, 0);
        lemma_then(s, t, t.write_entry(b, dc, off, sn, 0, 0, 0).0);
    }
}

/// A directory created.
proof fn lemma_make_dir(s: FatView, b: Fat32Bpb, parent: u32, sn: Seq<u8>)
    ensures
        within(s, s.make_dir(b, parent, sn).0),
{
    lemma_find_free(s, b);
    let (s0, free) = s.find_free(b);
    lemma_still(s, s0);
    if free is Some {
        let f = free->Some_0;
        let a = fat::ATTR_DIRECTORY;
        lemma_fat_set(s0, b, f, FAT_EOC);
        let s1 = s0.fat_set(b, f, FAT_EOC).0;
        lemma_then(s, s0, s1);
        lemma_put_cluster(s1, b, f, bytes::zeros(b.cb()));
        let s2 = s1.put_cluster(b, f, bytes::zeros(b.cb())).0;
        lemma_then(s, s1, s2);
        lemma_write_entry(s2, b, f, 0, fat_srv::dot_name(), a, f, 0);
        let s3 = s2.write_entry(b, f, 0, fat_srv::dot_name(), a, f, 0).0;
        lemma_then(s, s2, s3);
        lemma_write_entry(s3, b, f, 32, fat_srv::dotdot_name(), a, parent, 0);
        let s4 = s3.write_entry(b, f, 32, fat_srv::dotdot_name(), a, parent, 0).0;
        lemma_then(s, s3, s4);
        lemma_dir_slot(s4, b, parent, FAT_WALK_MAX as nat);
        let (s5, slot) = s4.dir_slot(b, parent, FAT_WALK_MAX as nat);
        lemma_then(s, s4, s5);
        if slot is Some {
            let (off, dc) = slot->Some_0;
            lemma_write_entry(s5, b, dc, off, sn, a, f, 0);
            lemma_then(s, s5, s5.write_entry(b, dc, off, sn, a, f, 0).0);
        }
    }
}

/// A new file or an old one taken.
proof fn lemma_creat(s: FatSrvView, p: Seq<u8>, vol: u64)
    ensures
        within(s.fat, s.creat(p, vol).0.fat),
{
    lemma_walk_parent(s.fat, s.bpb, s.bpb.root_cluster, crate::path::segs(p), 0);
    let (f, r) = s.fat.resolve_parent(s.bpb, p);
    lemma_still(s.fat, f);
    if r is Some {
        let (parent, sn) = r->Some_0;
        lemma_find_short(f, s.bpb, parent, sn, FAT_WALK_MAX as nat);
        let g = f.find_short(s.bpb, parent, sn, FAT_WALK_MAX as nat).0;
        lemma_still(s.fat, g);
        lemma_make_file(g, s.bpb, parent, sn);
        lemma_then(s.fat, g, g.make_file(s.bpb, parent, sn).0);
    }
}

/// A new directory.
proof fn lemma_mkdir(s: FatSrvView, p: Seq<u8>)
    ensures
        within(s.fat, s.mkdir(p).0.fat),
{
    lemma_walk_parent(s.fat, s.bpb, s.bpb.root_cluster, crate::path::segs(p), 0);
    let (f, r) = s.fat.resolve_parent(s.bpb, p);
    lemma_still(s.fat, f);
    if r is Some {
        let (parent, sn) = r->Some_0;
        lemma_find_short(f, s.bpb, parent, sn, FAT_WALK_MAX as nat);
        let g = f.find_short(s.bpb, parent, sn, FAT_WALK_MAX as nat).0;
        lemma_still(s.fat, g);
        lemma_make_dir(g, s.bpb, parent, sn);
        lemma_then(s.fat, g, g.make_dir(s.bpb, parent, sn).0);
    }
}

/// A file or directory removed.
proof fn lemma_remove(s: FatSrvView, p: Seq<u8>, want_dir: bool)
    ensures
        within(s.fat, s.remove(p, want_dir).0.fat),
{
    lemma_walk_parent(s.fat, s.bpb, s.bpb.root_cluster, crate::path::segs(p), 0);
    let (f, r) = s.fat.resolve_parent(s.bpb, p);
    lemma_still(s.fat, f);
    if r is Some {
        let (parent, sn) = r->Some_0;
        lemma_find_short(f, s.bpb, parent, sn, FAT_WALK_MAX as nat);
        let (g, e) = f.find_short(s.bpb, parent, sn, FAT_WALK_MAX as nat);
        lemma_still(s.fat, g);
        if e is Some {
            let i = e->Some_0;
            lemma_at_most_two(g, s.bpb, i.start_cluster, 0, FAT_WALK_MAX as nat);
            let h = if want_dir {
                g.at_most_two(s.bpb, i.start_cluster, 0, FAT_WALK_MAX as nat).0
            } else {
                g
            };
            lemma_still(s.fat, h);
            lemma_unlink(h, s.bpb, i.dir_cluster, i.entry_offset, i.start_cluster);
            lemma_then(
                s.fat,
                h,
                h.unlink(s.bpb, i.dir_cluster, i.entry_offset, i.start_cluster).0,
            );
        }
    }
}

/// Requests that only look.
pub open spec fn looks(req: Request) -> bool {
    req is Open || req is Read || req is Readdir || req is Close || req is Stat
}

/// A request carried out.
proof fn lemma_dispatch(s: FatSrvView, vol: u64, req: Request)
    ensures
        within(s.fat, s.dispatch(vol, req).0.fat),
        looks(req) ==> still(s.fat, s.dispatch(vol, req).0.fat),
{
    lemma_still(s.fat, s.fat);
    match req {
        Request::Open { path } => {
            lemma_walk(s.fat, s.bpb, s.bpb.root_cluster, crate::path::segs(path@), 0);
            lemma_still(s.fat, s.dispatch(vol, req).0.fat);
        },
        Request::Read { fd, offset, count } => {
            if s.lookup(fd) is Some {
                let n = s.lookup(fd)->Some_0;
                lemma_read_range(
                    s.fat,
                    s.bpb,
                    n.start_cluster,
                    n.file_size,
                    offset as u32,
                    count,
                );
            }
            lemma_still(s.fat, s.dispatch(vol, req).0.fat);
        },
        Request::Write { fd, offset, data } => {
            if s.lookup(fd) is Some {
                lemma_write_range(s.fat, s.bpb, s.lookup(fd)->Some_0, offset as u32, data@);
            }
        },
        Request::Readdir { fd } => {
            if s.lookup(fd) is Some {
                lemma_list(
                    s.fat,
                    s.bpb,
                    s.lookup(fd)->Some_0.start_cluster,
                    LfnView::empty(),
                    Seq::empty(),
                    FAT_WALK_MAX as nat,
                );
            }
            lemma_still(s.fat, s.dispatch(vol, req).0.fat);
        },
        Request::Creat { path } => {
            lemma_creat(s, path@, vol);
        },
        Request::Mkdir { path } => {
            lemma_mkdir(s, path@);
        },
        Request::Unlink { path } => {
            lemma_remove(s, path@, false);
        },
        Request::Rmdir { path } => {
            lemma_remove(s, path@, true);
        },
        Request::Stat { path } => {
            lemma_walk(s.fat, s.bpb, s.bpb.root_cluster, crate::path::segs(path@), 0);
            lemma_still(s.fat, s.dispatch(vol, req).0.fat);
        },
        _ => {},
    }
}

/// Law: a request to the FAT32 service writes to no volume but the one that it is about.
pub proof fn law_request_stays_on_its_volume(s: FatSrvView, enc: u64, req: Request)
    ensures
        disk::only(s.fat.store, s.serve(enc, req).0.fat.store, s.target(enc, req)),
{
    let vol = s.target(enc, req);
    let t = FatSrvView { fat: FatView { cur: vol, ..s.fat }, ..s };
    disk::lemma_refl(s.fat.store, vol);
    lemma_dispatch(t, vol, req);
    lemma_dispatch(t.load_bpb(vol).0, vol, req);
}

/// Law: opening, reading, listing, closing and asking about files changes no volume.
pub proof fn law_looking_changes_nothing(s: FatSrvView, enc: u64, req: Request)
    requires
        looks(req),
    ensures
        s.serve(enc, req).0.fat.store == s.fat.store,
{
    let vol = s.target(enc, req);
    let t = FatSrvView { fat: FatView { cur: vol, ..s.fat }, ..s };
    lemma_dispatch(t, vol, req);
    lemma_dispatch(t.load_bpb(vol).0, vol, req);
}

} // verus!
