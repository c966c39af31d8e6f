//! What holds of the FAT32 service as its callers see it: where things are on the volume, where
//! paths lead, and what is refused.
use vstd::prelude::*;

use crate::bytes;
use crate::fat;
use crate::fat::{Fat32Bpb, FatView};
use crate::fat_dir;
use crate::fat_dir::{DirEntryInfo, Slot};
use crate::fat_frame;
use crate::fat_laws;
use crate::fat_list;
use crate::fat_list::{room, whole};
use crate::fat_srv::FatSrvView;
use crate::fat_tree;
use crate::path;
use crate::path_laws;
use crate::vfs::ReplyView;
use crate::volume_laws::just_those;

verus! {

/// Law: a volume is taken where its first sector is signed, its sectors have 512 bytes and its
/// clusters 1 to 128 sectors; the sector says how many sectors a cluster has, how many come before
/// the table, how many copies of it there are and how long one is, how long the volume is, and
/// with which cluster the root directory starts.
pub proof fn law_first_sector(s: FatSrvView, vol: u64, sec: Seq<u8>)
    requires
        s.fat.store.read(s.fat.cur, 0, 1) == Some(sec),
        s.fat.store.wf(),
    ensures
        ({
            let (t, ok) = s.load_bpb(vol);
            &&& ok == (sec[510] == 0x55 && sec[511] == 0xAA && sec[11] == 0 && sec[12] == 2 && 1
                <= sec[13] <= 128)
            &&& !ok ==> t == s
            &&& ok ==> {
                &&& t.bpb.sectors_per_cluster == sec[13]
                &&& t.bpb.reserved_sectors == sec[14] + 0x100 * sec[15]
                &&& t.bpb.num_fats == sec[16]
                &&& t.bpb.total_sectors == bytes::le32(sec, 32)
                &&& t.bpb.fat_size == bytes::le32(sec, 36)
                &&& t.bpb.root_cluster == bytes::le32(sec, 44)
                &&& t.bpb_vol == vol
                &&& t.fat.store == s.fat.store && t.fds == s.fds && t.vol == s.vol
            }
        }),
{
    assert(sec.len() == 512);
    assert(bytes::le16(sec, 510) == 0xAA55 <==> sec[510] == 0x55 && sec[511] == 0xAA);
    assert(bytes::le16(sec, 11) == 512 <==> sec[11] == 0 && sec[12] == 2);
}

/// Law: the table starts behind the reserved sectors and has four bytes for each cluster, of which
/// the highest four bits do not count; the clusters follow behind the copies of the table, one
/// after the other, the first of them with the number 2.
pub proof fn law_places(s: FatView, b: Fat32Bpb, c: u32, y: int)
    requires
        fat_laws::good_geo(b),
        fat_laws::ready(s, b),
        fat_laws::valid(b, c),
        0 <= y < 512 * b.sectors_per_cluster,
    ensures
        ({
            let data = s.store.disks[s.cur as int].data;
            let first = b.reserved_sectors + b.num_fats * b.fat_size;
            &&& fat_laws::entry(s, b, c) == bytes::le32(data, 512 * b.reserved_sectors + 4 * c)
                & 0x0FFF_FFFF
            &&& fat_laws::data_of(s, b, c)[y] == data[512 * (first + (c - 2)
                * b.sectors_per_cluster) + y]
        }),
{
    fat_laws::lemma_geo(b, 0, c);
    assert(s.store.can(s.cur, b.fat_sector(0, c) as int, 1));
    assert(s.store.has(s.cur, b.sector_of(c) as int, b.spc()));
    assert(0 * b.fat_size == 0) by (nonlinear_arith);
    let data = s.store.disks[s.cur as int].data;
    let sec = s.store.get(s.cur, b.fat_sector(0, c) as int, 1);
    let o = Fat32Bpb::fat_off(c);
    let p = 512 * b.reserved_sectors + 4 * c;
    assert(b.fat_sector(0, c) * 512 + o == p);
    assert(sec.len() == 512);
    assert(sec[o] == data[p] && sec[o + 1] == data[p + 1] && sec[o + 2] == data[p + 2] && sec[o + 3]
        == data[p + 3]);
}

/// A search gives the same in two states of the same volume.
proof fn lemma_find_same(s: FatView, t: FatView, b: Fat32Bpb, dir: u32, ch: Seq<u32>, q: Seq<u8>)
    requires
        fat_laws::good_geo(b),
        fat_laws::ready(s, b),
        fat_tree::dir_ok(s, b, dir, ch),
        fat_frame::still(s, t),
    ensures
        t.find(b, dir, q).1 == s.find(b, dir, q).1,
{
    fat_laws::lemma_same_table(s, t, b, ch);
    fat_laws::lemma_fits(s, t, b, ch);
    fat_list::lemma_find(s, b, dir, ch, q);
    fat_list::lemma_find(t, b, dir, ch, q);
    fat_list::lemma_same_search(s, t, b, ch, q);
}

/// One name more on a path.
proof fn lemma_walk_push(
    s: FatView,
    b: Fat32Bpb,
    dir: u32,
    segs: Seq<Seq<u8>>,
    k: int,
    n: Seq<u8>,
)
    requires
        0 <= k < segs.len(),
    ensures
        ({
            let (t, r) = s.walk(b, dir, segs, k);
            s.walk(b, dir, segs.push(n), k).1 == match r {
                Some(i) => if i.is_dir() {
                    t.find(b, i.start_cluster, n).1
                } else {
                    None
                },
                None => None,
            }
        }),
    decreases segs.len() - k,
{
    let up = segs.push(n);
    assert(up[k] == segs[k]);
    let (t, r) = s.find(b, dir, segs[k]);
    if r is Some {
        let i = r->Some_0;
        if k + 1 < segs.len() {
            if i.is_dir() {
                lemma_walk_push(t, b, i.start_cluster, segs, k + 1, n);
            }
        } else if i.is_dir() {
            assert(up[k + 1] == n);
            let (u, f) = t.find(b, i.start_cluster, n);
            assert(t.walk(b, i.start_cluster, up, k + 1).1 == f);
        }
    }
}

/// Law: a path leads step by step. `/` leads to the root directory. A path, a slash and a name lead
/// to what a search of the directory that the path leads to finds under the name, and nowhere where
/// the path leads to no directory.
pub proof fn law_path_leads(
    s: FatView,
    b: Fat32Bpb,
    p: Seq<u8>,
    n: Seq<u8>,
    d: DirEntryInfo,
    ch: Seq<u32>,
)
    requires
        fat_laws::good_geo(b),
        fat_laws::ready(s, b),
        path_laws::ordinary(n),
        s.resolve_open(b, p).1 == Some(d),
        d.attr & 0x10 != 0 ==> fat_tree::dir_ok(s, b, d.start_cluster, ch),
    ensures
        s.resolve_open(b, seq![0x2Fu8]).1 matches Some(r) && r.start_cluster == b.root_cluster
            && r.attr == 0x10,
        s.resolve_open(b, p + seq![0x2Fu8] + n).1 == if d.attr & 0x10 != 0 {
            s.find(b, d.start_cluster, n).1
        } else {
            None
        },
{
    let root = seq![0x2Fu8];
    assert(path::segs_from(root, 1) =~= Seq::<Seq<u8>>::empty());
    assert(path::segs(root) =~= Seq::<Seq<u8>>::empty());
    assert forall|j: int| 0 <= j < n.len() implies n[j] != 0x2F by {
        assert(n.contains(n[j]));
    }
    path::lemma_segs_append(p, n, 0);
    let segs = path::segs(p);
    assert(path::segs(p + root + n) == segs.push(n));
    assert(0x10u8 & 0x10 != 0) by (bit_vector);
    if segs.len() == 0 {
        assert(segs.push(n)[0] == n);
    } else {
        lemma_walk_push(s, b, b.root_cluster, segs, 0, n);
        let t = s.walk(b, b.root_cluster, segs, 0).0;
        fat_frame::lemma_walk(s, b, b.root_cluster, segs, 0);
        if d.is_dir() {
            lemma_find_same(s, t, b, d.start_cluster, ch, n);
        }
    }
}

/// Law: what is told of a path is the size that the entry it leads to says, and whether that is a
/// directory.
pub proof fn law_stat(s: FatSrvView, p: Seq<u8>)
    ensures
        match s.fat.resolve_open(s.bpb, p).1 {
            Some(d) => s.stat(p).1 matches ReplyView::StatOf(f) && f.size == d.file_size && f.is_dir
                == (d.attr & 0x10 != 0) && f.mode == 0 && f.owner == 0 && f.nlink == 0 && f.mtime
                == 0,
            None => s.stat(p).1 is Fail,
        },
{
}

/// Law: listing an open directory gives the listing of the directory, and listing a file is
/// refused; reading a directory is refused.
pub proof fn law_readdir(
    s: FatSrvView,
    fd: u32,
    ch: Seq<u32>,
    e: int,
    names: Seq<Option<Seq<u16>>>,
) -> (at: Seq<int>)
    requires
        fat_laws::good_geo(s.bpb),
        fat_laws::ready(s.fat, s.bpb),
        s.lookup(fd) is Some,
        fat_tree::dir_ok(s.fat, s.bpb, s.lookup(fd)->Some_0.start_cluster, ch),
        fat_list::ends_at(whole(s.fat, s.bpb, ch), e, room(s.bpb, ch)),
        fat_list::long_names(whole(s.fat, s.bpb, ch), e, names),
    ensures
        just_those(|y: int| fat_list::is_entry(whole(s.fat, s.bpb, ch), y), 0, e, at),
        !s.lookup(fd)->Some_0.is_dir ==> s.readdir(fd).1 is Fail,
        s.lookup(fd)->Some_0.is_dir ==> {
            &&& s.readdir(fd).1 matches ReplyView::Entries(t) && fat_list::listed(
                whole(s.fat, s.bpb, ch),
                names,
                at,
                Seq::empty(),
                t,
            )
            &&& forall|offset: u64, count: u32| (#[trigger] s.read(fd, offset, count)).1 is Fail
        },
{
    fat_list::law_listing(s.fat, s.bpb, s.lookup(fd)->Some_0.start_cluster, ch, e, names)
}

/// Entry `x` is a file or a directory, `.` and `..` among them.
pub open spec fn is_used(d: Seq<u8>, x: int) -> bool {
    &&& d[32 * x] != 0
    &&& d[32 * x] != 0xE5
    &&& d[32 * x + 11] & 0x0F != 0x0F
    &&& d[32 * x + 11] & 0x08 == 0
}

/// The count from entry `x` on.
proof fn lemma_count(d: Seq<u8>, x: int, n: int, e: int, v: int) -> (at: Seq<int>)
    requires
        0 <= x <= e,
        fat_list::ends_at(d, e, n),
        0 <= v <= 2,
    ensures
        just_those(|y: int| is_used(d, y), x, e, at),
        fat_dir::scan_count(d, x, n, v).1 == if v + at.len() <= 2 {
            v + at.len()
        } else {
            3
        },
    decreases e - x,
{
    let p = |y: int| is_used(d, y);
    if x == e {
        Seq::empty()
    } else {
        assert(fat_list::in_use(x));
        assert(x * 32 == 32 * x);
        if p(x) {
            if v == 2 {
                let rest = fat_list::lemma_rest(p, x + 1, e);
                fat_list::lemma_front(p, x, e, rest)
            } else {
                let rest = lemma_count(d, x + 1, n, e, v + 1);
                fat_list::lemma_front(p, x, e, rest)
            }
        } else {
            let rest = lemma_count(d, x + 1, n, e, v);
            fat_list::lemma_front(p, x, e, rest)
        }
    }
}

/// A count in one cluster, in the whole directory.
proof fn lemma_count_cluster(
    d: Seq<u8>,
    n: int,
    w: Seq<u8>,
    base: int,
    all: int,
    i: int,
    v: int,
)
    requires
        fat_list::window(d, n, w, base),
        base + n <= all,
        0 <= i <= n,
    ensures
        ({
            let r = fat_dir::scan_count(d, i, n, v);
            fat_dir::scan_count(w, base + i, all, v) == if r.0 {
                r
            } else {
                fat_dir::scan_count(w, base + n, all, r.1)
            }
        }),
    decreases n - i,
{
    if i < n {
        assert(fat_list::slot_of(d, i, w, base));
        fat_list::lemma_same_slot(d, i, w, base + i, crate::fat_name::LfnView::empty());
        match fat_dir::slot_kind(d, i * 32) {
            Slot::End => {},
            Slot::Entry => if v + 1 <= 2 {
                lemma_count_cluster(d, n, w, base, all, i + 1, v + 1);
            },
            _ => lemma_count_cluster(d, n, w, base, all, i + 1, v),
        }
    }
}

/// A count from cluster `k` on.
proof fn lemma_count_from(s: FatView, b: Fat32Bpb, ch: Seq<u32>, k: int, v: int, fuel: nat)
    requires
        fat_laws::good_geo(b),
        fat_laws::ready(s, b),
        fat_laws::linked(s, b, ch),
        fat_laws::fits(s, b, ch),
        0 <= k < ch.len(),
        fuel >= ch.len() - 1 - k,
    ensures
        s.at_most_two(b, ch[k], v, fuel).1 == (fat_dir::scan_count(
            whole(s, b, ch),
            k * (b.cb() / 32),
            room(b, ch),
            v,
        ).1 <= 2),
    decreases ch.len() - k,
{
    let c = ch[k];
    let n = b.cb() / 32;
    assert(fat_laws::valid(b, c));
    assert(fat_laws::fit(s, b, c));
    fat_list::lemma_window(s, b, ch, k);
    let d = fat_laws::data_of(s, b, c);
    lemma_count_cluster(d, n, whole(s, b, ch), k * n, room(b, ch), 0, v);
    assert((k + 1) * n == k * n + n) by (nonlinear_arith);
    let r = fat_dir::scan_count(d, 0, n, v);
    if !r.0 {
        fat_laws::lemma_fat_get(s, b, c);
        let (t, next) = s.fat_get(b, c);
        if k + 1 < ch.len() {
            assert(next == ch[k + 1]);
            assert(fat_laws::valid(b, ch[k + 1]));
            fat_laws::lemma_same_table(s, t, b, ch);
            fat_laws::lemma_fits(s, t, b, ch);
            assert(whole(t, b, ch) =~= whole(s, b, ch));
            lemma_count_from(t, b, ch, k + 1, r.1, (fuel - 1) as nat);
        } else {
            assert(next == fat_laws::entry(s, b, ch.last()));
            assert((k + 1) * n == room(b, ch));
        }
    }
}

/// Law: a directory is taken for empty exactly where it holds no more than two entries, which are
/// `.` and `..`. Their numbers are handed back.
pub proof fn law_empty(s: FatView, b: Fat32Bpb, dir: u32, ch: Seq<u32>, e: int) -> (at: Seq<int>)
    requires
        fat_laws::good_geo(b),
        fat_laws::ready(s, b),
        fat_tree::dir_ok(s, b, dir, ch),
        fat_list::ends_at(whole(s, b, ch), e, room(b, ch)),
    ensures
        just_those(|y: int| is_used(whole(s, b, ch), y), 0, e, at),
        s.at_most_two(b, dir, 0, 0x1000_0000).1 <==> at.len() <= 2,
{
    lemma_count_from(s, b, ch, 0, 0, 0x1000_0000);
    lemma_count(whole(s, b, ch), 0, room(b, ch), e, 0)
}

/// Law: only a file is removed as a file, and only a directory as a directory, and that only where
/// it is empty. What is refused changes nothing on any volume.
pub proof fn law_refused_removal(s: FatSrvView, p: Seq<u8>, want_dir: bool)
    ensures
        ({
            let (f, r) = s.fat.resolve_parent(s.bpb, p);
            let (t, a) = s.remove(p, want_dir);
            match r {
                None => a is Fail,
                Some((parent, sn)) => {
                    let (g, e) = f.find_short(s.bpb, parent, sn, 0x1000_0000);
                    match e {
                        None => a is Fail && t.fat.store == s.fat.store,
                        Some(i) => {
                            let is_dir = i.attr & 0x10 != 0;
                            let kept = g.at_most_two(s.bpb, i.start_cluster, 0, 0x1000_0000).1;
                            is_dir != want_dir || (is_dir && !kept) ==> a is Fail && t.fat.store
                                == s.fat.store
                        },
                    }
                },
            }
        }),
{
    fat_frame::lemma_walk_parent(s.fat, s.bpb, s.bpb.root_cluster, path::segs(p), 0);
    let (f, r) = s.fat.resolve_parent(s.bpb, p);
    if r is Some {
        let (parent, sn) = r->Some_0;
        fat_frame::lemma_find_short(f, s.bpb, parent, sn, 0x1000_0000);
        let (g, e) = f.find_short(s.bpb, parent, sn, 0x1000_0000);
        if e is Some {
            fat_frame::lemma_at_most_two(g, s.bpb, e->Some_0.start_cluster, 0, 0x1000_0000);
        }
    }
}

/// One name more on a path to make or remove.
proof fn lemma_parent_push(
    s: FatView,
    b: Fat32Bpb,
    dir: u32,
    segs: Seq<Seq<u8>>,
    k: int,
    n: Seq<u8>,
)
    requires
        0 <= k < segs.len(),
    ensures
        s.walk_parent(b, dir, segs.push(n), k).1 == match (
            s.walk(b, dir, segs, k).1,
            crate::fat_name::short_name(n),
        ) {
            (Some(i), Some(sn)) => if i.is_dir() {
                Some((i.start_cluster, sn))
            } else {
                None
            },
            _ => None,
        },
    decreases segs.len() - k,
{
    let up = segs.push(n);
    assert(up[k] == segs[k]);
    let (t, r) = s.find(b, dir, segs[k]);
    if r is Some && r->Some_0.is_dir() {
        let c = r->Some_0.start_cluster;
        if k + 1 < segs.len() {
            lemma_parent_push(t, b, c, segs, k + 1, n);
        } else {
            assert(up[k + 1] == n);
            assert(t.walk_parent(b, c, up, k + 1).1 == match crate::fat_name::short_name(n) {
                Some(sn) => Some((c, sn)),
                None => None,
            });
        }
    }
}

/// Law: what a path to make or remove names is its last name, in its short form, in the directory
/// that the path before it leads to; the root, a path through a file or through nothing, and a
/// name without a short form name nothing.
pub proof fn law_parent(s: FatView, b: Fat32Bpb, p: Seq<u8>, n: Seq<u8>)
    requires
        path_laws::ordinary(n),
    ensures
        s.resolve_parent(b, seq![0x2Fu8]).1 is None,
        s.resolve_parent(b, p + seq![0x2Fu8] + n).1 == match (
            s.resolve_open(b, p).1,
            crate::fat_name::short_name(n),
        ) {
            (Some(d), Some(sn)) => if d.attr & 0x10 != 0 {
                Some((d.start_cluster, sn))
            } else {
                None
            },
            _ => None,
        },
{
    let root = seq![0x2Fu8];
    assert(path::segs_from(root, 1) =~= Seq::<Seq<u8>>::empty());
    assert(path::segs(root) =~= Seq::<Seq<u8>>::empty());
    assert forall|j: int| 0 <= j < n.len() implies n[j] != 0x2F by {
        assert(n.contains(n[j]));
    }
    path::lemma_segs_append(p, n, 0);
    let segs = path::segs(p);
    assert(path::segs(p + root + n) == segs.push(n));
    assert(0x10u8 & 0x10 != 0) by (bit_vector);
    if segs.len() == 0 {
        assert(segs.push(n)[0] == n);
    } else {
        lemma_parent_push(s, b, b.root_cluster, segs, 0, n);
    }
}

/// Law: opening gives a descriptor for the entry that the path leads to, on the volume at hand; its
/// first cluster, its size and where its entry is are kept with it.
pub proof fn law_open(s: FatSrvView, p: Seq<u8>, vol: u64)
    requires
        s.fds.len() == 16,
    ensures
        match s.fat.resolve_open(s.bpb, p).1 {
            Some(d) => match s.open(p, vol) {
                (t, ReplyView::Value(fd)) => {
                    &&& fd < 16 && s.fds[fd as int] is None
                    &&& t.lookup(fd as u32) matches Some(n) && n.is_dir == (d.attr & 0x10 != 0)
                        && n.start_cluster == d.start_cluster && n.file_size == d.file_size
                        && n.dir_cluster == d.dir_cluster && n.entry_offset == d.entry_offset
                        && n.vol == vol
                },
                (t, r) => r is Fail && forall|k: int| 0 <= k < 16 ==> #[trigger] s.fds[k] is Some,
            },
            None => s.open(p, vol).1 is Fail,
        },
{
    crate::descriptors::lemma_fat_srv_slot(s.fds, 0);
}

/// Law: reading and writing an open file are done to the file that the descriptor keeps, up to 32
/// bits; the answer to a write is how many bytes were written, and the descriptor keeps what the
/// file has become.
pub proof fn law_open_file(s: FatSrvView, fd: u32, offset: u64, count: u32, data: Seq<u8>)
    requires
        s.fds.len() == 16,
        s.lookup(fd) is Some,
    ensures
        ({
            let n = s.lookup(fd)->Some_0;
            if n.is_dir || offset > 0xFFFF_FFFF {
                s.read(fd, offset, count).1 is Fail && s.write(fd, offset, data) == (
                    s,
                    ReplyView::Fail,
                )
            } else {
                let r = s.fat.read_range(
                    s.bpb,
                    n.start_cluster,
                    n.file_size,
                    offset as u32,
                    count,
                ).1;
                let (f, w) = s.fat.write_range(s.bpb, n, offset as u32, data);
                let (t, a) = s.write(fd, offset, data);
                &&& s.read(fd, offset, count).1 == match r {
                    Some(d) => ReplyView::Data(d),
                    None => ReplyView::Fail,
                }
                &&& t.fat == f
                &&& a == match w {
                    Some(m) => ReplyView::Value(data.len() as u64),
                    None => ReplyView::Fail,
                }
                &&& t.lookup(fd) == match w {
                    Some(m) => Some(m),
                    None => Some(n),
                }
                &&& forall|o: u32| o != fd ==> #[trigger] t.lookup(o) == s.lookup(o)
            }
        }),
{
}

/// Law: making a file that is there opens it, and making one that is not gives a descriptor for an
/// empty file; making a directory where anything is there is refused, and so is a file where a
/// directory is.
pub proof fn law_make(s: FatSrvView, p: Seq<u8>, vol: u64)
    requires
        s.fds.len() == 16,
        s.fat.resolve_parent(s.bpb, p).1 is Some,
    ensures
        ({
            let (f, r) = s.fat.resolve_parent(s.bpb, p);
            let (parent, sn) = r->Some_0;
            let (g, e) = f.find_short(s.bpb, parent, sn, 0x1000_0000);
            let (t, a) = s.creat(p, vol);
            let (u, m) = s.mkdir(p);
            match e {
                Some(d) => {
                    &&& m is Fail && u.fat == g && t.fat == g
                    &&& d.attr & 0x10 != 0 ==> a is Fail
                    &&& d.attr & 0x10 == 0 && a is Value ==> (t.lookup(a->Value_0 as u32) matches Some(
                        n,
                    ) && !n.is_dir && n.start_cluster == d.start_cluster && n.file_size == d.file_size
                        && n.dir_cluster == d.dir_cluster && n.entry_offset == d.entry_offset && n.vol
                        == vol)
                },
                None => {
                    &&& u.fat == g.make_dir(s.bpb, parent, sn).0
                    &&& m == if g.make_dir(s.bpb, parent, sn).1 {
                        ReplyView::Value(1)
                    } else {
                        ReplyView::Fail
                    }
                    &&& t.fat == g.make_file(s.bpb, parent, sn).0
                    &&& match g.make_file(s.bpb, parent, sn).1 {
                        Some((off, dc)) => a is Value ==> (t.lookup(a->Value_0 as u32) matches Some(n)
                            && !n.is_dir && n.start_cluster == 0 && n.file_size == 0 && n.dir_cluster
                            == dc && n.entry_offset == off && n.vol == vol),
                        None => a is Fail,
                    }
                },
            }
        }),
{
    crate::descriptors::lemma_fat_srv_slot(s.fds, 0);
}

} // verus!
