//! What requests to the exFAT service leave alone: every write goes to the volume that the
//! request is about.
use vstd::prelude::*;

use crate::bytes;
use crate::disk;
use crate::exfat::{ExfatView, EXFAT_FAT_EOC, EXFAT_FAT_FREE};
use crate::exfat_dir;
use crate::exfat_dir::EntryView;
use crate::exfat_file;
use crate::exfat_srv::ExfatSrvView;
use crate::vfs::Request;

verus! {

/// What was done changed only the mounted volume.
pub open spec fn within(s: ExfatView, t: ExfatView) -> bool {
    disk::only(s.store, t.store, s.vol) && t.vol == s.vol
}

/// What did not write changed only the mounted volume.
proof fn lemma_still(s: ExfatView, t: ExfatView)
    requires
        t.store == s.store,
        t.vol == s.vol,
    ensures
        within(s, t),
{
    disk::lemma_refl(s.store, s.vol);
}

/// One step after another.
proof fn lemma_then(s: ExfatView, t: ExfatView, u: ExfatView)
    requires
        within(s, t),
        within(t, u),
    ensures
        within(s, u),
{
    disk::lemma_trans(s.store, t.store, u.store, s.vol);
}

/// A cluster written.
proof fn lemma_wr_cl(s: ExfatView, cl: u32, data: Seq<u8>)
    ensures
        within(s, s.wr_cl(cl, data).0),
{
    lemma_still(s, s);
    disk::lemma_write(s.store, s.vol, s.cluster_lba(cl), data);
}

/// A table entry set in one copy.
proof fn lemma_fat_put(s: ExfatView, cl: u32, v: u32, idx: int)
    ensures
        within(s, s.fat_put(cl, v, idx).0),
{
    lemma_still(s, s);
    match s.store.read(s.vol, s.fat_lba(cl, idx), 1) {
        None => {},
        Some(b) => {
            disk::lemma_write(
                s.store,
                s.vol,
                s.fat_lba(cl, idx),
                bytes::put32(b, cl as int % 128 * 4, v),
            );
        },
    }
}

/// A table entry set.
proof fn lemma_fat_set(s: ExfatView, cl: u32, v: u32)
    ensures
        within(s, s.fat_set(cl, v).0),
{
    reveal(ExfatView::fat_set);
    lemma_fat_put(s, cl, v, 0);
    let t = s.fat_put(cl, v, 0).0;
    lemma_fat_put(t, cl, v, 1);
    lemma_then(s, t, t.fat_put(cl, v, 1).0);
}

/// The bitmap in memory written.
proof fn lemma_bmp_flush(s: ExfatView)
    ensures
        within(s, s.bmp_flush().0),
{
    lemma_still(s, s);
    disk::lemma_write(s.store, s.vol, s.win_lba, s.win_buf);
}

/// A sector of the bitmap fetched.
proof fn lemma_bmp_fetch(s: ExfatView, cl: u32)
    ensures
        within(s, s.bmp_fetch(cl).0),
{
    reveal(ExfatView::bmp_fetch);
    lemma_still(s, s);
    lemma_bmp_flush(s);
}

/// A bit of the bitmap set.
proof fn lemma_bmp_put(s: ExfatView, cl: u32, v: bool)
    ensures
        within(s, s.bmp_put(cl, v).0),
{
    reveal(ExfatView::bmp_put);
    lemma_bmp_fetch(s, cl);
}

/// A bit of the bitmap read.
proof fn lemma_bmp_get(s: ExfatView, cl: u32)
    ensures
        within(s, s.bmp_get(cl).0),
{
    reveal(ExfatView::bmp_get);
    lemma_bmp_fetch(s, cl);
}

/// A cluster taken.
proof fn lemma_take(s: ExfatView, cl: u32)
    ensures
        within(s, s.take(cl).0),
{
    reveal(ExfatView::take);
    lemma_bmp_put(s, cl, true);
    let s1 = s.bmp_put(cl, true).0;
    lemma_fat_set(s1, cl, EXFAT_FAT_EOC);
    let s2 = s1.fat_set(cl, EXFAT_FAT_EOC).0;
    lemma_then(s, s1, s2);
    lemma_bmp_flush(s2);
    lemma_then(s, s2, s2.bmp_flush().0);
}

/// The search for a cluster to take.
proof fn lemma_alloc_from(s: ExfatView, start: u32, i: int)
    ensures
        within(s, s.alloc_from(start, i).0),
    decreases s.geo.count - i,
{
    lemma_still(s, s);
    if i < s.geo.count {
        let cl = s.candidate(start, i);
        lemma_bmp_get(s, cl);
        let t = s.bmp_get(cl).0;
        lemma_take(t, cl);
        lemma_then(s, t, t.take(cl).0);
        if t.geo == s.geo {
            lemma_alloc_from(t, start, i + 1);
            lemma_then(s, t, t.alloc_from(start, i + 1).0);
        }
    }
}

/// A free cluster taken.
proof fn lemma_alloc(s: ExfatView)
    ensures
        within(s, s.alloc_cluster().0),
{
    reveal(ExfatView::alloc_cluster);
    lemma_alloc_from(s, s.hint, 0);
}

/// Clusters freed.
proof fn lemma_free_from(s: ExfatView, cl: u32, i: int, contiguous: bool, n: u32)
    ensures
        within(s, s.free_from(cl, i, contiguous, n).0),
    decreases 0x2_0000_0000 - i,
{
    lemma_still(s, s);
    if !(cl < 2 || i > s.geo.count + 1) {
        lemma_bmp_put(s, cl, false);
        let t = s.bmp_put(cl, false).0;
        if contiguous {
            lemma_bmp_flush(t);
            lemma_then(s, t, t.bmp_flush().0);
            if t.geo == s.geo {
                let next = bytes::w32(cl + 1);
                lemma_free_from(t, next, i + 1, contiguous, n);
                lemma_then(s, t, t.free_from(next, i + 1, contiguous, n).0);
            }
        } else if t.fat_get(cl) is Some {
            let next = t.fat_get(cl)->Some_0;
            lemma_fat_set(t, cl, EXFAT_FAT_FREE);
            let u = t.fat_set(cl, EXFAT_FAT_FREE).0;
            lemma_then(s, t, u);
            lemma_bmp_flush(u);
            lemma_then(s, u, u.bmp_flush().0);
            if u.geo == s.geo {
                lemma_free_from(u, next, i + 1, contiguous, n);
                lemma_then(s, u, u.free_from(next, i + 1, contiguous, n).0);
            }
        }
    }
}

/// A chain freed.
proof fn lemma_free_chain(s: ExfatView, first: u32, contiguous: bool, n: u32)
    ensures
        within(s, s.free_chain(first, contiguous, n).0),
{
    reveal(ExfatView::free_chain);
    lemma_still(s, s);
    lemma_free_from(s, first, 0, contiguous, n);
}

/// A run of clusters linked.
proof fn lemma_link_run(s: ExfatView, first: u32, i: int, have: int)
    ensures
        within(s, s.link_run(first, i, have).0),
    decreases have - i,
{
    if i + 1 >= have {
        lemma_fat_set(s, bytes::w32(first + have - 1), EXFAT_FAT_EOC);
    } else {
        let c = bytes::w32(first + i);
        let v = bytes::w32(first + i + 1);
        lemma_fat_set(s, c, v);
        let t = s.fat_set(c, v).0;
        lemma_link_run(t, first, i + 1, have);
        lemma_then(s, t, t.link_run(first, i + 1, have).0);
    }
}

/// A chain extended.
proof fn lemma_extend(s: ExfatView, tail: u32, n: int, needed: int)
    ensures
        within(s, s.extend(tail, n, needed).0),
    decreases needed - n,
{
    lemma_still(s, s);
    if n < needed {
        lemma_alloc(s);
        let (t, r) = s.alloc_cluster();
        if r is Some {
            let nc = r->Some_0;
            lemma_fat_set(t, tail, nc);
            let u = t.fat_set(tail, nc).0;
            lemma_then(s, t, u);
            lemma_extend(u, nc, n + 1, needed);
            lemma_then(s, u, u.extend(nc, n + 1, needed).0);
        }
    }
}

/// A chain extended to a length.
proof fn lemma_grow_to(s: ExfatView, first: u32, contiguous: bool, have: u32, needed: u32)
    ensures
        within(s, s.grow_to(first, contiguous, have, needed).0),
{
    reveal(ExfatView::grow_to);
    reveal(ExfatView::have_first);
    lemma_still(s, s);
    lemma_alloc(s);
    let (t, r) = s.have_first(first, have);
    if r is Some {
        let (f, h) = r->Some_0;
        lemma_still(t, t);
        lemma_link_run(t, f, 0, h as int);
        let u = if contiguous {
            t.link_run(f, 0, h as int).0
        } else {
            t
        };
        lemma_then(s, t, u);
        match u.tail_from(f, 1, u.geo.count + 1) {
            None => {},
            Some((tail, n)) => {
                lemma_extend(u, tail, n, needed as int);
                lemma_then(s, u, u.extend(tail, n, needed as int).0);
            },
        }
    }
}

/// Clusters of a chain cleared.
proof fn lemma_clear_from(s: ExfatView, first: u32, idx: int, n: int)
    ensures
        within(s, s.clear_from(first, idx, n).0),
    decreases n - idx,
{
    lemma_still(s, s);
    if idx < n && s.nth(first, idx) is Some {
        let cl = s.nth(first, idx)->Some_0;
        lemma_wr_cl(s, cl, bytes::zeros(s.geo.cb()));
        let t = s.wr_cl(cl, bytes::zeros(s.geo.cb())).0;
        lemma_clear_from(t, first, idx + 1, n);
        lemma_then(s, t, t.clear_from(first, idx + 1, n).0);
    }
}

/// Bytes written into a chain.
proof fn lemma_fill_from(s: ExfatView, first: u32, offset: int, data: Seq<u8>, done: int)
    ensures
        within(s, s.fill_from(first, offset, data, done).0),
    decreases data.len() - done,
{
    lemma_still(s, s);
    if done < data.len() && s.geo.spc != 0 {
        let cb = s.geo.cb();
        let pos = offset + done;
        let boff = pos % cb;
        let n = exfat_file::min_of(cb - boff, data.len() - done);
        if s.nth(first, pos / cb) is Some {
            let cl = s.nth(first, pos / cb)->Some_0;
            if s.rd_cl(cl) is Some {
                let c = bytes::splice(s.rd_cl(cl)->Some_0, boff, data.subrange(done, done + n));
                lemma_wr_cl(s, cl, c);
                let t = s.wr_cl(cl, c).0;
                lemma_fill_from(t, first, offset, data, done + n);
                lemma_then(s, t, t.fill_from(first, offset, data, done + n).0);
            }
        }
    }
}

/// Clusters reserved for a file.
proof fn lemma_reserve(s: ExfatView, e: EntryView, need: u32)
    ensures
        within(s, s.reserve(e, need).0),
{
    reveal(ExfatView::reserve);
    let have = s.clusters_of(e);
    lemma_grow_to(s, e.first, e.contiguous, have, need);
    let (t, r) = s.grow_to(e.first, e.contiguous, have, need);
    if r is Some {
        let (first, n) = r->Some_0;
        let from = exfat_file::min_of(have as int, n as int);
        lemma_clear_from(t, first, from, n as int);
        lemma_then(s, t, t.clear_from(first, from, n as int).0);
    }
}

/// The unused entries of a cluster filled.
proof fn lemma_fill_cluster(s: ExfatView, cl: u32)
    ensures
        within(s, s.fill_cluster(cl).0),
{
    reveal(ExfatView::fill_cluster);
    lemma_still(s, s);
    if s.rd_cl(cl) is Some {
        let b = s.rd_cl(cl)->Some_0;
        let i = exfat_dir::unused_from(b, 0, s.geo.per());
        lemma_wr_cl(s, cl, exfat_dir::fill_from(b, i, s.geo.per()));
    }
}

/// A cluster taken and cleared.
proof fn lemma_alloc_clear(s: ExfatView)
    ensures
        within(s, s.alloc_clear().0),
{
    reveal(ExfatView::alloc_clear);
    lemma_alloc(s);
    let (t, r) = s.alloc_cluster();
    if r is Some {
        let z = bytes::zeros(t.geo.cb());
        lemma_wr_cl(t, r->Some_0, z);
        lemma_then(s, t, t.wr_cl(r->Some_0, z).0);
    }
}

/// A directory extended.
proof fn lemma_dir_grow(s: ExfatView, dir: u32)
    ensures
        within(s, s.dir_grow(dir).0),
{
    reveal(ExfatView::dir_grow);
    lemma_still(s, s);
    match s.tail_from(dir, 0, s.geo.count + 1) {
        None => {},
        Some((last, n)) => {
            lemma_fill_cluster(s, last);
            let t = s.fill_cluster(last).0;
            lemma_alloc_clear(t);
            let (u, r) = t.alloc_clear();
            lemma_then(s, t, u);
            if r is Some {
                lemma_fat_set(u, last, r->Some_0);
                lemma_then(s, u, u.fat_set(last, r->Some_0).0);
            }
        },
    }
}

/// A set put.
proof fn lemma_put_set(s: ExfatView, cl: u32, i: int, set: Seq<u8>)
    ensures
        within(s, s.put_set(cl, i, set).0),
{
    reveal(ExfatView::put_set);
    lemma_still(s, s);
    if s.rd_cl(cl) is Some {
        lemma_wr_cl(s, cl, bytes::splice(s.rd_cl(cl)->Some_0, i * 32, set));
    }
}

/// A set marked deleted.
proof fn lemma_del_set(s: ExfatView, cl: u32, i: int, n: int)
    ensures
        within(s, s.del_set(cl, i, n).0),
{
    reveal(ExfatView::del_set);
    lemma_still(s, s);
    if s.rd_cl(cl) is Some {
        lemma_wr_cl(s, cl, exfat_dir::delete_from(s.rd_cl(cl)->Some_0, i, n));
    }
}

/// A set written anew.
proof fn lemma_rewrite_set(s: ExfatView, dir: u32, name: Seq<u8>, e: EntryView)
    ensures
        within(s, s.rewrite_set(dir, name, e).0),
{
    reveal(ExfatView::rewrite_set);
    lemma_still(s, s);
    match s.locate(dir, name) {
        None => {},
        Some((cl, i, sec, old)) => {
            if s.build_set(name, e) is Some {
                lemma_put_set(s, cl, i, s.build_set(name, e)->Some_0);
            }
        },
    }
}

/// Room made in a directory.
proof fn lemma_make_room(s: ExfatView, dir: u32, need: int)
    ensures
        within(s, s.make_room(dir, need).0),
{
    reveal(ExfatView::make_room);
    lemma_still(s, s);
    lemma_dir_grow(s, dir);
}

/// A file written.
proof fn lemma_write_file(
    s: ExfatView,
    e: EntryView,
    dir: u32,
    name: Seq<u8>,
    offset: u32,
    data: Seq<u8>,
)
    ensures
        within(s, s.write_file(e, dir, name, offset, data).0),
{
    reveal(ExfatView::write_file);
    lemma_still(s, s);
    let end = offset + data.len();
    let size = exfat_file::max_of(end, e.size as int);
    let need = bytes::w32(exfat_file::div_up(size, s.geo.cb()));
    lemma_reserve(s, e, need);
    let (s1, r) = s.reserve(e, need);
    if r is Some {
        let first = r->Some_0.0;
        let held = s.clusters_of(e) * s.geo.cb();
        let to = exfat_file::min_of(offset as int, held);
        lemma_still(s1, s1);
        lemma_fill_from(s1, first, e.valid as int, bytes::zeros(to - e.valid), 0);
        let g = s1.clear_gap(first, e.valid as int, to).0;
        lemma_then(s, s1, g);
        lemma_fill_from(g, first, offset as int, data, 0);
        let t = g.fill_from(first, offset as int, data, 0).0;
        lemma_then(s, g, t);
        let v = exfat_file::min_of(exfat_file::max_of(e.valid as int, end), size);
        let f = t.changed(e, first, size as u64, v as u64);
        lemma_rewrite_set(t, dir, name, f);
        lemma_then(s, t, t.rewrite_set(dir, name, f).0);
    }
}

/// A chain cut.
proof fn lemma_cut_chain(s: ExfatView, first: u32, n: u32, need: u32)
    ensures
        within(s, s.cut_chain(first, n, need).0),
{
    reveal(ExfatView::cut_chain);
    lemma_still(s, s);
    if n > need && s.nth(first, need - 1) is Some {
        let tail = s.nth(first, need - 1)->Some_0;
        if s.fat_get(tail) is Some {
            lemma_fat_set(s, tail, EXFAT_FAT_EOC);
            let t = s.fat_set(tail, EXFAT_FAT_EOC).0;
            let next = s.fat_get(tail)->Some_0;
            lemma_free_chain(t, next, false, 0);
            lemma_then(s, t, t.free_chain(next, false, 0).0);
        }
    }
}

/// The length of a file set.
proof fn lemma_truncate(s: ExfatView, e: EntryView, dir: u32, name: Seq<u8>, size: u32)
    ensures
        within(s, s.truncate(e, dir, name, size).0),
{
    reveal(ExfatView::truncate);
    lemma_still(s, s);
    let need = exfat_file::div_up(size as int, s.geo.cb()) as u32;
    if need == 0 {
        lemma_free_chain(s, e.first, e.contiguous, s.clusters_of(e));
        let t = s.free_chain(e.first, e.contiguous, s.clusters_of(e)).0;
        lemma_rewrite_set(t, dir, name, t.changed(e, 0, 0, 0));
        lemma_then(s, t, t.rewrite_set(dir, name, t.changed(e, 0, 0, 0)).0);
    } else {
        lemma_reserve(s, e, need);
        let (s1, r) = s.reserve(e, need);
        if r is Some {
            let (first, n) = r->Some_0;
            lemma_cut_chain(s1, first, n, need);
            let t = s1.cut_chain(first, n, need).0;
            lemma_then(s, s1, t);
            let v = exfat_file::min_of(e.valid as int, size as int);
            let f = t.changed(e, first, size as u64, v as u64);
            lemma_rewrite_set(t, dir, name, f);
            lemma_then(s, t, t.rewrite_set(dir, name, f).0);
        }
    }
}

/// A set added to a directory.
proof fn lemma_add_set(s: ExfatView, dir: u32, name: Seq<u8>, is_dir: bool, first: u32)
    ensures
        within(s, s.add_set(dir, name, is_dir, first).0),
{
    reveal(ExfatView::add_set);
    lemma_still(s, s);
    let e = EntryView {
        is_dir,
        contiguous: false,
        first,
        size: 0,
        valid: 0,
        mtime: s.now,
        name: Seq::empty(),
    };
    if s.build_set(name, e) is Some {
        let set = s.build_set(name, e)->Some_0;
        lemma_make_room(s, dir, set.len() as int / 32);
        let (t, r) = s.make_room(dir, set.len() as int / 32);
        if r is Some {
            let (cl, i) = r->Some_0;
            lemma_put_set(t, cl, i, set);
            lemma_then(s, t, t.put_set(cl, i, set).0);
        }
    }
}

/// A file or directory made.
proof fn lemma_make(s: ExfatView, p: Seq<u8>, is_dir: bool)
    ensures
        within(s, s.make(p, is_dir).0),
{
    reveal(ExfatView::make);
    lemma_still(s, s);
    match s.home_of(p) {
        None => {},
        Some((dir, name)) => {
            lemma_add_set(s, dir, name, false, 0);
            lemma_alloc_clear(s);
            let (t, r) = s.alloc_clear();
            if r is Some {
                lemma_add_set(t, dir, name, true, r->Some_0);
                lemma_then(s, t, t.add_set(dir, name, true, r->Some_0).0);
            }
        },
    }
}

/// A file or directory removed.
proof fn lemma_remove(s: ExfatView, p: Seq<u8>, is_dir: bool)
    ensures
        within(s, s.remove(p, is_dir).0),
{
    reveal(ExfatView::remove);
    lemma_still(s, s);
    match s.home_of(p) {
        None => {},
        Some((dir, name)) => match s.locate(dir, name) {
            None => {},
            Some((cl, i, sec, e)) => {
                lemma_del_set(s, cl, i, 1 + sec);
                let t = s.del_set(cl, i, 1 + sec).0;
                lemma_free_chain(t, e.first, e.contiguous, t.clusters_of(e));
                lemma_then(s, t, t.free_chain(e.first, e.contiguous, t.clusters_of(e)).0);
            },
        },
    }
}

/// A request answered.
proof fn lemma_answer(s: ExfatSrvView, req: Request)
    ensures
        within(s.fs, s.answer(req).0.fs),
{
    reveal(ExfatSrvView::answer);
    reveal(ExfatSrvView::create);
    reveal(ExfatSrvView::change);
    lemma_still(s.fs, s.fs);
    match req {
        Request::Creat { path } => {
            lemma_make(s.fs, path@, false);
        },
        Request::Mkdir { path } => {
            lemma_make(s.fs, path@, true);
        },
        Request::Write { fd, offset, data } => {
            if s.target_of(fd) is Some {
                let (e, dir, name) = s.target_of(fd)->Some_0;
                lemma_write_file(s.fs, e, dir, name, offset as u32, data@);
            }
        },
        Request::Truncate { fd, size } => {
            if s.target_of(fd) is Some {
                let (e, dir, name) = s.target_of(fd)->Some_0;
                lemma_truncate(s.fs, e, dir, name, size as u32);
            }
        },
        Request::Unlink { path } => {
            lemma_remove(s.fs, path@, false);
        },
        Request::Rmdir { path } => {
            lemma_remove(s.fs, path@, true);
        },
        _ => {},
    }
}

/// A volume mounted: nothing is written.
proof fn lemma_mounted(store: disk::StoreView, vol: u64, now: u64)
    ensures
        ExfatView::mounted(store, vol, now) matches Ok(fs) ==> fs.store == store && fs.vol == vol,
{
    reveal(ExfatView::examined);
    reveal(ExfatView::bmp_get);
    reveal(ExfatView::bmp_fetch);
}

/// Law: a request to the exFAT service writes to no volume but the one that it is about.
pub proof fn law_request_stays_on_its_volume(s: ExfatSrvView, enc: u64, req: Request, now: u64)
    ensures
        disk::only(s.fs.store, s.serve(enc, req, now).0.fs.store, s.target(enc, req)),
{
    let vol = s.target(enc, req);
    let t = ExfatSrvView { fs: ExfatView { now, ..s.fs }, ..s };
    disk::lemma_refl(s.fs.store, vol);
    lemma_answer(t, req);
    lemma_mounted(t.fs.store, vol, now);
    match ExfatView::mounted(t.fs.store, vol, now) {
        Err(stage) => {},
        Ok(fs) => {
            lemma_answer((ExfatSrvView { fs, ..t }), req);
        },
    }
}

/// Requests that only look.
pub open spec fn looks(req: Request) -> bool {
    req is Open || req is Read || req is Readdir || req is Close || req is Stat
}

/// Law: opening, reading, listing, closing and asking about files changes no volume.
pub proof fn law_looking_changes_nothing(s: ExfatSrvView, enc: u64, req: Request, now: u64)
    requires
        looks(req),
    ensures
        s.serve(enc, req, now).0.fs.store == s.fs.store,
{
    reveal(ExfatSrvView::answer);
    lemma_mounted(s.fs.store, s.target(enc, req), now);
}

} // verus!
