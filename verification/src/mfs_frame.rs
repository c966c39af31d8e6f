//! What requests to MorionFS leave alone: every write goes to the volume that the request is
//! about, or to the one whose unused blocks are collected before it.
use vstd::prelude::*;

use crate::disk;
use crate::disk::StoreView;
use crate::mfs;
use crate::mfs::MfsView;
use crate::mfs_dir;
use crate::mfs_dir::MfsLoc;
use crate::mfs_file;
use crate::mfs_file::{MfsMapPlan, WriterView};
use crate::mfs_gc::MFS_GC_LOW_WATER_DIV;
use crate::mfs_srv::MfsSrvView;
use crate::mfs_vol;
use crate::mfs_vol::{filled, Found};
use crate::path;
use crate::vfs::{DirEntryView, Request, RESULT_MAX_ENTRIES};
use crate::volume::VolumeDesc;

verus! {

/// Only volume `vol` may differ, and only writes to it were logged.
#[verifier::opaque]
pub open spec fn bound(a: StoreView, b: StoreView, vol: u64) -> bool {
    disk::only(a, b, vol)
}

/// What was done changed only the current volume, which is current still.
pub open spec fn within(s: MfsView, t: MfsView) -> bool {
    bound(s.store, t.store, s.vol) && t.vol == s.vol
}

/// What did not write changed no other volume.
pub broadcast proof fn lemma_same(a: StoreView, vol: u64)
    ensures
        #[trigger] bound(a, a, vol),
{
    reveal(bound);
    disk::lemma_refl(a, vol);
}

/// One step after another.
pub broadcast proof fn lemma_then(a: StoreView, b: StoreView, c: StoreView, vol: u64)
    requires
        #[trigger] bound(a, b, vol),
        #[trigger] bound(b, c, vol),
    ensures
        bound(a, c, vol),
{
    reveal(bound);
    disk::lemma_trans(a, b, c, vol);
}

/// A block written.
pub broadcast proof fn frame_wr(s: MfsView, b: u32, data: Seq<u8>)
    ensures
        within(s, (#[trigger] s.wr(b, data)).0),
{
    reveal(bound);
    disk::lemma_write(s.store, s.vol, crate::bytes::w32(b * 8), data);
}

/// A block taken.
pub broadcast proof fn frame_alloc_block(s: MfsView)
    ensures
        within(s, (#[trigger] s.alloc_block()).0),
{
    broadcast use {lemma_same, lemma_then};

    reveal(MfsView::alloc_block);
}

/// A block written to a free place.
pub broadcast proof fn frame_commit(s: MfsView, data: Seq<u8>, magic: u32)
    ensures
        within(s, (#[trigger] s.commit(data, magic)).0),
{
    broadcast use {lemma_same, lemma_then, frame_alloc_block, frame_wr};

    reveal(MfsView::commit);
}

/// The changed bitmap blocks written.
pub broadcast proof fn frame_flush_data(s: MfsView, copy: int, c: int)
    ensures
        within(s, (#[trigger] s.flush_data(copy, c)).0),
    decreases mfs::bb_for(s.total) - c,
{
    broadcast use {lemma_same, lemma_then, frame_wr};

    reveal_with_fuel(MfsView::flush_data, 1);
    if c < mfs::bb_for(s.total) {
        if !s.dirty[c] {
            frame_flush_data(s, copy, c + 1);
        } else {
            let (t, ok) = s.wr((s.bmp_start(copy) + c) as u32, mfs::packed(s.bmp, c));
            if ok && t.total == s.total {
                frame_flush_data(t, copy, c + 1);
            }
        }
    }
}

/// One copy written.
pub broadcast proof fn frame_flush_copy(s: MfsView, copy: int)
    ensures
        within(s, (#[trigger] s.flush_copy(copy)).0),
{
    broadcast use {lemma_same, lemma_then, frame_flush_data, frame_wr};

    reveal(MfsView::flush_copy);
}

/// A generation committed.
pub broadcast proof fn frame_flush(s: MfsView)
    ensures
        within(s, (#[trigger] s.flush()).0),
{
    broadcast use {lemma_same, lemma_then, frame_flush_copy};

    reveal(MfsView::flush);
}

/// The block of an object.
pub broadcast proof fn frame_ino_block(s: MfsView, ino: u32)
    ensures
        within(s, (#[trigger] s.ino_block(ino)).0),
{
    broadcast use {lemma_same, lemma_then};

    reveal(MfsView::ino_block);
}

/// The block of an object that exists.
pub broadcast proof fn frame_object_block(s: MfsView, ino: u32)
    ensures
        within(s, (#[trigger] s.object_block(ino)).0),
{
    broadcast use {lemma_same, lemma_then, frame_ino_block};

    reveal(MfsView::object_block);
}

/// The inode table index loaded.
pub broadcast proof fn frame_itab_reload(s: MfsView)
    ensures
        within(s, (#[trigger] s.itab_reload()).0),
{
    broadcast use {lemma_same, lemma_then};

    reveal(MfsView::itab_reload);
}

/// The inode table index written.
pub broadcast proof fn frame_itab_flush(s: MfsView)
    ensures
        within(s, (#[trigger] s.itab_flush()).0),
{
    broadcast use {lemma_same, lemma_then, frame_commit, frame_flush};

    reveal(MfsView::itab_flush);
}

/// An object moved.
pub broadcast proof fn frame_itab_set(s: MfsView, ino: u32, blk: u32)
    ensures
        within(s, (#[trigger] s.itab_set(ino, blk)).0),
{
    broadcast use {lemma_same, lemma_then, frame_commit, frame_itab_flush};

    reveal(MfsView::itab_set);
}

/// A number searched for.
pub broadcast proof fn frame_ino_search(s: MfsView, ino: int, blk: u32, left: nat)
    ensures
        within(s, (#[trigger] s.ino_search(ino, blk, left)).0),
    decreases left,
{
    broadcast use {lemma_same, lemma_then, frame_ino_block, frame_itab_set};

    reveal_with_fuel(MfsView::ino_search, 1);
    if left > 0 {
        let (t, r) = s.ino_block(ino as u32);
        if r != Some(0u32) {
            frame_ino_search(t, MfsView::next_ino(ino), blk, (left - 1) as nat);
        }
    }
}

/// A number for a new object.
pub broadcast proof fn frame_ino_alloc(s: MfsView, blk: u32)
    ensures
        within(s, (#[trigger] s.ino_alloc(blk)).0),
{
    broadcast use {lemma_same, lemma_then, frame_ino_search};

    reveal(MfsView::ino_alloc);
}

/// A number given back.
pub broadcast proof fn frame_free_ino(s: MfsView, ino: u32)
    ensures
        within(s, (#[trigger] s.free_ino(ino)).0),
{
    broadcast use {lemma_same, lemma_then, frame_itab_set};

    reveal(MfsView::free_ino);
}

/// An object written.
pub broadcast proof fn frame_commit_object(s: MfsView, ino: u32, data: Seq<u8>, magic: u32)
    ensures
        within(s, (#[trigger] s.commit_object(ino, data, magic)).0),
{
    broadcast use {lemma_same, lemma_then, frame_commit, frame_itab_set};

    reveal(MfsView::commit_object);
}

/// A name looked up.
pub broadcast proof fn frame_dir_lookup(s: MfsView, d: u32, comp: Seq<u8>)
    ensures
        within(s, (#[trigger] s.dir_lookup(d, comp)).0),
{
    broadcast use {lemma_same, lemma_then, frame_object_block};

    reveal(MfsView::dir_lookup);
}

/// A directory's index written.
pub broadcast proof fn frame_commit_index(s: MfsView, d: u32, a: Seq<u8>, b: Seq<u8>)
    ensures
        within(s, (#[trigger] s.commit_index(d, a, b)).0),
{
    broadcast use {lemma_same, lemma_then, frame_commit, frame_commit_object};

    reveal(MfsView::commit_index);
}

/// A directory block written.
pub broadcast proof fn frame_store_loc(s: MfsView, loc: MfsLoc, c: Seq<u8>)
    ensures
        within(s, (#[trigger] s.store_loc(loc, c)).0),
{
    broadcast use {
        lemma_same,
        lemma_then,
        frame_ino_block,
        frame_commit_object,
        frame_commit,
        frame_object_block,
        frame_commit_index,
    };

    reveal(MfsView::store_loc);
}

/// A directory looked through.
pub broadcast proof fn frame_dir_is_empty(s: MfsView, d: u32)
    ensures
        within(s, (#[trigger] s.dir_is_empty(d)).0),
{
    broadcast use {lemma_same, lemma_then, frame_object_block};

    reveal(MfsView::dir_is_empty);
}

/// An entry put into a further block.
pub broadcast proof fn frame_insert_ext(
    s: MfsView,
    d: u32,
    a: Seq<u8>,
    b: Seq<u8>,
    comp: Seq<u8>,
    child: u32,
    typ: u32,
)
    ensures
        within(s, (#[trigger] s.insert_ext(d, a, b, comp, child, typ)).0),
{
    broadcast use {lemma_same, lemma_then, frame_commit, frame_commit_index};

    reveal(MfsView::insert_ext);
}

/// An entry put into a directory.
pub broadcast proof fn frame_dir_insert(s: MfsView, d: u32, comp: Seq<u8>, child: u32, typ: u32)
    ensures
        within(s, (#[trigger] s.dir_insert(d, comp, child, typ)).0),
{
    broadcast use {
        lemma_same,
        lemma_then,
        frame_object_block,
        frame_commit_object,
        frame_commit,
        frame_insert_ext,
    };

    reveal(MfsView::dir_insert);
}

/// An entry removed.
pub broadcast proof fn frame_dir_delete(s: MfsView, loc: MfsLoc)
    ensures
        within(s, (#[trigger] s.dir_delete(loc)).0),
{
    broadcast use {lemma_same, lemma_then, frame_store_loc};

    reveal(MfsView::dir_delete);
}

/// A file read.
pub broadcast proof fn frame_read_file(s: MfsView, ino: u32, offset: u64, count: u32)
    ensures
        within(s, (#[trigger] s.read_file(ino, offset, count)).0),
{
    broadcast use {lemma_same, lemma_then, frame_object_block};

    reveal(MfsView::read_file);
}

/// An indirect block written.
pub broadcast proof fn frame_ind_flush(s: MfsView, w: WriterView)
    ensures
        within(s, (#[trigger] s.ind_flush(w)).0),
{
    broadcast use {lemma_same, lemma_then, frame_commit};

    reveal(MfsView::ind_flush);
}

/// An indirect block fetched.
pub broadcast proof fn frame_ind_fetch(s: MfsView, w: WriterView, p: MfsMapPlan)
    ensures
        within(s, (#[trigger] s.ind_fetch(w, p)).0),
{
    broadcast use {lemma_same, lemma_then, frame_commit};

    reveal(MfsView::ind_fetch);
}

/// An indirect block in memory.
pub broadcast proof fn frame_ind_load(s: MfsView, w: WriterView, p: MfsMapPlan)
    ensures
        within(s, (#[trigger] s.ind_load(w, p)).0),
{
    broadcast use {lemma_same, lemma_then, frame_ind_flush, frame_ind_fetch};

    reveal(MfsView::ind_load);
}

/// A block of a file looked up.
pub broadcast proof fn frame_ind_peek(s: MfsView, w: WriterView, bi: int)
    ensures
        within(s, (#[trigger] s.ind_peek(w, bi)).0),
{
    broadcast use {lemma_same, lemma_then, frame_ind_flush, frame_ind_load};

    reveal(MfsView::ind_peek);
}

/// A slot of an indirect block set.
pub broadcast proof fn frame_relink(s: MfsView, blk: u32, magic: u32, i: usize, x: u32)
    ensures
        within(s, (#[trigger] s.relink(blk, magic, i, x)).0),
{
    broadcast use {lemma_same, lemma_then, frame_commit};

}

/// A block named by three indirect blocks.
pub broadcast proof fn frame_ind_link3(s: MfsView, a: Seq<u8>, p: MfsMapPlan, db: u32)
    ensures
        within(s, (#[trigger] s.ind_link3(a, p, db)).0),
{
    broadcast use {lemma_same, lemma_then, frame_relink};

    reveal(MfsView::ind_link3);
}

/// A block of a file named.
pub broadcast proof fn frame_ind_link(s: MfsView, w: WriterView, bi: int, db: u32)
    ensures
        within(s, (#[trigger] s.ind_link(w, bi, db)).0),
{
    broadcast use {lemma_same, lemma_then, frame_ind_link3};

    reveal(MfsView::ind_link);
}

/// A block of a file written.
pub broadcast proof fn frame_write_block(
    s: MfsView,
    w: WriterView,
    bi: int,
    boff: int,
    data: Seq<u8>,
)
    ensures
        within(s, (#[trigger] s.write_block(w, bi, boff, data)).0),
{
    broadcast use {lemma_same, lemma_then, frame_ind_peek, frame_commit, frame_ind_link};

    reveal(MfsView::write_block);
}

/// Bytes put into a file.
pub broadcast proof fn frame_write_from(
    s: MfsView,
    w: WriterView,
    offset: int,
    data: Seq<u8>,
    done: int,
)
    ensures
        within(s, (#[trigger] s.write_from(w, offset, data, done)).0),
    decreases data.len() - done,
{
    broadcast use {lemma_same, lemma_then, frame_write_block};

    if done < data.len() {
        let pos = offset + done;
        let n = mfs_file::piece(pos, data.len() - done);
        let (t, r) = s.write_block(w, pos / 4088, pos % 4088, data.subrange(done, done + n));
        if r is Some {
            frame_write_from(t, r->Some_0, offset, data, done + n);
        }
    }
}

/// A file's node written.
pub broadcast proof fn frame_finish(s: MfsView, ino: u32, w: WriterView, size: u64, nblocks: u32)
    ensures
        within(s, (#[trigger] s.finish(ino, w, size, nblocks)).0),
{
    broadcast use {lemma_same, lemma_then, frame_ind_flush, frame_commit_object};

    reveal(MfsView::finish);
}

/// A file written.
pub broadcast proof fn frame_write_file(s: MfsView, ino: u32, offset: u64, data: Seq<u8>)
    ensures
        within(s, (#[trigger] s.write_file(ino, offset, data)).0),
{
    broadcast use {lemma_same, lemma_then, frame_object_block, frame_write_from, frame_finish};

    reveal(MfsView::write_file);
}

/// A block made a hole.
pub broadcast proof fn frame_unmap(s: MfsView, w: WriterView, bi: int)
    ensures
        within(s, (#[trigger] s.unmap(w, bi)).0),
{
    broadcast use {lemma_same, lemma_then, frame_ind_peek, frame_ind_link};

    reveal(MfsView::unmap);
}

/// Blocks made holes.
pub broadcast proof fn frame_unmap_range(s: MfsView, w: WriterView, b: int, end: int)
    ensures
        within(s, (#[trigger] s.unmap_range(w, b, end)).0),
    decreases end - b,
{
    broadcast use {lemma_same, lemma_then, frame_unmap};

    if b < end {
        let (t, r) = s.unmap(w, b);
        if r is Some {
            frame_unmap_range(t, r->Some_0, b + 1, end);
        }
    }
}

/// Blocks of an area dropped.
pub broadcast proof fn frame_drop_area(
    s: MfsView,
    w: WriterView,
    keep: int,
    nb: int,
    start: int,
    end: int,
    off: usize,
)
    ensures
        within(s, (#[trigger] s.drop_area(w, keep, nb, start, end, off)).0),
{
    broadcast use {lemma_same, lemma_then, frame_unmap_range};

    reveal(MfsView::drop_area);
}

/// Blocks dropped.
pub broadcast proof fn frame_drop_blocks(s: MfsView, w: WriterView, keep: int, nb: int)
    ensures
        within(s, (#[trigger] s.drop_blocks(w, keep, nb)).0),
{
    broadcast use {lemma_same, lemma_then, frame_drop_area, frame_ind_flush};

    reveal(MfsView::drop_blocks);
}

/// A block cleared from a byte on.
pub broadcast proof fn frame_clear_tail(s: MfsView, w: WriterView, bi: int, tail: int)
    ensures
        within(s, (#[trigger] s.clear_tail(w, bi, tail)).0),
{
    broadcast use {lemma_same, lemma_then, frame_ind_peek, frame_commit, frame_ind_link};

    reveal(MfsView::clear_tail);
}

/// A file cut or extended.
pub broadcast proof fn frame_truncate(s: MfsView, ino: u32, size: u64)
    ensures
        within(s, (#[trigger] s.truncate(ino, size)).0),
{
    broadcast use {
        lemma_same,
        lemma_then,
        frame_object_block,
        frame_commit_object,
        frame_drop_blocks,
        frame_finish,
        frame_clear_tail,
    };

    reveal(MfsView::truncate);
}

/// The target of a link.
pub broadcast proof fn frame_link_target(s: MfsView, ino: u32)
    ensures
        within(s, (#[trigger] s.link_target(ino)).0),
{
    broadcast use {lemma_same, lemma_then, frame_object_block};

    reveal(MfsView::link_target);
}

/// A path walked.
pub broadcast proof fn frame_walk(
    s: MfsView,
    buf: Seq<u8>,
    i: int,
    cur: u32,
    leaf: MfsLoc,
    follow: bool,
)
    ensures
        within(s, (#[trigger] s.walk(buf, i, cur, leaf, follow)).0),
    decreases buf.len() - i,
{
    broadcast use {lemma_same, lemma_then, frame_dir_lookup};

    let end = path::seg_end(buf, i);
    if !(i >= buf.len() || end <= i || end - i > mfs_dir::MFS_NAME_MAX) {
        let (t, r) = s.dir_lookup(cur, buf.subrange(i, end));
        if r is Some && t.load(r->Some_0.blk, mfs::MFS_MAGIC_DIR) is Some {
            let c = t.load(r->Some_0.blk, mfs::MFS_MAGIC_DIR)->Some_0;
            let ino = mfs_dir::ent_ino(c, r->Some_0.off as int);
            if end < buf.len() {
                frame_walk(t, buf, end + 1, ino, r->Some_0, follow);
            }
        }
    }
}

/// A path resolved.
pub broadcast proof fn frame_resolve_from(
    s: MfsView,
    buf: Seq<u8>,
    leaf: MfsLoc,
    links: nat,
    follow: bool,
)
    ensures
        within(s, (#[trigger] s.resolve_from(buf, leaf, links, follow)).0),
    decreases links,
{
    broadcast use {lemma_same, lemma_then, frame_walk, frame_link_target};

    let (t, w) = s.walk(buf, 1, mfs::MFS_ROOT_INO, leaf, follow);
    if w is Link && links > 0 {
        let (u, r) = t.followed(buf, w->Link_start as int, w->Link_end as int, w->Link_ino);
        if r is Some {
            frame_resolve_from(u, r->Some_0, w->Link_leaf, (links - 1) as nat, follow);
        }
    }
}

/// A path resolved.
pub broadcast proof fn frame_resolve(s: MfsView, canon: Seq<u8>, follow: bool)
    ensures
        within(s, (#[trigger] s.resolve(canon, follow)).0),
{
    broadcast use {lemma_same, lemma_then, frame_resolve_from};

    reveal(MfsView::resolve);
}

/// What is known of an object.
pub broadcast proof fn frame_stat(s: MfsView, p: Seq<u8>, follow: bool)
    ensures
        within(s, (#[trigger] s.stat(p, follow)).0),
{
    broadcast use {lemma_same, lemma_then, frame_resolve, frame_ino_block};

    reveal(MfsView::stat);
}

/// What a path names.
pub broadcast proof fn frame_open_kind(s: MfsView, canon: Seq<u8>)
    ensures
        within(s, (#[trigger] s.open_kind(canon)).0),
{
    broadcast use {lemma_same, lemma_then, frame_resolve, frame_object_block};

    reveal(MfsView::open_kind);
}

/// An object added.
pub broadcast proof fn frame_add_object(
    s: MfsView,
    d: u32,
    comp: Seq<u8>,
    node: Seq<u8>,
    magic: u32,
    typ: u32,
)
    ensures
        within(s, (#[trigger] s.add_object(d, comp, node, magic, typ)).0),
{
    broadcast use {lemma_same, lemma_then, frame_commit, frame_ino_alloc, frame_dir_insert};

    reveal(MfsView::add_object);
}

/// A place for a path.
pub broadcast proof fn frame_place_for(s: MfsView, canon: Seq<u8>)
    ensures
        within(s, (#[trigger] s.place_for(canon)).0),
{
    broadcast use {lemma_same, lemma_then, frame_resolve, frame_dir_lookup};

    reveal(MfsView::place_for);
}

/// What a path names.
pub broadcast proof fn frame_open_or_none(s: MfsView, canon: Seq<u8>)
    ensures
        within(s, (#[trigger] s.open_or_none(canon)).0),
{
    broadcast use {lemma_same, lemma_then, frame_resolve, frame_object_block};

    reveal(MfsView::open_or_none);
}

/// A file or directory made.
pub broadcast proof fn frame_create(s: MfsView, canon: Seq<u8>, is_dir: bool, owner: u16)
    ensures
        within(s, (#[trigger] s.create(canon, is_dir, owner)).0),
{
    broadcast use {lemma_same, lemma_then, frame_open_or_none, frame_place_for, frame_add_object};

    reveal(MfsView::create);
}

/// A link made.
pub broadcast proof fn frame_symlink(s: MfsView, target: Seq<u8>, p: Seq<u8>, owner: u16)
    ensures
        within(s, (#[trigger] s.symlink(target, p, owner)).0),
{
    broadcast use {lemma_same, lemma_then, frame_resolve, frame_place_for, frame_add_object};

    reveal(MfsView::symlink);
}

/// One name more.
pub broadcast proof fn frame_bump_nlink(s: MfsView, ino: u32)
    ensures
        within(s, (#[trigger] s.bump_nlink(ino)).0),
{
    broadcast use {lemma_same, lemma_then, frame_object_block, frame_commit_object};

    reveal(MfsView::bump_nlink);
}

/// A second name entered.
pub broadcast proof fn frame_link_at(s: MfsView, ino: u32, d: Seq<u8>)
    ensures
        within(s, (#[trigger] s.link_at(ino, d)).0),
{
    broadcast use {lemma_same, lemma_then, frame_resolve, frame_dir_insert, frame_bump_nlink};

    reveal(MfsView::link_at);
}

/// A second name given.
pub broadcast proof fn frame_link(s: MfsView, src: Seq<u8>, dst: Seq<u8>)
    ensures
        within(s, (#[trigger] s.link(src, dst)).0),
{
    broadcast use {lemma_same, lemma_then, frame_resolve, frame_object_block, frame_link_at};

    reveal(MfsView::link);
}

/// An object removed.
pub broadcast proof fn frame_drop_object(s: MfsView, loc: MfsLoc, ino: u32)
    ensures
        within(s, (#[trigger] s.drop_object(loc, ino)).0),
{
    broadcast use {lemma_same, lemma_then, frame_dir_delete, frame_free_ino};

    reveal(MfsView::drop_object);
}

/// One name less.
pub broadcast proof fn frame_drop_name(s: MfsView, ino: u32)
    ensures
        within(s, (#[trigger] s.drop_name(ino)).0),
{
    broadcast use {lemma_same, lemma_then, frame_object_block, frame_commit_object, frame_free_ino};

    reveal(MfsView::drop_name);
}

/// What a path names removed.
pub broadcast proof fn frame_remove(s: MfsView, p: Seq<u8>, want_dir: bool)
    ensures
        within(s, (#[trigger] s.remove(p, want_dir)).0),
{
    broadcast use {
        lemma_same,
        lemma_then,
        frame_resolve,
        frame_dir_is_empty,
        frame_drop_object,
        frame_dir_delete,
        frame_drop_name,
    };

    reveal(MfsView::remove);
}

/// An object made way.
pub broadcast proof fn frame_make_way(s: MfsView, ino: u32, loc: MfsLoc, typ: u32)
    ensures
        within(s, (#[trigger] s.make_way(ino, loc, typ)).0),
{
    broadcast use {
        lemma_same,
        lemma_then,
        frame_object_block,
        frame_dir_is_empty,
        frame_drop_object,
        frame_dir_delete,
        frame_drop_name,
    };

    reveal(MfsView::make_way);
}

/// An entry moved.
pub broadcast proof fn frame_move_entry(s: MfsView, ino: u32, typ: u32, sc: Seq<u8>, d: Seq<u8>)
    ensures
        within(s, (#[trigger] s.move_entry(ino, typ, sc, d)).0),
{
    broadcast use {lemma_same, lemma_then, frame_resolve, frame_dir_insert, frame_dir_delete};

    reveal(MfsView::move_entry);
}

/// The directories on a way looked at.
pub broadcast proof fn frame_visits(s: MfsView, buf: Seq<u8>, i: int, cur: u32, dir: u32)
    ensures
        within(s, (#[trigger] s.visits(buf, i, cur, dir)).0),
    decreases buf.len() - i,
{
    broadcast use {lemma_same, lemma_then, frame_dir_lookup};

    let end = path::seg_end(buf, i);
    if cur != dir && !(i >= buf.len() || end <= i || end - i > mfs_dir::MFS_NAME_MAX) {
        let (t, r) = s.dir_lookup(cur, buf.subrange(i, end));
        if r is Some && end < buf.len() {
            match t.load(r->Some_0.blk, mfs::MFS_MAGIC_DIR) {
                None => {},
                Some(c) => {
                    frame_visits(
                        t,
                        buf,
                        end + 1,
                        mfs_dir::ent_ino(c, r->Some_0.off as int),
                        dir,
                    );
                },
            }
        }
    }
}

/// A way followed through links.
pub broadcast proof fn frame_crosses_from(s: MfsView, buf: Seq<u8>, dir: u32, links: nat)
    ensures
        within(s, (#[trigger] s.crosses_from(buf, dir, links)).0),
    decreases links,
{
    broadcast use {lemma_same, lemma_then, frame_walk, frame_link_target, frame_visits};

    let (t, w) = s.walk(buf, 1, mfs::MFS_ROOT_INO, mfs_dir::no_loc(), true);
    if w is Link && links > 0 {
        let (u, r) = t.followed(buf, w->Link_start as int, w->Link_end as int, w->Link_ino);
        if r is Some {
            frame_crosses_from(u, r->Some_0, dir, (links - 1) as nat);
        }
    }
}

/// A ring looked for.
pub broadcast proof fn frame_rings(s: MfsView, ino: u32, typ: u32, dc: Seq<u8>)
    ensures
        within(s, (#[trigger] s.rings(ino, typ, dc)).0),
{
    broadcast use {lemma_same, lemma_then, frame_crosses_from};

    reveal(MfsView::rings);
    reveal(MfsView::crosses);
}

/// An object moved to another path.
pub broadcast proof fn frame_rename_to(
    s: MfsView,
    ino: u32,
    typ: u32,
    loc: MfsLoc,
    sc: Seq<u8>,
    dc: Seq<u8>,
)
    ensures
        within(s, (#[trigger] s.rename_to(ino, typ, loc, sc, dc)).0),
{
    broadcast use {lemma_same, lemma_then, frame_resolve, frame_make_way, frame_move_entry};

    reveal(MfsView::rename_to);
}

/// An object renamed.
pub broadcast proof fn frame_rename(s: MfsView, src: Seq<u8>, dst: Seq<u8>)
    ensures
        within(s, (#[trigger] s.rename(src, dst)).0),
{
    broadcast use {
        lemma_same,
        lemma_then,
        frame_resolve,
        frame_object_block,
        frame_rings,
        frame_rename_to,
    };

    reveal(MfsView::rename);
}

/// Permissions set.
pub broadcast proof fn frame_chmod(s: MfsView, p: Seq<u8>, mode: u16)
    ensures
        within(s, (#[trigger] s.chmod(p, mode)).0),
{
    broadcast use {lemma_same, lemma_then, frame_resolve, frame_object_block, frame_commit_object};

    reveal(MfsView::chmod);
}

/// A link read.
pub broadcast proof fn frame_readlink(s: MfsView, p: Seq<u8>)
    ensures
        within(s, (#[trigger] s.readlink(p)).0),
{
    broadcast use {lemma_same, lemma_then, frame_resolve, frame_link_target};

    reveal(MfsView::readlink);
}

/// An entry looked at.
pub broadcast proof fn frame_entry_record(s: MfsView, b: Seq<u8>, off: int)
    ensures
        within(s, (#[trigger] s.entry_record(b, off)).0),
{
    broadcast use {lemma_same, lemma_then, frame_object_block};

    reveal(MfsView::entry_record);
}

/// The entries of a block.
pub broadcast proof fn frame_emit(s: MfsView, b: Seq<u8>, off: int, out: Seq<DirEntryView>)
    ensures
        within(s, (#[trigger] s.emit(b, off, out)).0),
    decreases 4096 - off,
{
    broadcast use {lemma_same, lemma_then, frame_entry_record};

    if off + 8 <= 4096 && out.len() < RESULT_MAX_ENTRIES {
        let (t, o) = if mfs_dir::ent_nlen(b, off) != 0 {
            (s.entry_record(b, off).0, out.push(s.entry_record(b, off).1))
        } else {
            (s, out)
        };
        if !mfs_dir::ent_bad(b, off) {
            frame_emit(t, b, off + mfs_dir::ent_rec(b, off), o);
        }
    }
}

/// The entries of further blocks.
pub broadcast proof fn frame_emit_ext(s: MfsView, b: Seq<u8>, i: int, out: Seq<DirEntryView>)
    ensures
        within(s, (#[trigger] s.emit_ext(b, i, out)).0),
    decreases 1022 - i,
{
    broadcast use {lemma_same, lemma_then, frame_emit};

    if i < 1022 && out.len() < RESULT_MAX_ENTRIES {
        let blk = mfs::slot(b, i);
        if blk == 0 || s.load(blk, mfs::MFS_MAGIC_DIR) is None {
            frame_emit_ext(s, b, i + 1, out);
        } else {
            let (t, o) = s.emit(s.load(blk, mfs::MFS_MAGIC_DIR)->Some_0, 56, out);
            frame_emit_ext(t, b, i + 1, o);
        }
    }
}

/// A directory listed.
pub broadcast proof fn frame_readdir(s: MfsView, ino: u32)
    ensures
        within(s, (#[trigger] s.readdir(ino)).0),
{
    broadcast use {lemma_same, lemma_then, frame_object_block, frame_emit, frame_emit_ext};

    reveal(MfsView::readdir);
}

/// Blocks marked in use.
pub broadcast proof fn frame_set_range(s: MfsView, b: int, end: int)
    ensures
        within(s, #[trigger] s.set_range(b, end)),
    decreases end - b,
{
    broadcast use {lemma_same, lemma_then};

    if b < end {
        frame_set_range(s.bmp_set(b as u32), b + 1, end);
    }
}

/// The blocks of a table marked in use.
pub broadcast proof fn frame_mark_slots(s: MfsView, x: Seq<u8>, k: int)
    ensures
        within(s, #[trigger] s.mark_slots(x, k)),
    decreases 1022 - k,
{
    broadcast use {lemma_same, lemma_then};

    if k < 1022 {
        if mfs::slot(x, k) != 0 {
            frame_mark_slots(s.bmp_set(mfs::slot(x, k)), x, k + 1);
        } else {
            frame_mark_slots(s, x, k + 1);
        }
    }
}

/// A table marked in use.
pub broadcast proof fn frame_mark_itab(s: MfsView, itab: u32)
    ensures
        within(s, #[trigger] s.mark_itab(itab)),
{
    broadcast use {lemma_same, lemma_then, frame_mark_slots};

    reveal(MfsView::mark_itab);
}

/// The tables of snapshots marked in use.
pub broadcast proof fn frame_mark_snaps(s: MfsView, i: int)
    ensures
        within(s, #[trigger] s.mark_snaps(i)),
    decreases s.snaps.len() - i,
{
    broadcast use {lemma_same, lemma_then, frame_mark_itab};

    if i < s.snaps.len() {
        let t = s.mark_itab(s.snaps[i].itab);
        if t.snaps == s.snaps {
            frame_mark_snaps(t, i + 1);
        }
    }
}

/// The bitmap set to marks.
pub broadcast proof fn frame_apply_marks(s: MfsView, marks: Seq<bool>, b: int)
    ensures
        within(s, #[trigger] s.apply_marks(marks, b)),
    decreases marks.len() - b,
{
    broadcast use {lemma_same, lemma_then};

    if b < marks.len() {
        if marks[b] {
            frame_apply_marks(s.bmp_set(b as u32), marks, b + 1);
        } else {
            frame_apply_marks(s.bmp_clear(b as u32), marks, b + 1);
        }
    }
}

/// Blocks collected.
pub broadcast proof fn frame_gc(s: MfsView)
    ensures
        within(s, (#[trigger] s.gc()).0),
{
    broadcast use {lemma_same, lemma_then, frame_apply_marks, frame_flush};

    reveal(MfsView::gc);
}

/// Blocks collected where few are free.
pub broadcast proof fn frame_maybe_gc(s: MfsView)
    ensures
        within(s, #[trigger] s.maybe_gc()),
{
    broadcast use {lemma_same, lemma_then, frame_gc};

    reveal(MfsView::maybe_gc);
}

/// A superblock taken.
pub broadcast proof fn frame_adopted(s: MfsView, b: Seq<u8>)
    ensures
        within(s, #[trigger] s.adopted(b)),
{
    broadcast use {lemma_same, lemma_then, frame_itab_reload};

}

/// A bitmap loaded.
pub broadcast proof fn frame_bitmap_from(s: MfsView, head: Seq<u8>, copy: int, c: int)
    ensures
        within(s, (#[trigger] s.bitmap_from(head, copy, c)).0),
    decreases mfs::bb_for(s.total) - c,
{
    broadcast use {lemma_same, lemma_then};

    reveal(MfsView::with_bitmap_block);
    if c < mfs::bb_for(s.total) {
        match s.rd((s.bmp_start(copy) + c) as u32) {
            None => {},
            Some(d) => {
                let t = s.with_bitmap_block(c, d);
                if t.total == s.total {
                    frame_bitmap_from(t, head, copy, c + 1);
                }
            },
        }
    }
}

/// A bitmap loaded.
pub broadcast proof fn frame_load_bitmap(s: MfsView, copy: int)
    ensures
        within(s, (#[trigger] s.load_bitmap(copy)).0),
{
    broadcast use {lemma_same, lemma_then, frame_bitmap_from};

    reveal(MfsView::load_bitmap);
}

/// A copy tried.
pub broadcast proof fn frame_load_copy(s: MfsView, copy: int, f: Found)
    ensures
        within(s, (#[trigger] s.load_copy(copy, f)).0),
{
    broadcast use {lemma_same, lemma_then, frame_adopted, frame_load_bitmap};

    reveal(MfsView::load_copy);
}

/// The bitmap built anew.
pub broadcast proof fn frame_rebuild(s: MfsView)
    ensures
        within(s, (#[trigger] s.rebuild()).0),
{
    broadcast use {lemma_same, lemma_then, frame_gc};

    reveal(MfsView::rebuild);
}

/// A volume loaded.
pub broadcast proof fn frame_load_state(s: MfsView)
    ensures
        within(s, (#[trigger] s.load_state()).0),
{
    broadcast use {
        lemma_same,
        lemma_then,
        frame_load_copy,
        frame_set_range,
        frame_mark_itab,
        frame_mark_snaps,
        frame_rebuild,
    };

    reveal(MfsView::load_state);
}

/// A volume made anew.
pub broadcast proof fn frame_format(s: MfsView)
    ensures
        within(s, (#[trigger] s.format()).0),
{
    broadcast use {
        lemma_same,
        lemma_then,
        frame_set_range,
        frame_commit,
        frame_itab_flush,
        frame_itab_set,
        frame_flush,
    };

    reveal(MfsView::format);
}

/// Law: a service that starts, and loads its volume or makes a file system on it, leaves every
/// other volume as it was.
pub proof fn law_start_stays_on_its_volume(s: MfsView)
    ensures
        within(s, s.mount_or_format().0),
{
    broadcast use {lemma_same, lemma_then, frame_load_state, frame_format};

    reveal(MfsView::mount_or_format);
}

/// A snapshot taken.
pub broadcast proof fn frame_snapshot(s: MfsView)
    ensures
        within(s, (#[trigger] s.snapshot()).0),
{
    broadcast use {lemma_same, lemma_then, frame_flush};

    reveal(MfsView::snapshot);
}

/// A snapshot restored.
pub broadcast proof fn frame_restore(s: MfsView, i: u32)
    ensures
        within(s, (#[trigger] s.restore(i)).0),
{
    broadcast use {lemma_same, lemma_then, frame_itab_reload, frame_flush};

    reveal(MfsView::restore);
}

/// Volume `v` is as it was, and no write to it was logged.
pub open spec fn spares(a: StoreView, b: StoreView, v: u64) -> bool {
    &&& b.disks.len() == a.disks.len()
    &&& v < a.disks.len() ==> b.disks[v as int] == a.disks[v as int]
    &&& a.log.len() <= b.log.len()
    &&& b.log.subrange(0, a.log.len() as int) == a.log
    &&& forall|i: int| a.log.len() <= i < b.log.len() ==> (#[trigger] b.log[i]).dev != v
}

/// What changed only one volume left every other alone.
proof fn lemma_spares(a: StoreView, b: StoreView, vol: u64, v: u64)
    requires
        bound(a, b, vol),
        v != vol,
    ensures
        spares(a, b, v),
{
    reveal(bound);
}

/// Left alone by one step after another.
proof fn lemma_spares_then(a: StoreView, b: StoreView, c: StoreView, v: u64)
    requires
        spares(a, b, v),
        spares(b, c, v),
    ensures
        spares(a, c, v),
{
    assert(c.log.subrange(0, a.log.len() as int) =~= a.log) by {
        assert forall|i: int| 0 <= i < a.log.len() implies c.log[i] == a.log[i] by {
            assert(c.log.subrange(0, b.log.len() as int)[i] == b.log[i]);
            assert(b.log.subrange(0, a.log.len() as int)[i] == a.log[i]);
        }
    }
    assert forall|i: int| a.log.len() <= i < c.log.len() implies (#[trigger] c.log[i]).dev != v by {
        if i < b.log.len() {
            assert(c.log.subrange(0, b.log.len() as int)[i] == b.log[i]);
        }
    }
}

/// A new file system made: the volume that it is made on and the current one may change.
proof fn lemma_mkfs(s: MfsView, list: Seq<VolumeDesc>, vol: u64, v: u64)
    requires
        v != s.vol,
        v != vol,
    ensures
        spares(s.store, s.mkfs(list, vol).0.store, v),
{
    broadcast use {lemma_same, frame_format, frame_load_state};

    reveal(MfsView::mkfs);
    lemma_spares(s.store, s.store, s.vol, v);
    match crate::volume::desc_from(list, vol, 0) {
        None => {},
        Some(d) => {
            let a = MfsView {
                primary: mfs_vol::next_serial(s.store, list, vol),
                ..s.other(vol, d.sectors)
            };
            let s1 = a.format().0;
            let b = s1.other(s.vol, s.sectors);
            let s2 = b.load_state().0;
            assert(within(a, s1));
            assert(within(b, s2));
            lemma_spares(s.store, s1.store, vol, v);
            lemma_spares(s1.store, s2.store, s.vol, v);
            lemma_spares_then(s.store, s1.store, s2.store, v);
        },
    }
}

/// A request answered on the current volume.
proof fn lemma_answer(s: MfsSrvView, req: Request, owner: u16, v: u64)
    requires
        v != s.fs.vol,
        req matches Request::MakeFs { vol } ==> v != vol,
    ensures
        spares(s.fs.store, s.answer(req, owner).0.fs.store, v),
{
    reveal(MfsSrvView::answer);
    let t = s.answer(req, owner).0;
    match req {
        Request::MakeFs { vol } => {
            reveal(MfsSrvView::on_volume);
            lemma_mkfs(s.fs, s.list, vol, v);
        },
        _ => {
            assert(within(s.fs, t.fs)) by {
                lemma_open(s, req);
                lemma_make(s, req, owner);
                lemma_on_fd(s, req);
                lemma_on_path(s, req, owner);
                lemma_on_volume(s, req);
                lemma_same(s.fs.store, s.fs.vol);
            }
            lemma_spares(s.fs.store, t.fs.store, s.fs.vol, v);
        },
    }
}

/// A path opened.
proof fn lemma_open(s: MfsSrvView, req: Request)
    ensures
        req matches Request::Open { path } ==> within(s.fs, s.open(path@).0.fs),
{
    broadcast use {lemma_same, lemma_then, frame_open_kind};

    reveal(MfsSrvView::open);
}

/// A file or directory made.
proof fn lemma_make(s: MfsSrvView, req: Request, owner: u16)
    ensures
        req matches Request::Creat { path } ==> within(s.fs, s.make(path@, false, owner).0.fs),
        req matches Request::Mkdir { path } ==> within(s.fs, s.make(path@, true, owner).0.fs),
{
    broadcast use {lemma_same, lemma_then, frame_create};

    reveal(MfsSrvView::make);
}

/// A request on an open file.
proof fn lemma_on_fd(s: MfsSrvView, req: Request)
    ensures
        within(s.fs, s.on_fd(req).0),
{
    broadcast use {
        lemma_same,
        lemma_then,
        frame_resolve,
        frame_read_file,
        frame_write_file,
        frame_readdir,
        frame_truncate,
    };

    reveal(MfsSrvView::on_fd);
    reveal(MfsSrvView::fd_ino);
}

/// A request on a path.
proof fn lemma_on_path(s: MfsSrvView, req: Request, owner: u16)
    ensures
        within(s.fs, s.on_path(req, owner).0),
{
    broadcast use {
        lemma_same,
        frame_remove,
        frame_rename,
        frame_link,
        frame_symlink,
        frame_chmod,
        frame_stat,
        frame_readlink,
    };

    reveal(MfsSrvView::on_path);
}

/// A request on the volume as a whole.
proof fn lemma_on_volume(s: MfsSrvView, req: Request)
    ensures
        req is MakeFs || within(s.fs, s.on_volume(req).0),
{
    broadcast use {lemma_same, frame_snapshot, frame_restore, frame_gc};

    reveal(MfsSrvView::on_volume);
}

/// Law: a request leaves every volume alone but the one that it is for, the one that was
/// current, whose unused blocks may be collected first, and the one on which it asks for a new
/// file system: such a volume is as it was, and no write to it was made.
pub proof fn law_request_stays_on_its_volume(
    s: MfsSrvView,
    enc: u64,
    req: Request,
    owner: u16,
    now: u64,
    v: u64,
)
    requires
        v != s.fs.vol,
        v != s.target(enc, req),
        req matches Request::MakeFs { vol } ==> v != vol,
    ensures
        spares(s.fs.store, s.serve(enc, req, owner, now).0.fs.store, v),
{
    broadcast use {frame_maybe_gc, frame_load_state};

    let a = MfsView { now, ..s.fs };
    let s1 = MfsSrvView { fs: a.maybe_gc(), ..s };
    assert(within(a, s1.fs));
    lemma_spares(s.fs.store, s1.fs.store, s.fs.vol, v);
    let vol = s1.target(enc, req);
    assert(vol == s.target(enc, req));
    if vol == s1.fs.vol {
        lemma_answer(s1, req, owner, v);
        lemma_spares_then(
            s.fs.store,
            s1.fs.store,
            s1.answer(req, owner).0.fs.store,
            v,
        );
    } else {
        reveal(MfsView::switch_vol);
        let b = s1.fs.other(vol, mfs_vol::listed_sectors(s1.list, vol));
        let (fs, ok) = s1.fs.switch_vol(s1.list, vol);
        assert(within(b, b.load_state().0));
        let t = MfsSrvView { fs, ..s1 };
        lemma_spares(s1.fs.store, fs.store, vol, v);
        lemma_spares_then(s.fs.store, s1.fs.store, fs.store, v);
        if ok {
            lemma_answer(t, req, owner, v);
            lemma_spares_then(s.fs.store, fs.store, t.answer(req, owner).0.fs.store, v);
        }
    }
}

/// Looking for the block of an object writes nothing.
pub broadcast proof fn look_ino_block(s: MfsView, ino: u32)
    ensures
        (#[trigger] s.ino_block(ino)).0.store == s.store,
{
    reveal(MfsView::ino_block);
}

/// Nor does looking for the block of an object that exists.
pub broadcast proof fn look_object_block(s: MfsView, ino: u32)
    ensures
        (#[trigger] s.object_block(ino)).0.store == s.store,
{
    broadcast use look_ino_block;

    reveal(MfsView::object_block);
}

/// Nor does looking up a name.
pub broadcast proof fn look_dir_lookup(s: MfsView, d: u32, comp: Seq<u8>)
    ensures
        (#[trigger] s.dir_lookup(d, comp)).0.store == s.store,
{
    broadcast use look_object_block;

    reveal(MfsView::dir_lookup);
}

/// Nor does reading the target of a link.
pub broadcast proof fn look_link_target(s: MfsView, ino: u32)
    ensures
        (#[trigger] s.link_target(ino)).0.store == s.store,
{
    broadcast use look_object_block;

    reveal(MfsView::link_target);
}

/// Nor does walking a path.
pub broadcast proof fn look_walk(
    s: MfsView,
    buf: Seq<u8>,
    i: int,
    cur: u32,
    leaf: MfsLoc,
    follow: bool,
)
    ensures
        (#[trigger] s.walk(buf, i, cur, leaf, follow)).0.store == s.store,
    decreases buf.len() - i,
{
    broadcast use look_dir_lookup;

    let end = path::seg_end(buf, i);
    if !(i >= buf.len() || end <= i || end - i > mfs_dir::MFS_NAME_MAX) {
        let (t, r) = s.dir_lookup(cur, buf.subrange(i, end));
        if r is Some && t.load(r->Some_0.blk, mfs::MFS_MAGIC_DIR) is Some {
            let c = t.load(r->Some_0.blk, mfs::MFS_MAGIC_DIR)->Some_0;
            let ino = mfs_dir::ent_ino(c, r->Some_0.off as int);
            if end < buf.len() {
                look_walk(t, buf, end + 1, ino, r->Some_0, follow);
            }
        }
    }
}

/// Nor does resolving a path.
pub broadcast proof fn look_resolve_from(
    s: MfsView,
    buf: Seq<u8>,
    leaf: MfsLoc,
    links: nat,
    follow: bool,
)
    ensures
        (#[trigger] s.resolve_from(buf, leaf, links, follow)).0.store == s.store,
    decreases links,
{
    broadcast use {look_walk, look_link_target};

    let (t, w) = s.walk(buf, 1, mfs::MFS_ROOT_INO, leaf, follow);
    if w is Link && links > 0 {
        let (u, r) = t.followed(buf, w->Link_start as int, w->Link_end as int, w->Link_ino);
        if r is Some {
            look_resolve_from(u, r->Some_0, w->Link_leaf, (links - 1) as nat, follow);
        }
    }
}

/// Nor does resolving a path in normal form.
pub broadcast proof fn look_resolve(s: MfsView, canon: Seq<u8>, follow: bool)
    ensures
        (#[trigger] s.resolve(canon, follow)).0.store == s.store,
{
    broadcast use look_resolve_from;

    reveal(MfsView::resolve);
}

/// Nor does asking about an object.
pub broadcast proof fn look_stat(s: MfsView, p: Seq<u8>, follow: bool)
    ensures
        (#[trigger] s.stat(p, follow)).0.store == s.store,
{
    broadcast use {look_resolve, look_ino_block};

    reveal(MfsView::stat);
}

/// Nor does asking what a path names.
pub broadcast proof fn look_open_kind(s: MfsView, canon: Seq<u8>)
    ensures
        (#[trigger] s.open_kind(canon)).0.store == s.store,
{
    broadcast use {look_resolve, look_object_block};

    reveal(MfsView::open_kind);
}

/// Nor does reading a link.
pub broadcast proof fn look_readlink(s: MfsView, p: Seq<u8>)
    ensures
        (#[trigger] s.readlink(p)).0.store == s.store,
{
    broadcast use {look_resolve, look_link_target};

    reveal(MfsView::readlink);
}

/// Nor does reading a file.
pub broadcast proof fn look_read_file(s: MfsView, ino: u32, offset: u64, count: u32)
    ensures
        (#[trigger] s.read_file(ino, offset, count)).0.store == s.store,
{
    broadcast use look_object_block;

    reveal(MfsView::read_file);
}

/// Nor does looking at an entry.
pub broadcast proof fn look_entry_record(s: MfsView, b: Seq<u8>, off: int)
    ensures
        (#[trigger] s.entry_record(b, off)).0.store == s.store,
{
    broadcast use look_object_block;

    reveal(MfsView::entry_record);
}

/// Nor does going through the entries of a block.
pub broadcast proof fn look_emit(s: MfsView, b: Seq<u8>, off: int, out: Seq<DirEntryView>)
    ensures
        (#[trigger] s.emit(b, off, out)).0.store == s.store,
    decreases 4096 - off,
{
    broadcast use look_entry_record;

    if off + 8 <= 4096 && out.len() < RESULT_MAX_ENTRIES {
        let (t, o) = if mfs_dir::ent_nlen(b, off) != 0 {
            (s.entry_record(b, off).0, out.push(s.entry_record(b, off).1))
        } else {
            (s, out)
        };
        if !mfs_dir::ent_bad(b, off) {
            look_emit(t, b, off + mfs_dir::ent_rec(b, off), o);
        }
    }
}

/// Nor does going through those of further blocks.
pub broadcast proof fn look_emit_ext(s: MfsView, b: Seq<u8>, i: int, out: Seq<DirEntryView>)
    ensures
        (#[trigger] s.emit_ext(b, i, out)).0.store == s.store,
    decreases 1022 - i,
{
    broadcast use look_emit;

    if i < 1022 && out.len() < RESULT_MAX_ENTRIES {
        let blk = mfs::slot(b, i);
        if blk == 0 || s.load(blk, mfs::MFS_MAGIC_DIR) is None {
            look_emit_ext(s, b, i + 1, out);
        } else {
            let (t, o) = s.emit(s.load(blk, mfs::MFS_MAGIC_DIR)->Some_0, 56, out);
            look_emit_ext(t, b, i + 1, o);
        }
    }
}

/// Nor does listing a directory.
pub broadcast proof fn look_readdir(s: MfsView, ino: u32)
    ensures
        (#[trigger] s.readdir(ino)).0.store == s.store,
{
    broadcast use {look_object_block, look_emit, look_emit_ext};

    reveal(MfsView::readdir);
}

/// Nor does taking a superblock.
pub broadcast proof fn look_adopted(s: MfsView, b: Seq<u8>)
    ensures
        (#[trigger] s.adopted(b)).store == s.store,
{
    reveal(MfsView::itab_reload);
}

/// Nor does loading a bitmap from a block on.
pub broadcast proof fn look_bitmap_from(s: MfsView, head: Seq<u8>, copy: int, c: int)
    ensures
        (#[trigger] s.bitmap_from(head, copy, c)).0.store == s.store,
    decreases mfs::bb_for(s.total) - c,
{
    reveal(MfsView::with_bitmap_block);
    if c < mfs::bb_for(s.total) {
        match s.rd((s.bmp_start(copy) + c) as u32) {
            None => {},
            Some(d) => {
                let t = s.with_bitmap_block(c, d);
                if t.total == s.total {
                    look_bitmap_from(t, head, copy, c + 1);
                }
            },
        }
    }
}

/// Nor does loading a bitmap.
pub broadcast proof fn look_load_bitmap(s: MfsView, copy: int)
    ensures
        (#[trigger] s.load_bitmap(copy)).0.store == s.store,
{
    broadcast use look_bitmap_from;

    reveal(MfsView::load_bitmap);
}

/// Nor does trying a copy.
pub broadcast proof fn look_load_copy(s: MfsView, copy: int, f: Found)
    ensures
        (#[trigger] s.load_copy(copy, f)).0.store == s.store,
{
    broadcast use {look_adopted, look_load_bitmap};

    reveal(MfsView::load_copy);
}

/// Loading the volume means to write to it: a copy can be used though its bitmap cannot, and all
/// that the copy names can be read, so that the bitmap is built anew.
pub open spec fn mends(s: MfsView) -> bool {
    let (s1, f1) = s.load_copy(0, Found { any: false, gen: 0, bitmap: false });
    let (s2, f2) = s1.load_copy(1, f1);
    f2.any && !f2.bitmap && MfsView {
        bmp: filled(s2.bmp, mfs::bb_for(s2.total) * 32768, true),
        free: 0,
        ..s2
    }.gc_mark().1
}

/// A volume loaded without its bitmap built anew is only read, and where that fails it cannot be
/// loaded.
proof fn lemma_load_reads(s: MfsView)
    requires
        !s.load_state().1,
        !mends(s),
    ensures
        s.load_state().0.store == s.store,
{
    broadcast use look_load_copy;

    reveal(MfsView::load_state);
    reveal(MfsView::rebuild);
    reveal(MfsView::gc);
}

/// Law: a request for a volume that cannot be loaded fails. The volume that was current stays
/// current with its own tables, so the next such request tries to load the volume again. The
/// volume that cannot be loaded is not written, unless its own bitmap could be built anew from
/// what is on it; it is never written from the tables of another volume.
pub proof fn law_unloadable_volume_is_not_written(
    s: MfsSrvView,
    enc: u64,
    req: Request,
    owner: u16,
    now: u64,
)
    requires
        s.target(enc, req) != s.fs.vol,
        ({
            let a = MfsView { now, ..s.fs }.maybe_gc();
            let vol = s.target(enc, req);
            !a.other(vol, mfs_vol::listed_sectors(s.list, vol)).load_state().1
        }),
    ensures
        ({
            let a = MfsView { now, ..s.fs }.maybe_gc();
            let vol = s.target(enc, req);
            let b = a.other(vol, mfs_vol::listed_sectors(s.list, vol));
            let (t, r) = s.serve(enc, req, owner, now);
            &&& r is Fail
            &&& t == (MfsSrvView { fs: MfsView { store: b.load_state().0.store, ..a }, ..s })
            &&& t.fs.vol == s.fs.vol
            &&& !mends(b) ==> t.fs.store == a.store
        }),
{
    broadcast use frame_maybe_gc;

    reveal(MfsView::switch_vol);
    let a = MfsView { now, ..s.fs };
    assert(within(a, a.maybe_gc()));
    let vol = s.target(enc, req);
    let b = a.maybe_gc().other(vol, mfs_vol::listed_sectors(s.list, vol));
    if !mends(b) {
        lemma_load_reads(b);
    }
}

/// Requests that only look.
pub open spec fn looks(req: Request) -> bool {
    req is Open || req is Read || req is Readdir || req is Close || req is Stat || req is Lstat
        || req is Readlink || req is Usage || req is SnapshotList
}

/// Law: opening, reading, listing, closing and asking about files changes no volume, where the
/// volume asked for is the current one and has no need to have its unused blocks collected.
pub proof fn law_looking_changes_nothing(
    s: MfsSrvView,
    enc: u64,
    req: Request,
    owner: u16,
    now: u64,
)
    requires
        looks(req),
        s.target(enc, req) == s.fs.vol,
        s.fs.total == 0 || s.fs.free > s.fs.total / MFS_GC_LOW_WATER_DIV,
    ensures
        s.serve(enc, req, owner, now).0.fs.store == s.fs.store,
{
    broadcast use {look_resolve, look_stat, look_open_kind, look_readlink, look_read_file};
    broadcast use look_readdir;

    reveal(MfsView::maybe_gc);
    reveal(MfsSrvView::answer);
    reveal(MfsSrvView::open);
    reveal(MfsSrvView::on_fd);
    reveal(MfsSrvView::fd_ino);
    reveal(MfsSrvView::on_path);
    reveal(MfsSrvView::on_volume);
}

} // verus!
