//! MorionFS: names in a directory block. What was put in is found, what was taken out is not,
//! and no other name is touched.
use vstd::prelude::*;

use crate::bytes;
use crate::mfs_dir;

verus! {

/// The entries from `off` on fill the block: every length is possible and covers the name.
pub open spec fn wf(b: Seq<u8>, off: int) -> bool
    decreases 4096 - off,
{
    if off + 8 > 4096 {
        true
    } else if mfs_dir::ent_bad(b, off) {
        false
    } else {
        (mfs_dir::ent_nlen(b, off) != 0 ==> mfs_dir::ent_need(mfs_dir::ent_nlen(b, off))
            <= mfs_dir::ent_rec(b, off)) && wf(b, off + mfs_dir::ent_rec(b, off))
    }
}

/// The number and the type of the entry with name `n`, from `off` on.
pub open spec fn hit(b: Seq<u8>, off: int, n: Seq<u8>) -> Option<(u32, u32)> {
    match mfs_dir::scan(b, off, n) {
        Some(p) => Some((mfs_dir::ent_ino(b, p), mfs_dir::ent_type(b, p))),
        None => None,
    }
}

/// How many entries have the name `n`, from `off` on.
pub open spec fn count(b: Seq<u8>, off: int, n: Seq<u8>) -> int
    decreases 4096 - off,
{
    if off + 8 > 4096 || mfs_dir::ent_bad(b, off) {
        0
    } else {
        share(says(b, off, n)) + count(b, off + mfs_dir::ent_rec(b, off), n)
    }
}

/// One for an entry with the name, none for another.
pub open spec fn share(h: Option<(u32, u32)>) -> int {
    if h is Some {
        1
    } else {
        0
    }
}

/// What one entry says.
pub open spec fn says(b: Seq<u8>, off: int, n: Seq<u8>) -> Option<(u32, u32)> {
    if mfs_dir::ent_is(b, off, n) {
        Some((mfs_dir::ent_ino(b, off), mfs_dir::ent_type(b, off)))
    } else {
        None
    }
}

/// The first entry, or else the rest.
pub proof fn lemma_hit(b: Seq<u8>, off: int, n: Seq<u8>)
    requires
        wf(b, off),
        off + 8 <= 4096,
    ensures
        hit(b, off, n) == match says(b, off, n) {
            Some(x) => Some(x),
            None => hit(b, off + mfs_dir::ent_rec(b, off), n),
        },
        count(b, off, n) == share(says(b, off, n)) + count(b, off + mfs_dir::ent_rec(b, off), n),
        wf(b, off + mfs_dir::ent_rec(b, off)),
        12 <= mfs_dir::ent_rec(b, off),
        off + mfs_dir::ent_rec(b, off) <= 4096,
{
}

/// A name is found where some entry has it; behind the first there is one less.
pub proof fn lemma_count(b: Seq<u8>, off: int, n: Seq<u8>)
    requires
        wf(b, off),
    ensures
        count(b, off, n) >= 0,
        hit(b, off, n) is None <==> count(b, off, n) == 0,
        mfs_dir::scan(b, off, n) matches Some(at) ==> count(b, off, n) == 1 + count(
            b,
            at + mfs_dir::ent_rec(b, at),
            n,
        ) && wf(b, at + mfs_dir::ent_rec(b, at)),
    decreases 4096 - off,
{
    if off + 8 <= 4096 {
        lemma_hit(b, off, n);
        lemma_count(b, off + mfs_dir::ent_rec(b, off), n);
    }
}

/// Two blocks with the same bytes for the entry at `off`.
pub open spec fn same_entry(b: Seq<u8>, c: Seq<u8>, off: int) -> bool {
    &&& mfs_dir::ent_rec(c, off) == mfs_dir::ent_rec(b, off)
    &&& mfs_dir::ent_nlen(c, off) == mfs_dir::ent_nlen(b, off)
    &&& forall|n: Seq<u8>| #[trigger] says(c, off, n) == says(b, off, n)
}

/// An entry is in its bytes.
pub proof fn lemma_same_entry(b: Seq<u8>, c: Seq<u8>, off: int, end: int)
    requires
        b.len() == 4096,
        c.len() == 4096,
        0 <= off,
        off + 8 <= end <= 4096,
        mfs_dir::ent_nlen(b, off) != 0 ==> off + 8 + mfs_dir::ent_nlen(b, off) <= end,
        forall|k: int| off <= k < end ==> c[k] == b[k],
    ensures
        same_entry(b, c, off),
{
    assert(c[off + 5] == b[off + 5]);
    assert(c[off + 6] == b[off + 6] && c[off + 7] == b[off + 7]);
    assert(c[off] == b[off] && c[off + 1] == b[off + 1] && c[off + 2] == b[off + 2] && c[off + 3]
        == b[off + 3]);
    assert(c[off + 4] == b[off + 4]);
    if mfs_dir::ent_nlen(b, off) != 0 {
        assert(mfs_dir::ent_name(c, off) =~= mfs_dir::ent_name(b, off));
    }
}

/// The entries from `off` on are in the bytes from `off` on.
pub proof fn lemma_same_from(b: Seq<u8>, c: Seq<u8>, off: int, n: Seq<u8>)
    requires
        b.len() == 4096,
        c.len() == 4096,
        0 <= off,
        wf(b, off),
        forall|k: int| off <= k < 4096 ==> c[k] == b[k],
    ensures
        wf(c, off),
        hit(c, off, n) == hit(b, off, n),
        count(c, off, n) == count(b, off, n),
    decreases 4096 - off,
{
    if off + 8 <= 4096 {
        lemma_hit(b, off, n);
        let rec = mfs_dir::ent_rec(b, off);
        lemma_same_entry(b, c, off, off + rec);
        lemma_same_from(b, c, off + rec, n);
        assert(says(c, off, n) == says(b, off, n));
        lemma_hit(c, off, n);
    }
}

/// A header written.
proof fn lemma_head(b: Seq<u8>, off: int, ino: u32, typ: u8, nlen: u8, rec: int)
    requires
        b.len() == 4096,
        0 <= off,
        off + 8 <= 4096,
        0 <= rec <= 4096,
    ensures
        ({
            let h = mfs_dir::ent_head(b, off, ino, typ, nlen, rec);
            &&& h.len() == 4096
            &&& mfs_dir::ent_ino(h, off) == ino
            &&& mfs_dir::ent_type(h, off) == typ
            &&& mfs_dir::ent_nlen(h, off) == nlen
            &&& mfs_dir::ent_rec(h, off) == rec
            &&& forall|k: int|
                0 <= k < 4096 && (k < off || off + 8 <= k) ==> #[trigger] h[k] == b[k]
        }),
{
    let b1 = bytes::put32(b, off, ino);
    bytes::law_put32_reads_back(b, off, ino);
    let b2 = b1.update(off + 4, typ).update(off + 5, nlen);
    let h = bytes::put16(b2, off + 6, rec as u16);
    bytes::law_put16_reads_back(b2, off + 6, rec as u16);
    assert(h[off] == b1[off] && h[off + 1] == b1[off + 1] && h[off + 2] == b1[off + 2] && h[off + 3]
        == b1[off + 3]);
    assert(h[off + 4] == typ);
    assert(h[off + 5] == nlen);
}

/// An entry written.
proof fn lemma_filled(b: Seq<u8>, off: int, comp: Seq<u8>, ino: u32, typ: u32, rec: int)
    requires
        b.len() == 4096,
        0 <= off,
        0 < comp.len() <= 255,
        off + 8 + comp.len() <= 4096,
        0 <= rec <= 4096,
        typ < 256,
    ensures
        ({
            let h = mfs_dir::ent_filled(b, off, comp, ino, typ, rec);
            &&& h.len() == 4096
            &&& mfs_dir::ent_nlen(h, off) == comp.len()
            &&& mfs_dir::ent_rec(h, off) == rec
            &&& mfs_dir::ent_is(h, off, comp)
            &&& says(h, off, comp) == Some((ino, typ))
            &&& forall|n: Seq<u8>| n != comp ==> #[trigger] says(h, off, n) is None
            &&& forall|k: int|
                0 <= k < 4096 && (k < off || off + 8 + comp.len() <= k) ==> #[trigger] h[k] == b[k]
        }),
{
    let g = mfs_dir::ent_head(b, off, ino, typ as u8, comp.len() as u8, rec);
    lemma_head(b, off, ino, typ as u8, comp.len() as u8, rec);
    let h = bytes::splice(g, off + 8, comp);
    assert(h[off] == g[off] && h[off + 1] == g[off + 1] && h[off + 2] == g[off + 2] && h[off + 3]
        == g[off + 3]);
    assert(h[off + 4] == g[off + 4]);
    assert(h[off + 5] == g[off + 5]);
    assert(h[off + 6] == g[off + 6] && h[off + 7] == g[off + 7]);
    assert(mfs_dir::ent_name(h, off) =~= comp);
}

/// The parts of a block after an entry was put behind what the entry at `off` takes.
proof fn lemma_placed_parts(b: Seq<u8>, off: int, comp: Seq<u8>, child: u32, typ: u32)
    requires
        b.len() == 4096,
        0 <= off,
        off + 8 <= 4096,
        wf(b, off),
        0 < comp.len() <= 255,
        typ < 256,
        mfs_dir::ent_rec(b, off) >= mfs_dir::ent_used(b, off) + mfs_dir::ent_need(
            comp.len() as int,
        ),
    ensures
        ({
            let c = mfs_dir::placed(b, off, comp, child, typ);
            let used = mfs_dir::ent_used(b, off);
            let avail = mfs_dir::ent_rec(b, off) - used;
            let take = mfs_dir::ent_take(avail, mfs_dir::ent_need(comp.len() as int));
            let q = off + used;
            &&& c.len() == 4096
            &&& 0 < take <= avail
            &&& take >= mfs_dir::ent_need(comp.len() as int)
            &&& forall|k: int|
                0 <= k < 4096 && (k < off || off + mfs_dir::ent_rec(b, off) <= k) ==> #[trigger] c[k]
                    == b[k]
            &&& used > 0 ==> mfs_dir::ent_rec(c, off) == used && mfs_dir::ent_nlen(c, off)
                == mfs_dir::ent_nlen(b, off) && forall|n: Seq<u8>| #[trigger]
                says(c, off, n) == says(b, off, n)
            &&& mfs_dir::ent_nlen(c, q) == comp.len()
            &&& mfs_dir::ent_rec(c, q) == take
            &&& says(c, q, comp) == Some((child, typ))
            &&& forall|n: Seq<u8>| n != comp ==> #[trigger] says(c, q, n) is None
            &&& take < avail ==> mfs_dir::ent_nlen(c, q + take) == 0 && mfs_dir::ent_rec(
                c,
                q + take,
            ) == avail - take && avail - take >= 12
        }),
{
    lemma_hit(b, off, comp);
    let rec = mfs_dir::ent_rec(b, off);
    let used = mfs_dir::ent_used(b, off);
    let avail = rec - used;
    let need = mfs_dir::ent_need(comp.len() as int);
    let take = mfs_dir::ent_take(avail, need);
    let q = off + used;
    let b1 = if used > 0 {
        bytes::put16(b, off + 6, used as u16)
    } else {
        b
    };
    if used > 0 {
        bytes::law_put16_reads_back(b, off + 6, used as u16);
    }
    lemma_filled(b1, q, comp, child, typ, take);
    let b2 = mfs_dir::ent_filled(b1, q, comp, child, typ, take);
    let c = mfs_dir::placed(b, off, comp, child, typ);
    assert forall|k: int| 0 <= k < 4096 && (k < off || off + rec <= k) implies #[trigger] b2[k]
        == b[k] by {}
    if take < avail {
        lemma_head(b2, q + take, 0, 0, 0, avail - take);
        assert(c == mfs_dir::ent_head(b2, q + take, 0, 0, 0, avail - take));
        assert forall|k: int| q <= k < q + take implies #[trigger] c[k] == b2[k] by {}
        lemma_same_entry(b2, c, q, q + take);
    } else {
        assert(c == b2);
    }
    if used > 0 {
        assert forall|k: int| off <= k < off + used && !(off + 6 <= k < off + 8) implies
            #[trigger] c[k] == b[k] by {
            assert(b2[k] == b1[k]);
        }
        assert(c[off + 6] == b1[off + 6] && c[off + 7] == b1[off + 7]);
        assert(c[off + 5] == b[off + 5]);
        assert(c[off] == b[off] && c[off + 1] == b[off + 1] && c[off + 2] == b[off + 2] && c[off
            + 3] == b[off + 3]);
        assert(c[off + 4] == b[off + 4]);
        assert(mfs_dir::ent_name(c, off) =~= mfs_dir::ent_name(b, off));
    }
}

/// Where an entry is put.
proof fn lemma_slot(b: Seq<u8>, o: int, off: int, need: int)
    requires
        wf(b, o),
        mfs_dir::slot_for(b, o, need) == Some(off),
    ensures
        o <= off,
        off + 8 <= 4096,
        wf(b, off),
        mfs_dir::ent_rec(b, off) >= mfs_dir::ent_used(b, off) + need,
        o != off ==> o + mfs_dir::ent_rec(b, o) <= off && mfs_dir::slot_for(
            b,
            o + mfs_dir::ent_rec(b, o),
            need,
        ) == Some(off),
    decreases 4096 - o,
{
    if mfs_dir::ent_rec(b, o) < mfs_dir::ent_used(b, o) + need {
        lemma_slot(b, o + mfs_dir::ent_rec(b, o), off, need);
    }
}

/// A directory block from the place on where an entry was put into it.
proof fn lemma_placed_here(
    b: Seq<u8>,
    off: int,
    comp: Seq<u8>,
    child: u32,
    typ: u32,
    n: Seq<u8>,
)
    requires
        b.len() == 4096,
        0 <= off,
        off + 8 <= 4096,
        wf(b, off),
        0 < comp.len() <= 255,
        typ < 256,
        mfs_dir::ent_rec(b, off) >= mfs_dir::ent_used(b, off) + mfs_dir::ent_need(
            comp.len() as int,
        ),
        hit(b, off, comp) is None,
    ensures
        ({
            let c = mfs_dir::placed(b, off, comp, child, typ);
            &&& wf(c, off)
            &&& hit(c, off, n) == if n == comp {
                Some((child, typ))
            } else {
                hit(b, off, n)
            }
            &&& count(c, off, n) == count(b, off, n) + if n == comp {
                1int
            } else {
                0
            }
        }),
{
    let c = mfs_dir::placed(b, off, comp, child, typ);
    let rec = mfs_dir::ent_rec(b, off);
    lemma_hit(b, off, n);
    lemma_hit(b, off, comp);
    lemma_placed_parts(b, off, comp, child, typ);
    let used = mfs_dir::ent_used(b, off);
    let avail = rec - used;
    let take = mfs_dir::ent_take(avail, mfs_dir::ent_need(comp.len() as int));
    let q = off + used;
    lemma_same_from(b, c, off + rec, n);
    assert(wf(c, q + take) && hit(c, q + take, n) == hit(b, off + rec, n) && count(c, q + take, n)
        == count(b, off + rec, n)) by {
        if take < avail {
            assert(q + take + (avail - take) == off + rec);
            assert(wf(c, q + take));
            lemma_hit(c, q + take, n);
            assert(says(c, q + take, n) is None);
        }
    }
    assert(wf(c, q));
    lemma_hit(c, q, n);
    if n != comp {
        assert(says(c, q, n) is None);
    }
    if used > 0 {
        assert(wf(c, off));
        lemma_hit(c, off, n);
        assert(says(c, off, n) == says(b, off, n));
        assert(says(b, off, comp) is None);
    } else {
        assert(says(b, off, n) is None);
    }
}

/// A directory block after an entry was put into it, from `o` on.
proof fn lemma_placed_from(
    b: Seq<u8>,
    o: int,
    off: int,
    comp: Seq<u8>,
    child: u32,
    typ: u32,
    n: Seq<u8>,
)
    requires
        b.len() == 4096,
        0 <= o,
        wf(b, o),
        0 < comp.len() <= 255,
        typ < 256,
        mfs_dir::slot_for(b, o, mfs_dir::ent_need(comp.len() as int)) == Some(off),
        hit(b, o, comp) is None,
    ensures
        ({
            let c = mfs_dir::placed(b, off, comp, child, typ);
            &&& wf(c, o)
            &&& hit(c, o, n) == if n == comp {
                Some((child, typ))
            } else {
                hit(b, o, n)
            }
            &&& count(c, o, n) == count(b, o, n) + if n == comp {
                1int
            } else {
                0
            }
        }),
    decreases 4096 - o,
{
    let c = mfs_dir::placed(b, off, comp, child, typ);
    lemma_slot(b, o, off, mfs_dir::ent_need(comp.len() as int));
    if o != off {
        let rec = mfs_dir::ent_rec(b, o);
        lemma_hit(b, o, n);
        lemma_hit(b, o, comp);
        lemma_placed_from(b, o + rec, off, comp, child, typ, n);
        lemma_placed_parts(b, off, comp, child, typ);
        lemma_same_entry(b, c, o, o + rec);
        assert(says(c, o, n) == says(b, o, n));
        assert(wf(c, o));
        lemma_hit(c, o, n);
    } else {
        lemma_placed_here(b, off, comp, child, typ, n);
    }
}

/// Law: an entry put into a directory block is found there, under its name, with its number
/// and its type. Every other name is found or not found as before.
pub proof fn law_placed_is_found(
    b: Seq<u8>,
    comp: Seq<u8>,
    child: u32,
    typ: u32,
    off: int,
    n: Seq<u8>,
)
    requires
        b.len() == 4096,
        wf(b, 56),
        0 < comp.len() <= 255,
        typ < 256,
        hit(b, 56, comp) is None,
        mfs_dir::slot_for(b, 56, mfs_dir::ent_need(comp.len() as int)) == Some(off),
    ensures
        wf(mfs_dir::placed(b, off, comp, child, typ), 56),
        mfs_dir::placed(b, off, comp, child, typ).len() == 4096,
        hit(mfs_dir::placed(b, off, comp, child, typ), 56, n) == if n == comp {
            Some((child, typ))
        } else {
            hit(b, 56, n)
        },
        count(mfs_dir::placed(b, off, comp, child, typ), 56, n) == count(b, 56, n) + if n == comp {
            1int
        } else {
            0
        },
        forall|k: int|
            0 <= k < 56 ==> #[trigger] mfs_dir::placed(b, off, comp, child, typ)[k] == b[k],
{
    lemma_slot(b, 56, off, mfs_dir::ent_need(comp.len() as int));
    lemma_placed_from(b, 56, off, comp, child, typ, n);
    lemma_placed_parts(b, off, comp, child, typ);
}

/// The entry before another one.
proof fn lemma_prev(b: Seq<u8>, o: int, prev: Option<int>, comp: Seq<u8>, at: int)
    requires
        wf(b, o),
        mfs_dir::scan(b, o, comp) == Some(at),
    ensures
        o <= at,
        at + 8 <= 4096,
        wf(b, at),
        mfs_dir::ent_is(b, at, comp),
        match mfs_dir::prev_entry(b, o, prev, at) {
            None => false,
            Some(r) => if o == at {
                r == prev
            } else {
                r matches Some(p) && o <= p && p + 8 <= 4096 && wf(b, p) && p + mfs_dir::ent_rec(
                    b,
                    p,
                ) == at && mfs_dir::prev_entry(b, o, None, at) == Some(Some(p))
            },
        },
    decreases 4096 - o,
{
    if !mfs_dir::ent_is(b, o, comp) {
        let rec = mfs_dir::ent_rec(b, o);
        lemma_prev(b, o + rec, Some(o), comp, at);
    }
}

/// A directory block after an entry was taken out, from `o` on.
proof fn lemma_without_from(b: Seq<u8>, o: int, comp: Seq<u8>, at: int, p: int, n: Seq<u8>)
    requires
        b.len() == 4096,
        0 <= o,
        wf(b, o),
        mfs_dir::scan(b, o, comp) == Some(at),
        o != at,
        mfs_dir::prev_entry(b, o, None, at) == Some(Some(p)),
        hit(b, at + mfs_dir::ent_rec(b, at), comp) is None,
    ensures
        ({
            let sum = mfs_dir::ent_rec(b, p) + mfs_dir::ent_rec(b, at);
            let c = bytes::put16(b, p + 6, (sum % 0x1_0000) as u16);
            &&& c.len() == 4096
            &&& o <= p
            &&& wf(c, o)
            &&& hit(c, o, n) == if n == comp {
                None
            } else {
                hit(b, o, n)
            }
            &&& count(c, o, n) == count(b, o, n) - if n == comp {
                1int
            } else {
                0
            }
        }),
    decreases 4096 - o,
{
    lemma_prev(b, o, None, comp, at);
    let rec = mfs_dir::ent_rec(b, o);
    let sum = mfs_dir::ent_rec(b, p) + mfs_dir::ent_rec(b, at);
    let c = bytes::put16(b, p + 6, (sum % 0x1_0000) as u16);
    lemma_hit(b, o, n);
    lemma_hit(b, o, comp);
    lemma_hit(b, at, n);
    lemma_hit(b, at, comp);
    lemma_hit(b, p, n);
    bytes::law_put16_reads_back(b, p + 6, (sum % 0x1_0000) as u16);
    if o + rec == at {
        lemma_prev(b, at, Some(o), comp, at);
        assert(mfs_dir::prev_entry(b, at, Some(o), at) == Some(Some(o)));
        assert(p == o);
        assert(mfs_dir::ent_rec(c, o) == sum);
        let next = at + mfs_dir::ent_rec(b, at);
        lemma_same_from(b, c, next, n);
        assert(c[o + 5] == b[o + 5]);
        assert(c[o] == b[o] && c[o + 1] == b[o + 1] && c[o + 2] == b[o + 2] && c[o + 3] == b[o
            + 3]);
        assert(c[o + 4] == b[o + 4]);
        if mfs_dir::ent_nlen(b, o) != 0 {
            assert(mfs_dir::ent_name(c, o) =~= mfs_dir::ent_name(b, o));
        }
        assert(says(c, o, n) == says(b, o, n));
        assert(wf(c, o));
        lemma_hit(c, o, n);
        if n == comp {
            assert(says(b, o, comp) is None);
        } else {
            assert(says(b, at, n) is None) by {
                assert(mfs_dir::ent_is(b, at, comp));
            }
        }
    } else {
        lemma_prev(b, o + rec, Some(o), comp, at);
        assert(mfs_dir::prev_entry(b, o + rec, None, at) == Some(Some(p)));
        lemma_without_from(b, o + rec, comp, at, p, n);
        lemma_same_entry(b, c, o, o + rec);
        assert(says(c, o, n) == says(b, o, n));
        lemma_hit(c, o, n);
        if n == comp {
            assert(says(b, o, comp) is None);
        }
    }
}

/// Law: an entry taken out of a directory block is not found there any more, where its name
/// was there once. Every other name is found or not found as before.
pub proof fn law_removed_is_gone(b: Seq<u8>, comp: Seq<u8>, at: int, n: Seq<u8>)
    requires
        b.len() == 4096,
        wf(b, 56),
        mfs_dir::scan(b, 56, comp) == Some(at),
        hit(b, at + mfs_dir::ent_rec(b, at), comp) is None,
    ensures
        mfs_dir::without(b, at) matches Some(c) && c.len() == 4096 && wf(c, 56) && (hit(c, 56, n)
            == if n == comp {
            None
        } else {
            hit(b, 56, n)
        }) && (count(c, 56, n) == count(b, 56, n) - if n == comp {
            1int
        } else {
            0
        }) && forall|k: int| 0 <= k < 56 ==> #[trigger] c[k] == b[k],
{
    lemma_prev(b, 56, None, comp, at);
    lemma_hit(b, at, n);
    lemma_hit(b, at, comp);
    if at == 56 {
        let rec = mfs_dir::ent_rec(b, at);
        let c = mfs_dir::ent_cleared(b, at, rec);
        lemma_head(b, at, 0, 0, 0, rec);
        lemma_same_from(b, c, at + rec, n);
        assert(says(c, at, n) is None);
        assert(wf(c, 56));
        lemma_hit(c, 56, n);
        if n != comp {
            assert(says(b, at, n) is None) by {
                assert(mfs_dir::ent_is(b, at, comp));
            }
        }
    } else {
        let p = mfs_dir::prev_entry(b, 56, None, at)->Some_0->Some_0;
        lemma_without_from(b, 56, comp, at, p, n);
    }
}

/// Law: an empty directory block has no names.
pub proof fn law_empty_has_none(b: Seq<u8>, n: Seq<u8>)
    requires
        b.len() == 4096,
    ensures
        mfs_dir::empty_dir(b).len() == 4096,
        wf(mfs_dir::empty_dir(b), 56),
        hit(mfs_dir::empty_dir(b), 56, n) is None,
        count(mfs_dir::empty_dir(b), 56, n) == 0,
{
    let b2 = bytes::put32(bytes::put32(b, 8, 0), 12, 0);
    lemma_head(b2, 56, 0, 0, 0, 4040);
    let c = mfs_dir::empty_dir(b);
    assert(mfs_dir::ent_rec(c, 56) == 4040);
    assert(wf(c, 4096));
    assert(wf(c, 56));
    lemma_hit(c, 56, n);
    assert(says(c, 56, n) is None);
}

} // verus!
