//! What holds of files on exFAT volumes whose length is set: the bytes up to it stay, zeros are
//! added, and clusters that are no longer needed are free.
use vstd::prelude::*;

use crate::exfat::{ExfatView, EXFAT_FAT_EOC};
use crate::exfat_cut;
use crate::exfat_dir::EntryView;
use crate::exfat_file;
use crate::exfat_laws;
use crate::exfat_laws::{data_of, entry, fit, fits, linked, same_volume, used, valid, vol_ok};
use crate::exfat_sets;
use crate::exfat_write;
use crate::exfat_write::{apart, chain_of, content, owned};

verus! {

/// Bytes made `n` long: cut, or followed by zeros.
pub open spec fn resized(old: Seq<u8>, n: int) -> Seq<u8> {
    Seq::new(
        n as nat,
        |pos: int|
            if pos < old.len() {
                old[pos]
            } else {
                0u8
            },
    )
}

/// What cutting the chain `ch` to its first `need` clusters leaves.
pub open spec fn cut(s: ExfatView, t: ExfatView, bm: Seq<u32>, ch: Seq<u32>, need: int) -> bool {
    let keep = ch.subrange(0, need);
    &&& vol_ok(t, bm)
    &&& same_volume(s, t)
    &&& t.now == s.now
    &&& linked(t, keep)
    &&& owned(t, bm, keep)
    &&& forall|k: int| need <= k < ch.len() ==> !used(t, bm, #[trigger] ch[k])
    &&& forall|d: u32|
        valid(s.geo, d) && !ch.contains(d) ==> #[trigger] used(t, bm, d) == used(s, bm, d)
    &&& forall|d: u32| valid(s.geo, d) && !ch.contains(d) ==> #[trigger] entry(t, d) == entry(s, d)
    &&& forall|d: u32|
        valid(s.geo, d) && !bm.contains(d) ==> #[trigger] data_of(t, d) == data_of(s, d)
}

/// A chain cut.
proof fn lemma_cut(s: ExfatView, bm: Seq<u32>, ch: Seq<u32>, need: u32)
    requires
        vol_ok(s, bm),
        linked(s, ch),
        owned(s, bm, ch),
        0 < need <= ch.len(),
        s.cut_chain(ch[0], ch.len() as u32, need).1,
    ensures
        cut(s, s.cut_chain(ch[0], ch.len() as u32, need).0, bm, ch, need as int),
{
    reveal(ExfatView::cut_chain);
    exfat_laws::lemma_vol(s, bm);
    exfat_laws::lemma_chain_fits(s.geo, ch);
    let n = ch.len() as int;
    let keep = ch.subrange(0, need as int);
    if n == need {
        assert(keep =~= ch);
    } else {
        let tail = ch[need - 1];
        let rest = ch.subrange(need as int, n);
        assert(valid(s.geo, ch[0]));
        assert(valid(s.geo, ch[need - 1]));
        assert(valid(s.geo, ch[need as int]));
        exfat_laws::lemma_nth(s, ch, 0, need - 1);
        exfat_laws::lemma_rd_cl(s, tail);
        assert(entry(s, ch[need - 1]) == ch[need as int]);
        exfat_write::lemma_set(s, bm, tail, EXFAT_FAT_EOC);
        let s1 = s.fat_set(tail, EXFAT_FAT_EOC).0;
        lemma_rest(s, s1, bm, ch, need as int);
        assert(rest[0] == ch[need as int]);
        let t = s.cut_chain(ch[0], n as u32, need).0;
        assert((t, true) == s1.free_from(rest[0], 0, false, 0)) by {
            reveal(ExfatView::free_chain);
        }
        exfat_cut::lemma_free_linked(s1, bm, rest, 0, 0);
        assert(t == s1.free_from(rest[0], 0, false, 0).0);
        lemma_keep(s, s1, t, bm, ch, need as int);
    }
}

/// The clusters behind the cut are a chain.
proof fn lemma_rest(s: ExfatView, s1: ExfatView, bm: Seq<u32>, ch: Seq<u32>, need: int)
    requires
        linked(s, ch),
        owned(s, bm, ch),
        0 < need < ch.len(),
        s1.geo == s.geo,
        forall|d: u32|
            valid(s.geo, d) && d != ch[need - 1] ==> #[trigger] entry(s1, d) == entry(s, d),
    ensures
        linked(s1, ch.subrange(need, ch.len() as int)),
        forall|k: int|
            0 <= k < ch.len() - need ==> !bm.contains(
                #[trigger] ch.subrange(need, ch.len() as int)[k],
            ),
{
    let rest = ch.subrange(need, ch.len() as int);
    assert forall|k: int| 0 <= k < rest.len() implies valid(s1.geo, #[trigger] rest[k])
        && !bm.contains(rest[k]) && entry(s1, rest[k]) == entry(s, ch[k + need]) by {
        assert(rest[k] == ch[k + need]);
        assert(valid(s.geo, ch[k + need]));
        assert(ch[k + need] != ch[need - 1]);
    }
    assert forall|k: int| 0 <= k < rest.len() - 1 implies entry(s1, #[trigger] rest[k]) == rest[k
        + 1] by {
        assert(entry(s, ch[k + need]) == ch[k + need + 1]);
    }
    assert(rest.last() == ch.last());
    assert(entry(s1, rest[rest.len() - 1]) == entry(s, ch[ch.len() - 1]));
}

/// The clusters before the cut.
proof fn lemma_keep(
    s: ExfatView,
    s1: ExfatView,
    t: ExfatView,
    bm: Seq<u32>,
    ch: Seq<u32>,
    need: int,
)
    requires
        vol_ok(s, bm),
        linked(s, ch),
        owned(s, bm, ch),
        0 < need < ch.len(),
        exfat_laws::same_state(s, s1),
        entry(s1, ch[need - 1]) == EXFAT_FAT_EOC,
        forall|d: u32|
            valid(s.geo, d) && d != ch[need - 1] ==> #[trigger] entry(s1, d) == entry(s, d),
        forall|d: u32| valid(s.geo, d) ==> #[trigger] data_of(s1, d) == data_of(s, d),
        forall|d: u32| valid(s.geo, d) ==> #[trigger] used(s1, bm, d) == used(s, bm, d),
        exfat_cut::freed(s1, t, bm, ch.subrange(need, ch.len() as int)),
    ensures
        cut(s, t, bm, ch, need),
{
    let n = ch.len() as int;
    let keep = ch.subrange(0, need);
    let rest = ch.subrange(need, n);
    assert forall|d: u32| !ch.contains(d) implies !#[trigger] rest.contains(d) by {
        if rest.contains(d) {
            let j = choose|j: int| 0 <= j < rest.len() && rest[j] == d;
            assert(ch[j + need] == d);
        }
    }
    assert forall|k: int| 0 <= k < need implies !rest.contains(#[trigger] keep[k]) && keep[k]
        == ch[k] && valid(s.geo, keep[k]) && used(t, bm, keep[k]) && !bm.contains(keep[k])
        && entry(t, keep[k]) == entry(s1, keep[k]) by {
        assert(valid(s.geo, ch[k]) && used(s, bm, ch[k]) && !bm.contains(ch[k]));
        if rest.contains(ch[k]) {
            let j = choose|j: int| 0 <= j < rest.len() && rest[j] == ch[k];
            assert(ch[j + need] == ch[k]);
        }
        assert(used(s1, bm, ch[k]) == used(s, bm, ch[k]));
        assert(used(t, bm, ch[k]) == used(s1, bm, ch[k]));
    }
    assert forall|k: int| 0 <= k < need - 1 implies entry(t, #[trigger] keep[k]) == keep[k
        + 1] by {
        assert(keep[k] == ch[k] && keep[k + 1] == ch[k + 1]);
        assert(ch[k] != ch[need - 1]);
        assert(entry(s1, ch[k]) == entry(s, ch[k]));
        assert(entry(s, ch[k]) == ch[k + 1]);
    }
    assert(keep.last() == keep[need - 1]);
    assert(keep.no_duplicates());
    assert forall|k: int| need <= k < n implies !used(t, bm, #[trigger] ch[k]) by {
        assert(rest[k - need] == ch[k]);
    }
    assert forall|d: u32| valid(s.geo, d) && !ch.contains(d) implies #[trigger] used(t, bm, d)
        == used(s, bm, d) by {
        assert(!rest.contains(d));
        assert(used(s1, bm, d) == used(s, bm, d));
    }
    assert forall|d: u32| valid(s.geo, d) && !ch.contains(d) implies #[trigger] entry(t, d)
        == entry(s, d) by {
        assert(!rest.contains(d));
        assert(ch.contains(ch[need - 1]));
        assert(entry(s1, d) == entry(s, d));
    }
    assert forall|d: u32| valid(s.geo, d) && !bm.contains(d) implies #[trigger] data_of(t, d)
        == data_of(s, d) by {
        assert(data_of(s1, d) == data_of(s, d));
    }
}

/// The bytes of a file whose length was set.
proof fn lemma_resized(
    s: ExfatView,
    e: EntryView,
    ch: Seq<u32>,
    t: ExfatView,
    f: EntryView,
    keep: Seq<u32>,
    size: int,
)
    requires
        s.geo.cb() > 0,
        t.geo == s.geo,
        e.valid <= e.size <= ch.len() * s.geo.cb(),
        f.size == size,
        f.valid == exfat_file::min_of(e.valid as int, size),
        size <= keep.len() * s.geo.cb(),
        forall|i: int|
            0 <= i < keep.len() && i < ch.len() ==> data_of(t, #[trigger] keep[i]) == data_of(
                s,
                ch[i],
            ),
    ensures
        content(t, f, keep) == resized(content(s, e, ch), size),
{
    let cb = s.geo.cb();
    assert forall|pos: int| 0 <= pos < size implies content(t, f, keep)[pos] == resized(
        content(s, e, ch),
        size,
    )[pos] by {
        if pos < f.valid {
            exfat_write::lemma_pos(pos, cb, keep.len() as int);
            exfat_write::lemma_pos(pos, cb, ch.len() as int);
            assert(data_of(t, keep[pos / cb]) == data_of(s, ch[pos / cb]));
        }
    }
    assert(content(t, f, keep) =~= resized(content(s, e, ch), size));
}

/// A file keeps its clusters and its bytes where those are as they were.
proof fn lemma_other(s: ExfatView, t: ExfatView, bm: Seq<u32>, x: EntryView, xch: Seq<u32>)
    requires
        vol_ok(s, bm),
        chain_of(s, bm, x, xch),
        t.geo == s.geo,
        forall|i: int|
            0 <= i < xch.len() ==> used(t, bm, #[trigger] xch[i]) && entry(t, xch[i]) == entry(
                s,
                xch[i],
            ) && data_of(t, xch[i]) == data_of(s, xch[i]),
    ensures
        chain_of(t, bm, x, xch),
        content(t, x, xch) == content(s, x, xch),
{
    exfat_laws::lemma_vol(s, bm);
    if !x.contiguous {
        exfat_laws::lemma_linked(s, t, xch);
    }
    assert(content(t, x, xch) =~= content(s, x, xch)) by {
        assert forall|pos: int| 0 <= pos < x.size implies content(t, x, xch)[pos] == content(
            s,
            x,
            xch,
        )[pos] by {
            exfat_write::lemma_pos(pos, s.geo.cb(), xch.len() as int);
            assert(data_of(t, xch[pos / s.geo.cb()]) == data_of(s, xch[pos / s.geo.cb()]));
        }
    }
}

/// A chain that is apart from what changed stays.
proof fn lemma_apart_stays(s: ExfatView, t: ExfatView, bm: Seq<u32>, ch: Seq<u32>, dch: Seq<u32>)
    requires
        t.geo == s.geo,
        linked(s, dch),
        owned(s, bm, dch),
        forall|i: int| 0 <= i < dch.len() ==> !ch.contains(#[trigger] dch[i]),
        forall|d: u32|
            valid(s.geo, d) && !ch.contains(d) ==> #[trigger] used(t, bm, d) == used(s, bm, d),
        forall|d: u32|
            valid(s.geo, d) && !ch.contains(d) ==> #[trigger] entry(t, d) == entry(s, d),
    ensures
        linked(t, dch),
        owned(t, bm, dch),
{
    assert forall|i: int| 0 <= i < dch.len() implies entry(t, #[trigger] dch[i]) == entry(
        s,
        dch[i],
    ) && used(t, bm, dch[i]) by {
        assert(valid(s.geo, dch[i]));
        assert(used(t, bm, dch[i]) == used(s, bm, dch[i]));
    }
    exfat_laws::lemma_linked(s, t, dch);
}

/// What setting the length of a file leaves: a lookup finds the new length and the clusters
/// `ch2`, which can be transferred where those before could, the bytes are cut or followed by
/// zeros, and every other file keeps its own.
pub open spec fn set_to(
    s: ExfatView,
    t: ExfatView,
    bm: Seq<u32>,
    dch: Seq<u32>,
    e: EntryView,
    ch: Seq<u32>,
    name: Seq<u8>,
    size: int,
    ch2: Seq<u32>,
) -> bool {
    &&& vol_ok(t, bm)
    &&& t.lookup(dch[0], name) matches Some(f) && f.size == size && chain_of(t, bm, f, ch2)
        && content(t, f, ch2) == resized(content(s, e, ch), size)
    &&& ch2.len() == exfat_file::div_up(size, s.geo.cb())
    &&& fits(s, ch) ==> fits(t, ch2)
    &&& forall|x: EntryView, xch: Seq<u32>| #[trigger]
        chain_of(s, bm, x, xch) && apart(xch, ch) && apart(xch, dch) ==> chain_of(t, bm, x, xch)
            && content(t, x, xch) == content(s, x, xch)
}

/// A file emptied.
proof fn lemma_emptied(
    s: ExfatView,
    bm: Seq<u32>,
    dch: Seq<u32>,
    e: EntryView,
    ch: Seq<u32>,
    name: Seq<u8>,
)
    requires
        vol_ok(s, bm),
        chain_of(s, bm, e, ch),
        ch.len() == 0 ==> e.first < 2,
        linked(s, dch),
        owned(s, bm, dch),
        dch.len() > 0,
        apart(ch, dch),
        exfat_sets::is_utf8(name, 0),
        s.truncate(e, dch[0], name, 0).1 is Some,
    ensures
        s.truncate(e, dch[0], name, 0).1 == Some(0u64),
        set_to(s, s.truncate(e, dch[0], name, 0).0, bm, dch, e, ch, name, 0, Seq::empty()),
{
    reveal(ExfatView::truncate);
    exfat_laws::lemma_vol(s, bm);
    let cb = s.geo.cb();
    exfat_write::lemma_div_up(0, cb, exfat_file::div_up(0, cb));
    if ch.len() > 0 {
        assert(ch[0] == e.first);
    }
    exfat_cut::law_clusters_are_freed(s, bm, e, ch);
    let u = s.free_chain(e.first, e.contiguous, s.clusters_of(e)).0;
    assert forall|i: int| 0 <= i < dch.len() implies !ch.contains(#[trigger] dch[i]) by {
        assert(dch.contains(dch[i]));
    }
    lemma_apart_stays(s, u, bm, ch, dch);
    let f0 = u.changed(e, 0, 0, 0);
    exfat_sets::law_rewritten_is_found(u, bm, dch, name, f0);
    exfat_write::lemma_rewrite(u, bm, dch, name, f0);
    let t = s.truncate(e, dch[0], name, 0).0;
    let f = exfat_sets::as_read(f0, name);
    assert(content(t, f, Seq::empty()) =~= resized(content(s, e, ch), 0));
    assert forall|x: EntryView, xch: Seq<u32>| #[trigger]
        chain_of(s, bm, x, xch) && apart(xch, ch) && apart(xch, dch) implies chain_of(
        t,
        bm,
        x,
        xch,
    ) && content(t, x, xch) == content(s, x, xch) by {
        assert forall|i: int| 0 <= i < xch.len() implies used(t, bm, #[trigger] xch[i]) && entry(
            t,
            xch[i],
        ) == entry(s, xch[i]) && data_of(t, xch[i]) == data_of(s, xch[i]) by {
            let d = xch[i];
            assert(xch.contains(d));
            assert(used(u, bm, d) == used(s, bm, d));
            assert(used(t, bm, d) == used(u, bm, d));
            assert(entry(u, d) == entry(s, d));
            assert(entry(t, d) == entry(u, d));
            assert(data_of(u, d) == data_of(s, d));
            assert(data_of(t, d) == data_of(u, d));
        }
        lemma_other(s, t, bm, x, xch);
    }
}

/// A file made shorter or longer, but not empty.
proof fn lemma_set_length(
    s: ExfatView,
    bm: Seq<u32>,
    dch: Seq<u32>,
    e: EntryView,
    ch: Seq<u32>,
    name: Seq<u8>,
    size: u32,
) -> (keep: Seq<u32>)
    requires
        vol_ok(s, bm),
        chain_of(s, bm, e, ch),
        linked(s, dch),
        owned(s, bm, dch),
        dch.len() > 0,
        apart(ch, dch),
        exfat_sets::is_utf8(name, 0),
        size > 0,
        s.truncate(e, dch[0], name, size).1 is Some,
    ensures
        s.truncate(e, dch[0], name, size).1 == Some(size as u64),
        set_to(s, s.truncate(e, dch[0], name, size).0, bm, dch, e, ch, name, size as int, keep),
{
    reveal(ExfatView::truncate);
    exfat_laws::lemma_vol(s, bm);
    let cb = s.geo.cb();
    let need = exfat_file::div_up(size as int, cb);
    exfat_write::lemma_div_up(size as int, cb, need);
    let ch1 = exfat_write::lemma_reserve(s, bm, e, ch, need as u32);
    let s1 = s.reserve(e, need as u32).0;
    exfat_laws::lemma_chain_fits(s.geo, ch1);
    lemma_cut(s1, bm, ch1, need as u32);
    let s2 = s1.cut_chain(ch1[0], ch1.len() as u32, need as u32).0;
    let keep = ch1.subrange(0, need);
    exfat_write::lemma_dir_kept(s, s1, bm, ch, ch1, dch);
    assert forall|i: int| 0 <= i < ch1.len() implies !dch.contains(#[trigger] ch1[i]) by {
        exfat_write::lemma_ch2_apart(s, bm, ch, ch1, dch, i);
    }
    assert forall|i: int| 0 <= i < dch.len() implies !ch1.contains(#[trigger] dch[i]) by {
        if ch1.contains(dch[i]) {
            let j = choose|j: int| 0 <= j < ch1.len() && ch1[j] == dch[i];
            assert(dch.contains(ch1[j]));
        }
    }
    lemma_apart_stays(s1, s2, bm, ch1, dch);
    let f0 = s2.changed(
        e,
        ch1[0],
        size as u64,
        exfat_file::min_of(e.valid as int, size as int) as u64,
    );
    exfat_sets::law_rewritten_is_found(s2, bm, dch, name, f0);
    exfat_write::lemma_rewrite(s2, bm, dch, name, f0);
    let t = s.truncate(e, dch[0], name, size).0;
    assert(t == s2.rewrite_set(dch[0], name, f0).0);
    exfat_write::lemma_still(s2, t, bm, keep, dch);
    let f = exfat_sets::as_read(f0, name);
    assert(keep[0] == ch1[0]);
    assert(chain_of(t, bm, f, keep));
    if fits(s, ch) {
        assert forall|i: int| 0 <= i < keep.len() implies fit(t, #[trigger] keep[i]) by {
            assert(keep[i] == ch1[i]);
            assert(fit(s1, ch1[i]));
            exfat_laws::lemma_fit(s1, t, ch1[i]);
        }
    }
    assert forall|i: int| 0 <= i < keep.len() && i < ch.len() implies data_of(
        t,
        #[trigger] keep[i],
    ) == data_of(s, ch[i]) by {
        assert(keep[i] == ch1[i]);
        assert(valid(s.geo, ch1[i]) && !bm.contains(ch1[i]));
        assert(!dch.contains(ch1[i]));
        assert(data_of(t, ch1[i]) == data_of(s2, ch1[i]));
        assert(data_of(s2, ch1[i]) == data_of(s1, ch1[i]));
    }
    lemma_resized(s, e, ch, t, f, keep, size as int);
    assert forall|x: EntryView, xch: Seq<u32>| #[trigger]
        chain_of(s, bm, x, xch) && apart(xch, ch) && apart(xch, dch) implies chain_of(
        t,
        bm,
        x,
        xch,
    ) && content(t, x, xch) == content(s, x, xch) by {
        lemma_others(s, s1, s2, t, bm, ch, ch1, dch, x, xch, need);
    }
    keep
}

/// Another file while the length of one is set.
proof fn lemma_others(
    s: ExfatView,
    s1: ExfatView,
    s2: ExfatView,
    t: ExfatView,
    bm: Seq<u32>,
    ch: Seq<u32>,
    ch1: Seq<u32>,
    dch: Seq<u32>,
    x: EntryView,
    xch: Seq<u32>,
    need: int,
)
    requires
        vol_ok(s, bm),
        chain_of(s, bm, x, xch),
        apart(xch, ch),
        apart(xch, dch),
        s1.geo == s.geo,
        forall|i: int| 0 <= i < ch.len() ==> #[trigger] ch1[i] == ch[i],
        forall|i: int| ch.len() <= i < ch1.len() ==> !used(s, bm, #[trigger] ch1[i]),
        forall|d: u32| valid(s.geo, d) && used(s, bm, d) ==> #[trigger] used(s1, bm, d),
        forall|d: u32|
            valid(s.geo, d) && used(s, bm, d) && !ch.contains(d) ==> #[trigger] entry(s1, d)
                == entry(s, d),
        forall|d: u32|
            valid(s.geo, d) && used(s, bm, d) && !bm.contains(d) && !ch.contains(d)
                ==> #[trigger] data_of(s1, d) == data_of(s, d),
        cut(s1, s2, bm, ch1, need),
        exfat_write::same_but(s2, t, bm, dch),
    ensures
        chain_of(t, bm, x, xch),
        content(t, x, xch) == content(s, x, xch),
{
    assert forall|i: int| 0 <= i < xch.len() implies used(t, bm, #[trigger] xch[i]) && entry(
        t,
        xch[i],
    ) == entry(s, xch[i]) && data_of(t, xch[i]) == data_of(s, xch[i]) by {
        let d = xch[i];
        assert(xch.contains(d));
        exfat_write::lemma_not_new(s, bm, ch, ch1, d);
        assert(used(s1, bm, d));
        assert(used(s2, bm, d) == used(s1, bm, d));
        assert(used(t, bm, d) == used(s2, bm, d));
        assert(entry(s1, d) == entry(s, d));
        assert(entry(s2, d) == entry(s1, d));
        assert(entry(t, d) == entry(s2, d));
        assert(data_of(s1, d) == data_of(s, d));
        assert(data_of(s2, d) == data_of(s1, d));
        assert(data_of(t, d) == data_of(s2, d));
    }
    lemma_other(s, t, bm, x, xch);
}

/// Law: a file whose length was set has that length under its name, with its old bytes up to it
/// and zeros beyond; it has as many clusters as it needs, and every other file keeps its own
/// clusters and bytes. A file without clusters must not name one.
pub proof fn law_truncated(
    s: ExfatView,
    bm: Seq<u32>,
    dch: Seq<u32>,
    e: EntryView,
    ch: Seq<u32>,
    name: Seq<u8>,
    size: u32,
) -> (ch2: Seq<u32>)
    requires
        vol_ok(s, bm),
        chain_of(s, bm, e, ch),
        ch.len() == 0 ==> e.first < 2,
        linked(s, dch),
        owned(s, bm, dch),
        dch.len() > 0,
        apart(ch, dch),
        exfat_sets::is_utf8(name, 0),
        s.truncate(e, dch[0], name, size).1 is Some,
    ensures
        s.truncate(e, dch[0], name, size).1 == Some(size as u64),
        set_to(s, s.truncate(e, dch[0], name, size).0, bm, dch, e, ch, name, size as int, ch2),
{
    if size == 0 {
        lemma_emptied(s, bm, dch, e, ch, name);
        Seq::empty()
    } else {
        lemma_set_length(s, bm, dch, e, ch, name, size)
    }
}

} // verus!
