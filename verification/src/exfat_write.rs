//! What holds of files on exFAT volumes: what a write leaves, and what a read gives back.
use vstd::prelude::*;

use crate::bytes;
use crate::exfat::{ExfatView, EXFAT_FAT_EOC};
use crate::exfat_dir::EntryView;
use crate::exfat_file;
use crate::exfat_laws;
use crate::exfat_laws::{data_of, entry, fit, fits, linked, same_volume, used, valid, vol_ok};
use crate::tmpfs;

verus! {

/// The clusters of `ch` are in use, and none of them holds a part of the bitmap.
pub open spec fn owned(s: ExfatView, bm: Seq<u32>, ch: Seq<u32>) -> bool {
    &&& ch.no_duplicates()
    &&& forall|i: int|
        0 <= i < ch.len() ==> valid(s.geo, #[trigger] ch[i]) && used(s, bm, ch[i]) && !bm.contains(
            ch[i],
        )
}

/// No cluster is in both.
pub open spec fn apart(a: Seq<u32>, b: Seq<u32>) -> bool {
    forall|c: u32| a.contains(c) ==> !#[trigger] b.contains(c)
}

/// The file that a set describes has the clusters `ch`.
pub open spec fn chain_of(s: ExfatView, bm: Seq<u32>, e: EntryView, ch: Seq<u32>) -> bool {
    &&& !e.is_dir
    &&& owned(s, bm, ch)
    &&& e.valid <= e.size <= ch.len() * s.geo.cb()
    &&& if e.contiguous {
        &&& ch.len() == exfat_file::div_up(e.size as int, s.geo.cb())
        &&& forall|i: int| 0 <= i < ch.len() ==> #[trigger] ch[i] == e.first + i
    } else {
        &&& linked(s, ch)
        &&& if ch.len() == 0 {
            e.first < 2
        } else {
            e.first == ch[0]
        }
    }
}

/// Byte `pos` of a chain.
pub open spec fn raw(s: ExfatView, ch: Seq<u32>, pos: int) -> u8 {
    data_of(s, ch[pos / s.geo.cb()])[pos % s.geo.cb()]
}

/// The bytes of a file: what was never written is zeros.
pub open spec fn content(s: ExfatView, e: EntryView, ch: Seq<u32>) -> Seq<u8> {
    Seq::new(
        e.size as nat,
        |pos: int|
            if pos < e.valid {
                raw(s, ch, pos)
            } else {
                0u8
            },
    )
}

/// What extending a chain leaves.
pub open spec fn grown(
    s: ExfatView,
    t: ExfatView,
    bm: Seq<u32>,
    ch: Seq<u32>,
    ch2: Seq<u32>,
) -> bool {
    &&& vol_ok(t, bm)
    &&& same_volume(s, t)
    &&& t.now == s.now
    &&& linked(t, ch2)
    &&& owned(t, bm, ch2)
    &&& ch.len() <= ch2.len()
    &&& forall|i: int| 0 <= i < ch.len() ==> #[trigger] ch2[i] == ch[i]
    &&& forall|i: int| ch.len() <= i < ch2.len() ==> !used(s, bm, #[trigger] ch2[i])
    &&& forall|d: u32| valid(s.geo, d) && used(s, bm, d) ==> #[trigger] used(t, bm, d)
    &&& forall|d: u32|
        valid(s.geo, d) && used(s, bm, d) && !ch.contains(d) ==> #[trigger] entry(t, d) == entry(
            s,
            d,
        )
    &&& forall|d: u32|
        valid(s.geo, d) && !bm.contains(d) ==> #[trigger] data_of(t, d) == data_of(s, d)
}

/// A table entry of a cluster outside the bitmap's chain set.
pub proof fn lemma_set(s: ExfatView, bm: Seq<u32>, c: u32, v: u32)
    requires
        vol_ok(s, bm),
        valid(s.geo, c),
        !bm.contains(c),
    ensures
        s.fat_set(c, v).1,
        vol_ok(s.fat_set(c, v).0, bm),
        exfat_laws::same_state(s, s.fat_set(c, v).0),
        entry(s.fat_set(c, v).0, c) == v,
        forall|d: u32|
            valid(s.geo, d) && d != c ==> #[trigger] entry(s.fat_set(c, v).0, d) == entry(s, d),
        forall|d: u32|
            valid(s.geo, d) ==> #[trigger] data_of(s.fat_set(c, v).0, d) == data_of(s, d),
        forall|d: u32|
            valid(s.geo, d) ==> #[trigger] used(s.fat_set(c, v).0, bm, d) == used(s, bm, d),
{
    reveal(vol_ok);
    exfat_laws::law_fat_set(s, c, v);
    let t = s.fat_set(c, v).0;
    assert forall|i: int| 0 <= i < bm.len() implies entry(t, #[trigger] bm[i]) == entry(
        s,
        bm[i],
    ) by {
        assert(valid(s.geo, bm[i]));
        assert(bm.contains(bm[i]));
    }
    lemma_outside(s, t, bm);
}

/// Writes outside the bitmap and its chain.
pub proof fn lemma_outside(s: ExfatView, t: ExfatView, bm: Seq<u32>)
    requires
        vol_ok(s, bm),
        exfat_laws::ready(t),
        exfat_laws::same_state(s, t),
        forall|i: int| 0 <= i < bm.len() ==> entry(t, #[trigger] bm[i]) == entry(s, bm[i]),
        forall|i: int| 0 <= i < bm.len() ==> data_of(t, #[trigger] bm[i]) == data_of(s, bm[i]),
    ensures
        vol_ok(t, bm),
        forall|d: u32| valid(s.geo, d) ==> #[trigger] used(t, bm, d) == used(s, bm, d),
{
    reveal(vol_ok);
    exfat_laws::lemma_set_map(s, t, bm);
    assert forall|d: u32| valid(s.geo, d) implies #[trigger] used(t, bm, d) == used(s, bm, d) by {
        exfat_laws::lemma_same_used(s, t, bm, d);
    }
    assert forall|i: int| 0 <= i < bm.len() implies used(t, bm, #[trigger] bm[i]) by {
        assert(valid(s.geo, bm[i]));
        assert(used(s, bm, bm[i]));
        assert(used(t, bm, bm[i]) == used(s, bm, bm[i]));
    }
}

/// A cluster outside the bitmap written.
pub proof fn lemma_put(s: ExfatView, bm: Seq<u32>, c: u32, data: Seq<u8>)
    requires
        vol_ok(s, bm),
        valid(s.geo, c),
        !bm.contains(c),
        data.len() == s.geo.cb(),
        s.wr_cl(c, data).1,
    ensures
        fit(s, c),
        vol_ok(s.wr_cl(c, data).0, bm),
        exfat_laws::same_state(s, s.wr_cl(c, data).0),
        data_of(s.wr_cl(c, data).0, c) == data,
        forall|d: u32|
            valid(s.geo, d) && d != c ==> #[trigger] data_of(s.wr_cl(c, data).0, d) == data_of(s, d),
        forall|d: u32| valid(s.geo, d) ==> #[trigger] entry(s.wr_cl(c, data).0, d) == entry(s, d),
        forall|d: u32|
            valid(s.geo, d) ==> #[trigger] used(s.wr_cl(c, data).0, bm, d) == used(s, bm, d),
{
    reveal(vol_ok);
    exfat_laws::lemma_wr_cl(s, c, data);
    let t = s.wr_cl(c, data).0;
    assert forall|i: int| 0 <= i < bm.len() implies data_of(t, #[trigger] bm[i]) == data_of(
        s,
        bm[i],
    ) by {
        assert(valid(s.geo, bm[i]));
        assert(bm.contains(bm[i]));
    }
    assert forall|i: int| 0 <= i < bm.len() implies entry(t, #[trigger] bm[i]) == entry(
        s,
        bm[i],
    ) by {
        assert(valid(s.geo, bm[i]));
    }
    lemma_outside(s, t, bm);
}

/// A cluster that is not in use is not one of the bitmap's.
pub proof fn lemma_not_map(s: ExfatView, bm: Seq<u32>, c: u32)
    requires
        vol_ok(s, bm),
        !used(s, bm, c),
    ensures
        !bm.contains(c),
{
    reveal(vol_ok);
    if bm.contains(c) {
        let i = choose|i: int| 0 <= i < bm.len() && bm[i] == c;
        assert(used(s, bm, bm[i]));
    }
}

/// One cluster appended to a chain that has one.
pub proof fn lemma_append(s: ExfatView, s1: ExfatView, bm: Seq<u32>, ch: Seq<u32>, nc: u32)
    requires
        vol_ok(s, bm),
        linked(s, ch),
        owned(s, bm, ch),
        ch.len() > 0,
        exfat_laws::taken(s, s1, bm, nc),
    ensures
        s1.fat_set(ch.last(), nc).1,
        grown(s, s1.fat_set(ch.last(), nc).0, bm, ch, ch.push(nc)),
{
    let tail = ch.last();
    let n = ch.len() as int;
    assert(ch[n - 1] == tail);
    lemma_not_map(s, bm, nc);
    assert forall|i: int| 0 <= i < n implies #[trigger] ch[i] != nc by {
        assert(used(s, bm, ch[i]));
    }
    lemma_set(s1, bm, tail, nc);
    let t = s1.fat_set(tail, nc).0;
    let ch2 = ch.push(nc);
    assert forall|i: int| 0 <= i < ch2.len() implies valid(t.geo, #[trigger] ch2[i]) && used(
        t,
        bm,
        ch2[i],
    ) && !bm.contains(ch2[i]) by {
        if i < n {
            assert(ch2[i] == ch[i]);
            assert(used(s1, bm, ch[i]) == used(s, bm, ch[i]));
        } else {
            assert(ch2[i] == nc);
        }
        assert(used(t, bm, ch2[i]) == used(s1, bm, ch2[i]));
    }
    assert(ch2.no_duplicates());
    assert forall|i: int| 0 <= i < ch2.len() - 1 implies entry(t, #[trigger] ch2[i]) == ch2[i
        + 1] by {
        assert(ch2[i] == ch[i]);
        if i < n - 1 {
            assert(ch[i] != tail);
            assert(entry(t, ch[i]) == entry(s1, ch[i]));
            assert(entry(s1, ch[i]) == entry(s, ch[i]));
            assert(entry(s, ch[i]) == ch[i + 1]);
            assert(ch2[i + 1] == ch[i + 1]);
        } else {
            assert(ch2[i + 1] == nc);
        }
    }
    assert(ch2.last() == nc);
    assert(entry(t, nc) == entry(s1, nc));
    assert forall|d: u32| valid(s.geo, d) && used(s, bm, d) implies #[trigger] used(t, bm, d) by {
        assert(used(t, bm, d) == used(s1, bm, d));
        assert(d != nc);
        assert(used(s1, bm, d) == used(s, bm, d));
    }
    assert forall|d: u32|
        valid(s.geo, d) && used(s, bm, d) && !ch.contains(d) implies #[trigger] entry(t, d)
        == entry(s, d) by {
        assert(ch.contains(ch[n - 1]));
        assert(entry(t, d) == entry(s1, d));
        assert(entry(s1, d) == entry(s, d));
    }
    assert forall|d: u32| valid(s.geo, d) && !bm.contains(d) implies #[trigger] data_of(t, d)
        == data_of(s, d) by {
        assert(data_of(t, d) == data_of(s1, d));
        assert(data_of(s1, d) == data_of(s, d));
    }
}

/// Extensions one after the other.
pub proof fn lemma_grown_trans(
    s: ExfatView,
    t: ExfatView,
    u: ExfatView,
    bm: Seq<u32>,
    ch: Seq<u32>,
    nc: u32,
    ch3: Seq<u32>,
)
    requires
        vol_ok(s, bm),
        owned(s, bm, ch),
        valid(s.geo, nc),
        grown(s, t, bm, ch, ch.push(nc)),
        grown(t, u, bm, ch.push(nc), ch3),
    ensures
        grown(s, u, bm, ch, ch3),
{
    let ch2 = ch.push(nc);
    let n = ch.len() as int;
    assert(ch2[n] == nc);
    assert(!used(s, bm, ch2[n]));
    assert forall|i: int| 0 <= i < n implies #[trigger] ch3[i] == ch[i] by {
        assert(ch3[i] == ch2[i]);
    }
    assert forall|i: int| n <= i < ch3.len() implies !used(s, bm, #[trigger] ch3[i]) by {
        if i == n {
            assert(ch3[i] == ch2[i]);
        } else {
            let d = ch3[i];
            assert(!used(t, bm, d));
            assert(valid(u.geo, d));
        }
    }
    assert forall|d: u32| valid(s.geo, d) && used(s, bm, d) implies #[trigger] used(u, bm, d) by {
        assert(used(t, bm, d));
    }
    assert forall|d: u32|
        valid(s.geo, d) && used(s, bm, d) && !ch.contains(d) implies #[trigger] entry(u, d)
        == entry(s, d) by {
        assert(used(t, bm, d));
        assert(entry(t, d) == entry(s, d));
        assert(!ch2.contains(d)) by {
            if ch2.contains(d) {
                let j = choose|j: int| 0 <= j < ch2.len() && ch2[j] == d;
                if j < n {
                    assert(ch[j] == d);
                }
            }
        }
        assert(entry(u, d) == entry(t, d));
    }
    assert forall|d: u32| valid(s.geo, d) && !bm.contains(d) implies #[trigger] data_of(u, d)
        == data_of(s, d) by {
        assert(data_of(u, d) == data_of(t, d));
        assert(data_of(t, d) == data_of(s, d));
    }
}

/// Extending a chain to a length.
pub proof fn lemma_extend(s: ExfatView, bm: Seq<u32>, ch: Seq<u32>, needed: int) -> (ch2: Seq<u32>)
    requires
        vol_ok(s, bm),
        linked(s, ch),
        owned(s, bm, ch),
        ch.len() > 0,
        s.extend(ch.last(), ch.len() as int, needed).1 is Some,
    ensures
        grown(s, s.extend(ch.last(), ch.len() as int, needed).0, bm, ch, ch2),
        s.extend(ch.last(), ch.len() as int, needed).1 == Some(ch2.len() as int),
        ch2.len() >= needed,
    decreases needed - ch.len(),
{
    if ch.len() >= needed {
        ch
    } else {
        exfat_laws::law_alloc_takes_free(s, bm);
        let (s1, r) = s.alloc_cluster();
        let nc = r->Some_0;
        lemma_append(s, s1, bm, ch, nc);
        let t = s1.fat_set(ch.last(), nc).0;
        let ch2 = ch.push(nc);
        assert(ch2.last() == nc);
        let ch3 = lemma_extend(t, bm, ch2, needed);
        lemma_grown_trans(
            s,
            t,
            t.extend(nc, ch2.len() as int, needed).0,
            bm,
            ch,
            nc,
            ch3,
        );
        ch3
    }
}

/// The end of a chain found.
pub proof fn lemma_tail(s: ExfatView, ch: Seq<u32>, i: int, limit: int)
    requires
        exfat_laws::good_geo(s.geo),
        exfat_laws::ready(s),
        linked(s, ch),
        0 <= i < ch.len(),
    ensures
        s.tail_from(ch[i], i + 1, limit) matches Some((tail, n)) ==> tail == ch.last() && n
            == ch.len(),
    decreases ch.len() - i,
{
    assert(valid(s.geo, ch[i]));
    exfat_laws::lemma_rd_cl(s, ch[i]);
    if i + 1 < ch.len() {
        assert(entry(s, ch[i]) == ch[i + 1]);
        assert(valid(s.geo, ch[i + 1]));
        lemma_tail(s, ch, i + 1, limit);
    } else {
        assert(ch[i] == ch.last());
    }
}

/// The length of a chain counted.
pub proof fn lemma_chain_len(s: ExfatView, ch: Seq<u32>, i: int)
    requires
        exfat_laws::good_geo(s.geo),
        exfat_laws::ready(s),
        linked(s, ch),
        0 <= i < ch.len(),
    ensures
        s.chain_len(ch[i], i) == ch.len(),
    decreases ch.len() - i,
{
    assert(valid(s.geo, ch[i]));
    exfat_laws::lemma_rd_cl(s, ch[i]);
    exfat_laws::lemma_chain_fits(s.geo, ch);
    if i + 1 < ch.len() {
        assert(entry(s, ch[i]) == ch[i + 1]);
        assert(valid(s.geo, ch[i + 1]));
        lemma_chain_len(s, ch, i + 1);
    } else {
        assert(ch[i] == ch.last());
    }
}

/// The clusters of a run.
pub open spec fn is_run(ch: Seq<u32>) -> bool {
    forall|j: int| 0 <= j < ch.len() ==> #[trigger] ch[j] == ch[0] + j
}

/// The first `i` clusters of a run are linked.
pub open spec fn linked_to(s: ExfatView, ch: Seq<u32>, i: int) -> bool {
    forall|j: int| 0 <= j < i ==> entry(s, #[trigger] ch[j]) == ch[0] + j + 1
}

/// A run of clusters linked.
pub proof fn lemma_link_run(s: ExfatView, bm: Seq<u32>, ch: Seq<u32>, i: int)
    requires
        vol_ok(s, bm),
        owned(s, bm, ch),
        ch.len() > 0,
        0 <= i < ch.len(),
        is_run(ch),
        linked_to(s, ch, i),
    ensures
        s.link_run(ch[0], i, ch.len() as int).1,
        grown(s, s.link_run(ch[0], i, ch.len() as int).0, bm, ch, ch),
    decreases ch.len() - i,
{
    let n = ch.len() as int;
    let c = ch[i];
    assert(c == ch[0] + i);
    assert(bytes::w32(ch[0] + i) == c);
    if i + 1 >= n {
        assert(bytes::w32(ch[0] + n - 1) == c);
        lemma_run_grown(s, s.fat_set(c, EXFAT_FAT_EOC).0, bm, ch, i);
        lemma_set(s, bm, c, EXFAT_FAT_EOC);
    } else {
        let v = ch[i + 1];
        assert(v == ch[0] + (i + 1));
        assert(bytes::w32(ch[0] + i + 1) == v);
        lemma_set(s, bm, c, v);
        let t = s.fat_set(c, v).0;
        assert(owned(t, bm, ch)) by {
            assert forall|j: int| 0 <= j < ch.len() implies valid(t.geo, #[trigger] ch[j]) && used(
                t,
                bm,
                ch[j],
            ) && !bm.contains(ch[j]) by {
                assert(used(t, bm, ch[j]) == used(s, bm, ch[j]));
            }
        }
        assert(linked_to(t, ch, i + 1)) by {
            assert forall|j: int| 0 <= j < i + 1 implies entry(t, #[trigger] ch[j]) == ch[0] + j
                + 1 by {
                if j < i {
                    assert(ch[j] != c);
                    assert(entry(t, ch[j]) == entry(s, ch[j]));
                }
            }
        }
        lemma_link_run(t, bm, ch, i + 1);
        lemma_link_step(s, t, t.link_run(ch[0], i + 1, n).0, bm, ch, i);
    }
}

/// One link set before the others.
pub proof fn lemma_link_step(
    s: ExfatView,
    t: ExfatView,
    u: ExfatView,
    bm: Seq<u32>,
    ch: Seq<u32>,
    i: int,
)
    requires
        exfat_laws::same_state(s, t),
        0 <= i < ch.len(),
        forall|d: u32| valid(s.geo, d) && d != ch[i] ==> #[trigger] entry(t, d) == entry(s, d),
        forall|d: u32| valid(s.geo, d) ==> #[trigger] data_of(t, d) == data_of(s, d),
        forall|d: u32| valid(s.geo, d) ==> #[trigger] used(t, bm, d) == used(s, bm, d),
        grown(t, u, bm, ch, ch),
    ensures
        grown(s, u, bm, ch, ch),
{
    assert forall|d: u32| valid(s.geo, d) && used(s, bm, d) implies #[trigger] used(u, bm, d) by {
        assert(used(t, bm, d) == used(s, bm, d));
    }
    assert(ch.contains(ch[i]));
    assert forall|d: u32|
        valid(s.geo, d) && used(s, bm, d) && !ch.contains(d) implies #[trigger] entry(u, d)
        == entry(s, d) by {
        assert(used(t, bm, d) == used(s, bm, d));
        assert(entry(u, d) == entry(t, d));
    }
    assert forall|d: u32| valid(s.geo, d) && !bm.contains(d) implies #[trigger] data_of(u, d)
        == data_of(s, d) by {
        assert(data_of(u, d) == data_of(t, d));
    }
}

/// The last cluster of a run made the end of its chain.
pub proof fn lemma_run_grown(s: ExfatView, t: ExfatView, bm: Seq<u32>, ch: Seq<u32>, i: int)
    requires
        vol_ok(s, bm),
        owned(s, bm, ch),
        ch.len() > 0,
        i == ch.len() - 1,
        is_run(ch),
        linked_to(s, ch, i),
        t == s.fat_set(ch[i], EXFAT_FAT_EOC).0,
    ensures
        grown(s, t, bm, ch, ch),
{
    let c = ch[i];
    assert(valid(s.geo, c));
    lemma_set(s, bm, c, EXFAT_FAT_EOC);
    assert forall|j: int| 0 <= j < ch.len() implies valid(t.geo, #[trigger] ch[j]) && used(
        t,
        bm,
        ch[j],
    ) && !bm.contains(ch[j]) by {
        assert(used(t, bm, ch[j]) == used(s, bm, ch[j]));
    }
    assert forall|j: int| 0 <= j < ch.len() - 1 implies entry(t, #[trigger] ch[j]) == ch[j + 1] by {
        assert(ch[j] != c);
        assert(entry(t, ch[j]) == entry(s, ch[j]));
        assert(ch[j + 1] == ch[0] + (j + 1));
    }
    assert(ch.contains(ch[i]));
    assert forall|d: u32| valid(s.geo, d) && used(s, bm, d) implies #[trigger] used(t, bm, d) by {
        assert(used(t, bm, d) == used(s, bm, d));
    }
}

/// No change at all.
pub proof fn lemma_grown_refl(s: ExfatView, bm: Seq<u32>, ch: Seq<u32>)
    requires
        vol_ok(s, bm),
        linked(s, ch),
        owned(s, bm, ch),
    ensures
        grown(s, s, bm, ch, ch),
{
}

/// A chain changed, then extended.
pub proof fn lemma_grown_then(
    s: ExfatView,
    t: ExfatView,
    u: ExfatView,
    bm: Seq<u32>,
    ch: Seq<u32>,
    ch2: Seq<u32>,
    ch3: Seq<u32>,
)
    requires
        vol_ok(s, bm),
        grown(s, t, bm, ch, ch2),
        grown(t, u, bm, ch2, ch3),
    ensures
        grown(s, u, bm, ch, ch3),
{
    assert forall|i: int| 0 <= i < ch.len() implies #[trigger] ch3[i] == ch[i] by {
        assert(ch3[i] == ch2[i]);
        assert(ch2[i] == ch[i]);
    }
    assert forall|i: int| ch.len() <= i < ch3.len() implies !used(s, bm, #[trigger] ch3[i]) by {
        if i < ch2.len() {
            assert(ch3[i] == ch2[i]);
        } else {
            let d = ch3[i];
            assert(!used(t, bm, d));
            assert(valid(u.geo, d));
        }
    }
    assert forall|d: u32| valid(s.geo, d) && used(s, bm, d) implies #[trigger] used(u, bm, d) by {
        assert(used(t, bm, d));
    }
    assert forall|d: u32|
        valid(s.geo, d) && used(s, bm, d) && !ch.contains(d) implies #[trigger] entry(u, d)
        == entry(s, d) by {
        assert(used(t, bm, d));
        assert(entry(t, d) == entry(s, d));
        assert(!ch2.contains(d)) by {
            if ch2.contains(d) {
                let j = choose|j: int| 0 <= j < ch2.len() && ch2[j] == d;
                if j < ch.len() {
                    assert(ch2[j] == ch[j]);
                    assert(ch.contains(ch[j]));
                }
            }
        }
        assert(entry(u, d) == entry(t, d));
    }
    assert forall|d: u32| valid(s.geo, d) && !bm.contains(d) implies #[trigger] data_of(u, d)
        == data_of(s, d) by {
        assert(data_of(u, d) == data_of(t, d));
        assert(data_of(t, d) == data_of(s, d));
    }
}

/// A file's chain extended.
pub proof fn lemma_grow(s: ExfatView, bm: Seq<u32>, e: EntryView, ch: Seq<u32>, need: u32) -> (ch2: Seq<
    u32,
>)
    requires
        vol_ok(s, bm),
        chain_of(s, bm, e, ch),
        need > 0,
        s.grow_to(e.first, e.contiguous, ch.len() as u32, need).1 is Some,
    ensures
        ({
            let (t, r) = s.grow_to(e.first, e.contiguous, ch.len() as u32, need);
            &&& grown(s, t, bm, ch, ch2)
            &&& ch2.len() >= need
            &&& ch2.len() > 0
            &&& r == Some((ch2[0], ch2.len() as u32))
        }),
{
    reveal(ExfatView::grow_to);
    reveal(ExfatView::have_first);
    exfat_laws::lemma_chain_fits(s.geo, ch);
    let (s1, r1) = s.have_first(e.first, ch.len() as u32);
    let f = r1->Some_0.0;
    let h = r1->Some_0.1;
    let ch1 = if ch.len() == 0 {
        seq![f]
    } else {
        ch
    };
    let s2 = if e.contiguous {
        s1.link_run(f, 0, h as int).0
    } else {
        s1
    };
    if ch.len() == 0 {
        exfat_laws::law_alloc_takes_free(s, bm);
        lemma_first(s, s1, bm, f);
        if e.contiguous {
            assert(is_run(ch1));
            lemma_link_run(s1, bm, ch1, 0);
            lemma_grown_then(s, s1, s2, bm, ch, ch1, ch1);
        }
    } else {
        assert(valid(s.geo, ch[0]));
        assert(f == e.first && h == ch.len() && s1 == s) by {
            if e.contiguous {
                assert(ch[0] == e.first + 0);
            }
        }
        if e.contiguous {
            assert(is_run(ch)) by {
                assert(ch[0] == e.first + 0);
            }
            lemma_link_run(s, bm, ch, 0);
        } else {
            lemma_grown_refl(s, bm, ch);
        }
    }
    assert(grown(s, s2, bm, ch, ch1));
    assert(ch1[0] == f);
    exfat_laws::lemma_vol(s2, bm);
    lemma_tail(s2, ch1, 0, s2.geo.count + 1);
    let ch2 = lemma_extend(s2, bm, ch1, need as int);
    let t = s2.extend(ch1.last(), ch1.len() as int, need as int).0;
    lemma_grown_then(s, s2, t, bm, ch, ch1, ch2);
    assert(ch2[0] == ch1[0]);
    exfat_laws::lemma_chain_fits(s.geo, ch2);
    ch2
}

/// The first cluster of a file that had none.
pub proof fn lemma_first(s: ExfatView, t: ExfatView, bm: Seq<u32>, f: u32)
    requires
        vol_ok(s, bm),
        exfat_laws::taken(s, t, bm, f),
    ensures
        grown(s, t, bm, Seq::empty(), seq![f]),
{
    lemma_not_map(s, bm, f);
    let ch2 = seq![f];
    assert(ch2.no_duplicates());
    assert(ch2.last() == f);
    assert forall|d: u32| valid(s.geo, d) && used(s, bm, d) implies #[trigger] used(t, bm, d) by {
        assert(d != f);
        assert(used(t, bm, d) == used(s, bm, d));
    }
    assert forall|d: u32|
        valid(s.geo, d) && used(s, bm, d) && !Seq::<u32>::empty().contains(d) implies
        #[trigger] entry(t, d) == entry(s, d) by {
        assert(d != f);
    }
}

/// A position in a chain.
pub proof fn lemma_pos(pos: int, cb: int, n: int)
    requires
        0 <= pos < n * cb,
        cb > 0,
    ensures
        0 <= pos / cb < n,
        0 <= pos % cb < cb,
        pos == pos / cb * cb + pos % cb,
{
    exfat_laws::lemma_index(pos, n, cb);
    vstd::arithmetic::div_mod::lemma_fundamental_div_mod(pos, cb);
    let q = pos / cb;
    assert(q * cb == cb * q) by (nonlinear_arith);
}

/// Only the clusters of `ch` may differ.
pub open spec fn same_but(s: ExfatView, t: ExfatView, bm: Seq<u32>, ch: Seq<u32>) -> bool {
    &&& vol_ok(t, bm)
    &&& exfat_laws::same_state(s, t)
    &&& forall|d: u32| valid(s.geo, d) ==> #[trigger] entry(t, d) == entry(s, d)
    &&& forall|d: u32| valid(s.geo, d) ==> #[trigger] used(t, bm, d) == used(s, bm, d)
    &&& forall|d: u32|
        valid(s.geo, d) && !ch.contains(d) ==> #[trigger] data_of(t, d) == data_of(s, d)
}

/// Changes one after the other.
pub proof fn lemma_same_trans(s: ExfatView, t: ExfatView, u: ExfatView, bm: Seq<u32>, ch: Seq<u32>)
    requires
        same_but(s, t, bm, ch),
        same_but(t, u, bm, ch),
    ensures
        same_but(s, u, bm, ch),
{
    assert forall|d: u32| valid(s.geo, d) implies #[trigger] entry(u, d) == entry(s, d) by {
        assert(entry(t, d) == entry(s, d));
    }
    assert forall|d: u32| valid(s.geo, d) implies #[trigger] used(u, bm, d) == used(s, bm, d) by {
        assert(used(t, bm, d) == used(s, bm, d));
    }
    assert forall|d: u32| valid(s.geo, d) && !ch.contains(d) implies #[trigger] data_of(u, d)
        == data_of(s, d) by {
        assert(data_of(t, d) == data_of(s, d));
    }
}

/// A chain stays one, and its clusters stay in use.
pub proof fn lemma_still(s: ExfatView, t: ExfatView, bm: Seq<u32>, ch: Seq<u32>, x: Seq<u32>)
    requires
        same_but(s, t, bm, x),
        linked(s, ch),
        owned(s, bm, ch),
    ensures
        linked(t, ch),
        owned(t, bm, ch),
{
    assert forall|i: int| 0 <= i < ch.len() implies entry(t, #[trigger] ch[i]) == entry(
        s,
        ch[i],
    ) by {
        assert(valid(s.geo, ch[i]));
    }
    exfat_laws::lemma_linked(s, t, ch);
    assert forall|i: int| 0 <= i < ch.len() implies valid(t.geo, #[trigger] ch[i]) && used(
        t,
        bm,
        ch[i],
    ) && !bm.contains(ch[i]) by {
        assert(used(t, bm, ch[i]) == used(s, bm, ch[i]));
    }
}

/// One cluster of a chain written.
pub proof fn lemma_put_one(s: ExfatView, bm: Seq<u32>, ch: Seq<u32>, i: int, data: Seq<u8>)
    requires
        vol_ok(s, bm),
        linked(s, ch),
        owned(s, bm, ch),
        0 <= i < ch.len(),
        data.len() == s.geo.cb(),
        s.wr_cl(ch[i], data).1,
    ensures
        fit(s, ch[i]),
        same_but(s, s.wr_cl(ch[i], data).0, bm, ch),
        data_of(s.wr_cl(ch[i], data).0, ch[i]) == data,
        forall|j: int|
            0 <= j < ch.len() && j != i ==> data_of(s.wr_cl(ch[i], data).0, #[trigger] ch[j])
                == data_of(s, ch[j]),
{
    exfat_laws::lemma_vol(s, bm);
    assert(valid(s.geo, ch[i]));
    lemma_put(s, bm, ch[i], data);
    let t = s.wr_cl(ch[i], data).0;
    assert(ch.contains(ch[i]));
    assert forall|j: int| 0 <= j < ch.len() && j != i implies data_of(t, #[trigger] ch[j])
        == data_of(s, ch[j]) by {
        assert(valid(s.geo, ch[j]));
        assert(ch[j] != ch[i]);
    }
}

/// New clusters of a chain cleared.
pub proof fn lemma_clear(s: ExfatView, bm: Seq<u32>, ch: Seq<u32>, idx: int)
    requires
        vol_ok(s, bm),
        linked(s, ch),
        owned(s, bm, ch),
        ch.len() > 0,
        0 <= idx,
        s.clear_from(ch[0], idx, ch.len() as int).1,
    ensures
        ({
            let t = s.clear_from(ch[0], idx, ch.len() as int).0;
            &&& same_but(s, t, bm, ch)
            &&& forall|i: int| idx <= i < ch.len() ==> fit(s, #[trigger] ch[i])
            &&& forall|i: int|
                0 <= i < ch.len() ==> data_of(t, #[trigger] ch[i]) == if i < idx {
                    data_of(s, ch[i])
                } else {
                    bytes::zeros(s.geo.cb())
                }
        }),
    decreases ch.len() - idx,
{
    exfat_laws::lemma_vol(s, bm);
    let n = ch.len() as int;
    assert(valid(s.geo, ch[0]));
    if idx < n {
        exfat_laws::lemma_nth(s, ch, 0, idx);
        let z = bytes::zeros(s.geo.cb());
        lemma_put_one(s, bm, ch, idx, z);
        let t = s.wr_cl(ch[idx], z).0;
        lemma_still(s, t, bm, ch, ch);
        lemma_clear(t, bm, ch, idx + 1);
        let u = t.clear_from(ch[0], idx + 1, n).0;
        lemma_same_trans(s, t, u, bm, ch);
        assert forall|i: int| idx <= i < n implies fit(s, #[trigger] ch[i]) by {
            if i > idx {
                assert(fit(t, ch[i]));
                exfat_laws::lemma_fit(s, t, ch[i]);
            }
        }
        assert forall|i: int| 0 <= i < n implies data_of(u, #[trigger] ch[i]) == if i < idx {
            data_of(s, ch[i])
        } else {
            z
        } by {
            if i <= idx {
                assert(data_of(u, ch[i]) == data_of(t, ch[i]));
            }
        }
    }
}

/// A piece of the data in place: what is left to write goes round it.
pub proof fn lemma_piece(
    b: Seq<u8>,
    c: Seq<u8>,
    i: int,
    k: int,
    cb: int,
    offset: int,
    data: Seq<u8>,
    done: int,
    n: int,
)
    requires
        cb > 0,
        0 <= offset,
        0 <= done < data.len(),
        n == exfat_file::min_of(cb - (offset + done) % cb, data.len() - done),
        0 <= i,
        0 <= k < cb,
        b.len() == cb,
        i == (offset + done) / cb ==> c == bytes::splice(
            b,
            (offset + done) % cb,
            data.subrange(done, done + n),
        ),
        i != (offset + done) / cb ==> c == b,
    ensures
        (if offset + done + n <= i * cb + k < offset + data.len() {
            data[i * cb + k - offset]
        } else {
            c[k]
        }) == (if offset + done <= i * cb + k < offset + data.len() {
            data[i * cb + k - offset]
        } else {
            b[k]
        }),
{
    let pos = offset + done;
    let q = i * cb + k;
    let bi = pos / cb;
    let boff = pos % cb;
    vstd::arithmetic::div_mod::lemma_fundamental_div_mod(pos, cb);
    assert(bi * cb == cb * bi) by (nonlinear_arith);
    let part = data.subrange(done, done + n);
    if i == bi {
        if boff <= k < boff + n {
            assert(part[k - boff] == data[done + (k - boff)]);
        }
    } else if i < bi {
        assert(i * cb + cb <= bi * cb) by (nonlinear_arith)
            requires
                i + 1 <= bi,
                cb > 0,
        ;
    } else {
        assert(bi * cb + cb <= i * cb) by (nonlinear_arith)
            requires
                bi + 1 <= i,
                cb > 0,
        ;
    }
}

/// Data written into a chain.
pub proof fn lemma_fill(
    s: ExfatView,
    bm: Seq<u32>,
    ch: Seq<u32>,
    offset: int,
    data: Seq<u8>,
    done: int,
)
    requires
        vol_ok(s, bm),
        linked(s, ch),
        owned(s, bm, ch),
        ch.len() > 0,
        0 <= offset,
        0 <= done <= data.len(),
        offset + data.len() <= ch.len() * s.geo.cb(),
        s.fill_from(ch[0], offset, data, done).1,
    ensures
        ({
            let t = s.fill_from(ch[0], offset, data, done).0;
            &&& same_but(s, t, bm, ch)
            &&& forall|i: int, k: int|
                0 <= i < ch.len() && 0 <= k < s.geo.cb() ==> #[trigger] data_of(t, ch[i])[k]
                    == if offset + done <= i * s.geo.cb() + k < offset + data.len() {
                    data[i * s.geo.cb() + k - offset]
                } else {
                    data_of(s, ch[i])[k]
                }
        }),
    decreases data.len() - done,
{
    exfat_laws::lemma_vol(s, bm);
    let cb = s.geo.cb();
    let len = ch.len() as int;
    assert(valid(s.geo, ch[0]));
    if done < data.len() {
        let pos = offset + done;
        let bi = pos / cb;
        let boff = pos % cb;
        let n = exfat_file::min_of(cb - boff, data.len() - done);
        lemma_pos(pos, cb, len);
        exfat_laws::lemma_nth(s, ch, 0, bi);
        let c = ch[bi];
        assert(valid(s.geo, c));
        exfat_laws::lemma_rd_cl(s, c);
        let b = data_of(s, c);
        let d = bytes::splice(b, boff, data.subrange(done, done + n));
        lemma_put_one(s, bm, ch, bi, d);
        let t = s.wr_cl(c, d).0;
        lemma_still(s, t, bm, ch, ch);
        lemma_fill(t, bm, ch, offset, data, done + n);
        let u = t.fill_from(ch[0], offset, data, done + n).0;
        lemma_same_trans(s, t, u, bm, ch);
        assert forall|i: int, k: int| 0 <= i < len && 0 <= k < cb implies #[trigger] data_of(
            u,
            ch[i],
        )[k] == if offset + done <= i * cb + k < offset + data.len() {
            data[i * cb + k - offset]
        } else {
            data_of(s, ch[i])[k]
        } by {
            assert(valid(s.geo, ch[i]));
            exfat_laws::lemma_rd_cl(s, ch[i]);
            lemma_piece(
                data_of(s, ch[i]),
                data_of(t, ch[i]),
                i,
                k,
                cb,
                offset,
                data,
                done,
                n,
            );
        }
    }
}

/// Bytes of a chain cleared.
pub proof fn lemma_gap(s: ExfatView, bm: Seq<u32>, ch: Seq<u32>, from: int, to: int)
    requires
        vol_ok(s, bm),
        linked(s, ch),
        owned(s, bm, ch),
        ch.len() > 0,
        0 <= from,
        to <= ch.len() * s.geo.cb(),
        s.clear_gap(ch[0], from, to).1,
    ensures
        ({
            let t = s.clear_gap(ch[0], from, to).0;
            &&& same_but(s, t, bm, ch)
            &&& forall|i: int, k: int|
                0 <= i < ch.len() && 0 <= k < s.geo.cb() ==> #[trigger] data_of(t, ch[i])[k]
                    == if from <= i * s.geo.cb() + k < to {
                    0
                } else {
                    data_of(s, ch[i])[k]
                }
        }),
{
    if from < to {
        lemma_fill(s, bm, ch, from, bytes::zeros(to - from), 0);
    }
}

/// The clusters of a file counted.
pub proof fn lemma_held(s: ExfatView, bm: Seq<u32>, e: EntryView, ch: Seq<u32>)
    requires
        vol_ok(s, bm),
        chain_of(s, bm, e, ch),
    ensures
        s.clusters_of(e) == ch.len(),
{
    exfat_laws::lemma_vol(s, bm);
    exfat_laws::lemma_chain_fits(s.geo, ch);
    if !e.contiguous && ch.len() > 0 {
        lemma_chain_len(s, ch, 0);
    }
}

/// A file made to have at least `need` clusters.
pub proof fn lemma_reserve(s: ExfatView, bm: Seq<u32>, e: EntryView, ch: Seq<u32>, need: u32) -> (ch2:
    Seq<u32>)
    requires
        vol_ok(s, bm),
        chain_of(s, bm, e, ch),
        need > 0,
        s.reserve(e, need).1 is Some,
    ensures
        ({
            let (t, r) = s.reserve(e, need);
            &&& vol_ok(t, bm)
            &&& same_volume(s, t) && t.now == s.now
            &&& fits(s, ch) ==> fits(t, ch2)
            &&& linked(t, ch2)
            &&& owned(t, bm, ch2)
            &&& ch2.len() >= need && ch2.len() > 0
            &&& ch.len() <= ch2.len()
            &&& r == Some((ch2[0], ch2.len() as u32))
            &&& forall|i: int| 0 <= i < ch.len() ==> #[trigger] ch2[i] == ch[i]
            &&& forall|i: int| ch.len() <= i < ch2.len() ==> !used(s, bm, #[trigger] ch2[i])
            &&& forall|i: int|
                0 <= i < ch2.len() ==> data_of(t, #[trigger] ch2[i]) == if i < ch.len() {
                    data_of(s, ch[i])
                } else {
                    bytes::zeros(s.geo.cb())
                }
            &&& forall|d: u32| valid(s.geo, d) && used(s, bm, d) ==> #[trigger] used(t, bm, d)
            &&& forall|d: u32|
                valid(s.geo, d) && used(s, bm, d) && !ch.contains(d) ==> #[trigger] entry(t, d)
                    == entry(s, d)
            &&& forall|d: u32|
                valid(s.geo, d) && used(s, bm, d) && !bm.contains(d) && !ch.contains(d)
                    ==> #[trigger] data_of(t, d) == data_of(s, d)
        }),
{
    reveal(ExfatView::reserve);
    exfat_laws::lemma_vol(s, bm);
    exfat_laws::lemma_chain_fits(s.geo, ch);
    lemma_held(s, bm, e, ch);
    let ch2 = lemma_grow(s, bm, e, ch, need);
    let s1 = s.grow_to(e.first, e.contiguous, ch.len() as u32, need).0;
    exfat_laws::lemma_chain_fits(s.geo, ch2);
    lemma_clear(s1, bm, ch2, ch.len() as int);
    let t = s1.clear_from(ch2[0], ch.len() as int, ch2.len() as int).0;
    lemma_still(s1, t, bm, ch2, ch2);
    if fits(s, ch) {
        assert forall|i: int| 0 <= i < ch2.len() implies fit(t, #[trigger] ch2[i]) by {
            exfat_laws::lemma_fit(s, s1, ch2[i]);
            exfat_laws::lemma_fit(s1, t, ch2[i]);
            if i < ch.len() {
                assert(ch2[i] == ch[i]);
                assert(fit(s, ch[i]));
            }
        }
    }
    assert forall|i: int| 0 <= i < ch2.len() implies data_of(t, #[trigger] ch2[i]) == if i
        < ch.len() {
        data_of(s, ch[i])
    } else {
        bytes::zeros(s.geo.cb())
    } by {
        if i < ch.len() {
            assert(ch2[i] == ch[i]);
            assert(data_of(s1, ch[i]) == data_of(s, ch[i]));
        }
    }
    assert forall|d: u32| valid(s.geo, d) && used(s, bm, d) implies #[trigger] used(t, bm, d) by {
        assert(used(s1, bm, d));
    }
    assert forall|d: u32|
        valid(s.geo, d) && used(s, bm, d) && !ch.contains(d) implies #[trigger] entry(t, d)
        == entry(s, d) by {
        assert(entry(s1, d) == entry(s, d));
    }
    assert forall|d: u32|
        valid(s.geo, d) && used(s, bm, d) && !bm.contains(d) && !ch.contains(d) implies
        #[trigger] data_of(t, d) == data_of(s, d) by {
        assert(!ch2.contains(d)) by {
            lemma_not_new(s, bm, ch, ch2, d);
        }
        assert(data_of(s1, d) == data_of(s, d));
    }
    ch2
}

/// A cluster that was in use and is not one of a chain is none of its extension's.
pub proof fn lemma_not_new(s: ExfatView, bm: Seq<u32>, ch: Seq<u32>, ch2: Seq<u32>, d: u32)
    requires
        forall|i: int| 0 <= i < ch.len() ==> #[trigger] ch2[i] == ch[i],
        forall|i: int| ch.len() <= i < ch2.len() ==> !used(s, bm, #[trigger] ch2[i]),
        used(s, bm, d),
        !ch.contains(d),
    ensures
        !ch2.contains(d),
{
    if ch2.contains(d) {
        let j = choose|j: int| 0 <= j < ch2.len() && ch2[j] == d;
        if j < ch.len() {
            assert(ch2[j] == ch[j]);
            assert(ch.contains(ch[j]));
        }
    }
}

/// A set is found in a cluster of its directory.
pub proof fn lemma_locate(s: ExfatView, dch: Seq<u32>, i: int, want: Seq<u8>)
    requires
        exfat_laws::good_geo(s.geo),
        exfat_laws::ready(s),
        linked(s, dch),
        0 <= i < dch.len(),
    ensures
        s.locate_from(dch[i], i, want) matches Some((cl, at, sec, e)) ==> dch.contains(cl),
    decreases dch.len() - i,
{
    assert(valid(s.geo, dch[i]));
    exfat_laws::lemma_rd_cl(s, dch[i]);
    assert(dch.contains(dch[i]));
    if i + 1 < dch.len() {
        assert(entry(s, dch[i]) == dch[i + 1]);
        lemma_locate(s, dch, i + 1, want);
    } else {
        assert(dch[i] == dch.last());
    }
}

/// The set of a file written anew: only its directory's clusters may differ.
pub proof fn lemma_rewrite(s: ExfatView, bm: Seq<u32>, dch: Seq<u32>, name: Seq<u8>, e: EntryView)
    requires
        vol_ok(s, bm),
        linked(s, dch),
        owned(s, bm, dch),
        dch.len() > 0,
        s.rewrite_set(dch[0], name, e).1,
    ensures
        same_but(s, s.rewrite_set(dch[0], name, e).0, bm, dch),
{
    exfat_laws::lemma_vol(s, bm);
    reveal(ExfatView::rewrite_set);
    reveal(ExfatView::put_set);
    lemma_locate(s, dch, 0, name);
    let (cl, i, sec, old) = s.locate(dch[0], name)->Some_0;
    let j = choose|j: int| 0 <= j < dch.len() && dch[j] == cl;
    assert(valid(s.geo, dch[j]));
    exfat_laws::lemma_rd_cl(s, cl);
    let set = s.build_set(name, e)->Some_0;
    let b = data_of(s, cl);
    lemma_put_one(s, bm, dch, j, bytes::splice(b, i * 32, set));
}

/// Reading on from a position.
pub proof fn lemma_read_from(s: ExfatView, bm: Seq<u32>, e: EntryView, ch: Seq<u32>, pos: int, end: int)
    requires
        vol_ok(s, bm),
        chain_of(s, bm, e, ch),
        0 <= pos <= end <= e.size,
    ensures
        s.read_from(e, pos, end) matches Some(v) ==> v == content(s, e, ch).subrange(pos, end),
        fits(s, ch) ==> s.read_from(e, pos, end) is Some,
    decreases end - pos,
{
    exfat_laws::lemma_vol(s, bm);
    let cb = s.geo.cb();
    let all = content(s, e, ch);
    if pos < end {
        reveal(ExfatView::read_part);
        let n = s.span(pos, end);
        let boff = pos % cb;
        let i = pos / cb;
        lemma_pos(pos, cb, ch.len() as int);
        let c = ch[i];
        assert(valid(s.geo, c));
        exfat_laws::lemma_rd_cl(s, c);
        assert(s.cluster_at(e.first, e.contiguous, i) == Some(c)) by {
            if e.contiguous {
                assert(ch[i] == e.first + i);
            } else {
                assert(valid(s.geo, ch[0]));
                exfat_laws::lemma_nth(s, ch, 0, i);
            }
        }
        lemma_read_from(s, bm, e, ch, pos + n, end);
        if s.read_part(e, pos, end) is Some {
            let part = s.read_part(e, pos, end)->Some_0;
            assert(part.len() == n);
            assert(part =~= all.subrange(pos, pos + n)) by {
                assert forall|x: int| 0 <= x < n implies part[x] == all[pos + x] by {
                    lemma_near(pos, cb, x);
                }
            }
            assert(part + all.subrange(pos + n, end) =~= all.subrange(pos, end));
        }
    } else {
        assert(all.subrange(pos, end) =~= Seq::empty());
    }
}

/// Positions within one cluster.
pub proof fn lemma_near(pos: int, cb: int, x: int)
    requires
        cb > 0,
        0 <= pos,
        0 <= x < cb - pos % cb,
    ensures
        (pos + x) / cb == pos / cb,
        (pos + x) % cb == pos % cb + x,
{
    let q = pos / cb;
    let r = pos % cb;
    vstd::arithmetic::div_mod::lemma_fundamental_div_mod(pos, cb);
    assert(q * cb == cb * q) by (nonlinear_arith);
    vstd::arithmetic::div_mod::lemma_fundamental_div_mod_converse(pos + x, cb, q, r + x);
}

/// Law: reading a file gives its bytes from the offset on, as many as were asked for and the
/// file has; what was never written reads as zeros. It fails only where a cluster of the file
/// cannot be transferred.
pub proof fn law_read_gives_content(
    s: ExfatView,
    bm: Seq<u32>,
    e: EntryView,
    ch: Seq<u32>,
    offset: u32,
    count: u32,
)
    requires
        vol_ok(s, bm),
        chain_of(s, bm, e, ch),
    ensures
        s.read_file(e, offset, count) matches Some(v) ==> v == if offset >= e.size {
            Seq::empty()
        } else {
            content(s, e, ch).subrange(
                offset as int,
                exfat_file::min_of(offset + count, e.size as int),
            )
        },
        fits(s, ch) ==> s.read_file(e, offset, count) is Some,
{
    if offset < e.size {
        lemma_read_from(
            s,
            bm,
            e,
            ch,
            offset as int,
            exfat_file::min_of(offset + count, e.size as int),
        );
    }
}

/// The set that describes a file after a write.
pub open spec fn written(s: ExfatView, e: EntryView, first: u32, offset: u32, data: Seq<u8>) -> EntryView {
    let end = offset + data.len();
    let size = exfat_file::max_of(end, e.size as int);
    s.changed(
        e,
        first,
        size as u64,
        exfat_file::min_of(exfat_file::max_of(e.valid as int, end), size) as u64,
    )
}

/// How many clusters a file of a size needs.
pub proof fn lemma_div_up(size: int, cb: int, n: int)
    requires
        cb > 0,
        0 <= size,
        n >= exfat_file::div_up(size, cb),
    ensures
        size <= n * cb,
        0 <= exfat_file::div_up(size, cb),
        size > 0 ==> exfat_file::div_up(size, cb) > 0,
        exfat_file::div_up(size, cb) <= size,
{
    let m = exfat_file::div_up(size, cb);
    let x = size + cb - 1;
    vstd::arithmetic::div_mod::lemma_fundamental_div_mod(x, cb);
    assert(x % cb < cb);
    assert(cb * m == m * cb) by (nonlinear_arith);
    assert(m * cb <= n * cb) by (nonlinear_arith)
        requires
            m <= n,
            cb > 0,
    ;
    assert(0 <= m) by (nonlinear_arith)
        requires
            m == x / cb,
            x >= 0,
            cb > 0,
    ;
    if size > 0 {
        assert(m >= 1) by (nonlinear_arith)
            requires
                m == x / cb,
                x >= cb,
                cb > 0,
        ;
        assert(m <= size) by (nonlinear_arith)
            requires
                m * cb <= size + cb - 1,
                size > 0,
                cb > 0,
                m >= 0,
        ;
    } else {
        assert(m == 0) by (nonlinear_arith)
            requires
                m == x / cb,
                x == cb - 1,
                cb > 0,
        ;
    }
}

/// What a write leaves, and the volume before the set is written.
pub proof fn lemma_write(
    s: ExfatView,
    bm: Seq<u32>,
    dch: Seq<u32>,
    e: EntryView,
    ch: Seq<u32>,
    name: Seq<u8>,
    offset: u32,
    data: Seq<u8>,
) -> (r: (Seq<u32>, ExfatView))
    requires
        vol_ok(s, bm),
        chain_of(s, bm, e, ch),
        linked(s, dch),
        owned(s, bm, dch),
        dch.len() > 0,
        apart(ch, dch),
        data.len() > 0,
        exfat_file::div_up(offset + data.len(), s.geo.cb()) <= 0xFFFF_FFFF,
        s.write_file(e, dch[0], name, offset, data).1 is Some,
    ensures
        ({
            let t = s.write_file(e, dch[0], name, offset, data).0;
            let f = written(s, e, r.0[0], offset, data);
            &&& r.0.len() > 0
            &&& same_volume(s, t)
            &&& same_volume(s, r.1)
            &&& fits(s, ch) ==> fits(t, r.0)
            &&& vol_ok(r.1, bm)
            &&& linked(r.1, dch)
            &&& owned(r.1, bm, dch)
            &&& r.1.rewrite_set(dch[0], name, f) == (t, true)
            &&& vol_ok(t, bm)
            &&& chain_of(t, bm, f, r.0)
            &&& content(t, f, r.0) == tmpfs::overwritten(content(s, e, ch), offset as int, data)
            &&& forall|x: EntryView, xch: Seq<u32>| #[trigger]
                chain_of(s, bm, x, xch) && apart(xch, ch) && apart(xch, dch) ==> chain_of(
                    t,
                    bm,
                    x,
                    xch,
                ) && content(t, x, xch) == content(s, x, xch)
        }),
{
    exfat_laws::lemma_vol(s, bm);
    reveal(ExfatView::write_file);
    let cb = s.geo.cb();
    let end = offset + data.len();
    let size = exfat_file::max_of(end, e.size as int);
    exfat_laws::lemma_chain_fits(s.geo, ch);
    let need = exfat_file::div_up(size, cb);
    lemma_need(s, bm, e, ch, size);
    assert(bytes::w32(need) == need);
    let ch2 = lemma_reserve(s, bm, e, ch, need as u32);
    let s1 = s.reserve(e, need as u32).0;
    lemma_div_up(size, cb, ch2.len() as int);
    exfat_laws::lemma_chain_fits(s.geo, ch2);
    let n2 = ch2.len() as int;
    assert(n2 * cb <= 0xFFFF_FFFF * 0x4_0000) by (nonlinear_arith)
        requires
            0 <= n2 <= 0xFFFF_FFFF,
            0 < cb <= 0x4_0000,
    ;
    let to = exfat_file::min_of(offset as int, ch.len() * cb);
    lemma_held(s, bm, e, ch);
    lemma_gap(s1, bm, ch2, e.valid as int, to);
    let g = s1.clear_gap(ch2[0], e.valid as int, to).0;
    lemma_still(s1, g, bm, ch2, ch2);
    lemma_fill(g, bm, ch2, offset as int, data, 0);
    let s2 = g.fill_from(ch2[0], offset as int, data, 0).0;
    lemma_same_trans(s1, g, s2, bm, ch2);
    lemma_still(s1, s2, bm, ch2, ch2);
    lemma_dir_kept(s, s1, bm, ch, ch2, dch);
    lemma_still(s1, s2, bm, dch, ch2);
    let f = written(s, e, ch2[0], offset, data);
    assert(s2.changed(e, ch2[0], f.size, f.valid) == f);
    lemma_rewrite(s2, bm, dch, name, f);
    let t = s2.rewrite_set(dch[0], name, f).0;
    lemma_still(s2, t, bm, ch2, dch);
    assert(t == s.write_file(e, dch[0], name, offset, data).0);
    exfat_laws::lemma_fits(s1, t, ch2);
    assert(chain_of(t, bm, f, ch2));
    assert forall|i: int, k: int| 0 <= i < ch2.len() && 0 <= k < cb implies #[trigger] data_of(
        t,
        ch2[i],
    )[k] == if offset <= i * cb + k < end {
        data[i * cb + k - offset]
    } else if e.valid <= i * cb + k < to {
        0
    } else if i < ch.len() {
        data_of(s, ch[i])[k]
    } else {
        0
    } by {
        assert(valid(s.geo, ch2[i]));
        assert(!dch.contains(ch2[i])) by {
            lemma_ch2_apart(s, bm, ch, ch2, dch, i);
        }
        assert(data_of(t, ch2[i]) == data_of(s2, ch2[i]));
        assert(data_of(s2, ch2[i])[k] == if offset <= i * cb + k < end {
            data[i * cb + k - offset]
        } else {
            data_of(g, ch2[i])[k]
        });
        assert(data_of(g, ch2[i])[k] == if e.valid <= i * cb + k < to {
            0
        } else {
            data_of(s1, ch2[i])[k]
        });
    }
    lemma_new_content(s, e, ch, t, f, ch2, offset, data);
    assert forall|x: EntryView, xch: Seq<u32>| #[trigger]
        chain_of(s, bm, x, xch) && apart(xch, ch) && apart(xch, dch) implies chain_of(
        t,
        bm,
        x,
        xch,
    ) && content(t, x, xch) == content(s, x, xch) by {
        lemma_other(s, s1, s2, t, bm, ch, ch2, dch, x, xch);
    }
    (ch2, s2)
}

/// Law: after a write, the file holds its old bytes with the data written over them, zeros
/// where there was nothing, and is as long as it has to be; it has its own clusters, and so has
/// every other file, with the same bytes. What the file's clusters held behind the end of what was
/// written to it does not come to light. Reading the file then gives these bytes, and fails only
/// where it could have failed before. The clusters that the data takes have to be countable in
/// 32 bits.
pub proof fn law_write_reads_back(
    s: ExfatView,
    bm: Seq<u32>,
    dch: Seq<u32>,
    e: EntryView,
    ch: Seq<u32>,
    name: Seq<u8>,
    offset: u32,
    data: Seq<u8>,
) -> (ch2: Seq<u32>)
    requires
        vol_ok(s, bm),
        chain_of(s, bm, e, ch),
        linked(s, dch),
        owned(s, bm, dch),
        dch.len() > 0,
        apart(ch, dch),
        data.len() > 0,
        exfat_file::div_up(offset + data.len(), s.geo.cb()) <= 0xFFFF_FFFF,
        s.write_file(e, dch[0], name, offset, data).1 is Some,
    ensures
        ({
            let t = s.write_file(e, dch[0], name, offset, data).0;
            let f = written(s, e, ch2[0], offset, data);
            let want = tmpfs::overwritten(content(s, e, ch), offset as int, data);
            &&& ch2.len() > 0
            &&& vol_ok(t, bm)
            &&& chain_of(t, bm, f, ch2)
            &&& content(t, f, ch2) == want
            &&& f.size == want.len()
            &&& fits(s, ch) ==> fits(t, ch2)
            &&& forall|at: u32, count: u32|
                #![trigger t.read_file(f, at, count)]
                {
                    &&& t.read_file(f, at, count) matches Some(v) ==> v == if at >= want.len() {
                        Seq::empty()
                    } else {
                        want.subrange(
                            at as int,
                            exfat_file::min_of(at + count, want.len() as int),
                        )
                    }
                    &&& fits(s, ch) ==> t.read_file(f, at, count) is Some
                }
            &&& forall|x: EntryView, xch: Seq<u32>| #[trigger]
                chain_of(s, bm, x, xch) && apart(xch, ch) && apart(xch, dch) ==> chain_of(
                    t,
                    bm,
                    x,
                    xch,
                ) && content(t, x, xch) == content(s, x, xch)
        }),
{
    let ch2 = lemma_write(s, bm, dch, e, ch, name, offset, data).0;
    let t = s.write_file(e, dch[0], name, offset, data).0;
    let f = written(s, e, ch2[0], offset, data);
    let want = tmpfs::overwritten(content(s, e, ch), offset as int, data);
    assert(content(t, f, ch2).len() == want.len());
    assert forall|at: u32, count: u32|
        #![trigger t.read_file(f, at, count)]
        {
            &&& t.read_file(f, at, count) matches Some(v) ==> v == if at >= want.len() {
                Seq::empty()
            } else {
                want.subrange(at as int, exfat_file::min_of(at + count, want.len() as int))
            }
            &&& fits(s, ch) ==> t.read_file(f, at, count) is Some
        } by {
        law_read_gives_content(t, bm, f, ch2, at, count);
    }
    ch2
}

/// How many clusters a write asks for.
pub proof fn lemma_need(s: ExfatView, bm: Seq<u32>, e: EntryView, ch: Seq<u32>, size: int)
    requires
        vol_ok(s, bm),
        chain_of(s, bm, e, ch),
        0 < size,
        exfat_file::div_up(size, s.geo.cb()) <= 0xFFFF_FFFF || size == e.size,
    ensures
        0 < exfat_file::div_up(size, s.geo.cb()) <= 0xFFFF_FFFF,
{
    exfat_laws::lemma_vol(s, bm);
    let cb = s.geo.cb();
    exfat_laws::lemma_chain_fits(s.geo, ch);
    let m = exfat_file::div_up(size, cb);
    lemma_div_up(size, cb, m);
    if size == e.size {
        let n = ch.len() as int;
        assert(m <= n) by (nonlinear_arith)
            requires
                m == (size + cb - 1) / cb,
                size <= n * cb,
                cb > 0,
        ;
    }
}

/// The chain of the directory while the file's is extended.
pub proof fn lemma_dir_kept(
    s: ExfatView,
    t: ExfatView,
    bm: Seq<u32>,
    ch: Seq<u32>,
    ch2: Seq<u32>,
    dch: Seq<u32>,
)
    requires
        t.geo == s.geo,
        linked(s, dch),
        owned(s, bm, dch),
        apart(ch, dch),
        forall|d: u32| valid(s.geo, d) && used(s, bm, d) ==> #[trigger] used(t, bm, d),
        forall|d: u32|
            valid(s.geo, d) && used(s, bm, d) && !ch.contains(d) ==> #[trigger] entry(t, d)
                == entry(s, d),
    ensures
        linked(t, dch),
        owned(t, bm, dch),
{
    assert forall|i: int| 0 <= i < dch.len() implies entry(t, #[trigger] dch[i]) == entry(
        s,
        dch[i],
    ) by {
        assert(dch.contains(dch[i]));
        assert(!ch.contains(dch[i]));
    }
    exfat_laws::lemma_linked(s, t, dch);
    assert forall|i: int| 0 <= i < dch.len() implies valid(t.geo, #[trigger] dch[i]) && used(
        t,
        bm,
        dch[i],
    ) && !bm.contains(dch[i]) by {
        assert(used(s, bm, dch[i]));
    }
}

/// No cluster of the extended file is one of the directory's.
pub proof fn lemma_ch2_apart(
    s: ExfatView,
    bm: Seq<u32>,
    ch: Seq<u32>,
    ch2: Seq<u32>,
    dch: Seq<u32>,
    i: int,
)
    requires
        owned(s, bm, dch),
        apart(ch, dch),
        forall|j: int| 0 <= j < ch.len() ==> #[trigger] ch2[j] == ch[j],
        forall|j: int| ch.len() <= j < ch2.len() ==> !used(s, bm, #[trigger] ch2[j]),
        0 <= i < ch2.len(),
    ensures
        !dch.contains(ch2[i]),
{
    if i < ch.len() {
        assert(ch2[i] == ch[i]);
        assert(ch.contains(ch[i]));
    } else {
        if dch.contains(ch2[i]) {
            let j = choose|j: int| 0 <= j < dch.len() && dch[j] == ch2[i];
            assert(used(s, bm, dch[j]));
        }
    }
}

/// The bytes of a file after a write.
pub proof fn lemma_new_content(
    s: ExfatView,
    e: EntryView,
    ch: Seq<u32>,
    t: ExfatView,
    f: EntryView,
    ch2: Seq<u32>,
    offset: u32,
    data: Seq<u8>,
)
    requires
        t.geo == s.geo,
        s.geo.cb() > 0,
        e.valid <= e.size <= ch.len() * s.geo.cb(),
        f.size <= ch2.len() * s.geo.cb(),
        ch.len() <= ch2.len(),
        f.size == exfat_file::max_of(offset + data.len(), e.size as int),
        f.valid == exfat_file::max_of(e.valid as int, offset + data.len()),
        forall|i: int, k: int|
            0 <= i < ch2.len() && 0 <= k < s.geo.cb() ==> #[trigger] data_of(t, ch2[i])[k]
                == if offset <= i * s.geo.cb() + k < offset + data.len() {
                data[i * s.geo.cb() + k - offset]
            } else if e.valid <= i * s.geo.cb() + k < exfat_file::min_of(
                offset as int,
                ch.len() * s.geo.cb(),
            ) {
                0
            } else if i < ch.len() {
                data_of(s, ch[i])[k]
            } else {
                0
            },
    ensures
        content(t, f, ch2) == tmpfs::overwritten(content(s, e, ch), offset as int, data),
{
    let cb = s.geo.cb();
    let old = content(s, e, ch);
    let new = content(t, f, ch2);
    let want = tmpfs::overwritten(old, offset as int, data);
    let end = offset + data.len();
    assert(new.len() == want.len());
    assert forall|pos: int| 0 <= pos < f.size implies new[pos] == want[pos] by {
        lemma_pos(pos, cb, ch2.len() as int);
        let i = pos / cb;
        let k = pos % cb;
        if pos < f.valid {
            assert(data_of(t, ch2[i])[k] == if offset <= i * cb + k < end {
                data[i * cb + k - offset]
            } else if e.valid <= i * cb + k < exfat_file::min_of(offset as int, ch.len() * cb) {
                0
            } else if i < ch.len() {
                data_of(s, ch[i])[k]
            } else {
                0
            });
            if !(offset <= pos < end) {
                if pos < ch.len() * cb {
                    lemma_pos(pos, cb, ch.len() as int);
                } else {
                    assert(i >= ch.len()) by (nonlinear_arith)
                        requires
                            pos == i * cb + k,
                            pos >= ch.len() * cb,
                            0 <= k < cb,
                            cb > 0,
                    ;
                }
            }
        }
    }
    assert(new =~= want);
}

/// Another file keeps its clusters and its bytes.
pub proof fn lemma_other(
    s: ExfatView,
    s1: ExfatView,
    s2: ExfatView,
    t: ExfatView,
    bm: Seq<u32>,
    ch: Seq<u32>,
    ch2: Seq<u32>,
    dch: Seq<u32>,
    x: EntryView,
    xch: Seq<u32>,
)
    requires
        vol_ok(s, bm),
        chain_of(s, bm, x, xch),
        apart(xch, ch),
        apart(xch, dch),
        s1.geo == s.geo,
        forall|i: int| 0 <= i < ch.len() ==> #[trigger] ch2[i] == ch[i],
        forall|i: int| ch.len() <= i < ch2.len() ==> !used(s, bm, #[trigger] ch2[i]),
        forall|d: u32| valid(s.geo, d) && used(s, bm, d) ==> #[trigger] used(s1, bm, d),
        forall|d: u32|
            valid(s.geo, d) && used(s, bm, d) && !ch.contains(d) ==> #[trigger] entry(s1, d)
                == entry(s, d),
        forall|d: u32|
            valid(s.geo, d) && used(s, bm, d) && !bm.contains(d) && !ch.contains(d)
                ==> #[trigger] data_of(s1, d) == data_of(s, d),
        same_but(s1, s2, bm, ch2),
        same_but(s2, t, bm, dch),
    ensures
        chain_of(t, bm, x, xch),
        content(t, x, xch) == content(s, x, xch),
{
    exfat_laws::lemma_vol(s, bm);
    assert forall|i: int| 0 <= i < xch.len() implies used(t, bm, #[trigger] xch[i]) && entry(
        t,
        xch[i],
    ) == entry(s, xch[i]) && data_of(t, xch[i]) == data_of(s, xch[i]) by {
        let d = xch[i];
        assert(xch.contains(d));
        assert(!ch.contains(d));
        assert(!dch.contains(d));
        lemma_not_new(s, bm, ch, ch2, d);
        assert(used(s1, bm, d));
        assert(used(s2, bm, d) == used(s1, bm, d));
        assert(used(t, bm, d) == used(s2, bm, d));
        assert(entry(s1, d) == entry(s, d));
        assert(entry(s2, d) == entry(s1, d));
        assert(entry(t, d) == entry(s2, d));
        assert(data_of(s1, d) == data_of(s, d));
        assert(data_of(s2, d) == data_of(s1, d));
        assert(data_of(t, d) == data_of(s2, d));
    }
    if !x.contiguous {
        exfat_laws::lemma_linked(s, t, xch);
    }
    assert(content(t, x, xch) =~= content(s, x, xch)) by {
        assert forall|pos: int| 0 <= pos < x.size implies content(t, x, xch)[pos] == content(
            s,
            x,
            xch,
        )[pos] by {
            lemma_pos(pos, s.geo.cb(), xch.len() as int);
            assert(data_of(t, xch[pos / s.geo.cb()]) == data_of(s, xch[pos / s.geo.cb()]));
        }
    }
}

} // verus!
