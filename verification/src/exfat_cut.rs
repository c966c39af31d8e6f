//! What holds of removing on exFAT volumes: the clusters of a removed file are free, its name is
//! not found, and every other name stays.
use vstd::prelude::*;

use crate::exfat::{ExfatView, EXFAT_FAT_FREE, EXFAT_TYPE_FILE};
use crate::exfat_dir;
use crate::exfat_dir::EntryView;
use crate::exfat_file;
use crate::exfat_laws;
use crate::exfat_laws::{data_of, entry, fits, linked, same_volume, used, valid, vol_ok};
use crate::exfat_sets;
use crate::exfat_tree;
use crate::exfat_write;
use crate::exfat_write::owned;

verus! {

/// Entries marked deleted.
proof fn lemma_del_bytes(b: Seq<u8>, i: int, n: int)
    requires
        0 <= i,
        (i + n) * 32 <= b.len(),
    ensures
        exfat_dir::delete_from(b, i, n).len() == b.len(),
        forall|p: int|
            0 <= p < b.len() ==> #[trigger] exfat_dir::delete_from(b, i, n)[p] == if p % 32 == 0
                && i * 32 <= p < (i + n) * 32 {
                (b[p] % 128) as u8
            } else {
                b[p]
            },
    decreases n,
{
    if n > 0 {
        lemma_del_bytes(b.update(i * 32, (b[i * 32] % 128) as u8), i + 1, n - 1);
    }
}

/// A search depends on the bytes from where it starts.
proof fn lemma_find_from(b: Seq<u8>, c: Seq<u8>, j: int, per: int, want: Seq<u8>)
    requires
        0 <= j,
        b.len() == per * 32,
        c.len() == per * 32,
        forall|p: int| j * 32 <= p < per * 32 ==> #[trigger] c[p] == b[p],
    ensures
        exfat_dir::find_in(c, j, per, want) == exfat_dir::find_in(b, j, per, want),
    decreases per - j,
{
    if j < per {
        assert(c[j * 32] == b[j * 32]);
        assert(c[j * 32 + 1] == b[j * 32 + 1]);
        let a = exfat_dir::after(b, j);
        if b[j * 32] == EXFAT_TYPE_FILE {
            if a <= per {
                exfat_sets::lemma_parse_same(b, c, j, per);
            }
        }
        if a < per {
            lemma_find_from(b, c, a, per, want);
        }
    }
}

/// No entry of a set turns into an unused one when it is marked deleted.
pub open spec fn solid(b: Seq<u8>, i: int, n: int) -> bool {
    forall|x: int| i <= x < i + n ==> (#[trigger] exfat_sets::type_at(b, x)) % 128 != 0
}

/// A search goes over deleted entries.
proof fn lemma_skip(b: Seq<u8>, c: Seq<u8>, x: int, i: int, n: int, per: int, want: Seq<u8>)
    requires
        0 <= i <= x <= i + n,
        i + n <= per,
        b.len() == per * 32,
        c == exfat_dir::delete_from(b, i, n),
        solid(b, i, n),
    ensures
        exfat_dir::find_in(c, x, per, want) == exfat_dir::find_in(b, i + n, per, want),
    decreases i + n - x,
{
    lemma_del_bytes(b, i, n);
    if x < i + n {
        assert(exfat_sets::type_at(b, x) % 128 != 0);
        assert(c[x * 32] == (b[x * 32] % 128) as u8);
        lemma_skip(b, c, x + 1, i, n, per, want);
    } else {
        lemma_find_from(b, c, x, per, want);
    }
}

/// A search in a cluster in which the set at entry `i` was marked deleted.
proof fn lemma_del_find(
    b: Seq<u8>,
    c: Seq<u8>,
    j: int,
    i: int,
    n: int,
    per: int,
    want: Seq<u8>,
    e: EntryView,
    w: Seq<u8>,
)
    requires
        0 <= j,
        b.len() == per * 32,
        exfat_dir::find_in(b, j, per, want) == Some((i, e)),
        n == 1 + b[i * 32 + 1],
        i + n <= per,
        c == exfat_dir::delete_from(b, i, n),
        solid(b, i, n),
    ensures
        exfat_dir::find_in(c, j, per, w) == if exfat_dir::find_in(b, j, per, w) == Some((i, e)) {
            exfat_dir::find_in(b, i + n, per, w)
        } else {
            exfat_dir::find_in(b, j, per, w)
        },
    decreases per - j,
{
    exfat_sets::lemma_find_range(b, j, per, want);
    lemma_del_bytes(b, i, n);
    if j == i {
        lemma_skip(b, c, i, i, n, per, w);
    } else {
        let a = exfat_dir::after(b, j);
        exfat_sets::lemma_find_range(b, a, per, want);
        assert(c[j * 32] == b[j * 32]);
        assert(c[j * 32 + 1] == b[j * 32 + 1]);
        if b[j * 32] == EXFAT_TYPE_FILE {
            exfat_sets::lemma_parse_same(b, c, j, per);
        }
        lemma_del_find(b, c, a, i, n, per, want, e, w);
    }
}

/// A cluster stays tidy when a set is marked deleted.
proof fn lemma_del_tidy(b: Seq<u8>, i: int, n: int, per: int)
    requires
        0 <= i,
        0 <= n,
        i + n <= per,
        b.len() == per * 32,
        solid(b, i, n),
        exfat_tree::tidy(b, per),
    ensures
        exfat_tree::tidy(exfat_dir::delete_from(b, i, n), per),
{
    let c = exfat_dir::delete_from(b, i, n);
    lemma_del_bytes(b, i, n);
    reveal(exfat_tree::tidy);
    assert forall|x: int| 0 <= x < per implies #[trigger] exfat_tree::is_unused(c, x)
        == exfat_tree::is_unused(b, x) && (c[x * 32] == EXFAT_TYPE_FILE ==> b[x * 32]
        == EXFAT_TYPE_FILE) && c[x * 32 + 1] == b[x * 32 + 1] by {
        if i <= x < i + n {
            assert(exfat_sets::type_at(b, x) % 128 != 0);
        }
    }
    assert forall|j: int, k: int|
        0 <= j < k < per && #[trigger] exfat_tree::is_unused(
            c,
            j,
        ) implies #[trigger] exfat_tree::is_unused(c, k) by {
        assert(exfat_tree::is_unused(b, j));
        assert(exfat_tree::is_unused(b, k));
    }
    assert forall|j: int, k: int|
        0 <= j < k < per && c[j * 32] == EXFAT_TYPE_FILE && #[trigger] exfat_tree::is_unused(
            c,
            k,
        ) implies #[trigger] exfat_dir::after(c, j) <= k by {
        assert(exfat_tree::is_unused(b, k));
        assert(!exfat_tree::is_unused(c, j));
        assert(exfat_dir::after(b, j) <= k);
    }
}

/// What is located depends on what a search of each cluster finds.
proof fn lemma_locate_like(
    s: ExfatView,
    t: ExfatView,
    bm: Seq<u32>,
    dch: Seq<u32>,
    g: int,
    w: Seq<u8>,
)
    requires
        vol_ok(s, bm),
        vol_ok(t, bm),
        same_volume(s, t),
        linked(s, dch),
        linked(t, dch),
        0 <= g < dch.len(),
        forall|q: int|
            0 <= q < dch.len() ==> #[trigger] exfat_dir::find_in(
                data_of(t, dch[q]),
                0,
                s.geo.per(),
                w,
            ) == exfat_dir::find_in(data_of(s, dch[q]), 0, s.geo.per(), w),
    ensures
        match (t.locate_from(dch[g], g, w), s.locate_from(dch[g], g, w)) {
            (Some((c1, i1, n1, e1)), Some((c2, i2, n2, e2))) => c1 == c2 && i1 == i2 && e1 == e2,
            (None, None) => true,
            _ => false,
        },
    decreases dch.len() - g,
{
    exfat_laws::lemma_vol(s, bm);
    exfat_laws::lemma_vol(t, bm);
    assert(valid(s.geo, dch[g]));
    exfat_laws::lemma_rd_cl(s, dch[g]);
    exfat_laws::lemma_rd_cl(t, dch[g]);
    exfat_laws::lemma_fit(s, t, dch[g]);
    assert(exfat_dir::find_in(data_of(t, dch[g]), 0, s.geo.per(), w) == exfat_dir::find_in(
        data_of(s, dch[g]),
        0,
        s.geo.per(),
        w,
    ));
    if g + 1 < dch.len() {
        assert(entry(s, dch[g]) == dch[g + 1]);
        assert(entry(t, dch[g]) == dch[g + 1]);
        lemma_locate_like(s, t, bm, dch, g + 1, w);
    } else {
        assert(dch[g] == dch.last());
    }
}

/// What freeing the clusters of `ch` leaves: they are not in use, every other bit and entry is as
/// it was, and every cluster but those of the bitmap holds what it held.
pub open spec fn freed(s: ExfatView, t: ExfatView, bm: Seq<u32>, ch: Seq<u32>) -> bool {
    &&& vol_ok(t, bm)
    &&& same_volume(s, t)
    &&& t.now == s.now
    &&& forall|k: int| 0 <= k < ch.len() ==> !used(t, bm, #[trigger] ch[k])
    &&& forall|d: u32|
        valid(s.geo, d) && !ch.contains(d) ==> #[trigger] used(t, bm, d) == used(s, bm, d)
    &&& forall|d: u32| valid(s.geo, d) && !ch.contains(d) ==> #[trigger] entry(t, d) == entry(s, d)
    &&& forall|d: u32|
        valid(s.geo, d) && !bm.contains(d) ==> #[trigger] data_of(t, d) == data_of(s, d)
}

/// The bit of a cluster outside the bitmap cleared.
proof fn lemma_clear_bit(s: ExfatView, bm: Seq<u32>, c: u32)
    requires
        vol_ok(s, bm),
        valid(s.geo, c),
        !bm.contains(c),
        s.bmp_put(c, false).1 || fits(s, bm),
    ensures
        s.bmp_put(c, false).1,
        freed(s, s.bmp_put(c, false).0, bm, seq![c]),
        entry(s.bmp_put(c, false).0, c) == entry(s, c),
{
    reveal(vol_ok);
    if fits(s, bm) {
        exfat_laws::lemma_put_works(s, bm, c, false);
    }
    exfat_laws::lemma_bmp_put(s, bm, c, false);
    let t = s.bmp_put(c, false).0;
    assert forall|i: int| 0 <= i < bm.len() implies used(t, bm, #[trigger] bm[i]) by {
        assert(bm.contains(bm[i]));
        assert(valid(s.geo, bm[i]));
        assert(used(t, bm, bm[i]) == used(s, bm, bm[i]));
    }
    assert forall|d: u32| valid(s.geo, d) && !seq![c].contains(d) implies #[trigger] used(t, bm, d)
        == used(s, bm, d) by {
        assert(seq![c][0] == c);
        assert(d != c);
    }
}

/// The bitmap in memory written.
proof fn lemma_flush(s: ExfatView, bm: Seq<u32>)
    requires
        vol_ok(s, bm),
    ensures
        fits(s, bm) ==> s.bmp_flush().1,
        freed(s, s.bmp_flush().0, bm, Seq::empty()),
{
    reveal(vol_ok);
    exfat_laws::lemma_bmp_flush(s, bm);
    let t = s.bmp_flush().0;
    assert forall|d: u32| valid(s.geo, d) implies #[trigger] used(t, bm, d) == used(s, bm, d) by {
        exfat_laws::lemma_same_used(s, t, bm, d);
    }
    assert forall|i: int| 0 <= i < bm.len() implies used(t, bm, #[trigger] bm[i]) by {
        assert(valid(s.geo, bm[i]));
        assert(used(t, bm, bm[i]) == used(s, bm, bm[i]));
    }
}

/// Clusters freed one after the other.
proof fn lemma_freed(
    s: ExfatView,
    t: ExfatView,
    u: ExfatView,
    bm: Seq<u32>,
    x: Seq<u32>,
    y: Seq<u32>,
    z: Seq<u32>,
)
    requires
        freed(s, t, bm, x),
        freed(t, u, bm, y),
        forall|k: int| 0 <= k < x.len() ==> valid(s.geo, #[trigger] x[k]),
        forall|c: u32| #[trigger] z.contains(c) <==> x.contains(c) || y.contains(c),
    ensures
        freed(s, u, bm, z),
{
    assert forall|k: int| 0 <= k < z.len() implies !used(u, bm, #[trigger] z[k]) by {
        assert(z.contains(z[k]));
        if y.contains(z[k]) {
            let j = choose|j: int| 0 <= j < y.len() && y[j] == z[k];
            assert(!used(u, bm, y[j]));
        } else {
            let j = choose|j: int| 0 <= j < x.len() && x[j] == z[k];
            assert(!used(t, bm, x[j]));
            assert(used(u, bm, x[j]) == used(t, bm, x[j]));
        }
    }
    assert forall|d: u32| valid(s.geo, d) && !z.contains(d) implies #[trigger] used(u, bm, d)
        == used(s, bm, d) by {
        assert(used(t, bm, d) == used(s, bm, d));
    }
    assert forall|d: u32| valid(s.geo, d) && !z.contains(d) implies #[trigger] entry(u, d)
        == entry(s, d) by {
        assert(entry(t, d) == entry(s, d));
    }
    assert forall|d: u32| valid(s.geo, d) && !bm.contains(d) implies #[trigger] data_of(u, d)
        == data_of(s, d) by {
        assert(data_of(t, d) == data_of(s, d));
    }
}

/// The bit and the table entry of a cluster outside the bitmap cleared.
proof fn lemma_free_one(s: ExfatView, bm: Seq<u32>, c: u32)
    requires
        vol_ok(s, bm),
        valid(s.geo, c),
        !bm.contains(c),
        s.bmp_put(c, false).1 || fits(s, bm),
    ensures
        ({
            let (s1, ok1) = s.bmp_put(c, false);
            let (s2, ok2) = s1.fat_set(c, EXFAT_FAT_FREE);
            &&& ok1
            &&& ok2
            &&& s1.geo == s.geo
            &&& s1.fat_get(c) == Some(entry(s, c))
            &&& freed(s, s2, bm, seq![c])
        }),
{
    lemma_clear_bit(s, bm, c);
    let s1 = s.bmp_put(c, false).0;
    exfat_laws::lemma_vol(s1, bm);
    exfat_laws::lemma_rd_cl(s1, c);
    exfat_write::lemma_set(s1, bm, c, EXFAT_FAT_FREE);
    let s2 = s1.fat_set(c, EXFAT_FAT_FREE).0;
    assert(seq![c][0] == c);
    assert(seq![c].contains(c));
    assert forall|k: int| 0 <= k < seq![c].len() implies !used(s2, bm, #[trigger] seq![c][k]) by {
        assert(used(s2, bm, c) == used(s1, bm, c));
        assert(!used(s1, bm, seq![c][0]));
    }
    assert forall|d: u32| valid(s.geo, d) && !seq![c].contains(d) implies #[trigger] used(
        s2,
        bm,
        d,
    ) == used(s, bm, d) by {
        assert(used(s1, bm, d) == used(s, bm, d));
    }
    assert forall|d: u32| valid(s.geo, d) && !seq![c].contains(d) implies #[trigger] entry(s2, d)
        == entry(s, d) by {
        assert(d != c);
        assert(entry(s1, d) == entry(s, d));
    }
    assert forall|d: u32| valid(s.geo, d) && !bm.contains(d) implies #[trigger] data_of(s2, d)
        == data_of(s, d) by {
        assert(data_of(s1, d) == data_of(s, d));
    }
}

/// A chain in the table freed.
pub proof fn lemma_free_linked(s: ExfatView, bm: Seq<u32>, ch: Seq<u32>, i: int, n: u32)
    requires
        vol_ok(s, bm),
        linked(s, ch),
        forall|k: int| 0 <= k < ch.len() ==> !bm.contains(#[trigger] ch[k]),
        0 < ch.len(),
        0 <= i,
        i + ch.len() <= s.geo.count + 1,
        s.free_from(ch[0], i, false, n).1 || fits(s, bm),
    ensures
        s.free_from(ch[0], i, false, n).1,
        freed(s, s.free_from(ch[0], i, false, n).0, bm, ch),
    decreases ch.len(),
{
    exfat_laws::lemma_vol(s, bm);
    let c = ch[0];
    assert(valid(s.geo, ch[0]));
    assert(!bm.contains(ch[0]));
    lemma_free_one(s, bm, c);
    let s1 = s.bmp_put(c, false).0;
    let s2 = s1.fat_set(c, EXFAT_FAT_FREE).0;
    exfat_laws::lemma_fits(s, s2, bm);
    let t = s.free_from(c, i, false, n).0;
    let one = seq![c];
    assert(one[0] == c);
    if ch.len() == 1 {
        assert(c == ch.last());
        lemma_flush(s2, bm);
        assert forall|d: u32| #[trigger] ch.contains(d) <==> one.contains(d) || Seq::<
            u32,
        >::empty().contains(d) by {
            if ch.contains(d) {
                assert(one[0] == d);
            }
            if one.contains(d) {
                assert(ch[0] == d);
            }
        }
        lemma_freed(s, s2, t, bm, one, Seq::empty(), ch);
    } else {
        let rest = ch.subrange(1, ch.len() as int);
        assert(entry(s, ch[0]) == ch[1]);
        assert(valid(s.geo, ch[1]));
        assert forall|k: int| 0 <= k < rest.len() implies !one.contains(#[trigger] rest[k]) by {
            assert(rest[k] == ch[k + 1]);
            assert(ch[k + 1] != ch[0]);
        }
        assert forall|k: int| 0 <= k < rest.len() - 1 implies entry(s2, #[trigger] rest[k])
            == rest[k + 1] by {
            assert(rest[k] == ch[k + 1]);
            assert(valid(s.geo, ch[k + 1]));
            assert(entry(s2, ch[k + 1]) == entry(s, ch[k + 1]));
            assert(entry(s, ch[k + 1]) == ch[k + 2]);
        }
        assert(rest.last() == ch.last());
        assert(valid(s.geo, ch[ch.len() - 1]));
        assert(!one.contains(rest[rest.len() - 1]));
        assert(entry(s2, ch.last()) == entry(s, ch.last()));
        assert(linked(s2, rest));
        assert(rest[0] == ch[1]);
        lemma_free_linked(s2, bm, rest, i + 1, n);
        assert forall|d: u32| #[trigger] ch.contains(d) <==> one.contains(d) || rest.contains(d) by {
            if ch.contains(d) {
                let j = choose|j: int| 0 <= j < ch.len() && ch[j] == d;
                if j > 0 {
                    assert(rest[j - 1] == d);
                } else {
                    assert(one[0] == d);
                }
            }
            if one.contains(d) {
                assert(ch[0] == d);
            }
            if rest.contains(d) {
                let j = choose|j: int| 0 <= j < rest.len() && rest[j] == d;
                assert(ch[j + 1] == d);
            }
        }
        lemma_freed(s, s2, t, bm, one, rest, ch);
    }
}

/// A run of clusters freed.
proof fn lemma_free_run(s: ExfatView, bm: Seq<u32>, ch: Seq<u32>, i: int, n: u32)
    requires
        vol_ok(s, bm),
        forall|k: int|
            0 <= k < ch.len() ==> valid(s.geo, #[trigger] ch[k]) && !bm.contains(ch[k]),
        forall|k: int| 0 <= k < ch.len() ==> #[trigger] ch[k] == ch[0] + k,
        0 < ch.len(),
        0 <= i,
        i + ch.len() == n,
        n <= s.geo.count,
        s.free_from(ch[0], i, true, n).1 || fits(s, bm),
    ensures
        s.free_from(ch[0], i, true, n).1,
        freed(s, s.free_from(ch[0], i, true, n).0, bm, ch),
    decreases ch.len(),
{
    let c = ch[0];
    assert(valid(s.geo, ch[0]));
    lemma_clear_bit(s, bm, c);
    let s1 = s.bmp_put(c, false).0;
    exfat_laws::lemma_fits(s, s1, bm);
    let t = s.free_from(c, i, true, n).0;
    let one = seq![c];
    assert(one[0] == c);
    if ch.len() == 1 {
        lemma_flush(s1, bm);
        assert forall|d: u32| #[trigger] ch.contains(d) <==> one.contains(d) || Seq::<
            u32,
        >::empty().contains(d) by {
            if ch.contains(d) {
                assert(one[0] == d);
            }
            if one.contains(d) {
                assert(ch[0] == d);
            }
        }
        lemma_freed(s, s1, t, bm, one, Seq::empty(), ch);
    } else {
        let rest = ch.subrange(1, ch.len() as int);
        assert(ch[1] == ch[0] + 1);
        assert(valid(s.geo, ch[1]));
        assert forall|k: int| 0 <= k < rest.len() implies valid(s1.geo, #[trigger] rest[k])
            && !bm.contains(rest[k]) && rest[k] == rest[0] + k by {
            assert(rest[k] == ch[k + 1]);
            assert(rest[0] == ch[1]);
        }
        lemma_free_run(s1, bm, rest, i + 1, n);
        assert forall|d: u32| #[trigger] ch.contains(d) <==> one.contains(d) || rest.contains(d) by {
            if ch.contains(d) {
                let j = choose|j: int| 0 <= j < ch.len() && ch[j] == d;
                if j > 0 {
                    assert(rest[j - 1] == d);
                } else {
                    assert(one[0] == d);
                }
            }
            if one.contains(d) {
                assert(ch[0] == d);
            }
            if rest.contains(d) {
                let j = choose|j: int| 0 <= j < rest.len() && rest[j] == d;
                assert(ch[j + 1] == d);
            }
        }
        lemma_freed(s, s1, t, bm, one, rest, ch);
    }
}

/// The file or directory that a set describes has the clusters `ch`.
pub open spec fn clusters_are(s: ExfatView, bm: Seq<u32>, e: EntryView, ch: Seq<u32>) -> bool {
    &&& owned(s, bm, ch)
    &&& if e.contiguous {
        &&& ch.len() == exfat_file::div_up(e.size as int, s.geo.cb())
        &&& forall|k: int| 0 <= k < ch.len() ==> #[trigger] ch[k] == e.first + k
    } else {
        linked(s, ch)
    }
    &&& if ch.len() == 0 {
        e.first < 2
    } else {
        e.first == ch[0]
    }
}

/// Law: freeing the clusters of a file clears their bits and, where they are linked, their
/// entries, and touches nothing else. It succeeds where the bitmap can be transferred.
pub proof fn law_clusters_are_freed(s: ExfatView, bm: Seq<u32>, e: EntryView, ch: Seq<u32>)
    requires
        vol_ok(s, bm),
        clusters_are(s, bm, e, ch),
        s.free_chain(e.first, e.contiguous, s.clusters_of(e)).1 || fits(s, bm),
    ensures
        s.free_chain(e.first, e.contiguous, s.clusters_of(e)).1,
        freed(s, s.free_chain(e.first, e.contiguous, s.clusters_of(e)).0, bm, ch),
{
    reveal(ExfatView::free_chain);
    exfat_laws::lemma_vol(s, bm);
    if ch.len() > 0 {
        assert(valid(s.geo, ch[0]));
        exfat_laws::lemma_chain_fits(s.geo, ch);
        if e.contiguous {
            assert forall|k: int| 0 <= k < ch.len() implies #[trigger] ch[k] == ch[0] + k by {
                assert(ch[0] == e.first + 0);
            }
            lemma_free_run(s, bm, ch, 0, s.clusters_of(e));
        } else {
            lemma_free_linked(s, bm, ch, 0, s.clusters_of(e));
        }
    }
}

/// The directory after the set of a name was marked deleted.
proof fn lemma_del_set(
    s: ExfatView,
    bm: Seq<u32>,
    dch: Seq<u32>,
    m: int,
    i: int,
    sec: int,
    name: Seq<u8>,
    e: EntryView,
)
    requires
        vol_ok(s, bm),
        exfat_tree::dir_ok(s, bm, dch),
        0 <= m < dch.len(),
        exfat_dir::find_in(data_of(s, dch[m]), 0, s.geo.per(), name) == Some((i, e)),
        sec == data_of(s, dch[m])[i * 32 + 1],
        solid(data_of(s, dch[m]), i, 1 + sec),
        s.del_set(dch[m], i, 1 + sec).1,
    ensures
        ({
            let t = s.del_set(dch[m], i, 1 + sec).0;
            &&& exfat_write::same_but(s, t, bm, dch)
            &&& exfat_tree::dir_ok(t, bm, dch)
            &&& 0 <= i
            &&& i + 1 + sec <= s.geo.per()
            &&& data_of(t, dch[m]) == exfat_dir::delete_from(data_of(s, dch[m]), i, 1 + sec)
            &&& forall|q: int|
                0 <= q < dch.len() && q != m ==> data_of(t, #[trigger] dch[q]) == data_of(
                    s,
                    dch[q],
                )
        }),
{
    exfat_laws::lemma_vol(s, bm);
    reveal(ExfatView::del_set);
    let per = s.geo.per();
    assert(valid(s.geo, dch[m]));
    exfat_laws::lemma_rd_cl(s, dch[m]);
    let b = data_of(s, dch[m]);
    assert(b.len() == per * 32);
    exfat_sets::lemma_find_range(b, 0, per, name);
    let c = exfat_dir::delete_from(b, i, 1 + sec);
    lemma_del_bytes(b, i, 1 + sec);
    exfat_write::lemma_put_one(s, bm, dch, m, c);
    let t = s.del_set(dch[m], i, 1 + sec).0;
    assert(t == s.wr_cl(dch[m], c).0);
    exfat_write::lemma_still(s, t, bm, dch, dch);
    exfat_laws::lemma_fits(s, t, dch);
    assert(exfat_tree::tidy(data_of(s, dch[m]), per));
    lemma_del_tidy(b, i, 1 + sec, per);
    assert forall|q: int| 0 <= q < dch.len() implies #[trigger] exfat_tree::tidy(
        data_of(t, dch[q]),
        per,
    ) by {
        if q != m {
            assert(data_of(t, dch[q]) == data_of(s, dch[q]));
            assert(exfat_tree::tidy(data_of(s, dch[q]), per));
        }
    }
}

/// No set of the directory behind entry `i` of cluster `m` has the name.
pub open spec fn no_more(
    s: ExfatView,
    dch: Seq<u32>,
    m: int,
    i: int,
    sec: int,
    name: Seq<u8>,
) -> bool {
    &&& exfat_dir::find_in(data_of(s, dch[m]), i + 1 + sec, s.geo.per(), name) is None
    &&& forall|q: int|
        m < q < dch.len() ==> (#[trigger] exfat_dir::find_in(
            data_of(s, dch[q]),
            0,
            s.geo.per(),
            name,
        )) is None
}

/// Where a located name is.
proof fn lemma_place(s: ExfatView, bm: Seq<u32>, dch: Seq<u32>, g: int, want: Seq<u8>) -> (m: int)
    requires
        vol_ok(s, bm),
        linked(s, dch),
        0 <= g < dch.len(),
        s.locate_from(dch[g], g, want) is Some,
    ensures
        g <= m < dch.len(),
        s.locate_from(dch[g], g, want) matches Some((cl, i, sec, e)) && cl == dch[m]
            && exfat_dir::find_in(data_of(s, dch[m]), 0, s.geo.per(), want) == Some((i, e)) && sec
            == data_of(s, dch[m])[i * 32 + 1],
        forall|q: int|
            g <= q < m ==> (#[trigger] exfat_dir::find_in(
                data_of(s, dch[q]),
                0,
                s.geo.per(),
                want,
            )) is None,
    decreases dch.len() - g,
{
    exfat_laws::lemma_vol(s, bm);
    assert(valid(s.geo, dch[g]));
    exfat_laws::lemma_rd_cl(s, dch[g]);
    if exfat_dir::find_in(data_of(s, dch[g]), 0, s.geo.per(), want) is Some {
        g
    } else {
        if g + 1 < dch.len() {
            assert(entry(s, dch[g]) == dch[g + 1]);
        } else {
            assert(dch[g] == dch.last());
        }
        let m = lemma_place(s, bm, dch, g + 1, want);
        assert forall|q: int| g <= q < m implies (#[trigger] exfat_dir::find_in(
            data_of(s, dch[q]),
            0,
            s.geo.per(),
            want,
        )) is None by {
            if q > g {
                assert(g + 1 <= q);
            }
        }
        m
    }
}

/// What removing the set at entry `i` of cluster `dch[m]` with its clusters `ch` leaves.
pub open spec fn removed(
    s: ExfatView,
    t: ExfatView,
    bm: Seq<u32>,
    dch: Seq<u32>,
    m: int,
    i: int,
    name: Seq<u8>,
    ch: Seq<u32>,
) -> bool {
    &&& vol_ok(t, bm)
    &&& same_volume(s, t)
    &&& exfat_tree::dir_ok(t, bm, dch)
    &&& t.lookup(dch[0], name) is None
    &&& forall|w: Seq<u8>|
        (s.locate(dch[0], w) matches Some((cl, k, n, x)) ==> cl != dch[m] || k != i)
            ==> #[trigger] t.lookup(dch[0], w) == s.lookup(dch[0], w)
    &&& forall|k: int| 0 <= k < ch.len() ==> !used(t, bm, #[trigger] ch[k])
    &&& forall|d: u32|
        valid(s.geo, d) && !ch.contains(d) ==> #[trigger] used(t, bm, d) == used(s, bm, d)
    &&& forall|d: u32| valid(s.geo, d) && !ch.contains(d) ==> #[trigger] entry(t, d) == entry(s, d)
    &&& forall|d: u32|
        valid(s.geo, d) && !bm.contains(d) && !dch.contains(d) ==> #[trigger] data_of(t, d)
            == data_of(s, d)
}

/// The names of a directory in which a set was marked deleted.
proof fn lemma_names(
    s: ExfatView,
    t: ExfatView,
    bm: Seq<u32>,
    dch: Seq<u32>,
    m: int,
    i: int,
    sec: int,
    name: Seq<u8>,
    e: EntryView,
)
    requires
        vol_ok(s, bm),
        vol_ok(t, bm),
        same_volume(s, t),
        exfat_tree::dir_ok(s, bm, dch),
        linked(t, dch),
        0 <= m < dch.len(),
        0 <= i,
        exfat_dir::find_in(data_of(s, dch[m]), 0, s.geo.per(), name) == Some((i, e)),
        sec == data_of(s, dch[m])[i * 32 + 1],
        i + 1 + sec <= s.geo.per(),
        solid(data_of(s, dch[m]), i, 1 + sec),
        no_more(s, dch, m, i, sec, name),
        forall|q: int|
            0 <= q < m ==> (#[trigger] exfat_dir::find_in(
                data_of(s, dch[q]),
                0,
                s.geo.per(),
                name,
            )) is None,
        data_of(t, dch[m]) == exfat_dir::delete_from(data_of(s, dch[m]), i, 1 + sec),
        forall|q: int|
            0 <= q < dch.len() && q != m ==> data_of(t, #[trigger] dch[q]) == data_of(s, dch[q]),
    ensures
        t.lookup(dch[0], name) is None,
        forall|w: Seq<u8>|
            (s.locate(dch[0], w) matches Some((cl, k, n, x)) ==> cl != dch[m] || k != i)
                ==> #[trigger] t.lookup(dch[0], w) == s.lookup(dch[0], w),
{
    exfat_laws::lemma_vol(s, bm);
    let per = s.geo.per();
    assert(valid(s.geo, dch[m]));
    exfat_laws::lemma_rd_cl(s, dch[m]);
    let b = data_of(s, dch[m]);
    let c = data_of(t, dch[m]);
    assert(b.len() == per * 32);
    lemma_del_find(b, c, 0, i, 1 + sec, per, name, e, name);
    assert forall|q: int| 0 <= q < dch.len() implies (#[trigger] exfat_dir::find_in(
        data_of(t, dch[q]),
        0,
        per,
        name,
    )) is None by {
        if q != m {
            assert(data_of(t, dch[q]) == data_of(s, dch[q]));
            assert(exfat_dir::find_in(data_of(s, dch[q]), 0, per, name) is None);
        }
    }
    exfat_laws::lemma_fits(s, t, dch);
    exfat_tree::lemma_locate_none(t, bm, dch, 0, name);
    assert forall|w: Seq<u8>|
        (s.locate(dch[0], w) matches Some((cl, k, n, x)) ==> cl != dch[m] || k
            != i) implies #[trigger] t.lookup(dch[0], w) == s.lookup(dch[0], w) by {
        lemma_del_find(b, c, 0, i, 1 + sec, per, name, e, w);
        lemma_other_name(s, t, bm, dch, m, i, sec, e, w);
    }
}

/// A name that is not that of the set marked deleted.
proof fn lemma_other_name(
    s: ExfatView,
    t: ExfatView,
    bm: Seq<u32>,
    dch: Seq<u32>,
    m: int,
    i: int,
    sec: int,
    e: EntryView,
    w: Seq<u8>,
)
    requires
        vol_ok(s, bm),
        vol_ok(t, bm),
        same_volume(s, t),
        linked(s, dch),
        fits(s, dch),
        linked(t, dch),
        0 <= m < dch.len(),
        exfat_dir::find_in(data_of(t, dch[m]), 0, s.geo.per(), w) == if exfat_dir::find_in(
            data_of(s, dch[m]),
            0,
            s.geo.per(),
            w,
        ) == Some((i, e)) {
            exfat_dir::find_in(data_of(s, dch[m]), i + (1 + sec), s.geo.per(), w)
        } else {
            exfat_dir::find_in(data_of(s, dch[m]), 0, s.geo.per(), w)
        },
        forall|q: int|
            0 <= q < dch.len() && q != m ==> data_of(t, #[trigger] dch[q]) == data_of(s, dch[q]),
        s.locate(dch[0], w) matches Some((cl, k, n, x)) ==> cl != dch[m] || k != i,
    ensures
        t.lookup(dch[0], w) == s.lookup(dch[0], w),
{
    let per = s.geo.per();
    if exfat_dir::find_in(data_of(s, dch[m]), 0, per, w) == Some((i, e)) {
        exfat_tree::lemma_locate_none(s, bm, dch, 0, w);
        assert(exfat_dir::find_in(data_of(s, dch[m]), 0, per, w) is Some);
        let p = lemma_place(s, bm, dch, 0, w);
        assert(p < m) by {
            if p >= m {
                assert(exfat_dir::find_in(data_of(s, dch[m]), 0, per, w) is Some);
                assert(p == m);
            }
        }
        let (cl, k, n, x) = s.locate(dch[0], w)->Some_0;
        assert forall|q: int| 0 <= q < p implies (#[trigger] exfat_dir::find_in(
            data_of(t, dch[q]),
            0,
            per,
            w,
        )) is None by {
            assert(data_of(t, dch[q]) == data_of(s, dch[q]));
            assert(exfat_dir::find_in(data_of(s, dch[q]), 0, per, w) is None);
        }
        assert(data_of(t, dch[p]) == data_of(s, dch[p]));
        exfat_laws::lemma_fits(s, t, dch);
        exfat_tree::lemma_locate(t, bm, dch, 0, p, w, k, x);
    } else {
        assert forall|q: int| 0 <= q < dch.len() implies #[trigger] exfat_dir::find_in(
            data_of(t, dch[q]),
            0,
            per,
            w,
        ) == exfat_dir::find_in(data_of(s, dch[q]), 0, per, w) by {
            if q != m {
                assert(data_of(t, dch[q]) == data_of(s, dch[q]));
            }
        }
        lemma_locate_like(s, t, bm, dch, 0, w);
    }
}

/// The clusters of a file stay its clusters when others are written.
proof fn lemma_clusters_stay(
    s: ExfatView,
    u: ExfatView,
    bm: Seq<u32>,
    e: EntryView,
    ch: Seq<u32>,
    x: Seq<u32>,
)
    requires
        clusters_are(s, bm, e, ch),
        exfat_write::same_but(s, u, bm, x),
    ensures
        clusters_are(u, bm, e, ch),
{
    if e.contiguous {
        assert forall|k: int| 0 <= k < ch.len() implies valid(u.geo, #[trigger] ch[k]) && used(
            u,
            bm,
            ch[k],
        ) && !bm.contains(ch[k]) by {
            assert(used(u, bm, ch[k]) == used(s, bm, ch[k]));
        }
    } else {
        exfat_write::lemma_still(s, u, bm, ch, x);
    }
}

/// The directory after clusters apart from it were freed.
pub proof fn lemma_after(
    s: ExfatView,
    u: ExfatView,
    t: ExfatView,
    bm: Seq<u32>,
    dch: Seq<u32>,
    ch: Seq<u32>,
)
    requires
        exfat_write::same_but(s, u, bm, dch),
        freed(u, t, bm, ch),
        exfat_write::apart(ch, dch),
        exfat_tree::dir_ok(u, bm, dch),
    ensures
        exfat_tree::dir_ok(t, bm, dch),
        forall|q: int| 0 <= q < dch.len() ==> data_of(t, #[trigger] dch[q]) == data_of(u, dch[q]),
        forall|d: u32|
            valid(s.geo, d) && !ch.contains(d) ==> #[trigger] used(t, bm, d) == used(s, bm, d),
        forall|d: u32|
            valid(s.geo, d) && !ch.contains(d) ==> #[trigger] entry(t, d) == entry(s, d),
        forall|d: u32|
            valid(s.geo, d) && !bm.contains(d) && !dch.contains(d) ==> #[trigger] data_of(t, d)
                == data_of(s, d),
{
    assert forall|q: int| 0 <= q < dch.len() implies data_of(t, #[trigger] dch[q]) == data_of(
        u,
        dch[q],
    ) && entry(t, dch[q]) == entry(u, dch[q]) && used(t, bm, dch[q]) && !ch.contains(dch[q]) by {
        assert(dch.contains(dch[q]));
        assert(valid(u.geo, dch[q]) && !bm.contains(dch[q]) && used(u, bm, dch[q]));
        assert(used(t, bm, dch[q]) == used(u, bm, dch[q]));
    }
    exfat_laws::lemma_linked(u, t, dch);
    exfat_laws::lemma_fits(u, t, dch);
    assert forall|q: int| 0 <= q < dch.len() implies #[trigger] exfat_tree::tidy(
        data_of(t, dch[q]),
        t.geo.per(),
    ) by {
        assert(data_of(t, dch[q]) == data_of(u, dch[q]));
        assert(exfat_tree::tidy(data_of(u, dch[q]), u.geo.per()));
    }
    assert forall|d: u32| valid(s.geo, d) && !ch.contains(d) implies #[trigger] used(t, bm, d)
        == used(s, bm, d) by {
        assert(used(u, bm, d) == used(s, bm, d));
    }
    assert forall|d: u32| valid(s.geo, d) && !ch.contains(d) implies #[trigger] entry(t, d)
        == entry(s, d) by {
        assert(entry(u, d) == entry(s, d));
    }
    assert forall|d: u32|
        valid(s.geo, d) && !bm.contains(d) && !dch.contains(d) implies #[trigger] data_of(t, d)
        == data_of(s, d) by {
        assert(data_of(u, d) == data_of(s, d));
    }
}

/// Law: a file or an empty directory that was removed, under a name that its directory has
/// once, is not found any more. Its clusters are free, every other name of the directory is
/// found or not found as before, and no other cluster in use changes.
pub proof fn law_removed_is_gone(
    s: ExfatView,
    bm: Seq<u32>,
    dch: Seq<u32>,
    p: Seq<u8>,
    name: Seq<u8>,
    is_dir: bool,
    ch: Seq<u32>,
) -> (m: int)
    requires
        vol_ok(s, bm),
        exfat_tree::dir_ok(s, bm, dch),
        s.home_of(p) == Some((dch[0], name)),
        s.remove(p, is_dir).1,
        exfat_write::apart(ch, dch),
        s.locate(dch[0], name) matches Some((cl, i, sec, e)) && clusters_are(s, bm, e, ch) && solid(
            data_of(s, cl),
            i,
            1 + sec,
        ) && forall|q: int|
            0 <= q < dch.len() && #[trigger] dch[q] == cl ==> no_more(s, dch, q, i, sec, name),
    ensures
        0 <= m < dch.len(),
        s.locate(dch[0], name) matches Some((cl, i, sec, e)) && removed(
            s,
            s.remove(p, is_dir).0,
            bm,
            dch,
            m,
            i,
            name,
            ch,
        ),
{
    reveal(ExfatView::remove);
    let m = lemma_place(s, bm, dch, 0, name);
    let (cl, i, sec, e) = s.locate(dch[0], name)->Some_0;
    assert(no_more(s, dch, m, i, sec, name));
    lemma_del_set(s, bm, dch, m, i, sec, name, e);
    let u = s.del_set(cl, i, 1 + sec).0;
    let t = s.remove(p, is_dir).0;
    lemma_clusters_stay(s, u, bm, e, ch, dch);
    assert(u.free_chain(e.first, e.contiguous, u.clusters_of(e)).1) by {
        reveal(ExfatView::free_chain);
    }
    law_clusters_are_freed(u, bm, e, ch);
    if ch.len() == 0 {
        assert(t == u);
    } else {
        assert(valid(s.geo, ch[0]));
    }
    assert(freed(u, t, bm, ch));
    lemma_after(s, u, t, bm, dch, ch);
    lemma_names(s, t, bm, dch, m, i, sec, name, e);
    m
}

} // verus!
