//! What holds of directories on exFAT volumes: a file that was made is found under its name,
//! one that was removed is not, and every other name stays.
use vstd::prelude::*;

use crate::bytes;
use crate::exfat::{
    ExfatView, EXFAT_FAT_EOC, EXFAT_TYPE_FILE, EXFAT_TYPE_NAME, EXFAT_TYPE_STREAM, EXFAT_TYPE_UNUSED,
};
use crate::exfat_dir;
use crate::exfat_dir::{EntryView, EXFAT_FILLER};
use crate::exfat_laws;
use crate::exfat_laws::{data_of, entry, fit, fits, linked, same_volume, used, valid, vol_ok};
use crate::exfat_sets;
use crate::exfat_write;
use crate::exfat_write::owned;
use crate::vfs::DIR_LONG_MAX;

verus! {

/// Whether entry `i` of a cluster was never used.
pub open spec fn is_unused(b: Seq<u8>, i: int) -> bool {
    b[i * 32] == EXFAT_TYPE_UNUSED
}

/// Whether entry `i` of a cluster can be used.
pub open spec fn is_free(b: Seq<u8>, i: int) -> bool {
    b[i * 32] < 128
}

/// Nothing follows an unused entry, and no set reaches over one.
#[verifier::opaque]
pub open spec fn tidy(b: Seq<u8>, per: int) -> bool {
    &&& forall|j: int, k: int|
        0 <= j < k < per && #[trigger] is_unused(b, j) ==> #[trigger] is_unused(b, k)
    &&& forall|j: int, k: int|
        0 <= j < k < per && b[j * 32] == EXFAT_TYPE_FILE && #[trigger] is_unused(b, k)
            ==> #[trigger] exfat_dir::after(b, j) <= k
}

/// Free entries, from `i` to `i + need - 1`.
proof fn lemma_all_free(b: Seq<u8>, i: int, need: int)
    ensures
        exfat_dir::all_free(b, i, need) <==> forall|k: int|
            i <= k < i + need ==> #[trigger] is_free(b, k),
    decreases need,
{
    if need > 0 {
        lemma_all_free(b, i, need - 1);
        let k = i + need - 1;
        assert(is_free(b, k) <==> b[k * 32] < 128);
    }
}

/// Where room is found: no entry before it is unused.
proof fn lemma_slot(b: Seq<u8>, j: int, per: int, need: int, i: int)
    requires
        0 <= j,
        0 < need,
        tidy(b, per),
        exfat_dir::slot_in(b, j, per, need) == Some(i),
    ensures
        j <= i,
        i + need <= per,
        exfat_dir::all_free(b, i, need),
        forall|k: int| j <= k < i ==> !#[trigger] is_unused(b, k),
    decreases per - j,
{
    reveal(tidy);
    if b[j * 32] >= 128 {
        let a = exfat_dir::after(b, j);
        lemma_slot(b, a, per, need, i);
        assert forall|k: int| j <= k < i implies !#[trigger] is_unused(b, k) by {
            if j < k < a && is_unused(b, k) {
                assert(exfat_dir::after(b, j) <= k);
            }
        }
    } else if !(j + need <= per && exfat_dir::all_free(b, j, need)) {
        lemma_slot(b, j + 1, per, need, i);
        if is_unused(b, j) {
            assert forall|k: int| j <= k < j + need implies #[trigger] is_free(b, k) by {
                if k > j {
                    assert(is_unused(b, k));
                }
            }
            lemma_all_free(b, j, need);
            assert(false);
        }
        assert forall|k: int| j <= k < i implies !#[trigger] is_unused(b, k) by {
            if k > j {
                assert(j + 1 <= k);
            }
        }
    }
}

/// A set put where room was found is found, where the name was not.
proof fn lemma_put_found(
    b: Seq<u8>,
    j: int,
    per: int,
    need: int,
    want: Seq<u8>,
    i: int,
    set: Seq<u8>,
    x: EntryView,
)
    requires
        0 <= j,
        b.len() == per * 32,
        0 < need,
        tidy(b, per),
        exfat_dir::slot_in(b, j, per, need) == Some(i),
        exfat_dir::find_in(b, j, per, want) is None,
        set.len() == need * 32,
        set[0] == EXFAT_TYPE_FILE,
        exfat_dir::parse(bytes::splice(b, i * 32, set), i, per) == Some(x),
        bytes::same_ignoring_case(x.name, want),
    ensures
        exfat_dir::find_in(bytes::splice(b, i * 32, set), j, per, want) == Some((i, x)),
    decreases per - j,
{
    let c = bytes::splice(b, i * 32, set);
    lemma_slot(b, j, per, need, i);
    if j == i {
        assert(c[i * 32] == set[0]);
    } else {
        assert(!is_unused(b, j));
        assert(c[j * 32] == b[j * 32]);
        assert(c[j * 32 + 1] == b[j * 32 + 1]);
        let a = exfat_dir::after(b, j);
        if b[j * 32] >= 128 {
            lemma_slot(b, a, per, need, i);
        }
        if b[j * 32] == EXFAT_TYPE_FILE {
            exfat_sets::lemma_parse_same(b, c, j, per);
        }
        lemma_put_found(b, a, per, need, want, i, set, x);
    }
}

/// No set of the directory has the name.
pub open spec fn absent(s: ExfatView, dch: Seq<u32>, want: Seq<u8>) -> bool {
    forall|m: int|
        0 <= m < dch.len() ==> (#[trigger] exfat_dir::find_in(
            data_of(s, dch[m]),
            0,
            s.geo.per(),
            want,
        )) is None
}

/// Every cluster of the directory is tidy.
pub open spec fn all_tidy(s: ExfatView, dch: Seq<u32>) -> bool {
    forall|m: int| 0 <= m < dch.len() ==> #[trigger] tidy(data_of(s, dch[m]), s.geo.per())
}

/// The first cluster from `g` on that has the name.
pub proof fn lemma_locate(
    s: ExfatView,
    bm: Seq<u32>,
    dch: Seq<u32>,
    g: int,
    m: int,
    want: Seq<u8>,
    i: int,
    e: EntryView,
)
    requires
        vol_ok(s, bm),
        linked(s, dch),
        fits(s, dch),
        0 <= g <= m < dch.len(),
        forall|q: int|
            g <= q < m ==> (#[trigger] exfat_dir::find_in(
                data_of(s, dch[q]),
                0,
                s.geo.per(),
                want,
            )) is None,
        exfat_dir::find_in(data_of(s, dch[m]), 0, s.geo.per(), want) == Some((i, e)),
    ensures
        s.locate_from(dch[g], g, want) == Some(
            (dch[m], i, data_of(s, dch[m])[i * 32 + 1] as int, e),
        ),
    decreases m - g,
{
    exfat_laws::lemma_vol(s, bm);
    exfat_laws::lemma_chain_fits(s.geo, dch);
    assert(valid(s.geo, dch[g]));
    exfat_laws::lemma_rd_cl(s, dch[g]);
    assert(fit(s, dch[g]));
    if g < m {
        assert(exfat_dir::find_in(data_of(s, dch[g]), 0, s.geo.per(), want) is None);
        assert(entry(s, dch[g]) == dch[g + 1]);
        assert(valid(s.geo, dch[g + 1]));
        lemma_locate(s, bm, dch, g + 1, m, want, i, e);
    }
}

/// A name that no cluster from `g` on has is not located, and the other way round.
pub proof fn lemma_locate_none(s: ExfatView, bm: Seq<u32>, dch: Seq<u32>, g: int, want: Seq<u8>)
    requires
        vol_ok(s, bm),
        linked(s, dch),
        fits(s, dch),
        0 <= g < dch.len(),
    ensures
        s.locate_from(dch[g], g, want) is None <==> forall|q: int|
            g <= q < dch.len() ==> (#[trigger] exfat_dir::find_in(
                data_of(s, dch[q]),
                0,
                s.geo.per(),
                want,
            )) is None,
    decreases dch.len() - g,
{
    exfat_laws::lemma_vol(s, bm);
    exfat_laws::lemma_chain_fits(s.geo, dch);
    assert(valid(s.geo, dch[g]));
    exfat_laws::lemma_rd_cl(s, dch[g]);
    assert(fit(s, dch[g]));
    let here = exfat_dir::find_in(data_of(s, dch[g]), 0, s.geo.per(), want);
    if g + 1 < dch.len() {
        assert(entry(s, dch[g]) == dch[g + 1]);
        assert(valid(s.geo, dch[g + 1]));
        lemma_locate_none(s, bm, dch, g + 1, want);
    } else {
        assert(dch[g] == dch.last());
    }
    assert(here is None <==> exfat_dir::find_in(data_of(s, dch[g]), 0, s.geo.per(), want) is None);
}

/// Where room is found in a directory.
proof fn lemma_slot_from(s: ExfatView, bm: Seq<u32>, dch: Seq<u32>, g: int, need: int, cl: u32, i: int) -> (
    m: int)
    requires
        vol_ok(s, bm),
        linked(s, dch),
        0 <= g < dch.len(),
        s.slot_from(dch[g], g, need) == Some((cl, i)),
    ensures
        g <= m < dch.len(),
        dch[m] == cl,
        exfat_dir::slot_in(data_of(s, cl), 0, s.geo.per(), need) == Some(i),
    decreases dch.len() - g,
{
    exfat_laws::lemma_vol(s, bm);
    assert(valid(s.geo, dch[g]));
    exfat_laws::lemma_rd_cl(s, dch[g]);
    if exfat_dir::slot_in(data_of(s, dch[g]), 0, s.geo.per(), need) is Some {
        g
    } else {
        if g + 1 < dch.len() {
            assert(entry(s, dch[g]) == dch[g + 1]);
        } else {
            assert(dch[g] == dch.last());
        }
        lemma_slot_from(s, bm, dch, g + 1, need, cl, i)
    }
}

/// A set built for a name put where room was found in a cluster: the name is found.
#[verifier::spinoff_prover]
#[verifier::rlimit(80)]
proof fn lemma_put_in(
    s: ExfatView,
    b: Seq<u8>,
    per: int,
    i: int,
    name: Seq<u8>,
    e: EntryView,
    set: Seq<u8>,
)
    requires
        b.len() == per * 32,
        tidy(b, per),
        exfat_dir::find_in(b, 0, per, name) is None,
        exfat_sets::is_utf8(name, 0),
        name.len() <= DIR_LONG_MAX,
        s.build_set(name, e) == Some(set),
        exfat_dir::slot_in(b, 0, per, set.len() as int / 32) == Some(i),
        i * 32 + set.len() <= b.len(),
    ensures
        exfat_dir::find_in(bytes::splice(b, i * 32, set), 0, per, name) == Some(
            (i, exfat_sets::as_read(e, name)),
        ),
        tidy(bytes::splice(b, i * 32, set), per),
        0 <= i < per,
{
    let need = set.len() as int / 32;
    let x = exfat_sets::as_read(e, name);
    lemma_slot_bound(b, 0, per, need, i);
    exfat_sets::law_set_reads_back(s, name, e, b, i, per);
    assert(x.name == name);
    assert(bytes::same_ignoring_case(x.name, name));
    assert(set.len() == need * 32);
    lemma_put_found(b, 0, per, need, name, i, set, x);
    exfat_sets::lemma_set_types(s, name, e);
    lemma_put_tidy(b, per, need, i, set);
}

/// A set that was built in state `u` put where room was found in the directory: the name is
/// found.
proof fn lemma_put_set(
    u: ExfatView,
    s: ExfatView,
    bm: Seq<u32>,
    dch: Seq<u32>,
    cl: u32,
    i: int,
    name: Seq<u8>,
    e: EntryView,
    set: Seq<u8>,
)
    requires
        vol_ok(s, bm),
        dir_ok(s, bm, dch),
        absent(s, dch, name),
        exfat_sets::is_utf8(name, 0),
        name.len() <= DIR_LONG_MAX,
        u.build_set(name, e) == Some(set),
        s.slot_from(dch[0], 0, set.len() as int / 32) == Some((cl, i)),
        s.put_set(cl, i, set).1,
    ensures
        ({
            let t = s.put_set(cl, i, set).0;
            &&& exfat_write::same_but(s, t, bm, dch)
            &&& dir_ok(t, bm, dch)
            &&& t.lookup(dch[0], name) == Some(exfat_sets::as_read(e, name))
        }),
{
    exfat_laws::lemma_vol(s, bm);
    reveal(ExfatView::put_set);
    let per = s.geo.per();
    let m = lemma_slot_from(s, bm, dch, 0, set.len() as int / 32, cl, i);
    assert(valid(s.geo, dch[m]));
    exfat_laws::lemma_rd_cl(s, cl);
    let b = data_of(s, cl);
    let c = bytes::splice(b, i * 32, set);
    let x = exfat_sets::as_read(e, name);
    assert(exfat_dir::find_in(c, 0, per, name) == Some((i, x)) && 0 <= i && tidy(c, per)) by {
        assert(tidy(data_of(s, dch[m]), per));
        assert(exfat_dir::find_in(data_of(s, dch[m]), 0, per, name) is None);
        lemma_put_in(u, b, per, i, name, e, set);
    }
    exfat_write::lemma_put_one(s, bm, dch, m, c);
    let t = s.put_set(cl, i, set).0;
    assert(t == s.wr_cl(cl, c).0);
    exfat_write::lemma_still(s, t, bm, dch, dch);
    exfat_laws::lemma_fits(s, t, dch);
    assert forall|q: int| 0 <= q < m implies (#[trigger] exfat_dir::find_in(
        data_of(t, dch[q]),
        0,
        per,
        name,
    )) is None by {
        assert(data_of(t, dch[q]) == data_of(s, dch[q]));
        assert(exfat_dir::find_in(data_of(s, dch[q]), 0, per, name) is None);
    }
    lemma_locate(t, bm, dch, 0, m, name, i, x);
    assert forall|q: int| 0 <= q < dch.len() implies #[trigger] tidy(data_of(t, dch[q]), per) by {
        if q != m {
            assert(data_of(t, dch[q]) == data_of(s, dch[q]));
            assert(tidy(data_of(s, dch[q]), per));
        }
    }
}

/// Where room ends.
proof fn lemma_slot_bound(b: Seq<u8>, j: int, per: int, need: int, i: int)
    requires
        0 <= j,
        exfat_dir::slot_in(b, j, per, need) == Some(i),
    ensures
        j <= i,
        i + need <= per,
    decreases per - j,
{
    if b[j * 32] >= 128 {
        lemma_slot_bound(b, exfat_dir::after(b, j), per, need, i);
    } else if !(j + need <= per && exfat_dir::all_free(b, j, need)) {
        lemma_slot_bound(b, j + 1, per, need, i);
    }
}

/// A cluster stays tidy when a set is put where room was found.
proof fn lemma_put_tidy(b: Seq<u8>, per: int, need: int, i: int, set: Seq<u8>)
    requires
        b.len() == per * 32,
        0 < need,
        tidy(b, per),
        exfat_dir::slot_in(b, 0, per, need) == Some(i),
        set.len() == need * 32,
        set[0] == EXFAT_TYPE_FILE,
        1 + set[1] == need,
        forall|q: int|
            1 <= q < need ==> #[trigger] exfat_sets::type_at(set, q) == EXFAT_TYPE_STREAM
                || exfat_sets::type_at(set, q) == EXFAT_TYPE_NAME,
    ensures
        tidy(bytes::splice(b, i * 32, set), per),
{
    let c = bytes::splice(b, i * 32, set);
    lemma_slot(b, 0, per, need, i);
    reveal(tidy);
    assert forall|x: int| i <= x < i + need implies !#[trigger] is_unused(c, x) && (x > i
        ==> c[x * 32] != EXFAT_TYPE_FILE) by {
        assert(c[x * 32] == set[(x - i) * 32]);
        if x > i {
            assert(exfat_sets::type_at(set, x - i) == set[(x - i) * 32]);
        }
    }
    assert forall|x: int| 0 <= x < per && !(i <= x < i + need) implies c[x * 32] == b[x * 32]
        && c[x * 32 + 1] == b[x * 32 + 1] && #[trigger] is_unused(c, x) == is_unused(b, x) by {}
    assert forall|j: int, k: int|
        0 <= j < k < per && #[trigger] is_unused(c, j) implies #[trigger] is_unused(c, k) by {
        assert(is_unused(b, j));
        assert(is_unused(b, k));
    }
    assert forall|j: int, k: int|
        0 <= j < k < per && c[j * 32] == EXFAT_TYPE_FILE && #[trigger] is_unused(
            c,
            k,
        ) implies #[trigger] exfat_dir::after(c, j) <= k by {
        assert(is_unused(b, k));
        if j == i {
            assert(c[i * 32 + 1] == set[1]);
        } else {
            assert(!is_unused(c, j));
            assert(!(i <= j < i + need));
            assert(b[j * 32] == EXFAT_TYPE_FILE && c[j * 32 + 1] == b[j * 32 + 1]);
            assert(exfat_dir::after(b, j) <= k);
        }
    }
}

/// Entries filled.
proof fn lemma_fill_bytes(b: Seq<u8>, i: int, per: int)
    requires
        0 <= i,
        b.len() == per * 32,
    ensures
        exfat_dir::fill_from(b, i, per).len() == b.len(),
        forall|p: int|
            0 <= p < b.len() ==> #[trigger] exfat_dir::fill_from(b, i, per)[p] == if p % 32 == 0
                && p >= i * 32 {
                EXFAT_FILLER
            } else {
                b[p]
            },
    decreases per - i,
{
    if i < per {
        lemma_fill_bytes(b.update(i * 32, EXFAT_FILLER), i + 1, per);
    }
}

/// The first unused entry.
proof fn lemma_unused_from(b: Seq<u8>, j: int, per: int)
    requires
        0 <= j <= per,
    ensures
        j <= exfat_dir::unused_from(b, j, per) <= per,
        exfat_dir::unused_from(b, j, per) < per ==> is_unused(
            b,
            exfat_dir::unused_from(b, j, per),
        ),
        forall|k: int| j <= k < exfat_dir::unused_from(b, j, per) ==> !#[trigger] is_unused(b, k),
    decreases per - j,
{
    if j < per && !is_unused(b, j) {
        lemma_unused_from(b, j + 1, per);
        assert forall|k: int| j <= k < exfat_dir::unused_from(b, j, per) implies !#[trigger] is_unused(
            b,
            k,
        ) by {
            if k > j {
                assert(j + 1 <= k);
            }
        }
    }
}

/// A name that was not found is not found after the entries from `k` on were filled.
proof fn lemma_fill_find(b: Seq<u8>, c: Seq<u8>, j: int, k: int, per: int, want: Seq<u8>)
    requires
        0 <= j,
        0 <= k < per,
        b.len() == per * 32,
        c == exfat_dir::fill_from(b, k, per),
        tidy(b, per),
        is_unused(b, k),
        forall|x: int| 0 <= x < k ==> !#[trigger] is_unused(b, x),
        j < k ==> exfat_dir::find_in(b, j, per, want) is None,
    ensures
        exfat_dir::find_in(c, j, per, want) is None,
    decreases per - j,
{
    lemma_fill_bytes(b, k, per);
    if j < per {
        assert(c[j * 32] == if j >= k {
            EXFAT_FILLER
        } else {
            b[j * 32]
        });
        assert(c[j * 32 + 1] == b[j * 32 + 1]);
        if j < k {
            assert(!is_unused(b, j));
            let a = exfat_dir::after(b, j);
            if b[j * 32] == EXFAT_TYPE_FILE {
                assert(a <= k) by {
                    reveal(tidy);
                }
                exfat_sets::lemma_parse_same(b, c, j, per);
            }
            lemma_fill_find(b, c, a, k, per, want);
        } else {
            lemma_fill_find(b, c, j + 1, k, per, want);
        }
    }
}

/// A cluster whose unused entries were filled.
proof fn lemma_filled(b: Seq<u8>, per: int, want: Seq<u8>)
    requires
        b.len() == per * 32,
        tidy(b, per),
        exfat_dir::find_in(b, 0, per, want) is None,
        exfat_dir::unused_from(b, 0, per) < per,
    ensures
        ({
            let c = exfat_dir::fill_from(b, exfat_dir::unused_from(b, 0, per), per);
            c.len() == b.len() && tidy(c, per) && exfat_dir::find_in(c, 0, per, want) is None
        }),
{
    let k = exfat_dir::unused_from(b, 0, per);
    let c = exfat_dir::fill_from(b, k, per);
    lemma_unused_from(b, 0, per);
    lemma_fill_bytes(b, k, per);
    lemma_fill_find(b, c, 0, k, per, want);
    reveal(tidy);
    assert forall|x: int| 0 <= x < per implies !#[trigger] is_unused(c, x) by {
        if x < k {
            assert(!is_unused(b, x));
        }
        assert(c[x * 32] == if x >= k {
            EXFAT_FILLER
        } else {
            b[x * 32]
        });
    }
}

/// A cleared cluster.
proof fn lemma_cleared(per: int, want: Seq<u8>)
    requires
        per > 0,
    ensures
        tidy(bytes::zeros(per * 32), per),
        exfat_dir::find_in(bytes::zeros(per * 32), 0, per, want) is None,
{
    reveal(tidy);
    let z = bytes::zeros(per * 32);
    assert forall|x: int| 0 <= x < per implies #[trigger] is_unused(z, x) && z[x * 32]
        != EXFAT_TYPE_FILE by {
        assert(z[x * 32] == 0);
    }
    assert forall|j: int, k: int|
        0 <= j < k < per && z[j * 32] == EXFAT_TYPE_FILE && #[trigger] is_unused(
            z,
            k,
        ) implies #[trigger] exfat_dir::after(z, j) <= k by {
        assert(is_unused(z, j));
    }
    assert(is_unused(z, 0));
}

/// A directory in good order: a chain of clusters in use, each of which is tidy and can be
/// transferred.
pub open spec fn dir_ok(s: ExfatView, bm: Seq<u32>, dch: Seq<u32>) -> bool {
    &&& linked(s, dch)
    &&& fits(s, dch)
    &&& owned(s, bm, dch)
    &&& dch.len() > 0
    &&& all_tidy(s, dch)
}

/// The end of a chain.
proof fn lemma_tail(s: ExfatView, ch: Seq<u32>, i: int, k: int, limit: int)
    requires
        exfat_laws::good_geo(s.geo),
        exfat_laws::ready(s),
        linked(s, ch),
        0 <= i < ch.len(),
    ensures
        s.tail_from(ch[i], k, limit) matches Some((tail, n)) ==> tail == ch.last(),
    decreases ch.len() - i,
{
    assert(valid(s.geo, ch[i]));
    exfat_laws::lemma_rd_cl(s, ch[i]);
    if i + 1 < ch.len() {
        assert(entry(s, ch[i]) == ch[i + 1]);
        assert(valid(s.geo, ch[i + 1]));
        lemma_tail(s, ch, i + 1, k + 1, limit);
    } else {
        assert(ch[i] == ch.last());
    }
}

/// The last cluster of a directory filled: no name comes up, and it stays tidy.
proof fn lemma_fill_dir(s: ExfatView, bm: Seq<u32>, dch: Seq<u32>, want: Seq<u8>)
    requires
        vol_ok(s, bm),
        dir_ok(s, bm, dch),
        absent(s, dch, want),
        s.fill_cluster(dch.last()).1,
    ensures
        exfat_write::same_but(s, s.fill_cluster(dch.last()).0, bm, dch),
        dir_ok(s.fill_cluster(dch.last()).0, bm, dch),
        absent(s.fill_cluster(dch.last()).0, dch, want),
{
    exfat_laws::lemma_vol(s, bm);
    reveal(ExfatView::fill_cluster);
    let m = dch.len() - 1;
    let last = dch[m];
    let per = s.geo.per();
    assert(valid(s.geo, dch[m]));
    exfat_laws::lemma_rd_cl(s, last);
    let b = data_of(s, last);
    assert(b.len() == per * 32);
    let t = s.fill_cluster(last).0;
    assert(tidy(data_of(s, dch[m]), per));
    assert(exfat_dir::find_in(data_of(s, dch[m]), 0, per, want) is None);
    if exfat_dir::unused_from(b, 0, per) < per {
        lemma_filled(b, per, want);
        let c = exfat_dir::fill_from(b, exfat_dir::unused_from(b, 0, per), per);
        exfat_write::lemma_put_one(s, bm, dch, m, c);
        exfat_write::lemma_still(s, t, bm, dch, dch);
        exfat_laws::lemma_fits(s, t, dch);
        assert forall|q: int| 0 <= q < dch.len() implies #[trigger] tidy(data_of(t, dch[q]), per) by {
            if q != m {
                assert(data_of(t, dch[q]) == data_of(s, dch[q]));
                assert(tidy(data_of(s, dch[q]), per));
            }
        }
        assert forall|q: int| 0 <= q < dch.len() implies (#[trigger] exfat_dir::find_in(
            data_of(t, dch[q]),
            0,
            per,
            want,
        )) is None by {
            if q != m {
                assert(data_of(t, dch[q]) == data_of(s, dch[q]));
                assert(exfat_dir::find_in(data_of(s, dch[q]), 0, per, want) is None);
            }
        }
    } else {
        assert(t == s);
    }
}

/// What a directory extended by the cluster `nc` leaves.
pub open spec fn extended(
    s: ExfatView,
    t: ExfatView,
    bm: Seq<u32>,
    dch: Seq<u32>,
    nc: u32,
) -> bool {
    &&& vol_ok(t, bm)
    &&& same_volume(s, t)
    &&& t.now == s.now
    &&& dir_ok(t, bm, dch.push(nc))
    &&& !used(s, bm, nc)
    &&& forall|d: u32| valid(s.geo, d) && used(s, bm, d) ==> #[trigger] used(t, bm, d)
    &&& forall|d: u32|
        valid(s.geo, d) && used(s, bm, d) && !dch.contains(d) ==> #[trigger] entry(t, d) == entry(
            s,
            d,
        )
    &&& forall|d: u32|
        valid(s.geo, d) && used(s, bm, d) && !dch.contains(d) && !bm.contains(d)
            ==> #[trigger] data_of(t, d) == data_of(s, d)
}

/// A cluster taken, cleared and appended to a directory.
proof fn lemma_append_clear(
    s: ExfatView,
    s1: ExfatView,
    bm: Seq<u32>,
    dch: Seq<u32>,
    nc: u32,
    want: Seq<u8>,
)
    requires
        vol_ok(s, bm),
        dir_ok(s, bm, dch),
        absent(s, dch, want),
        exfat_laws::taken(s, s1, bm, nc),
        s1.wr_cl(nc, bytes::zeros(s1.geo.cb())).1,
    ensures
        ({
            let s2 = s1.wr_cl(nc, bytes::zeros(s1.geo.cb())).0;
            let (t, ok3) = s2.fat_set(dch.last(), nc);
            &&& ok3
            &&& extended(s, t, bm, dch, nc)
            &&& absent(t, dch.push(nc), want)
        }),
{
    exfat_laws::lemma_vol(s, bm);
    let n = dch.len() as int;
    let last = dch[n - 1];
    let per = s.geo.per();
    let z = bytes::zeros(s.geo.cb());
    assert(valid(s.geo, dch[n - 1]));
    exfat_write::lemma_not_map(s, bm, nc);
    assert forall|i: int| 0 <= i < n implies #[trigger] dch[i] != nc by {
        assert(used(s, bm, dch[i]));
    }
    exfat_write::lemma_put(s1, bm, nc, z);
    let s2 = s1.wr_cl(nc, z).0;
    exfat_write::lemma_set(s2, bm, last, nc);
    let t = s2.fat_set(last, nc).0;
    let ch2 = dch.push(nc);
    assert forall|i: int| 0 <= i < ch2.len() implies fit(t, #[trigger] ch2[i]) by {
        exfat_laws::lemma_fit(s, s1, ch2[i]);
        exfat_laws::lemma_fit(s1, t, ch2[i]);
        if i < n {
            assert(ch2[i] == dch[i]);
            assert(fit(s, dch[i]));
        }
    }
    lemma_cleared(per, want);
    assert(z == bytes::zeros(per * 32));
    assert forall|i: int| 0 <= i < n implies data_of(t, #[trigger] dch[i]) == data_of(s, dch[i]) by {
        assert(valid(s.geo, dch[i]) && !bm.contains(dch[i]));
        assert(data_of(t, dch[i]) == data_of(s2, dch[i]));
        assert(data_of(s2, dch[i]) == data_of(s1, dch[i]));
    }
    assert(data_of(t, nc) == z) by {
        assert(data_of(t, nc) == data_of(s2, nc));
    }
    assert forall|i: int| 0 <= i < ch2.len() implies valid(t.geo, #[trigger] ch2[i]) && used(
        t,
        bm,
        ch2[i],
    ) && !bm.contains(ch2[i]) by {
        if i < n {
            assert(ch2[i] == dch[i]);
            assert(used(s1, bm, dch[i]) == used(s, bm, dch[i]));
        }
        assert(used(s2, bm, ch2[i]) == used(s1, bm, ch2[i]));
        assert(used(t, bm, ch2[i]) == used(s2, bm, ch2[i]));
    }
    assert(ch2.no_duplicates());
    assert forall|i: int| 0 <= i < ch2.len() - 1 implies entry(t, #[trigger] ch2[i]) == ch2[i
        + 1] by {
        assert(ch2[i] == dch[i]);
        if i < n - 1 {
            assert(dch[i] != last);
            assert(entry(t, dch[i]) == entry(s2, dch[i]));
            assert(entry(s2, dch[i]) == entry(s1, dch[i]));
            assert(entry(s1, dch[i]) == entry(s, dch[i]));
            assert(entry(s, dch[i]) == dch[i + 1]);
            assert(ch2[i + 1] == dch[i + 1]);
        }
    }
    assert(ch2.last() == nc);
    assert(entry(t, nc) == EXFAT_FAT_EOC) by {
        assert(entry(t, nc) == entry(s2, nc));
        assert(entry(s2, nc) == entry(s1, nc));
    }
    assert forall|q: int| 0 <= q < ch2.len() implies #[trigger] tidy(data_of(t, ch2[q]), per) by {
        if q < n {
            assert(ch2[q] == dch[q]);
            assert(tidy(data_of(s, dch[q]), per));
        }
    }
    assert forall|q: int| 0 <= q < ch2.len() implies (#[trigger] exfat_dir::find_in(
        data_of(t, ch2[q]),
        0,
        per,
        want,
    )) is None by {
        if q < n {
            assert(ch2[q] == dch[q]);
            assert(exfat_dir::find_in(data_of(s, dch[q]), 0, per, want) is None);
        }
    }
    assert forall|d: u32| valid(s.geo, d) && used(s, bm, d) implies #[trigger] used(t, bm, d) by {
        assert(d != nc);
        assert(used(s1, bm, d) == used(s, bm, d));
        assert(used(s2, bm, d) == used(s1, bm, d));
        assert(used(t, bm, d) == used(s2, bm, d));
    }
    assert forall|d: u32|
        valid(s.geo, d) && used(s, bm, d) && !dch.contains(d) implies #[trigger] entry(t, d)
        == entry(s, d) by {
        assert(dch.contains(dch[n - 1]));
        assert(entry(t, d) == entry(s2, d));
        assert(entry(s2, d) == entry(s1, d));
        assert(entry(s1, d) == entry(s, d));
    }
    assert forall|d: u32|
        valid(s.geo, d) && used(s, bm, d) && !dch.contains(d) && !bm.contains(
            d,
        ) implies #[trigger] data_of(t, d) == data_of(s, d) by {
        assert(d != nc);
        assert(data_of(t, d) == data_of(s2, d));
        assert(data_of(s2, d) == data_of(s1, d));
    }
}

/// A directory extended.
proof fn lemma_dir_grow(s: ExfatView, bm: Seq<u32>, dch: Seq<u32>, want: Seq<u8>) -> (nc: u32)
    requires
        vol_ok(s, bm),
        dir_ok(s, bm, dch),
        absent(s, dch, want),
        s.dir_grow(dch[0]).1,
    ensures
        extended(s, s.dir_grow(dch[0]).0, bm, dch, nc),
        absent(s.dir_grow(dch[0]).0, dch.push(nc), want),
{
    exfat_laws::lemma_vol(s, bm);
    reveal(ExfatView::dir_grow);
    reveal(ExfatView::alloc_clear);
    lemma_tail(s, dch, 0, 0, s.geo.count + 1);
    lemma_fill_dir(s, bm, dch, want);
    let s1 = s.fill_cluster(dch.last()).0;
    exfat_laws::law_alloc_takes_free(s1, bm);
    let (s2, r) = s1.alloc_cluster();
    let nc = r->Some_0;
    lemma_append_clear(s1, s2, bm, dch, nc, want);
    let t = s.dir_grow(dch[0]).0;
    assert(used(s1, bm, nc) == used(s, bm, nc));
    assert forall|d: u32| valid(s.geo, d) && used(s, bm, d) implies #[trigger] used(t, bm, d) by {
        assert(used(s1, bm, d) == used(s, bm, d));
    }
    assert forall|d: u32|
        valid(s.geo, d) && used(s, bm, d) && !dch.contains(d) implies #[trigger] entry(t, d)
        == entry(s, d) by {
        assert(used(s1, bm, d) == used(s, bm, d));
        assert(entry(s1, d) == entry(s, d));
    }
    assert forall|d: u32|
        valid(s.geo, d) && used(s, bm, d) && !dch.contains(d) && !bm.contains(
            d,
        ) implies #[trigger] data_of(t, d) == data_of(s, d) by {
        assert(used(s1, bm, d) == used(s, bm, d));
        assert(data_of(s1, d) == data_of(s, d));
    }
    nc
}

/// What a new set leaves: the directory's clusters are `dch2`, the name is found, and clusters
/// in use outside the directory are as they were.
pub open spec fn added(
    s: ExfatView,
    t: ExfatView,
    bm: Seq<u32>,
    dch: Seq<u32>,
    dch2: Seq<u32>,
    name: Seq<u8>,
    e: EntryView,
) -> bool {
    &&& vol_ok(t, bm)
    &&& same_volume(s, t)
    &&& dir_ok(t, bm, dch2)
    &&& dch2[0] == dch[0]
    &&& t.lookup(dch[0], name) == Some(exfat_sets::as_read(e, name))
    &&& forall|d: u32| valid(s.geo, d) && used(s, bm, d) ==> #[trigger] used(t, bm, d)
    &&& forall|d: u32|
        valid(s.geo, d) && used(s, bm, d) && !dch.contains(d) ==> #[trigger] entry(t, d) == entry(
            s,
            d,
        )
    &&& forall|d: u32|
        valid(s.geo, d) && used(s, bm, d) && !dch.contains(d) && !bm.contains(d)
            ==> #[trigger] data_of(t, d) == data_of(s, d)
}

/// The set of a new file or directory.
pub open spec fn new_entry(s: ExfatView, is_dir: bool, first: u32) -> EntryView {
    EntryView {
        is_dir,
        contiguous: false,
        first,
        size: 0,
        valid: 0,
        mtime: s.now,
        name: Seq::empty(),
    }
}

/// Law: a name added to a directory that does not have it is found there, with what it was
/// added with; the directory stays in good order, and no cluster in use outside it changes.
/// The name has to be well-formed UTF-8 and no longer than a listing shows.
pub proof fn law_added_is_found(
    s: ExfatView,
    bm: Seq<u32>,
    dch: Seq<u32>,
    name: Seq<u8>,
    is_dir: bool,
    first: u32,
) -> (dch2: Seq<u32>)
    requires
        vol_ok(s, bm),
        dir_ok(s, bm, dch),
        s.lookup(dch[0], name) is None,
        exfat_sets::is_utf8(name, 0),
        name.len() <= DIR_LONG_MAX,
        s.add_set(dch[0], name, is_dir, first).1,
    ensures
        added(
            s,
            s.add_set(dch[0], name, is_dir, first).0,
            bm,
            dch,
            dch2,
            name,
            new_entry(s, is_dir, first),
        ),
{
    reveal(ExfatView::add_set);
    reveal(ExfatView::make_room);
    let e = new_entry(s, is_dir, first);
    let set = s.build_set(name, e)->Some_0;
    let need = set.len() as int / 32;
    let t = s.add_set(dch[0], name, is_dir, first).0;
    lemma_locate_none(s, bm, dch, 0, name);
    assert(absent(s, dch, name));
    if s.slot_from(dch[0], 0, need) is Some {
        let (cl, i) = s.slot_from(dch[0], 0, need)->Some_0;
        lemma_put_set(s, s, bm, dch, cl, i, name, e, set);
        dch
    } else {
        let nc = lemma_dir_grow(s, bm, dch, name);
        let s1 = s.dir_grow(dch[0]).0;
        let dch2 = dch.push(nc);
        let (cl, i) = s1.slot_from(dch[0], 0, need)->Some_0;
        assert(dch2[0] == dch[0]);
        lemma_put_set(s, s1, bm, dch2, cl, i, name, e, set);
        assert forall|d: u32| valid(s.geo, d) && used(s, bm, d) implies #[trigger] used(t, bm, d) by {
            assert(used(s1, bm, d));
        }
        assert forall|d: u32|
            valid(s.geo, d) && used(s, bm, d) && !dch.contains(d) implies #[trigger] entry(t, d)
            == entry(s, d) by {
            assert(entry(s1, d) == entry(s, d));
        }
        assert forall|d: u32|
            valid(s.geo, d) && used(s, bm, d) && !dch.contains(d) && !bm.contains(
                d,
            ) implies #[trigger] data_of(t, d) == data_of(s, d) by {
            assert(data_of(s1, d) == data_of(s, d));
            assert(!dch2.contains(d)) by {
                if dch2.contains(d) {
                    let j = choose|j: int| 0 <= j < dch2.len() && dch2[j] == d;
                    if j < dch.len() {
                        assert(dch[j] == d);
                        assert(dch.contains(dch[j]));
                    }
                }
            }
        }
        dch2
    }
}

/// A cluster taken and cleared: it is a directory without names, and another directory stays.
proof fn lemma_alloc_clear(s: ExfatView, bm: Seq<u32>, dch: Seq<u32>, want: Seq<u8>, cl: u32)
    requires
        vol_ok(s, bm),
        dir_ok(s, bm, dch),
        absent(s, dch, want),
        s.alloc_clear().1 == Some(cl),
    ensures
        ({
            let t = s.alloc_clear().0;
            &&& vol_ok(t, bm)
            &&& same_volume(s, t)
            &&& fit(t, cl)
            &&& dir_ok(t, bm, dch)
            &&& absent(t, dch, want)
            &&& valid(s.geo, cl)
            &&& used(t, bm, cl)
            &&& !bm.contains(cl)
            &&& !dch.contains(cl)
            &&& entry(t, cl) == EXFAT_FAT_EOC
            &&& data_of(t, cl) == bytes::zeros(s.geo.cb())
        }),
{
    exfat_laws::lemma_vol(s, bm);
    reveal(ExfatView::alloc_clear);
    exfat_laws::law_alloc_takes_free(s, bm);
    let s1 = s.alloc_cluster().0;
    exfat_write::lemma_not_map(s, bm, cl);
    let z = bytes::zeros(s.geo.cb());
    exfat_write::lemma_put(s1, bm, cl, z);
    let t = s.alloc_clear().0;
    exfat_laws::lemma_fits(s, t, dch);
    exfat_laws::lemma_fit(s1, t, cl);
    let per = s.geo.per();
    assert forall|i: int| 0 <= i < dch.len() implies #[trigger] dch[i] != cl && entry(t, dch[i])
        == entry(s, dch[i]) && data_of(t, dch[i]) == data_of(s, dch[i]) && used(t, bm, dch[i]) by {
        assert(used(s, bm, dch[i]));
        assert(valid(s.geo, dch[i]) && !bm.contains(dch[i]));
        assert(entry(t, dch[i]) == entry(s1, dch[i]));
        assert(entry(s1, dch[i]) == entry(s, dch[i]));
        assert(data_of(t, dch[i]) == data_of(s1, dch[i]));
        assert(data_of(s1, dch[i]) == data_of(s, dch[i]));
        assert(used(t, bm, dch[i]) == used(s1, bm, dch[i]));
        assert(used(s1, bm, dch[i]) == used(s, bm, dch[i]));
    }
    exfat_laws::lemma_linked(s, t, dch);
    assert(entry(t, cl) == entry(s1, cl));
    assert(used(t, bm, cl) == used(s1, bm, cl));
    assert forall|q: int| 0 <= q < dch.len() implies #[trigger] tidy(data_of(t, dch[q]), per) by {
        assert(data_of(t, dch[q]) == data_of(s, dch[q]));
        assert(tidy(data_of(s, dch[q]), per));
    }
    assert forall|q: int| 0 <= q < dch.len() implies (#[trigger] exfat_dir::find_in(
        data_of(t, dch[q]),
        0,
        per,
        want,
    )) is None by {
        assert(data_of(t, dch[q]) == data_of(s, dch[q]));
        assert(exfat_dir::find_in(data_of(s, dch[q]), 0, per, want) is None);
    }
}

/// Law: a directory made under a path whose directory does not have its name is found there,
/// and it is empty and in good order.
pub proof fn law_made_directory(
    s: ExfatView,
    bm: Seq<u32>,
    dch: Seq<u32>,
    p: Seq<u8>,
    name: Seq<u8>,
)
    requires
        vol_ok(s, bm),
        dir_ok(s, bm, dch),
        s.home_of(p) == Some((dch[0], name)),
        s.lookup(dch[0], name) is None,
        exfat_sets::is_utf8(name, 0),
        name.len() <= DIR_LONG_MAX,
        s.make(p, true).1,
    ensures
        ({
            let t = s.make(p, true).0;
            t.lookup(dch[0], name) matches Some(f) && f.is_dir && f.size == 0 && dir_ok(
                t,
                bm,
                seq![f.first],
            ) && t.sets_from(f.first, 0, 1, Seq::empty()) == (Seq::<EntryView>::empty(), true)
        }),
{
    reveal(ExfatView::make);
    exfat_laws::lemma_vol(s, bm);
    lemma_locate_none(s, bm, dch, 0, name);
    assert(absent(s, dch, name));
    let (u, r) = s.alloc_clear();
    let cl = r->Some_0;
    lemma_alloc_clear(s, bm, dch, name, cl);
    lemma_locate_none(u, bm, dch, 0, name);
    law_added_is_found(u, bm, dch, name, true, cl);
    let t = s.make(p, true).0;
    let one = seq![cl];
    let per = s.geo.per();
    assert(data_of(t, cl) == data_of(u, cl));
    assert(entry(t, cl) == entry(u, cl));
    assert(used(t, bm, cl));
    assert(bytes::zeros(s.geo.cb()) == bytes::zeros(per * 32));
    lemma_cleared(per, name);
    assert(one.last() == cl && one[0] == cl);
    assert forall|i: int| 0 <= i < one.len() implies #[trigger] one[i] == cl by {}
    assert(linked(t, one));
    exfat_laws::lemma_fit(u, t, cl);
    assert(owned(t, bm, one));
    assert(dir_ok(t, bm, one));
    exfat_laws::lemma_vol(t, bm);
    exfat_laws::lemma_rd_cl(t, cl);
    let b = data_of(t, cl);
    assert(b[0] == 0);
    assert(exfat_dir::sets_in(b, 0, per) =~= Seq::empty());
    assert(Seq::<EntryView>::empty() + exfat_dir::sets_in(b, 0, per) =~= Seq::empty());
}

} // verus!
