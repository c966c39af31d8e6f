//! What holds of exFAT directories as a whole: what a set of entries says is read as it stands
//! there, a listing shows each set, and a search finds one by its name.
use vstd::prelude::*;

use crate::bytes;
use crate::calendar;
use crate::exfat::ExfatView;
use crate::exfat_dir;
use crate::exfat_dir::EntryView;
use crate::exfat_laws;
use crate::exfat_laws::{data_of, entry, fit, fits, linked, valid};
use crate::exfat_srv;
use crate::fat_long;
use crate::vfs::DirEntryView;
use crate::volume_laws::just_those;

verus! {

/// The sum after byte `i` of a set: the byte is added to the sum so far, rotated to the right by
/// one bit; the two bytes that hold the checksum itself are left out.
pub open spec fn sum_after(s: u16, i: int, c: u8) -> int {
    if i == 2 || i == 3 {
        s as int
    } else {
        ((s >> 1u16 | s << 15u16) + c) % 65536
    }
}

/// The sums of the `n` bytes at `o`.
pub open spec fn are_sums(b: Seq<u8>, o: int, n: int, t: Seq<u16>) -> bool {
    &&& t.len() == n + 1
    &&& t[0] == 0
    &&& forall|i: int| 0 <= i < n ==> t[i + 1] == sum_after(t[i], i, #[trigger] b[o + i])
}

/// `sum` is the checksum of the `n` bytes at `o`.
pub open spec fn sums_to(b: Seq<u8>, o: int, n: int, sum: u16) -> bool {
    exists|t: Seq<u16>| #[trigger] are_sums(b, o, n, t) && t[n] == sum
}

/// Entry `i` of a cluster of `per` entries starts a set of `n` entries with the name `u`: a file
/// entry, a stream entry, and as many name entries as the name takes, 15 characters each.
pub open spec fn is_set(b: Seq<u8>, i: int, per: int, n: int, u: Seq<u16>) -> bool {
    let f = 32 * i;
    &&& 0 <= i
    &&& i + n <= per
    &&& b.len() == 32 * per
    &&& 1 <= u.len() <= 255
    &&& n >= 2 + (u.len() + 14) / 15
    &&& n >= 3
    &&& b[f] == 0x85
    &&& b[f + 1] == n - 1
    &&& b[f + 32] == 0xC0
    &&& b[f + 35] == u.len()
    &&& sums_to(b, f, 32 * n, bytes::le16(b, f + 2))
    &&& forall|k: int|
        0 <= k < u.len() ==> bytes::le16(b, f + 64 + 32 * (k / 15) + 2 + 2 * (k % 15))
            == #[trigger] u[k]
}

/// The sums so far.
proof fn lemma_sums(b: Seq<u8>, o: int, n: int, t: Seq<u16>, k: int)
    requires
        0 <= k <= n,
        0 <= o,
        o + n <= b.len(),
        are_sums(b, o, n, t),
    ensures
        exfat_dir::set_sum(b.subrange(o, o + n), k) == t[k],
    decreases k,
{
    if k > 0 {
        lemma_sums(b, o, n, t, k - 1);
        let s = t[k - 1];
        assert((s >> 1u16 | s << 15u16) == s / 2 + 0x8000 * (s % 2)) by (bit_vector);
        assert(b.subrange(o, o + n)[k - 1] == b[o + (k - 1)]);
        assert(t[(k - 1) + 1] == t[k]);
    }
}

/// The name from character `k` on.
proof fn lemma_name(b: Seq<u8>, f: int, u: Seq<u16>, at: Seq<int>, k: int)
    requires
        0 <= k <= u.len(),
        forall|x: int|
            0 <= x < u.len() ==> bytes::le16(b, f + 64 + 32 * (x / 15) + 2 + 2 * (x % 15))
                == #[trigger] u[x],
        fat_long::starts(u, at),
    ensures
        ({
            let t = exfat_dir::name_from(b, f + 64, k, u.len() as int);
            &&& t.len() == at[u.len() as int] - at[k]
            &&& forall|x: int|
                k <= x < u.len() ==> {
                    &&& 0 <= #[trigger] at[x] - at[k]
                    &&& at[x] - at[k] + fat_long::takes(u[x]) <= t.len()
                    &&& fat_long::encodes(t, at[x] - at[k], u[x])
                }
        }),
    decreases u.len() - k,
{
    if k < u.len() {
        lemma_name(b, f, u, at, k + 1);
        let c = u[k];
        assert(at[k + 1] == at[k] + fat_long::takes(u[k]));
        let e = exfat_dir::utf8_of(c);
        let rest = exfat_dir::name_from(b, f + 64, k + 1, u.len() as int);
        let t = exfat_dir::name_from(b, f + 64, k, u.len() as int);
        assert(exfat_dir::unit_at(b, f + 64, k) == c);
        assert(t == e + rest);
        let w = fat_long::takes(c);
        assert(e.len() == w);
        assert forall|x: int| k <= x < u.len() implies {
            &&& 0 <= #[trigger] at[x] - at[k]
            &&& at[x] - at[k] + fat_long::takes(u[x]) <= t.len()
            &&& fat_long::encodes(t, at[x] - at[k], u[x])
        } by {
            if x == k {
                assert(t[0] == e[0]);
                if w >= 2 {
                    assert(t[1] == e[1]);
                }
                if w == 3 {
                    assert(t[2] == e[2]);
                }
            } else {
                let y = at[x] - at[k + 1];
                assert(0 <= at[x] - at[k + 1]);
                assert(fat_long::encodes(rest, y, u[x]));
                assert(t[y + w] == rest[y]);
                if fat_long::takes(u[x]) >= 2 {
                    assert(t[y + w + 1] == rest[y + 1]);
                }
                if fat_long::takes(u[x]) == 3 {
                    assert(t[y + w + 2] == rest[y + 2]);
                }
            }
        }
    }
}

/// Law: a set is read as it stands in the directory: whether it is a directory, whether its
/// clusters follow each other, where it starts, how long it is and how much of that was written,
/// when it was changed, and its name in UTF-8.
pub proof fn law_set_is_read(b: Seq<u8>, i: int, per: int, n: int, u: Seq<u16>, at: Seq<int>)
    requires
        is_set(b, i, per, n, u),
        fat_long::starts(u, at),
        at[u.len() as int] <= 64,
    ensures
        ({
            let f = 32 * i;
            exfat_dir::parse(b, i, per) matches Some(e) && {
                &&& e.is_dir == (b[f + 4] & 0x10 != 0)
                &&& e.contiguous == (b[f + 33] & 2 != 0)
                &&& e.first == bytes::le32(b, f + 52)
                &&& e.size == bytes::le64(b, f + 56)
                &&& e.valid == bytes::le64(b, f + 40)
                &&& e.mtime == calendar::time_of(bytes::le32(b, f + 12), b[f + 21])
                &&& e.name.len() == at[u.len() as int]
                &&& forall|x: int|
                    0 <= x < u.len() ==> fat_long::encodes(e.name, #[trigger] at[x], u[x])
            }
        }),
{
    let f = 32 * i;
    let sum = bytes::le16(b, f + 2);
    let t = choose|t: Seq<u16>| #[trigger] are_sums(b, f, 32 * n, t) && t[32 * n] == sum;
    lemma_sums(b, f, 32 * n, t, 32 * n);
    assert(i * 32 == f);
    lemma_name(b, f, u, at, 0);
    lemma_flags(b, f);
    let name = exfat_dir::name_from(b, f + 64, 0, u.len() as int);
    assert(b.len() == per * 32);
    assert((1 + b[f + 1]) * 32 == 32 * n);
    let e = exfat_dir::parse(b, i, per);
    assert(e is Some);
    assert(e->Some_0.name == name);
    assert forall|x: int| 0 <= x < u.len() implies fat_long::encodes(
        name,
        #[trigger] at[x],
        u[x],
    ) by {
        assert(at[x] - at[0] == at[x]);
    }
}

/// The flags of a set.
proof fn lemma_flags(b: Seq<u8>, f: int)
    ensures
        (b[f + 4] & 0x10 != 0) == (bytes::le16(b, f + 4) / 16 % 2 == 1),
        (b[f + 33] & 2 != 0) == (b[f + 33] / 2 % 2 == 1),
{
    let lo = b[f + 4];
    let hi = b[f + 5];
    assert((lo & 0x10 != 0) == (lo / 16 % 2 == 1)) by (bit_vector);
    assert((lo + 0x100 * hi) / 16 % 2 == lo / 16 % 2);
    let fl = b[f + 33];
    assert((fl & 2 != 0) == (fl / 2 % 2 == 1)) by (bit_vector);
}

/// What a cluster of `per` entries holds starts at the entries `at`, up to the last of them, where
/// the cluster or what was used of it ends: a file entry is followed by as many entries as it
/// says.
pub open spec fn laid_out(b: Seq<u8>, per: int, at: Seq<int>) -> bool {
    &&& at.len() > 0
    &&& at[0] == 0
    &&& forall|j: int|
        0 <= j < at.len() - 1 ==> 0 <= #[trigger] at[j] < per && b[32 * at[j]] != 0 && at[j + 1]
            == if b[32 * at[j]] == 0x85 {
            at[j] + 1 + b[32 * at[j] + 1]
        } else {
            at[j] + 1
        }
    &&& at.last() >= per || b[32 * at.last()] == 0
}

/// Entry `p` starts a set.
pub open spec fn starts_set(b: Seq<u8>, per: int, at: Seq<int>, p: int) -> bool {
    &&& exists|j: int| 0 <= j < at.len() - 1 && #[trigger] at[j] == p
    &&& b[32 * p] == 0x85
    &&& exfat_dir::parse(b, p, per) is Some
}

/// What starts later stands later.
proof fn lemma_later(b: Seq<u8>, per: int, at: Seq<int>, j: int, k: int)
    requires
        laid_out(b, per, at),
        0 <= j <= k < at.len(),
    ensures
        at[j] + (k - j) <= at[k],
    decreases k - j,
{
    if j < k {
        lemma_later(b, per, at, j, k - 1);
        assert(at[(k - 1) + 1] == at[k]);
    }
}

/// Between two starts nothing starts.
proof fn lemma_between(b: Seq<u8>, per: int, at: Seq<int>, j: int)
    requires
        laid_out(b, per, at),
        0 <= j < at.len() - 1,
    ensures
        at[j] < at[j + 1],
        forall|p: int| at[j] < p < at[j + 1] ==> !#[trigger] starts_set(b, per, at, p),
{
    lemma_later(b, per, at, j, j + 1);
    assert forall|p: int| at[j] < p < at[j + 1] implies !#[trigger] starts_set(b, per, at, p) by {
        if starts_set(b, per, at, p) {
            let k = choose|k: int| 0 <= k < at.len() - 1 && #[trigger] at[k] == p;
            if k <= j {
                lemma_later(b, per, at, k, j);
            } else {
                lemma_later(b, per, at, j + 1, k);
            }
        }
    }
}

/// The numbers from `from` on, where up to `mid` only the first may be one.
proof fn lemma_front(
    q: spec_fn(int) -> bool,
    from: int,
    mid: int,
    to: int,
    rest: Seq<int>,
) -> (all: Seq<int>)
    requires
        just_those(q, mid, to, rest),
        from < mid,
        from < to,
        forall|p: int| from < p < mid ==> !#[trigger] q(p),
    ensures
        just_those(q, from, to, all),
        all == if q(from) {
            seq![from] + rest
        } else {
            rest
        },
{
    let all = if q(from) {
        seq![from] + rest
    } else {
        rest
    };
    let d: int = if q(from) {
        1
    } else {
        0
    };
    assert forall|x: int| 0 <= x < all.len() implies from <= #[trigger] all[x] < to && q(all[x]) by {
        if x >= d {
            assert(all[x] == rest[x - d]);
        }
    }
    assert forall|x: int, y: int| 0 <= x < y < all.len() implies #[trigger] all[x]
        < #[trigger] all[y] by {
        assert(all[y] == rest[y - d]);
        if x >= d {
            assert(all[x] == rest[x - d]);
        }
    }
    assert forall|p: int| from <= p < to && #[trigger] q(p) implies all.contains(p) by {
        if p > from {
            assert(mid <= p);
            let x = choose|x: int| 0 <= x < rest.len() && rest[x] == p;
            assert(all[x + d] == p);
        } else {
            assert(all[0] == p);
        }
    }
    all
}

/// The sets of a cluster from its start `j` on.
proof fn lemma_sets_in(b: Seq<u8>, per: int, at: Seq<int>, j: int) -> (ps: Seq<int>)
    requires
        laid_out(b, per, at),
        0 <= j < at.len(),
    ensures
        just_those(|p: int| starts_set(b, per, at, p), at[j], per, ps),
        exfat_dir::sets_in(b, at[j], per).len() == ps.len(),
        forall|x: int|
            0 <= x < ps.len() ==> Some(#[trigger] exfat_dir::sets_in(b, at[j], per)[x])
                == exfat_dir::parse(b, ps[x], per),
    decreases at.len() - j,
{
    let q = |p: int| starts_set(b, per, at, p);
    if j == at.len() - 1 {
        assert forall|p: int| at[j] <= p < per && #[trigger] q(p) implies false by {
            let k = choose|k: int| 0 <= k < at.len() - 1 && #[trigger] at[k] == p;
            lemma_later(b, per, at, k, j);
        }
        Seq::empty()
    } else {
        let i = at[j];
        assert(0 <= i < per);
        let rest = lemma_sets_in(b, per, at, j + 1);
        lemma_between(b, per, at, j);
        assert(i * 32 == 32 * i);
        assert(exfat_dir::after(b, i) == at[j + 1]);
        assert(q(i) <==> b[32 * i] == 0x85 && exfat_dir::parse(b, i, per) is Some);
        if at[j + 1] >= per {
            assert(rest.len() == 0) by {
                if rest.len() > 0 {
                    assert(at[j + 1] <= rest[0] < per);
                }
            }
        }
        let all = lemma_front(q, i, at[j + 1], per, rest);
        let v = exfat_dir::sets_in(b, i, per);
        let w = exfat_dir::sets_in(b, at[j + 1], per);
        if q(i) {
            assert(v =~= seq![exfat_dir::parse(b, i, per)->Some_0] + w);
            assert forall|x: int| 0 <= x < all.len() implies Some(#[trigger] v[x])
                == exfat_dir::parse(b, all[x], per) by {
                if x > 0 {
                    assert(v[x] == w[x - 1]);
                    assert(all[x] == rest[x - 1]);
                }
            }
        } else {
            assert(v =~= w);
        }
        all
    }
}

/// Each cluster of a directory is laid out as said.
pub open spec fn all_laid_out(s: ExfatView, ch: Seq<u32>, tl: Seq<Seq<int>>) -> bool {
    &&& tl.len() == ch.len()
    &&& forall|k: int|
        0 <= k < ch.len() ==> laid_out(data_of(s, ch[k]), s.geo.per(), #[trigger] tl[k])
}

/// Entry `x` of the directory as a whole starts a set.
pub open spec fn set_at(s: ExfatView, ch: Seq<u32>, tl: Seq<Seq<int>>, x: int) -> bool {
    let per = s.geo.per();
    starts_set(data_of(s, ch[x / per]), per, tl[x / per], x % per)
}

/// What that set says.
pub open spec fn said_at(s: ExfatView, ch: Seq<u32>, x: int) -> Option<EntryView> {
    let per = s.geo.per();
    exfat_dir::parse(data_of(s, ch[x / per]), x % per, per)
}

/// The sets `v` are `out` followed by those at the entries `at`, at most `max` in all.
pub open spec fn gathered(
    s: ExfatView,
    ch: Seq<u32>,
    at: Seq<int>,
    max: int,
    out: Seq<EntryView>,
    v: Seq<EntryView>,
) -> bool {
    &&& v.len() == if out.len() + at.len() <= max {
        out.len() as int + at.len()
    } else {
        max
    }
    &&& forall|x: int| 0 <= x < out.len() ==> #[trigger] v[x] == out[x]
    &&& forall|x: int|
        0 <= x < at.len() && out.len() + x < max ==> Some(v[out.len() + x]) == said_at(
            s,
            ch,
            #[trigger] at[x],
        )
}

/// The sets of cluster `k`, by their numbers in the whole directory.
proof fn lemma_cluster_sets(s: ExfatView, ch: Seq<u32>, tl: Seq<Seq<int>>, k: int) -> (at: Seq<int>)
    requires
        all_laid_out(s, ch, tl),
        0 <= k < ch.len(),
        s.geo.per() > 0,
    ensures
        just_those(
            |x: int| set_at(s, ch, tl, x),
            k * s.geo.per(),
            (k + 1) * s.geo.per(),
            at,
        ),
        exfat_dir::sets_in(data_of(s, ch[k]), 0, s.geo.per()).len() == at.len(),
        forall|x: int|
            0 <= x < at.len() ==> Some(
                #[trigger] exfat_dir::sets_in(data_of(s, ch[k]), 0, s.geo.per())[x],
            ) == said_at(s, ch, at[x]),
{
    let per = s.geo.per();
    let b = data_of(s, ch[k]);
    assert(laid_out(b, per, tl[k]));
    let ps = lemma_sets_in(b, per, tl[k], 0);
    let q = |x: int| set_at(s, ch, tl, x);
    let r = |p: int| starts_set(b, per, tl[k], p);
    assert forall|p: int| 0 <= p < per implies #[trigger] q(k * per + p) == r(p) && said_at(
        s,
        ch,
        k * per + p,
    ) == exfat_dir::parse(b, p, per) by {
        crate::fat_laws::lemma_pos(k, p, per);
    }
    let at = lemma_shift(q, r, k, per, ps);
    assert forall|x: int| 0 <= x < at.len() implies Some(
        #[trigger] exfat_dir::sets_in(b, 0, per)[x],
    ) == said_at(s, ch, at[x]) by {
        let p = ps[x];
        assert(q(k * per + p) == r(p));
    }
    at
}

/// Numbers of a cluster as numbers of the whole.
proof fn lemma_shift(
    q: spec_fn(int) -> bool,
    r: spec_fn(int) -> bool,
    k: int,
    per: int,
    ps: Seq<int>,
) -> (at: Seq<int>)
    requires
        just_those(r, 0, per, ps),
        forall|p: int| 0 <= p < per ==> #[trigger] q(k * per + p) == r(p),
    ensures
        just_those(q, k * per, (k + 1) * per, at),
        at == Seq::new(ps.len(), |x: int| k * per + ps[x]),
{
    let at = Seq::new(ps.len(), |x: int| k * per + ps[x]);
    assert((k + 1) * per == k * per + per) by (nonlinear_arith);
    assert forall|x: int| 0 <= x < at.len() implies k * per <= #[trigger] at[x] < (k + 1) * per
        && q(at[x]) by {
        let p = ps[x];
        assert(q(k * per + p) == r(p));
    }
    assert forall|x: int, y: int| 0 <= x < y < at.len() implies #[trigger] at[x]
        < #[trigger] at[y] by {
        assert(ps[x] < ps[y]);
    }
    assert forall|z: int| k * per <= z < (k + 1) * per && #[trigger] q(z) implies at.contains(
        z,
    ) by {
        let p = z - k * per;
        assert(q(k * per + p) == r(p));
        assert(ps.contains(p));
        let x = choose|x: int| 0 <= x < ps.len() && ps[x] == p;
        assert(at[x] == z);
    }
    at
}

/// Two lists of numbers, one behind the other.
proof fn lemma_join(
    q: spec_fn(int) -> bool,
    a: int,
    m: int,
    z: int,
    front: Seq<int>,
    rest: Seq<int>,
)
    requires
        just_those(q, a, m, front),
        just_those(q, m, z, rest),
        a <= m <= z,
    ensures
        just_those(q, a, z, front + rest),
{
    let all = front + rest;
    let n = front.len() as int;
    assert forall|x: int| 0 <= x < all.len() implies a <= #[trigger] all[x] < z && q(all[x]) by {
        if x < n {
            assert(all[x] == front[x]);
        } else {
            assert(all[x] == rest[x - n]);
        }
    }
    assert forall|x: int, y: int| 0 <= x < y < all.len() implies #[trigger] all[x]
        < #[trigger] all[y] by {
        if y < n {
            assert(all[x] == front[x] && all[y] == front[y]);
        } else if x < n {
            assert(all[x] == front[x] && all[y] == rest[y - n]);
        } else {
            assert(all[x] == rest[x - n] && all[y] == rest[y - n]);
        }
    }
    assert forall|p: int| a <= p < z && #[trigger] q(p) implies all.contains(p) by {
        if p < m {
            let x = choose|x: int| 0 <= x < front.len() && front[x] == p;
            assert(all[x] == p);
        } else {
            let x = choose|x: int| 0 <= x < rest.len() && rest[x] == p;
            assert(all[x + n] == p);
        }
    }
}

/// The sets from cluster `k` on.
proof fn lemma_all_sets(s: ExfatView, ch: Seq<u32>, tl: Seq<Seq<int>>, k: int) -> (at: Seq<int>)
    requires
        all_laid_out(s, ch, tl),
        0 <= k <= ch.len(),
        s.geo.per() > 0,
    ensures
        just_those(|x: int| set_at(s, ch, tl, x), k * s.geo.per(), ch.len() * s.geo.per(), at),
    decreases ch.len() - k,
{
    let per = s.geo.per();
    let q = |x: int| set_at(s, ch, tl, x);
    if k == ch.len() {
        Seq::empty()
    } else {
        let here = lemma_cluster_sets(s, ch, tl, k);
        let rest = lemma_all_sets(s, ch, tl, k + 1);
        lemma_order(k, ch.len() as int, per);
        lemma_join(q, k * per, (k + 1) * per, ch.len() * per, here, rest);
        here + rest
    }
}

/// One cluster more.
proof fn lemma_order(k: int, n: int, per: int)
    requires
        k < n,
        0 < per,
    ensures
        k * per < (k + 1) * per <= n * per,
{
    assert((k + 1) * per == k * per + per) by (nonlinear_arith);
    assert((k + 1) * per <= n * per) by (nonlinear_arith)
        requires
            k + 1 <= n,
            0 < per,
    ;
}

/// The sets gathered from cluster `k` on.
pub proof fn lemma_sets_from(
    s: ExfatView,
    ch: Seq<u32>,
    tl: Seq<Seq<int>>,
    k: int,
    max: int,
    out: Seq<EntryView>,
) -> (at: Seq<int>)
    requires
        exfat_laws::good_geo(s.geo),
        exfat_laws::ready(s),
        linked(s, ch),
        fits(s, ch),
        all_laid_out(s, ch, tl),
        0 <= k < ch.len(),
        out.len() <= max,
    ensures
        just_those(|x: int| set_at(s, ch, tl, x), k * s.geo.per(), ch.len() * s.geo.per(), at),
        gathered(s, ch, at, max, out, s.sets_from(ch[k], k, max, out).0),
        s.sets_from(ch[k], k, max, out).1,
    decreases ch.len() - k,
{
    let per = s.geo.per();
    let q = |x: int| set_at(s, ch, tl, x);
    exfat_laws::lemma_spc(s.geo);
    exfat_laws::lemma_chain_fits(s.geo, ch);
    assert(valid(s.geo, ch[k]));
    exfat_laws::lemma_rd_cl(s, ch[k]);
    assert(fit(s, ch[k]));
    let b = data_of(s, ch[k]);
    let here = lemma_cluster_sets(s, ch, tl, k);
    let sets = exfat_dir::sets_in(b, 0, per);
    let all = out + sets;
    let v = s.sets_from(ch[k], k, max, out).0;
    lemma_order(k, ch.len() as int, per);
    if all.len() > max {
        let rest = lemma_all_sets(s, ch, tl, k + 1);
        lemma_join(q, k * per, (k + 1) * per, ch.len() * per, here, rest);
        let at = here + rest;
        assert forall|x: int| 0 <= x < at.len() && out.len() + x < max implies Some(
            v[out.len() + x],
        ) == said_at(s, ch, #[trigger] at[x]) by {
            assert(at[x] == here[x]);
            assert(v[out.len() + x] == sets[x]);
        }
        at
    } else if k + 1 < ch.len() {
        assert(entry(s, ch[k]) == ch[k + 1]);
        assert(valid(s.geo, ch[k + 1]));
        let rest = lemma_sets_from(s, ch, tl, k + 1, max, all);
        lemma_join(q, k * per, (k + 1) * per, ch.len() * per, here, rest);
        let at = here + rest;
        assert(v == s.sets_from(ch[k + 1], k + 1, max, all).0);
        assert forall|x: int| 0 <= x < out.len() implies #[trigger] v[x] == out[x] by {
            assert(v[x] == all[x]);
        }
        assert forall|x: int| 0 <= x < at.len() && out.len() + x < max implies Some(
            v[out.len() + x],
        ) == said_at(s, ch, #[trigger] at[x]) by {
            if x < here.len() {
                assert(at[x] == here[x]);
                assert(v[out.len() + x] == all[out.len() + x]);
                assert(all[out.len() + x] == sets[x]);
            } else {
                let y = x - here.len();
                assert(at[x] == rest[y]);
                assert(v[all.len() + y] == v[out.len() + x]);
            }
        }
        at
    } else {
        assert(ch[k] == ch.last());
        assert forall|x: int| 0 <= x < here.len() && out.len() + x < max implies Some(
            v[out.len() + x],
        ) == said_at(s, ch, #[trigger] here[x]) by {
            assert(v[out.len() + x] == sets[x]);
        }
        here
    }
}

/// Law: a listing of a directory shows each of its sets, in their order, and nothing else, as far
/// as a page has room: with its name, whether it is a directory, its size, which is 0 for a
/// directory, and when it was changed; these are also what is told of the file itself. The numbers
/// of the sets' first entries are handed back.
pub proof fn law_listing(s: ExfatView, ch: Seq<u32>, tl: Seq<Seq<int>>) -> (at: Seq<int>)
    requires
        exfat_laws::good_geo(s.geo),
        exfat_laws::ready(s),
        linked(s, ch),
        fits(s, ch),
        ch.len() > 0,
        all_laid_out(s, ch, tl),
    ensures
        just_those(|x: int| set_at(s, ch, tl, x), 0, ch.len() * (s.geo.spc * 16), at),
        s.readdir(ch[0]) matches Some(t) && {
            &&& t.len() == if at.len() <= 36 {
                at.len()
            } else {
                36
            }
            &&& forall|x: int|
                0 <= x < t.len() ==> is_record(said_at(s, ch, #[trigger] at[x])->Some_0, t[x])
        },
{
    let at = lemma_sets_from(s, ch, tl, 0, 36, Seq::empty());
    let v = s.sets_from(ch[0], 0, 36, Seq::empty()).0;
    let t = s.readdir(ch[0])->Some_0;
    assert forall|x: int| 0 <= x < t.len() implies is_record(
        said_at(s, ch, #[trigger] at[x])->Some_0,
        t[x],
    ) by {
        assert(Some(v[0 + x]) == said_at(s, ch, at[x]));
        lemma_record(v[x]);
    }
    at
}

/// What a listing says of a file.
pub open spec fn is_record(e: EntryView, r: DirEntryView) -> bool {
    let f = exfat_srv::stat_of(e);
    &&& e.name.len() <= 64 ==> r.long == e.name
    &&& r.is_dir == e.is_dir
    &&& e.is_dir ==> r.size == 0
    &&& !e.is_dir ==> r.size == e.size
    &&& r.mtime == e.mtime
    &&& f.is_dir == r.is_dir && f.size == r.size && f.mtime == r.mtime
    &&& f.nlink == 1 && f.owner == 0 && f.ctime == f.mtime && f.atime == f.mtime
    &&& f.mode == if e.is_dir {
        0o755int
    } else {
        0o644int
    }
}

/// The record of a file.
proof fn lemma_record(e: EntryView)
    ensures
        is_record(e, exfat_dir::record_of(e)),
{
    if e.name.len() <= 64 {
        assert(e.name.subrange(0, e.name.len() as int) =~= e.name);
    }
}

/// Two names are the same, capitals or not.
pub open spec fn same_name(a: Seq<u8>, b: Seq<u8>) -> bool {
    a.len() == b.len() && forall|i: int|
        0 <= i < a.len() ==> fat_long::capital(#[trigger] a[i]) == fat_long::capital(b[i])
}

/// The two ways to say it.
proof fn lemma_same(a: Seq<u8>, b: Seq<u8>)
    ensures
        same_name(a, b) == bytes::same_ignoring_case(a, b),
{
    assert forall|c: u8| #[trigger] fat_long::capital(c) == bytes::upper(c) by {}
    if bytes::same_ignoring_case(a, b) {
        assert forall|i: int| 0 <= i < a.len() implies fat_long::capital(#[trigger] a[i])
            == fat_long::capital(b[i]) by {
            assert(bytes::upper(a[i]) == bytes::upper(b[i]));
        }
    }
    if same_name(a, b) {
        assert forall|i: int| 0 <= i < a.len() implies bytes::upper(#[trigger] a[i])
            == bytes::upper(b[i]) by {
            assert(fat_long::capital(a[i]) == fat_long::capital(b[i]));
        }
    }
}

/// Entry `p` starts a set with the name.
pub open spec fn set_named(
    b: Seq<u8>,
    per: int,
    at: Seq<int>,
    p: int,
    want: Seq<u8>,
) -> bool {
    starts_set(b, per, at, p) && same_name(exfat_dir::parse(b, p, per)->Some_0.name, want)
}

/// The search in a cluster from its start `j` on.
proof fn lemma_find_in(b: Seq<u8>, per: int, at: Seq<int>, j: int, want: Seq<u8>)
    requires
        laid_out(b, per, at),
        0 <= j < at.len(),
    ensures
        match exfat_dir::find_in(b, at[j], per, want) {
            Some((p, e)) => {
                &&& at[j] <= p < per
                &&& set_named(b, per, at, p, want)
                &&& exfat_dir::parse(b, p, per) == Some(e)
                &&& forall|q: int| at[j] <= q < p ==> !#[trigger] set_named(b, per, at, q, want)
            },
            None => forall|q: int|
                at[j] <= q < per ==> !#[trigger] set_named(b, per, at, q, want),
        },
    decreases at.len() - j,
{
    let i = at[j];
    if j == at.len() - 1 {
        assert forall|q: int| i <= q < per implies !#[trigger] set_named(b, per, at, q, want) by {
            if set_named(b, per, at, q, want) {
                let k = choose|k: int| 0 <= k < at.len() - 1 && #[trigger] at[k] == q;
                lemma_later(b, per, at, k, j);
            }
        }
    } else {
        assert(0 <= i < per);
        assert(i * 32 == 32 * i);
        lemma_between(b, per, at, j);
        assert(exfat_dir::after(b, i) == at[j + 1]);
        if exfat_dir::parse(b, i, per) is Some {
            lemma_same(exfat_dir::parse(b, i, per)->Some_0.name, want);
        }
        lemma_find_in(b, per, at, j + 1, want);
        let r = exfat_dir::find_in(b, i, per, want);
        if !set_named(b, per, at, i, want) {
            if at[j + 1] < per {
                assert(r == exfat_dir::find_in(b, at[j + 1], per, want));
            }
            let to = match r {
                Some((p, e)) => p,
                None => per,
            };
            assert forall|q: int| i <= q < to implies !#[trigger] set_named(
                b,
                per,
                at,
                q,
                want,
            ) by {
                if i < q < at[j + 1] {
                    assert(!starts_set(b, per, at, q));
                }
            }
        }
    }
}

/// Entry `x` of the directory as a whole starts a set with the name.
pub open spec fn named_at(
    s: ExfatView,
    ch: Seq<u32>,
    tl: Seq<Seq<int>>,
    x: int,
    want: Seq<u8>,
) -> bool {
    set_at(s, ch, tl, x) && same_name(said_at(s, ch, x)->Some_0.name, want)
}

/// The search from cluster `k` on.
proof fn lemma_locate(
    s: ExfatView,
    ch: Seq<u32>,
    tl: Seq<Seq<int>>,
    k: int,
    want: Seq<u8>,
) -> (r: Option<int>)
    requires
        exfat_laws::good_geo(s.geo),
        exfat_laws::ready(s),
        linked(s, ch),
        fits(s, ch),
        all_laid_out(s, ch, tl),
        0 <= k < ch.len(),
    ensures
        match (r, s.locate_from(ch[k], k, want)) {
            (Some(x), Some((cl, i, sec, e))) => {
                let per = s.geo.per();
                &&& k * per <= x < ch.len() * per
                &&& named_at(s, ch, tl, x, want)
                &&& forall|y: int| k * per <= y < x ==> !#[trigger] named_at(s, ch, tl, y, want)
                &&& cl == ch[x / per]
                &&& i == x % per
                &&& sec == data_of(s, cl)[32 * i + 1]
                &&& said_at(s, ch, x) == Some(e)
            },
            (None, None) => forall|y: int|
                k * s.geo.per() <= y < ch.len() * s.geo.per() ==> !#[trigger] named_at(
                    s,
                    ch,
                    tl,
                    y,
                    want,
                ),
            _ => false,
        },
    decreases ch.len() - k,
{
    let per = s.geo.per();
    exfat_laws::lemma_spc(s.geo);
    exfat_laws::lemma_chain_fits(s.geo, ch);
    assert(valid(s.geo, ch[k]));
    exfat_laws::lemma_rd_cl(s, ch[k]);
    assert(fit(s, ch[k]));
    let b = data_of(s, ch[k]);
    assert(laid_out(b, per, tl[k]));
    lemma_find_in(b, per, tl[k], 0, want);
    lemma_order(k, ch.len() as int, per);
    assert((k + 1) * per == k * per + per) by (nonlinear_arith);
    assert forall|p: int| 0 <= p < per implies #[trigger] named_at(
        s,
        ch,
        tl,
        k * per + p,
        want,
    ) == set_named(b, per, tl[k], p, want) && (k * per + p) / per == k && (k * per + p) % per
        == p by {
        crate::fat_laws::lemma_pos(k, p, per);
    }
    let found = exfat_dir::find_in(b, 0, per, want);
    let to = match found {
        Some((p, e)) => p,
        None => per,
    };
    assert forall|y: int| k * per <= y < k * per + to implies !#[trigger] named_at(
        s,
        ch,
        tl,
        y,
        want,
    ) by {
        let p = y - k * per;
        assert(named_at(s, ch, tl, k * per + p, want) == set_named(b, per, tl[k], p, want));
    }
    match found {
        Some((p, e)) => {
            assert(named_at(s, ch, tl, k * per + p, want) == set_named(b, per, tl[k], p, want));
            Some(k * per + p)
        },
        None => {
            if k + 1 < ch.len() {
                assert(entry(s, ch[k]) == ch[k + 1]);
                assert(valid(s.geo, ch[k + 1]));
                let r = lemma_locate(s, ch, tl, k + 1, want);
                let end = match r {
                    Some(x) => x,
                    None => ch.len() * per,
                };
                assert forall|y: int| k * per <= y < end implies !#[trigger] named_at(
                    s,
                    ch,
                    tl,
                    y,
                    want,
                ) by {
                    if y >= (k + 1) * per {
                        assert((k + 1) * per <= y < end);
                    }
                }
                r
            } else {
                assert(ch[k] == ch.last());
                None
            }
        },
    }
}

/// Law: a search of a directory finds the first set with the name, capitals or not, and says what
/// the set says and where it stands; where there is none it finds nothing. The number of the set's
/// first entry is handed back.
pub proof fn law_search(s: ExfatView, ch: Seq<u32>, tl: Seq<Seq<int>>, want: Seq<u8>) -> (r: Option<
    int,
>)
    requires
        exfat_laws::good_geo(s.geo),
        exfat_laws::ready(s),
        linked(s, ch),
        fits(s, ch),
        ch.len() > 0,
        all_laid_out(s, ch, tl),
    ensures
        match (r, s.locate(ch[0], want)) {
            (Some(x), Some((cl, i, sec, e))) => {
                let per = s.geo.spc * 16;
                &&& 0 <= x < ch.len() * per
                &&& named_at(s, ch, tl, x, want)
                &&& forall|y: int| 0 <= y < x ==> !#[trigger] named_at(s, ch, tl, y, want)
                &&& cl == ch[x / per]
                &&& i == x % per
                &&& sec == data_of(s, cl)[32 * i + 1]
                &&& said_at(s, ch, x) == Some(e)
                &&& s.lookup(ch[0], want) == Some(e)
            },
            (None, None) => {
                &&& s.lookup(ch[0], want) is None
                &&& forall|y: int|
                    0 <= y < ch.len() * (s.geo.spc * 16) ==> !#[trigger] named_at(
                        s,
                        ch,
                        tl,
                        y,
                        want,
                    )
            },
            _ => false,
        },
{
    lemma_locate(s, ch, tl, 0, want)
}

/// Law: the boot sector of an exFAT volume says where the table is and how long one copy is, where
/// the clusters start and how many there are, which one the root starts with, how many sectors a
/// cluster has and how many copies of the table there are. A boot sector is taken exactly where its
/// name and its end mark are right, sectors have 512 bytes, a cluster has 2 to 512 of them, there
/// are one or two copies, and the root is a cluster.
pub proof fn law_boot_sector(b: Seq<u8>)
    requires
        b.len() == 512,
    ensures
        ({
            let good = b.subrange(3, 11) == seq![
                0x45u8,
                0x58,
                0x46,
                0x41,
                0x54,
                0x20,
                0x20,
                0x20,
            ] && b[510] == 0x55 && b[511] == 0xAA && b[108] == 9 && 1 <= b[109] <= 9 && 1
                <= b[110] <= 2 && bytes::le32(b, 84) > 0 && 0 < bytes::le32(b, 92) <= 0xFFFF_FFFD
                && 2 <= bytes::le32(b, 96) < bytes::le32(b, 92) + 2;
            match exfat_srv::boot_layout(b) {
                Ok(g) => {
                    &&& good
                    &&& g.spc == vstd::arithmetic::power2::pow2(b[109] as nat)
                    &&& g.fat_off == bytes::le32(b, 80)
                    &&& g.fat_len == bytes::le32(b, 84)
                    &&& g.heap == bytes::le32(b, 88)
                    &&& g.count == bytes::le32(b, 92)
                    &&& g.root == bytes::le32(b, 96)
                    &&& g.nfats == b[110]
                },
                Err(_) => !good,
            }
        }),
{
    reveal(exfat_srv::boot_layout);
    vstd::arithmetic::power2::lemma2_to64();
    assert(bytes::le16(b, 510) == 0xAA55 <==> b[510] == 0x55 && b[511] == 0xAA);
}

} // verus!
