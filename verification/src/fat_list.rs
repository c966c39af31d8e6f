//! What holds of the directories of a FAT volume as a whole: a listing shows each of their files
//! and directories, and a search finds one by its short or its long name.
use vstd::prelude::*;

use crate::bytes;
use crate::fat::{Fat32Bpb, FatView};
use crate::fat_dir;
use crate::fat_dir::{DirEntryInfo, Slot};
use crate::fat_laws;
use crate::fat_long;
use crate::fat_name;
use crate::fat_name::LfnView;
use crate::fat_tree;
use crate::vfs::DirEntryView;
use crate::volume_laws::just_those;

verus! {

/// All the bytes of a directory, one cluster after the other.
pub open spec fn whole(s: FatView, b: Fat32Bpb, ch: Seq<u32>) -> Seq<u8> {
    fat_laws::content(s, b, ch, ch.len() * b.cb())
}

/// How many entries of 32 bytes there are room for.
pub open spec fn room(b: Fat32Bpb, ch: Seq<u32>) -> int {
    ch.len() * (b.cb() / 32)
}

/// Entry `x` is a file or a directory, other than `.` and `..`.
pub open spec fn is_entry(d: Seq<u8>, x: int) -> bool {
    &&& d[32 * x] != 0
    &&& d[32 * x] != 0xE5
    &&& d[32 * x + 11] & 0x0F != 0x0F
    &&& d[32 * x + 11] & 0x08 == 0
    &&& !(d[32 * x + 11] & 0x10 != 0 && d[32 * x] == 0x2E)
}

/// The entries of a directory end at `e`.
pub open spec fn ends_at(d: Seq<u8>, e: int, n: int) -> bool {
    &&& 0 <= e <= n
    &&& forall|x: int| 0 <= x < e ==> d[32 * x] != 0 && #[trigger] in_use(x)
    &&& e < n ==> d[32 * e] == 0
}

/// A number of an entry.
pub open spec fn in_use(x: int) -> bool {
    true
}

/// The long names of a directory: entry `x` has the pieces of `names[x]` in front of it, or, where
/// it has no long name, no piece.
pub open spec fn long_names(d: Seq<u8>, e: int, names: Seq<Option<Seq<u16>>>) -> bool {
    &&& names.len() == e
    &&& forall|x: int|
        0 <= x < e && is_entry(d, x) ==> match #[trigger] names[x] {
            Some(u) => exists|sum: u8| #[trigger] fat_long::stored(d, x, u, sum),
            None => x > 0 ==> !fat_long::is_piece(d, x - 1),
        }
}

/// What a listing says of entry `x`.
pub open spec fn is_record(
    d: Seq<u8>,
    x: int,
    name: Option<Seq<u16>>,
    r: DirEntryView,
) -> bool {
    &&& r.name == d.subrange(32 * x, 32 * x + 11)
    &&& r.long == match name {
        Some(u) => fat_name::utf8_cut(u, 0, Seq::empty()),
        None => Seq::empty(),
    }
    &&& r.size == bytes::le32(d, 32 * x + 28)
    &&& r.is_dir == (d[32 * x + 11] & 0x10 != 0)
}

/// The listing `t` is `out` followed by what is said of the entries `at`, at most 36 in all.
pub open spec fn listed(
    d: Seq<u8>,
    names: Seq<Option<Seq<u16>>>,
    at: Seq<int>,
    out: Seq<DirEntryView>,
    t: Seq<DirEntryView>,
) -> bool {
    &&& t.len() == if out.len() + at.len() <= 36 {
        out.len() + at.len()
    } else {
        36
    }
    &&& forall|i: int| 0 <= i < out.len() ==> #[trigger] t[i] == out[i]
    &&& forall|i: int|
        0 <= i < at.len() && out.len() + i < 36 ==> is_record(
            d,
            #[trigger] at[i],
            names[at[i]],
            t[out.len() + i],
        )
}

/// What has been collected in front of an entry.
proof fn lemma_long(d: Seq<u8>, e: int, names: Seq<Option<Seq<u16>>>, x: int)
    requires
        long_names(d, e, names),
        0 <= x < e,
        is_entry(d, x),
    ensures
        ({
            let l = fat_long::collected(d, x);
            match names[x] {
                Some(u) => l.active && l.belongs(d, x * 32) && l.name() == u,
                None => !l.active,
            }
        }),
{
    match names[x] {
        Some(u) => {
            let sum = choose|sum: u8| #[trigger] fat_long::stored(d, x, u, sum);
            fat_long::law_long_name_reads_back(d, x, u, sum);
        },
        None => {
            fat_long::law_no_piece_no_long_name(d, x);
        },
    }
}

/// The numbers from `x` on, of which the first is or is not among those.
pub proof fn lemma_front(p: spec_fn(int) -> bool, x: int, e: int, at: Seq<int>) -> (r: Seq<int>)
    requires
        just_those(p, x + 1, e, at),
        x < e,
    ensures
        just_those(p, x, e, r),
        p(x) ==> r == seq![x] + at,
        !p(x) ==> r == at,
{
    if p(x) {
        let r = seq![x] + at;
        assert forall|i: int| 0 <= i < r.len() implies x <= #[trigger] r[i] < e && p(r[i]) by {
            if i > 0 {
                assert(r[i] == at[i - 1]);
            }
        }
        assert forall|i: int, j: int| 0 <= i < j < r.len() implies #[trigger] r[i]
            < #[trigger] r[j] by {
            assert(r[j] == at[j - 1]);
            if i > 0 {
                assert(r[i] == at[i - 1]);
            }
        }
        assert forall|j: int| x <= j < e && #[trigger] p(j) implies r.contains(j) by {
            if j > x {
                let i = choose|i: int| 0 <= i < at.len() && at[i] == j;
                assert(r[i + 1] == j);
            } else {
                assert(r[0] == j);
            }
        }
        r
    } else {
        at
    }
}

/// The listing from entry `x` on.
#[verifier::spinoff_prover]
#[verifier::rlimit(40)]
proof fn lemma_scan(
    d: Seq<u8>,
    x: int,
    n: int,
    e: int,
    names: Seq<Option<Seq<u16>>>,
    out: Seq<DirEntryView>,
) -> (at: Seq<int>)
    requires
        0 <= x <= e,
        ends_at(d, e, n),
        long_names(d, e, names),
        out.len() <= 36,
    ensures
        just_those(|y: int| is_entry(d, y), x, e, at),
        listed(
            d,
            names,
            at,
            out,
            fat_dir::scan_list(d, x, n, fat_long::collected(d, x), out).1,
        ),
    decreases e - x,
{
    let p = |y: int| is_entry(d, y);
    let l = fat_long::collected(d, x);
    if x == e {
        Seq::empty()
    } else {
        assert(in_use(x));
        assert(x * 32 == 32 * x);
        let l2 = fat_long::collected(d, x + 1);
        if p(x) {
            lemma_long(d, e, names, x);
            let rec = fat_dir::record_at(d, x * 32, l);
            assert(is_record(d, x, names[x], rec));
            if out.len() >= 36 {
                let rest = lemma_rest(p, x + 1, e);
                lemma_front(p, x, e, rest)
            } else {
                let out2 = out.push(rec);
                let rest = lemma_scan(d, x + 1, n, e, names, out2);
                let t = fat_dir::scan_list(d, x, n, l, out).1;
                assert(l2 == l.reset());
                assert(t == fat_dir::scan_list(d, x + 1, n, l2, out2).1);
                let at = lemma_front(p, x, e, rest);
                assert(at.len() == rest.len() + 1);
                assert forall|i: int| 0 <= i < out.len() implies #[trigger] t[i] == out[i] by {
                    assert(t[i] == out2[i]);
                }
                assert forall|i: int| 0 <= i < at.len() && out.len() + i < 36 implies is_record(
                    d,
                    #[trigger] at[i],
                    names[at[i]],
                    t[out.len() + i],
                ) by {
                    if i == 0 {
                        assert(t[out.len() as int] == out2[out.len() as int]);
                    } else {
                        assert(at[i] == rest[i - 1]);
                        assert(t[out2.len() + (i - 1)] == t[out.len() + i]);
                    }
                }
                at
            }
        } else {
            let rest = lemma_scan(d, x + 1, n, e, names, out);
            assert(fat_dir::scan_list(d, x, n, l, out) == fat_dir::scan_list(
                d,
                x + 1,
                n,
                l2,
                out,
            ));
            lemma_front(p, x, e, rest)
        }
    }
}

/// The numbers that something holds of.
pub proof fn lemma_rest(p: spec_fn(int) -> bool, x: int, e: int) -> (at: Seq<int>)
    requires
        x <= e,
    ensures
        just_those(p, x, e, at),
    decreases e - x,
{
    if x == e {
        Seq::empty()
    } else {
        let rest = lemma_rest(p, x + 1, e);
        lemma_front(p, x, e, rest)
    }
}

/// The same 32 bytes in two places.
#[verifier::opaque]
pub open spec fn same_slot(d: Seq<u8>, i: int, w: Seq<u8>, x: int) -> bool {
    forall|y: int| 0 <= y < 32 ==> #[trigger] d[i * 32 + y] == w[x * 32 + y]
}

/// The checksum of the same bytes.
proof fn lemma_same_sum(d: Seq<u8>, i: int, w: Seq<u8>, x: int, n: int)
    requires
        same_slot(d, i, w, x),
        0 <= n <= 11,
    ensures
        fat_name::short_checksum(d, i * 32, n) == fat_name::short_checksum(w, x * 32, n),
    decreases n,
{
    reveal(same_slot);
    if n > 0 {
        lemma_same_sum(d, i, w, x, n - 1);
        assert(d[i * 32 + (n - 1)] == w[x * 32 + (n - 1)]);
    }
}

/// The same bytes are the same entry.
pub proof fn lemma_same_slot(d: Seq<u8>, i: int, w: Seq<u8>, x: int, l: LfnView)
    requires
        same_slot(d, i, w, x),
        0 <= i,
        i * 32 + 32 <= d.len(),
        0 <= x,
        x * 32 + 32 <= w.len(),
    ensures
        fat_dir::slot_kind(d, i * 32) == fat_dir::slot_kind(w, x * 32),
        fat_dir::is_dot(d, i * 32) == fat_dir::is_dot(w, x * 32),
        fat_dir::record_at(d, i * 32, l) == fat_dir::record_at(w, x * 32, l),
        l.push(d, i * 32) == l.push(w, x * 32),
        l.belongs(d, i * 32) == l.belongs(w, x * 32),
        d.subrange(i * 32, i * 32 + 11) == w.subrange(x * 32, x * 32 + 11),
{
    reveal(same_slot);
    assert(d[i * 32 + 0] == w[x * 32 + 0]);
    assert(d[i * 32 + 11] == w[x * 32 + 11]);
    assert(d[i * 32 + 13] == w[x * 32 + 13]);
    lemma_same_sum(d, i, w, x, 11);
    assert(d.subrange(i * 32, i * 32 + 11) =~= w.subrange(x * 32, x * 32 + 11)) by {
        assert forall|y: int| 0 <= y < 11 implies #[trigger] d.subrange(i * 32, i * 32 + 11)[y]
            == w.subrange(x * 32, x * 32 + 11)[y] by {
            assert(d[i * 32 + y] == w[x * 32 + y]);
        }
    }
    assert(bytes::le32(d, i * 32 + 28) == bytes::le32(w, x * 32 + 28)) by {
        assert(d[i * 32 + 28] == w[x * 32 + 28]);
        assert(d[i * 32 + 29] == w[x * 32 + 29]);
        assert(d[i * 32 + 30] == w[x * 32 + 30]);
        assert(d[i * 32 + 31] == w[x * 32 + 31]);
    }
    assert forall|k: int| 0 <= k < 13 implies bytes::le16(d, i * 32 + fat_name::unit_off(k))
        == bytes::le16(w, x * 32 + fat_name::unit_off(k)) by {
        let f = fat_name::unit_off(k);
        assert(d[i * 32 + f] == w[x * 32 + f]);
        assert(d[i * 32 + (f + 1)] == w[x * 32 + (f + 1)]);
    }
    assert(l.push(d, i * 32) =~= l.push(w, x * 32));
}

/// Cluster `k` in the whole directory.
proof fn lemma_cluster(s: FatView, b: Fat32Bpb, ch: Seq<u32>, k: int, i: int)
    requires
        fat_laws::good_geo(b),
        fat_laws::ready(s, b),
        fat_laws::linked(s, b, ch),
        fat_laws::fits(s, b, ch),
        0 <= k < ch.len(),
        0 <= i < b.cb() / 32,
    ensures
        fat_laws::data_of(s, b, ch[k]).len() == b.cb(),
        whole(s, b, ch).len() == 32 * room(b, ch),
        b.cb() == 32 * (b.cb() / 32),
        0 < b.cb(),
        i * 32 + 32 <= b.cb(),
        0 <= k * (b.cb() / 32) + i < room(b, ch),
        same_slot(fat_laws::data_of(s, b, ch[k]), i, whole(s, b, ch), k * (b.cb() / 32) + i),
{
    reveal(same_slot);
    let c = ch[k];
    assert(fat_laws::valid(b, c));
    assert(fat_laws::fit(s, b, c));
    fat_laws::lemma_geo(b, 0, c);
    fat_laws::lemma_sector_len(s, b.sector_of(c) as int, b.spc());
    let n = b.cb() / 32;
    assert(n == 16 * b.spc());
    let len = ch.len() as int;
    assert(len * (32 * n) == 32 * (len * n)) by (nonlinear_arith);
    assert(0 <= len * (32 * n)) by (nonlinear_arith)
        requires
            0 <= len,
            0 <= n,
    ;
    assert(k * n + n <= len * n) by (nonlinear_arith)
        requires
            k + 1 <= len,
            0 <= n,
    ;
    assert(0 <= k * n) by (nonlinear_arith)
        requires
            0 <= k,
            0 <= n,
    ;
    assert((k * n + i) * 32 == k * (32 * n) + i * 32) by (nonlinear_arith);
    let d = fat_laws::data_of(s, b, c);
    let w = whole(s, b, ch);
    assert forall|y: int| 0 <= y < 32 implies #[trigger] d[i * 32 + y] == w[(k * n + i) * 32
        + y] by {
        fat_laws::lemma_pos(k, i * 32 + y, b.cb());
    }
}

/// The `n` entries of a cluster are those from `base` on of the whole directory.
pub open spec fn window(d: Seq<u8>, n: int, w: Seq<u8>, base: int) -> bool {
    &&& 0 <= base
    &&& n * 32 <= d.len()
    &&& (base + n) * 32 <= w.len()
    &&& forall|i: int| 0 <= i < n ==> #[trigger] slot_of(d, i, w, base)
}

/// Entry `i` of a cluster is where it should be in the whole directory.
pub open spec fn slot_of(d: Seq<u8>, i: int, w: Seq<u8>, base: int) -> bool {
    same_slot(d, i, w, base + i)
}

/// A cluster in the whole directory.
pub proof fn lemma_window(s: FatView, b: Fat32Bpb, ch: Seq<u32>, k: int)
    requires
        fat_laws::good_geo(b),
        fat_laws::ready(s, b),
        fat_laws::linked(s, b, ch),
        fat_laws::fits(s, b, ch),
        0 <= k < ch.len(),
    ensures
        window(fat_laws::data_of(s, b, ch[k]), b.cb() / 32, whole(s, b, ch), k * (b.cb() / 32)),
        0 < b.cb() / 32,
        k * (b.cb() / 32) + b.cb() / 32 <= room(b, ch),
{
    let n = b.cb() / 32;
    assert(fat_laws::valid(b, ch[k]));
    fat_laws::lemma_geo(b, 0, ch[k]);
    assert(n == 16 * b.spc());
    lemma_cluster(s, b, ch, k, n - 1);
    assert forall|i: int| 0 <= i < n implies #[trigger] slot_of(
        fat_laws::data_of(s, b, ch[k]),
        i,
        whole(s, b, ch),
        k * n,
    ) by {
        lemma_cluster(s, b, ch, k, i);
    }
}

/// A listing of a cluster from entry `i` on, in the whole directory.
proof fn lemma_list_cluster(
    d: Seq<u8>,
    n: int,
    w: Seq<u8>,
    base: int,
    all: int,
    i: int,
    l: LfnView,
    out: Seq<DirEntryView>,
)
    requires
        window(d, n, w, base),
        base + n <= all,
        0 <= i <= n,
    ensures
        ({
            let r = fat_dir::scan_list(d, i, n, l, out);
            fat_dir::scan_list(w, base + i, all, l, out) == if r.0 {
                r
            } else {
                fat_dir::scan_list(w, base + n, all, r.2, r.1)
            }
        }),
    decreases n - i,
{
    if i < n {
        assert(slot_of(d, i, w, base));
        lemma_same_slot(d, i, w, base + i, l);
        match fat_dir::slot_kind(d, i * 32) {
            Slot::End => {},
            Slot::LongPiece => lemma_list_cluster(d, n, w, base, all, i + 1, l.push(d, i * 32), out),
            Slot::Entry => if fat_dir::is_dot(d, i * 32) {
                lemma_list_cluster(d, n, w, base, all, i + 1, l.reset(), out);
            } else {
                lemma_list_cluster(
                    d,
                    n,
                    w,
                    base,
                    all,
                    i + 1,
                    l.reset(),
                    out.push(fat_dir::record_at(d, i * 32, l)),
                );
            },
            _ => lemma_list_cluster(d, n, w, base, all, i + 1, l.reset(), out),
        }
    }
}

/// A listing of a directory from cluster `k` on.
proof fn lemma_list(
    s: FatView,
    b: Fat32Bpb,
    ch: Seq<u32>,
    k: int,
    l: LfnView,
    out: Seq<DirEntryView>,
    fuel: nat,
)
    requires
        fat_laws::good_geo(b),
        fat_laws::ready(s, b),
        fat_laws::linked(s, b, ch),
        fat_laws::fits(s, b, ch),
        0 <= k < ch.len(),
        fuel >= ch.len() - 1 - k,
    ensures
        s.list(b, ch[k], l, out, fuel).1 == Some(
            fat_dir::scan_list(
                whole(s, b, ch),
                k * (b.cb() / 32),
                room(b, ch),
                l,
                out,
            ).1,
        ),
    decreases ch.len() - k,
{
    let c = ch[k];
    let n = b.cb() / 32;
    assert(fat_laws::valid(b, c));
    assert(fat_laws::fit(s, b, c));
    lemma_window(s, b, ch, k);
    lemma_list_cluster(
        fat_laws::data_of(s, b, c),
        n,
        whole(s, b, ch),
        k * n,
        room(b, ch),
        0,
        l,
        out,
    );
    assert((k + 1) * n == k * n + n) by (nonlinear_arith);
    let r = fat_dir::scan_list(fat_laws::data_of(s, b, c), 0, n, l, out);
    if !r.0 {
        fat_laws::lemma_fat_get(s, b, c);
        let (t, next) = s.fat_get(b, c);
        if k + 1 < ch.len() {
            assert(next == ch[k + 1]);
            assert(fat_laws::valid(b, ch[k + 1]));
            fat_laws::lemma_same_table(s, t, b, ch);
            fat_laws::lemma_fits(s, t, b, ch);
            assert(whole(t, b, ch) == whole(s, b, ch)) by {
                assert forall|x: int| 0 <= x < ch.len() * b.cb() implies whole(t, b, ch)[x]
                    == whole(s, b, ch)[x] by {}
                assert(whole(t, b, ch) =~= whole(s, b, ch));
            }
            lemma_list(t, b, ch, k + 1, r.2, r.1, (fuel - 1) as nat);
        } else {
            assert(next == fat_laws::entry(s, b, ch.last()));
            assert((k + 1) * n == room(b, ch));
        }
    }
}

/// Law: a listing of a directory shows each of its files and directories, in their order, up to
/// where its entries end, and nothing else, as far as a page has room: each with its short name,
/// its size and whether it is a directory, and with its long name where it has one. The numbers
/// of the entries are handed back.
pub proof fn law_listing(
    s: FatView,
    b: Fat32Bpb,
    dir: u32,
    ch: Seq<u32>,
    e: int,
    names: Seq<Option<Seq<u16>>>,
) -> (at: Seq<int>)
    requires
        fat_laws::good_geo(b),
        fat_laws::ready(s, b),
        fat_tree::dir_ok(s, b, dir, ch),
        ends_at(whole(s, b, ch), e, room(b, ch)),
        long_names(whole(s, b, ch), e, names),
    ensures
        just_those(|y: int| is_entry(whole(s, b, ch), y), 0, e, at),
        s.list(b, dir, LfnView::empty(), Seq::empty(), 0x1000_0000).1 matches Some(t) && listed(
            whole(s, b, ch),
            names,
            at,
            Seq::empty(),
            t,
        ),
{
    lemma_list(s, b, ch, 0, LfnView::empty(), Seq::empty(), 0x1000_0000);
    lemma_scan(whole(s, b, ch), 0, room(b, ch), e, names, Seq::empty())
}

/// What is known of entry `x` of a directory, wherever it was found.
pub open spec fn is_info(
    b: Fat32Bpb,
    ch: Seq<u32>,
    d: Seq<u8>,
    x: int,
    r: DirEntryInfo,
) -> bool {
    &&& r.start_cluster == bytes::le16(d, 32 * x + 20) * 0x1_0000 + bytes::le16(d, 32 * x + 26)
    &&& r.file_size == bytes::le32(d, 32 * x + 28)
    &&& r.attr == d[32 * x + 11]
    &&& r.dir_cluster == ch[x / (b.cb() / 32)]
    &&& r.entry_offset == x % (b.cb() / 32) * 32
}

/// Entry `x` has the short name `sn`.
pub open spec fn has_short(d: Seq<u8>, x: int, sn: Option<Seq<u8>>) -> bool {
    is_entry(d, x) && sn == Some(d.subrange(32 * x, 32 * x + 11))
}

/// Entry `x` has the long name `q`, capitals or not.
pub open spec fn has_long(
    d: Seq<u8>,
    x: int,
    names: Seq<Option<Seq<u16>>>,
    q: Seq<u8>,
) -> bool {
    is_entry(d, x) && match names[x] {
        Some(u) => u.len() == q.len() && forall|i: int|
            0 <= i < u.len() ==> (#[trigger] u[i]) < 0x80 && fat_long::capital(u[i] as u8)
                == fat_long::capital(q[i]),
        None => false,
    }
}

/// A search over the entries from `x` on gave `r`: the first with the short name, else `hit`, else
/// the first with the long name.
pub open spec fn picked(
    d: Seq<u8>,
    x: int,
    e: int,
    names: Seq<Option<Seq<u16>>>,
    sn: Option<Seq<u8>>,
    q: Seq<u8>,
    hit: Option<int>,
    r: Option<int>,
) -> bool {
    ||| r matches Some(y) && x <= y < e && has_short(d, y, sn) && forall|z: int|
        x <= z < y ==> !#[trigger] has_short(d, z, sn)
    ||| {
        &&& forall|z: int| x <= z < e ==> !#[trigger] has_short(d, z, sn)
        &&& match (hit, r) {
            (Some(h), _) => r == Some(h),
            (None, Some(y)) => x <= y < e && has_long(d, y, names, q) && forall|z: int|
                x <= z < y ==> !#[trigger] has_long(d, z, names, q),
            (None, None) => forall|z: int| x <= z < e ==> !#[trigger] has_long(d, z, names, q),
        }
    }
}

/// The search over the entries of a directory as a whole.
pub open spec fn search(
    d: Seq<u8>,
    x: int,
    n: int,
    sn: Option<Seq<u8>>,
    q: Seq<u8>,
    lfn: LfnView,
    hit: Option<int>,
) -> (bool, Option<int>, LfnView)
    decreases n - x,
{
    let o = x * 32;
    if x >= n {
        (false, hit, lfn)
    } else {
        match fat_dir::slot_kind(d, o) {
            Slot::End => (true, hit, lfn),
            Slot::LongPiece => search(d, x + 1, n, sn, q, lfn.push(d, o), hit),
            Slot::Entry => if !fat_dir::is_dot(d, o) && sn == Some(d.subrange(o, o + 11)) {
                (true, Some(x), lfn.reset())
            } else {
                let long = !fat_dir::is_dot(d, o) && lfn.active && lfn.belongs(d, o)
                    && fat_name::long_is(lfn.name(), q);
                let hit2 = if long && hit is None {
                    Some(x)
                } else {
                    hit
                };
                search(d, x + 1, n, sn, q, lfn.reset(), hit2)
            },
            _ => search(d, x + 1, n, sn, q, lfn.reset(), hit),
        }
    }
}

/// The entry of a number.
pub open spec fn info(s: FatView, b: Fat32Bpb, ch: Seq<u32>, x: int) -> DirEntryInfo {
    let k = x / (b.cb() / 32);
    fat_dir::info_at(fat_laws::data_of(s, b, ch[k]), ch[k], x % (b.cb() / 32))
}

/// The entry of a number that may not be there.
pub open spec fn info_of(s: FatView, b: Fat32Bpb, ch: Seq<u32>, x: Option<int>) -> Option<DirEntryInfo> {
    match x {
        Some(y) => Some(info(s, b, ch, y)),
        None => None,
    }
}

/// Long names are the same with capitals or without.
proof fn lemma_long_is(u: Seq<u16>, q: Seq<u8>)
    ensures
        fat_name::long_is(u, q) <==> u.len() == q.len() && forall|i: int|
            0 <= i < u.len() ==> (#[trigger] u[i]) < 0x80 && fat_long::capital(u[i] as u8)
                == fat_long::capital(q[i]),
{
    assert forall|c: u8| #[trigger] fat_long::capital(c) == bytes::upper(c) by {}
}

/// The search from entry `x` on.
#[verifier::spinoff_prover]
#[verifier::rlimit(40)]
proof fn lemma_search(
    d: Seq<u8>,
    x: int,
    n: int,
    e: int,
    names: Seq<Option<Seq<u16>>>,
    sn: Option<Seq<u8>>,
    q: Seq<u8>,
    hit: Option<int>,
)
    requires
        0 <= x <= e,
        ends_at(d, e, n),
        long_names(d, e, names),
    ensures
        picked(
            d,
            x,
            e,
            names,
            sn,
            q,
            hit,
            search(d, x, n, sn, q, fat_long::collected(d, x), hit).1,
        ),
    decreases e - x,
{
    let l = fat_long::collected(d, x);
    if x < e {
        assert(in_use(x));
        assert(x * 32 == 32 * x);
        let r = search(d, x, n, sn, q, l, hit).1;
        let l2 = fat_long::collected(d, x + 1);
        if is_entry(d, x) {
            lemma_long(d, e, names, x);
            if names[x] is Some {
                lemma_long_is(names[x]->Some_0, q);
            }
            if has_short(d, x, sn) {
                assert(r == Some(x));
            } else {
                let hit2 = if has_long(d, x, names, q) && hit is None {
                    Some(x)
                } else {
                    hit
                };
                lemma_search(d, x + 1, n, e, names, sn, q, hit2);
                assert(r == search(d, x + 1, n, sn, q, l2, hit2).1);
                lemma_picked(d, x, e, names, sn, q, hit, hit2, r);
            }
        } else {
            lemma_search(d, x + 1, n, e, names, sn, q, hit);
            assert(r == search(d, x + 1, n, sn, q, l2, hit).1);
            lemma_picked(d, x, e, names, sn, q, hit, hit, r);
        }
    }
}

/// One more entry in front, which has not the short name.
proof fn lemma_picked(
    d: Seq<u8>,
    x: int,
    e: int,
    names: Seq<Option<Seq<u16>>>,
    sn: Option<Seq<u8>>,
    q: Seq<u8>,
    hit: Option<int>,
    hit2: Option<int>,
    r: Option<int>,
)
    requires
        x < e,
        !has_short(d, x, sn),
        hit2 == if has_long(d, x, names, q) && hit is None {
            Some(x)
        } else {
            hit
        },
        picked(d, x + 1, e, names, sn, q, hit2, r),
    ensures
        picked(d, x, e, names, sn, q, hit, r),
{
    if r matches Some(y) && x + 1 <= y < e && has_short(d, y, sn) && (forall|z: int|
        x + 1 <= z < y ==> !#[trigger] has_short(d, z, sn)) {
        assert forall|z: int| x <= z < r->Some_0 implies !#[trigger] has_short(d, z, sn) by {
            if z > x {
                assert(x + 1 <= z);
            }
        }
    } else {
        assert forall|z: int| x <= z < e implies !#[trigger] has_short(d, z, sn) by {
            if z > x {
                assert(x + 1 <= z);
            }
        }
        if hit is None && !has_long(d, x, names, q) {
            let to = match r {
                Some(y) => y,
                None => e,
            };
            assert forall|z: int| x <= z < to implies !#[trigger] has_long(d, z, names, q) by {
                if z > x {
                    assert(x + 1 <= z);
                }
            }
        }
    }
}

/// The entry of a number that may not be there, as `inf` says it.
spec fn via(inf: spec_fn(int) -> DirEntryInfo, x: Option<int>) -> Option<DirEntryInfo> {
    match x {
        Some(y) => Some(inf(y)),
        None => None,
    }
}

/// A search of a cluster from entry `i` on, in the whole directory.
proof fn lemma_named_cluster(
    d: Seq<u8>,
    c: u32,
    n: int,
    w: Seq<u8>,
    base: int,
    all: int,
    inf: spec_fn(int) -> DirEntryInfo,
    i: int,
    sn: Option<Seq<u8>>,
    q: Seq<u8>,
    l: LfnView,
    hit: Option<int>,
) -> (r: Option<int>)
    requires
        window(d, n, w, base),
        base + n <= all,
        0 <= i <= n,
        forall|j: int| 0 <= j < n ==> #[trigger] inf(base + j) == fat_dir::info_at(d, c, j),
    ensures
        ({
            let t = fat_dir::scan_named(d, c, i, n, sn, q, l, via(inf, hit));
            &&& t.1 == via(inf, r)
            &&& search(w, base + i, all, sn, q, l, hit) == if t.0 {
                (true, r, t.2)
            } else {
                search(w, base + n, all, sn, q, t.2, r)
            }
        }),
    decreases n - i,
{
    if i >= n {
        hit
    } else {
        let x = base + i;
        assert(slot_of(d, i, w, base));
        lemma_same_slot(d, i, w, x, l);
        assert(inf(base + i) == fat_dir::info_at(d, c, i));
        match fat_dir::slot_kind(d, i * 32) {
            Slot::End => hit,
            Slot::LongPiece => lemma_named_cluster(
                d,
                c,
                n,
                w,
                base,
                all,
                inf,
                i + 1,
                sn,
                q,
                l.push(d, i * 32),
                hit,
            ),
            Slot::Entry => if !fat_dir::is_dot(d, i * 32) && sn == Some(
                d.subrange(i * 32, i * 32 + 11),
            ) {
                Some(x)
            } else {
                let long = !fat_dir::is_dot(d, i * 32) && l.active && l.belongs(d, i * 32)
                    && fat_name::long_is(l.name(), q);
                let hit2 = if long && hit is None {
                    Some(x)
                } else {
                    hit
                };
                lemma_named_cluster(d, c, n, w, base, all, inf, i + 1, sn, q, l.reset(), hit2)
            },
            _ => lemma_named_cluster(d, c, n, w, base, all, inf, i + 1, sn, q, l.reset(), hit),
        }
    }
}

/// A search of a directory from cluster `k` on.
proof fn lemma_named(
    s: FatView,
    b: Fat32Bpb,
    ch: Seq<u32>,
    k: int,
    sn: Option<Seq<u8>>,
    q: Seq<u8>,
    l: LfnView,
    hit: Option<int>,
    fuel: nat,
)
    requires
        fat_laws::good_geo(b),
        fat_laws::ready(s, b),
        fat_laws::linked(s, b, ch),
        fat_laws::fits(s, b, ch),
        0 <= k < ch.len(),
        fuel >= ch.len() - 1 - k,
    ensures
        s.find_named(b, ch[k], sn, q, l, info_of(s, b, ch, hit), fuel).1 == info_of(
            s,
            b,
            ch,
            search(whole(s, b, ch), k * (b.cb() / 32), room(b, ch), sn, q, l, hit).1,
        ),
    decreases ch.len() - k,
{
    let c = ch[k];
    let n = b.cb() / 32;
    assert(fat_laws::valid(b, c));
    assert(fat_laws::fit(s, b, c));
    let d = fat_laws::data_of(s, b, c);
    let inf = |x: int| info(s, b, ch, x);
    lemma_window(s, b, ch, k);
    assert forall|j: int| 0 <= j < n implies #[trigger] inf(k * n + j) == fat_dir::info_at(
        d,
        c,
        j,
    ) by {
        fat_laws::lemma_pos(k, j, n);
    }
    let hit2 = lemma_named_cluster(
        d,
        c,
        n,
        whole(s, b, ch),
        k * n,
        room(b, ch),
        inf,
        0,
        sn,
        q,
        l,
        hit,
    );
    assert(via(inf, hit) == info_of(s, b, ch, hit));
    assert(via(inf, hit2) == info_of(s, b, ch, hit2));
    assert((k + 1) * n == k * n + n) by (nonlinear_arith);
    let r = fat_dir::scan_named(
        fat_laws::data_of(s, b, c),
        c,
        0,
        n,
        sn,
        q,
        l,
        info_of(s, b, ch, hit),
    );
    if !r.0 {
        fat_laws::lemma_fat_get(s, b, c);
        let (t, next) = s.fat_get(b, c);
        if k + 1 < ch.len() {
            assert(next == ch[k + 1]);
            assert(fat_laws::valid(b, ch[k + 1]));
            fat_laws::lemma_same_table(s, t, b, ch);
            fat_laws::lemma_fits(s, t, b, ch);
            assert(whole(t, b, ch) =~= whole(s, b, ch));
            assert(forall|y: Option<int>| info_of(t, b, ch, y) == info_of(s, b, ch, y));
            lemma_named(t, b, ch, k + 1, sn, q, r.2, hit2, (fuel - 1) as nat);
        } else {
            assert(next == fat_laws::entry(s, b, ch.last()));
            assert((k + 1) * n == room(b, ch));
        }
    }
}

/// The numbers of the same entry in two places.
proof fn lemma_numbers(d: Seq<u8>, i: int, w: Seq<u8>, x: int)
    requires
        same_slot(d, i, w, x),
    ensures
        bytes::le16(d, i * 32 + 20) == bytes::le16(w, 32 * x + 20),
        bytes::le16(d, i * 32 + 26) == bytes::le16(w, 32 * x + 26),
        bytes::le32(d, i * 32 + 28) == bytes::le32(w, 32 * x + 28),
        d[i * 32 + 11] == w[32 * x + 11],
{
    reveal(same_slot);
    assert(x * 32 == 32 * x);
    assert(d[i * 32 + 11] == w[x * 32 + 11]);
    assert(d[i * 32 + 20] == w[x * 32 + 20] && d[i * 32 + 21] == w[x * 32 + 21]);
    assert(d[i * 32 + 26] == w[x * 32 + 26] && d[i * 32 + 27] == w[x * 32 + 27]);
    assert(d[i * 32 + 28] == w[x * 32 + 28] && d[i * 32 + 29] == w[x * 32 + 29]);
    assert(d[i * 32 + 30] == w[x * 32 + 30] && d[i * 32 + 31] == w[x * 32 + 31]);
}

/// A search of a directory as one of its entries.
pub proof fn lemma_find(s: FatView, b: Fat32Bpb, dir: u32, ch: Seq<u32>, q: Seq<u8>)
    requires
        fat_laws::good_geo(b),
        fat_laws::ready(s, b),
        fat_tree::dir_ok(s, b, dir, ch),
    ensures
        s.find(b, dir, q).1 == info_of(
            s,
            b,
            ch,
            search(
                whole(s, b, ch),
                0,
                room(b, ch),
                fat_name::short_name(q),
                q,
                LfnView::empty(),
                None,
            ).1,
        ),
{
    lemma_named(s, b, ch, 0, fat_name::short_name(q), q, LfnView::empty(), None, 0x1000_0000);
}

/// The same volume is searched in the same way.
pub proof fn lemma_same_search(s: FatView, t: FatView, b: Fat32Bpb, ch: Seq<u32>, q: Seq<u8>)
    requires
        t.store == s.store,
        t.cur == s.cur,
    ensures
        whole(t, b, ch) == whole(s, b, ch),
        forall|x: Option<int>| #[trigger] info_of(t, b, ch, x) == info_of(s, b, ch, x),
{
    assert(whole(t, b, ch) =~= whole(s, b, ch));
}

/// An entry said out of the whole directory.
#[verifier::spinoff_prover]
#[verifier::rlimit(40)]
proof fn lemma_info(s: FatView, b: Fat32Bpb, ch: Seq<u32>, x: int)
    requires
        fat_laws::good_geo(b),
        fat_laws::ready(s, b),
        fat_laws::linked(s, b, ch),
        fat_laws::fits(s, b, ch),
        0 <= x < room(b, ch),
        ch.len() > 0,
    ensures
        is_info(b, ch, whole(s, b, ch), x, info(s, b, ch, x)),
{
    let n = b.cb() / 32;
    lemma_cluster(s, b, ch, 0, 0);
    fat_laws::lemma_div(x, n);
    let k = x / n;
    let i = x % n;
    assert(k < ch.len()) by (nonlinear_arith)
        requires
            k * n <= x,
            x < ch.len() * n,
            0 < n,
    ;
    lemma_cluster(s, b, ch, k, i);
    let d = fat_laws::data_of(s, b, ch[k]);
    let w = whole(s, b, ch);
    lemma_numbers(d, i, w, x);
}

/// Law: a search of a directory finds the first file or directory that has the name's short form,
/// else the first whose long name is the name, capitals or not, and nothing where there is
/// neither. It says where the file starts, how long it is, and where the entry stands. The number
/// of the entry is handed back.
pub proof fn law_search(
    s: FatView,
    b: Fat32Bpb,
    dir: u32,
    ch: Seq<u32>,
    e: int,
    names: Seq<Option<Seq<u16>>>,
    q: Seq<u8>,
) -> (r: Option<int>)
    requires
        fat_laws::good_geo(b),
        fat_laws::ready(s, b),
        fat_tree::dir_ok(s, b, dir, ch),
        ends_at(whole(s, b, ch), e, room(b, ch)),
        long_names(whole(s, b, ch), e, names),
    ensures
        picked(whole(s, b, ch), 0, e, names, fat_name::short_name(q), q, None, r),
        match (r, s.find(b, dir, q).1) {
            (Some(x), Some(i)) => is_info(b, ch, whole(s, b, ch), x, i),
            (None, None) => true,
            _ => false,
        },
{
    let sn = fat_name::short_name(q);
    let w = whole(s, b, ch);
    lemma_find(s, b, dir, ch, q);
    lemma_search(w, 0, room(b, ch), e, names, sn, q, None);
    let r = search(w, 0, room(b, ch), sn, q, LfnView::empty(), None).1;
    if r is Some {
        lemma_info(s, b, ch, r->Some_0);
    }
    r
}

/// Law: what a listing shows under a long name is found by it. Where a name of ASCII characters is
/// the long name of an entry and no entry has its short form nor, before that one, the same long
/// name, the search finds that entry.
pub proof fn law_long_name_is_found(
    s: FatView,
    b: Fat32Bpb,
    dir: u32,
    ch: Seq<u32>,
    e: int,
    names: Seq<Option<Seq<u16>>>,
    q: Seq<u8>,
    x: int,
)
    requires
        fat_laws::good_geo(b),
        fat_laws::ready(s, b),
        fat_tree::dir_ok(s, b, dir, ch),
        ends_at(whole(s, b, ch), e, room(b, ch)),
        long_names(whole(s, b, ch), e, names),
        0 <= x < e,
        is_entry(whole(s, b, ch), x),
        names[x] == Some(Seq::new(q.len(), |i: int| q[i] as u16)),
        forall|i: int| 0 <= i < q.len() ==> #[trigger] q[i] < 0x80,
        forall|y: int|
            0 <= y < e ==> !#[trigger] has_short(whole(s, b, ch), y, fat_name::short_name(q)),
        forall|y: int| 0 <= y < x ==> !#[trigger] has_long(whole(s, b, ch), y, names, q),
    ensures
        s.find(b, dir, q).1 matches Some(i) && is_info(b, ch, whole(s, b, ch), x, i),
{
    let w = whole(s, b, ch);
    let u = Seq::new(q.len(), |i: int| q[i] as u16);
    assert forall|i: int| 0 <= i < u.len() implies (#[trigger] u[i]) < 0x80 && fat_long::capital(
        u[i] as u8,
    ) == fat_long::capital(q[i]) by {
        assert(q[i] < 0x80);
    }
    assert(has_long(w, x, names, q));
    let r = law_search(s, b, dir, ch, e, names, q);
}

} // verus!
