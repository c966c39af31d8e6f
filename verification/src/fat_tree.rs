//! What holds of directories on FAT32 volumes: an entry that was written is found, one that was
//! removed is not, and the clusters of a removed file are free.
use vstd::prelude::*;

use crate::bytes;
use crate::fat;
use crate::fat::{Fat32Bpb, FatView, FAT_EOC, FAT_EOC_MIN, FAT_WALK_MAX};
use crate::fat_dir;
use crate::fat_dir::DirEntryInfo;
use crate::fat_laws;
use crate::fat_name::LfnView;
use crate::fat_srv;

verus! {

/// Entries in a cluster.
pub open spec fn slots(b: Fat32Bpb) -> int {
    b.cb() / 32
}

/// The short name of a file or directory, as opposed to a mark or to `.` and `..`.
pub open spec fn plain(sn: Seq<u8>) -> bool {
    sn.len() == 11 && sn[0] != 0 && sn[0] != 0xE5 && sn[0] != 0x2E
}

/// Whether entry `i` of a cluster is a file or directory with the short name `sn`.
pub open spec fn is_named(d: Seq<u8>, i: int, sn: Seq<u8>) -> bool {
    fat_dir::slot_kind(d, i * 32) is Entry && d.subrange(i * 32, i * 32 + 11) == sn
}

/// Whether a search for the short name `sn` ends at entry `i`.
pub open spec fn stops(d: Seq<u8>, i: int, sn: Seq<u8>) -> bool {
    fat_dir::slot_kind(d, i * 32) is End || is_named(d, i, sn)
}

/// A search for the short name `sn` goes past the entries before `n`.
pub open spec fn quiet(d: Seq<u8>, n: int, sn: Seq<u8>) -> bool {
    forall|x: int| 0 <= x < n ==> !#[trigger] stops(d, x, sn)
}

/// The chain of directory `dir`, all of which can be transferred.
pub open spec fn dir_ok(s: FatView, b: Fat32Bpb, dir: u32, ch: Seq<u32>) -> bool {
    &&& fat_laws::linked(s, b, ch)
    &&& fat_laws::fits(s, b, ch)
    &&& 0 < ch.len() < FAT_WALK_MAX
    &&& ch[0] == dir
}

/// The first entry with the short name `sn` is entry `i` of cluster `k` of the directory.
pub open spec fn first(s: FatView, b: Fat32Bpb, ch: Seq<u32>, k: int, i: int, sn: Seq<u8>) -> bool {
    &&& 0 <= k < ch.len()
    &&& 0 <= i < slots(b)
    &&& is_named(fat_laws::data_of(s, b, ch[k]), i, sn)
    &&& quiet(fat_laws::data_of(s, b, ch[k]), i, sn)
    &&& forall|j: int|
        0 <= j < k ==> quiet(fat_laws::data_of(s, b, #[trigger] ch[j]), slots(b), sn)
}

/// No entry of the directory has the short name `sn`.
pub open spec fn absent(s: FatView, b: Fat32Bpb, ch: Seq<u32>, sn: Seq<u8>) -> bool {
    forall|k: int, i: int|
        0 <= k < ch.len() && 0 <= i < slots(b) ==> !#[trigger] is_named(
            fat_laws::data_of(s, b, ch[k]),
            i,
            sn,
        )
}

/// A search of one cluster that ends at an entry with the short name.
proof fn lemma_scan_hit(
    d: Seq<u8>,
    c: u32,
    x: int,
    i: int,
    n: int,
    sn: Seq<u8>,
    q: Seq<u8>,
    lfn: LfnView,
    hit: Option<DirEntryInfo>,
)
    requires
        0 <= x <= i < n,
        n * 32 <= d.len(),
        plain(sn),
        quiet(d, i, sn),
        is_named(d, i, sn),
    ensures
        fat_dir::scan_named(d, c, x, n, Some(sn), q, lfn, hit).0,
        fat_dir::scan_named(d, c, x, n, Some(sn), q, lfn, hit).1 == Some(
            fat_dir::info_at(d, c, i),
        ),
    decreases i - x,
{
    if x == i {
        assert(d.subrange(i * 32, i * 32 + 11)[0] == d[i * 32]);
    } else {
        assert(!stops(d, x, sn));
        let o = x * 32;
        match fat_dir::slot_kind(d, o) {
            fat_dir::Slot::LongPiece => {
                lemma_scan_hit(d, c, x + 1, i, n, sn, q, lfn.push(d, o), hit);
            },
            fat_dir::Slot::Entry => {
                let long = !fat_dir::is_dot(d, o) && lfn.active && lfn.belongs(d, o)
                    && crate::fat_name::long_is(lfn.name(), q);
                let hit2 = if long && hit is None {
                    Some(fat_dir::info_at(d, c, x))
                } else {
                    hit
                };
                lemma_scan_hit(d, c, x + 1, i, n, sn, q, lfn.reset(), hit2);
            },
            _ => {
                lemma_scan_hit(d, c, x + 1, i, n, sn, q, lfn.reset(), hit);
            },
        }
    }
}

/// A search of one cluster that goes on to the next.
proof fn lemma_scan_on(
    d: Seq<u8>,
    c: u32,
    x: int,
    n: int,
    sn: Seq<u8>,
    q: Seq<u8>,
    lfn: LfnView,
    hit: Option<DirEntryInfo>,
)
    requires
        0 <= x <= n,
        plain(sn),
        quiet(d, n, sn),
    ensures
        !fat_dir::scan_named(d, c, x, n, Some(sn), q, lfn, hit).0,
    decreases n - x,
{
    if x < n {
        assert(!stops(d, x, sn));
        let o = x * 32;
        match fat_dir::slot_kind(d, o) {
            fat_dir::Slot::LongPiece => {
                lemma_scan_on(d, c, x + 1, n, sn, q, lfn.push(d, o), hit);
            },
            fat_dir::Slot::Entry => {
                let long = !fat_dir::is_dot(d, o) && lfn.active && lfn.belongs(d, o)
                    && crate::fat_name::long_is(lfn.name(), q);
                let hit2 = if long && hit is None {
                    Some(fat_dir::info_at(d, c, x))
                } else {
                    hit
                };
                lemma_scan_on(d, c, x + 1, n, sn, q, lfn.reset(), hit2);
            },
            _ => {
                lemma_scan_on(d, c, x + 1, n, sn, q, lfn.reset(), hit);
            },
        }
    }
}

/// A search from cluster `j` of the directory on.
proof fn lemma_find(
    s: FatView,
    b: Fat32Bpb,
    ch: Seq<u32>,
    j: int,
    k: int,
    i: int,
    sn: Seq<u8>,
    q: Seq<u8>,
    lfn: LfnView,
    hit: Option<DirEntryInfo>,
    fuel: nat,
)
    requires
        fat_laws::good_geo(b),
        fat_laws::ready(s, b),
        fat_laws::linked(s, b, ch),
        fat_laws::fits(s, b, ch),
        plain(sn),
        first(s, b, ch, k, i, sn),
        0 <= j <= k,
        fuel >= k - j,
    ensures
        s.find_named(b, ch[j], Some(sn), q, lfn, hit, fuel).1 == Some(
            fat_dir::info_at(fat_laws::data_of(s, b, ch[k]), ch[k], i),
        ),
        s.find_named(b, ch[j], Some(sn), q, lfn, hit, fuel).0 == (FatView {
            fat_buf: s.find_named(b, ch[j], Some(sn), q, lfn, hit, fuel).0.fat_buf,
            ..s
        }),
    decreases k - j,
{
    let c = ch[j];
    assert(fat_laws::valid(b, c));
    assert(fat_laws::fit(s, b, c));
    let d = fat_laws::data_of(s, b, c);
    let n = slots(b);
    fat_laws::lemma_sector_len(s, b.sector_of(c) as int, b.spc());
    if j == k {
        lemma_scan_hit(d, c, 0, i, n, sn, q, lfn, hit);
    } else {
        lemma_scan_on(d, c, 0, n, sn, q, lfn, hit);
        let (over, h, l) = fat_dir::scan_named(d, c, 0, n, Some(sn), q, lfn, hit);
        fat_laws::lemma_fat_get(s, b, c);
        let (t, next) = s.fat_get(b, c);
        assert(next == ch[j + 1]);
        assert(fat_laws::valid(b, ch[j + 1]));
        lemma_same(s, t, b, ch, k, i, sn);
        lemma_find(t, b, ch, j + 1, k, i, sn, q, l, h, (fuel - 1) as nat);
    }
}

/// The buffered table sector plays no part.
proof fn lemma_same(s: FatView, t: FatView, b: Fat32Bpb, ch: Seq<u32>, k: int, i: int, sn: Seq<u8>)
    requires
        fat_laws::linked(s, b, ch),
        t.store == s.store,
        t.cur == s.cur,
    ensures
        fat_laws::linked(t, b, ch),
        fat_laws::fits(s, b, ch) ==> fat_laws::fits(t, b, ch),
        first(s, b, ch, k, i, sn) ==> first(t, b, ch, k, i, sn),
        forall|d: u32| #[trigger] fat_laws::data_of(t, b, d) == fat_laws::data_of(s, b, d),
        forall|d: u32| #[trigger] fat_laws::entry(t, b, d) == fat_laws::entry(s, b, d),
{
    fat_laws::lemma_same_table(s, t, b, ch);
    fat_laws::lemma_fits(s, t, b, ch);
    if first(s, b, ch, k, i, sn) {
        assert forall|j: int| 0 <= j < k implies quiet(
            fat_laws::data_of(t, b, #[trigger] ch[j]),
            slots(b),
            sn,
        ) by {
            assert(quiet(fat_laws::data_of(s, b, ch[j]), slots(b), sn));
        }
    }
}

/// Law: a search of a directory by a name that has a short form finds the first entry with
/// that short name.
pub proof fn law_find(
    s: FatView,
    b: Fat32Bpb,
    dir: u32,
    ch: Seq<u32>,
    k: int,
    i: int,
    name: Seq<u8>,
    sn: Seq<u8>,
)
    requires
        fat_laws::good_geo(b),
        fat_laws::ready(s, b),
        dir_ok(s, b, dir, ch),
        crate::fat_name::short_name(name) == Some(sn),
        plain(sn),
        first(s, b, ch, k, i, sn),
    ensures
        s.find(b, dir, name).1 == Some(
            fat_dir::info_at(fat_laws::data_of(s, b, ch[k]), ch[k], i),
        ),
{
    lemma_find(
        s,
        b,
        ch,
        0,
        k,
        i,
        sn,
        name,
        LfnView::empty(),
        None,
        FAT_WALK_MAX as nat,
    );
}

/// One sector of a directory cluster written: the bytes of the cluster, and nothing else,
/// change.
proof fn lemma_sector(s: FatView, b: Fat32Bpb, dc: u32, off: u32, data: Seq<u8>)
    requires
        fat_laws::good_geo(b),
        fat_laws::ready(s, b),
        fat_laws::valid(b, dc),
        off < b.cb(),
        data.len() == 512,
        s.store.can(s.cur, FatView::entry_sector(b, dc, off) as int, 1),
    ensures
        ({
            let f = FatView::entry_sector(b, dc, off);
            let (t, ok) = s.wr(f, data);
            let k = off as int / 512;
            let old = fat_laws::data_of(s, b, dc);
            &&& ok
            &&& fat_laws::ready(t, b)
            &&& fat_laws::same_volume(s, t)
            &&& t.hint == s.hint
            &&& s.rd(f, 1) == Some(old.subrange(k * 512, k * 512 + 512))
            &&& old.len() == b.cb()
            &&& fat_laws::data_of(t, b, dc) == bytes::splice(old, k * 512, data)
            &&& forall|d: u32|
                fat_laws::valid(b, d) && d != dc ==> #[trigger] fat_laws::data_of(t, b, d)
                    == fat_laws::data_of(s, b, d)
            &&& forall|d: u32|
                fat_laws::valid(b, d) ==> #[trigger] fat_laws::entry(t, b, d) == fat_laws::entry(
                    s,
                    b,
                    d,
                )
        }),
{
    fat_laws::lemma_geo(b, 0, dc);
    let f = FatView::entry_sector(b, dc, off);
    let k = off as int / 512;
    assert(f == b.sector_of(dc) + k);
    assert(k < b.spc());
    assert(s.store.has(s.cur, b.sector_of(dc) as int, b.spc()));
    fat_laws::lemma_sector_len(s, b.sector_of(dc) as int, b.spc());
    let t = s.wr(f, data).0;
    fat_laws::lemma_wr(s, f, data, 0, 1);
    fat_laws::lemma_wr_ready(s, b, f, data);
    let old = fat_laws::data_of(s, b, dc);
    assert(s.store.get(s.cur, f as int, 1) =~= old.subrange(k * 512, k * 512 + 512));
    assert(fat_laws::data_of(t, b, dc) =~= bytes::splice(old, k * 512, data));
    assert forall|d: u32| fat_laws::valid(b, d) && d != dc implies #[trigger] fat_laws::data_of(
        t,
        b,
        d,
    ) == fat_laws::data_of(s, b, d) by {
        fat_laws::lemma_apart(b, dc, d);
        assert(s.store.has(s.cur, b.sector_of(d) as int, b.spc()));
        fat_laws::lemma_wr(s, f, data, b.sector_of(d), b.spc());
    }
    assert forall|d: u32| fat_laws::valid(b, d) implies #[trigger] fat_laws::entry(t, b, d)
        == fat_laws::entry(s, b, d) by {
        fat_laws::lemma_geo(b, 0, d);
        assert(0 <= (dc - 2) * b.spc()) by (nonlinear_arith)
            requires
                dc >= 2,
                b.spc() >= 0,
        ;
        assert(s.store.can(s.cur, b.fat_sector(0, d) as int, 1));
        fat_laws::lemma_wr(s, f, data, b.fat_sector(0, d), 1);
    }
}

/// What changing entry `i` of directory cluster `c` leaves: the cluster's bytes are `e` there,
/// and everything else is as it was.
pub open spec fn changed(s: FatView, t: FatView, b: Fat32Bpb, c: u32, i: int, e: Seq<u8>) -> bool {
    &&& fat_laws::ready(t, b)
    &&& fat_laws::same_volume(s, t)
    &&& t.hint == s.hint
    &&& fat_laws::data_of(t, b, c) == bytes::splice(fat_laws::data_of(s, b, c), i * 32, e)
    &&& forall|d: u32|
        fat_laws::valid(b, d) && d != c ==> #[trigger] fat_laws::data_of(t, b, d)
            == fat_laws::data_of(s, b, d)
    &&& forall|d: u32|
        fat_laws::valid(b, d) ==> #[trigger] fat_laws::entry(t, b, d) == fat_laws::entry(s, b, d)
}

/// An entry in a cluster that can be transferred can be.
proof fn lemma_entry_fits(s: FatView, b: Fat32Bpb, c: u32, i: int)
    requires
        fat_laws::good_geo(b),
        fat_laws::valid(b, c),
        0 <= i < slots(b),
        fat_laws::fit(s, b, c),
    ensures
        s.store.can(s.cur, FatView::entry_sector(b, c, (i * 32) as u32) as int, 1),
{
    fat_laws::lemma_geo(b, 0, c);
    let f = FatView::entry_sector(b, c, (i * 32) as u32);
    assert(f == b.sector_of(c) + i * 32 / 512);
    assert(i * 32 / 512 < b.spc());
}

/// A directory entry written.
proof fn lemma_write_entry(
    s: FatView,
    b: Fat32Bpb,
    c: u32,
    i: int,
    sn: Seq<u8>,
    attr: u8,
    start: u32,
    size: u32,
)
    requires
        fat_laws::good_geo(b),
        fat_laws::ready(s, b),
        fat_laws::valid(b, c),
        0 <= i < slots(b),
        sn.len() == 11,
        s.write_entry(b, c, (i * 32) as u32, sn, attr, start, size).1,
    ensures
        changed(
            s,
            s.write_entry(b, c, (i * 32) as u32, sn, attr, start, size).0,
            b,
            c,
            i,
            fat::entry_bytes(sn, attr, start, size),
        ),
{
    fat_laws::lemma_geo(b, 0, c);
    let off = (i * 32) as u32;
    let e = fat::entry_bytes(sn, attr, start, size);
    let old = fat_laws::data_of(s, b, c);
    let k = off as int / 512;
    assert(s.store.has(s.cur, b.sector_of(c) as int, b.spc()));
    fat_laws::lemma_sector_len(s, b.sector_of(c) as int, b.spc());
    let sec = old.subrange(k * 512, k * 512 + 512);
    let data = bytes::splice(sec, off as int % 512, e);
    lemma_sector(s, b, c, off, data);
    assert(e.len() == 32);
    assert(bytes::splice(old, k * 512, data) =~= bytes::splice(old, i * 32, e));
}

/// Whether entry `i` of a cluster can take a new name.
pub open spec fn is_unused(d: Seq<u8>, i: int) -> bool {
    d[i * 32] == 0xE5 || d[i * 32] == 0
}

/// The entries before `n` are in use.
pub open spec fn full(d: Seq<u8>, n: int) -> bool {
    forall|x: int| 0 <= x < n ==> !#[trigger] is_unused(d, x)
}

/// A search by short name in one cluster that ends at an entry with that name.
proof fn lemma_short_hit(d: Seq<u8>, c: u32, x: int, i: int, n: int, sn: Seq<u8>)
    requires
        0 <= x <= i < n,
        quiet(d, i, sn),
        is_named(d, i, sn),
    ensures
        fat_dir::scan_short(d, c, x, n, sn) == (true, Some(fat_dir::info_at(d, c, i))),
    decreases i - x,
{
    if x < i {
        assert(!stops(d, x, sn));
        lemma_short_hit(d, c, x + 1, i, n, sn);
    }
}

/// A search by short name in one cluster without such an entry.
proof fn lemma_short_miss(d: Seq<u8>, c: u32, x: int, n: int, sn: Seq<u8>)
    requires
        0 <= x <= n,
        forall|y: int| 0 <= y < n ==> !#[trigger] is_named(d, y, sn),
    ensures
        fat_dir::scan_short(d, c, x, n, sn).1 is None,
        quiet(d, n, sn) ==> !fat_dir::scan_short(d, c, x, n, sn).0,
    decreases n - x,
{
    if x < n {
        assert(!is_named(d, x, sn));
        if quiet(d, n, sn) {
            assert(!stops(d, x, sn));
        }
        lemma_short_miss(d, c, x + 1, n, sn);
    }
}

/// An entry found ends the search.
proof fn lemma_short_over(d: Seq<u8>, c: u32, x: int, n: int, sn: Seq<u8>)
    ensures
        fat_dir::scan_short(d, c, x, n, sn).1 is Some ==> fat_dir::scan_short(d, c, x, n, sn).0,
    decreases n - x,
{
    if x < n {
        lemma_short_over(d, c, x + 1, n, sn);
    }
}

/// What a search by short name that found nothing says of the entries in use before `m`.
proof fn lemma_short_none(d: Seq<u8>, c: u32, x: int, m: int, n: int, sn: Seq<u8>)
    requires
        0 <= x <= m <= n,
        full(d, m),
        fat_dir::scan_short(d, c, x, n, sn).1 is None,
    ensures
        forall|y: int| x <= y < m ==> !#[trigger] stops(d, y, sn),
        m == n ==> !fat_dir::scan_short(d, c, x, n, sn).0,
    decreases m - x,
{
    if x < m {
        assert(!is_unused(d, x));
        lemma_short_none(d, c, x + 1, m, n, sn);
        assert forall|y: int| x <= y < m implies !#[trigger] stops(d, y, sn) by {
            if y > x {
                assert(x + 1 <= y);
            }
        }
    }
}

/// A search by short name along the directory finds its first entry.
proof fn lemma_find_short(
    s: FatView,
    b: Fat32Bpb,
    ch: Seq<u32>,
    j: int,
    k: int,
    i: int,
    sn: Seq<u8>,
    fuel: nat,
)
    requires
        fat_laws::good_geo(b),
        fat_laws::ready(s, b),
        fat_laws::linked(s, b, ch),
        fat_laws::fits(s, b, ch),
        first(s, b, ch, k, i, sn),
        0 <= j <= k,
        fuel >= k - j,
    ensures
        s.find_short(b, ch[j], sn, fuel).1 == Some(
            fat_dir::info_at(fat_laws::data_of(s, b, ch[k]), ch[k], i),
        ),
    decreases k - j,
{
    let c = ch[j];
    assert(fat_laws::valid(b, c));
    assert(fat_laws::fit(s, b, c));
    let d = fat_laws::data_of(s, b, c);
    let n = slots(b);
    if j == k {
        lemma_short_hit(d, c, 0, i, n, sn);
    } else {
        assert forall|y: int| 0 <= y < n implies !#[trigger] is_named(d, y, sn) by {
            assert(!stops(d, y, sn));
        }
        lemma_short_miss(d, c, 0, n, sn);
        fat_laws::lemma_fat_get(s, b, c);
        let (t, next) = s.fat_get(b, c);
        assert(next == ch[j + 1]);
        assert(fat_laws::valid(b, ch[j + 1]));
        lemma_same(s, t, b, ch, k, i, sn);
        lemma_find_short(t, b, ch, j + 1, k, i, sn, (fuel - 1) as nat);
    }
}

/// A search by short name along a directory without such an entry.
proof fn lemma_find_none(s: FatView, b: Fat32Bpb, ch: Seq<u32>, j: int, sn: Seq<u8>, fuel: nat)
    requires
        fat_laws::good_geo(b),
        fat_laws::ready(s, b),
        fat_laws::linked(s, b, ch),
        absent(s, b, ch, sn),
        0 <= j < ch.len(),
    ensures
        s.find_short(b, ch[j], sn, fuel).1 is None,
    decreases ch.len() - j,
{
    let c = ch[j];
    assert(fat_laws::valid(b, c));
    let d = fat_laws::data_of(s, b, c);
    lemma_short_miss(d, c, 0, slots(b), sn);
    fat_laws::lemma_fat_get(s, b, c);
    let (t, next) = s.fat_get(b, c);
    if j + 1 < ch.len() {
        assert(next == ch[j + 1]);
        if fuel > 0 {
            lemma_same(s, t, b, ch, 0, 0, sn);
            lemma_find_none(t, b, ch, j + 1, sn, (fuel - 1) as nat);
        }
    } else {
        assert(c == ch.last());
    }
}

/// What a search by short name that found nothing says of the entries in use before entry `i`
/// of cluster `k`, where `k` may be the length of the chain.
proof fn lemma_find_said(
    s: FatView,
    b: Fat32Bpb,
    ch: Seq<u32>,
    j: int,
    k: int,
    i: int,
    sn: Seq<u8>,
    fuel: nat,
)
    requires
        fat_laws::good_geo(b),
        fat_laws::ready(s, b),
        fat_laws::linked(s, b, ch),
        fat_laws::fits(s, b, ch),
        0 <= j < ch.len(),
        j <= k <= ch.len(),
        0 <= i <= slots(b),
        fuel >= ch.len() - 1 - j,
        s.find_short(b, ch[j], sn, fuel).1 is None,
        forall|m: int| j <= m < k ==> full(fat_laws::data_of(s, b, #[trigger] ch[m]), slots(b)),
        k < ch.len() ==> full(fat_laws::data_of(s, b, ch[k]), i),
    ensures
        forall|m: int|
            j <= m < k ==> quiet(fat_laws::data_of(s, b, #[trigger] ch[m]), slots(b), sn),
        k < ch.len() ==> quiet(fat_laws::data_of(s, b, ch[k]), i, sn),
    decreases ch.len() - j,
{
    let c = ch[j];
    assert(fat_laws::valid(b, c));
    assert(fat_laws::fit(s, b, c));
    let d = fat_laws::data_of(s, b, c);
    let n = slots(b);
    lemma_short_over(d, c, 0, n, sn);
    if j == k {
        lemma_short_none(d, c, 0, i, n, sn);
    } else {
        assert(full(fat_laws::data_of(s, b, ch[j]), n));
        lemma_short_none(d, c, 0, n, n, sn);
        fat_laws::lemma_fat_get(s, b, c);
        let (t, next) = s.fat_get(b, c);
        if j + 1 < ch.len() {
            assert(next == ch[j + 1]);
            assert(fat_laws::valid(b, ch[j + 1]));
            lemma_same(s, t, b, ch, 0, 0, sn);
            lemma_find_said(t, b, ch, j + 1, k, i, sn, (fuel - 1) as nat);
        }
        assert forall|m: int| j <= m < k implies quiet(
            fat_laws::data_of(s, b, #[trigger] ch[m]),
            n,
            sn,
        ) by {
            if m > j {
                assert(quiet(fat_laws::data_of(t, b, ch[m]), n, sn));
            }
        }
    }
}

/// The first unused entry of a cluster.
proof fn lemma_unused(d: Seq<u8>, x: int, n: int)
    requires
        0 <= x <= n,
        full(d, x),
    ensures
        match FatView::unused_slot(d, x, n) {
            Some(i) => x <= i < n && is_unused(d, i) && full(d, i),
            None => full(d, n),
        },
    decreases n - x,
{
    if x < n && !is_unused(d, x) {
        assert(full(d, x + 1));
        lemma_unused(d, x + 1, n);
    }
}

/// Where a new entry goes: the first unused entry of the directory, as cluster and index; one
/// past the last cluster where every entry is in use.
proof fn lemma_dir_slot(s: FatView, b: Fat32Bpb, ch: Seq<u32>, j: int, fuel: nat) -> (r: (
    int,
    int,
    FatView,
))
    requires
        fat_laws::good_geo(b),
        fat_laws::ready(s, b),
        fat_laws::linked(s, b, ch),
        fat_laws::fits(s, b, ch),
        0 <= j < ch.len(),
        fuel >= ch.len() - 1 - j,
    ensures
        r.2 == (FatView { fat_buf: r.2.fat_buf, ..s }),
        j <= r.0 <= ch.len(),
        0 <= r.1 < slots(b),
        forall|m: int| j <= m < r.0 ==> full(fat_laws::data_of(s, b, #[trigger] ch[m]), slots(b)),
        r.0 < ch.len() ==> {
            &&& full(fat_laws::data_of(s, b, ch[r.0]), r.1)
            &&& is_unused(fat_laws::data_of(s, b, ch[r.0]), r.1)
            &&& s.dir_slot(b, ch[j], fuel) == (r.2, Some(((r.1 * 32) as u32, ch[r.0])))
        },
        r.0 == ch.len() ==> r.1 == 0 && s.dir_slot(b, ch[j], fuel) == r.2.grow_dir(b, ch.last()),
    decreases ch.len() - j,
{
    let c = ch[j];
    assert(fat_laws::valid(b, c));
    fat_laws::lemma_geo(b, 0, c);
    assert(fat_laws::fit(s, b, c));
    let d = fat_laws::data_of(s, b, c);
    let n = slots(b);
    lemma_unused(d, 0, n);
    match FatView::unused_slot(d, 0, n) {
        Some(i) => (j, i, s),
        None => {
            fat_laws::lemma_fat_get(s, b, c);
            let (t, next) = s.fat_get(b, c);
            if j + 1 < ch.len() {
                assert(next == ch[j + 1]);
                assert(fat_laws::valid(b, ch[j + 1]));
                lemma_same(s, t, b, ch, 0, 0, Seq::empty());
                let r = lemma_dir_slot(t, b, ch, j + 1, (fuel - 1) as nat);
                assert forall|m: int| j <= m < r.0 implies full(
                    fat_laws::data_of(s, b, #[trigger] ch[m]),
                    n,
                ) by {
                    if m > j {
                        assert(full(fat_laws::data_of(t, b, ch[m]), n));
                    }
                }
                r
            } else {
                assert(c == ch.last());
                (ch.len() as int, 0, t)
            }
        },
    }
}

/// A directory grown by a cleared cluster.
proof fn lemma_grow(s: FatView, b: Fat32Bpb, ch: Seq<u32>, off: u32, f: u32)
    requires
        fat_laws::good_geo(b),
        fat_laws::ready(s, b),
        fat_laws::good_hint(s, b),
        fat_laws::linked(s, b, ch),
        ch.len() > 0,
        s.grow_dir(b, ch.last()).1 == Some((off, f)),
    ensures
        off == 0,
        grown(s, s.grow_dir(b, ch.last()).0, b, ch, f),
{
    let st = s.search_start();
    fat_laws::lemma_search(s, b, st, st, 0xFFFF_FFFF);
    let (s0, free) = s.find_free(b);
    assert(free == Some(f));
    lemma_same(s, s0, b, ch, 0, 0, Seq::empty());
    assert(fat_laws::entry(s0, b, f) == 0);
    fat_laws::lemma_append(s0, b, ch, f);
    let s1 = s0.fat_set(b, ch.last(), f).0;
    let s2 = s1.fat_set(b, f, FAT_EOC).0;
    fat_laws::lemma_put_cluster(s2, b, f, bytes::zeros(b.cb()));
    let t = s2.put_cluster(b, f, bytes::zeros(b.cb())).0;
    fat_laws::lemma_fit(s2, t, b, f);
    let ch2 = ch.push(f);
    assert(ch2.last() == f);
    assert forall|i: int| 0 <= i < ch2.len() - 1 implies fat_laws::entry(t, b, #[trigger] ch2[i])
        == ch2[i + 1] by {
        assert(fat_laws::valid(b, ch2[i]));
        assert(fat_laws::entry(s2, b, ch2[i]) == ch2[i + 1]);
    }
    assert(fat_laws::valid(b, ch2[ch2.len() - 1]));
    assert(fat_laws::linked(t, b, ch2));
    assert forall|d: u32| fat_laws::valid(b, d) && d != f implies #[trigger] fat_laws::data_of(
        t,
        b,
        d,
    ) == fat_laws::data_of(s, b, d) by {
        assert(fat_laws::data_of(s2, b, d) == fat_laws::data_of(s0, b, d));
    }
    assert forall|d: u32|
        fat_laws::valid(b, d) && fat_laws::entry(s, b, d) != 0 && !ch.contains(
            d,
        ) implies #[trigger] fat_laws::entry(t, b, d) == fat_laws::entry(s, b, d) by {
        assert(fat_laws::entry(s0, b, d) == fat_laws::entry(s, b, d));
        assert(fat_laws::entry(s2, b, d) == fat_laws::entry(s0, b, d));
    }
}

/// What a directory grown by the cluster `f` leaves.
pub open spec fn grown(s: FatView, t: FatView, b: Fat32Bpb, ch: Seq<u32>, f: u32) -> bool {
    &&& fat_laws::ready(t, b)
    &&& fat_laws::same_volume(s, t)
    &&& fat_laws::fit(t, b, f)
    &&& fat_laws::valid(b, f)
    &&& fat_laws::entry(s, b, f) == 0
    &&& fat_laws::linked(t, b, ch.push(f))
    &&& fat_laws::data_of(t, b, f) == bytes::zeros(b.cb())
    &&& forall|d: u32|
        fat_laws::valid(b, d) && d != f ==> #[trigger] fat_laws::data_of(t, b, d)
            == fat_laws::data_of(s, b, d)
    &&& forall|d: u32|
        fat_laws::valid(b, d) && fat_laws::entry(s, b, d) != 0 && !ch.contains(d)
            ==> #[trigger] fat_laws::entry(t, b, d) == fat_laws::entry(s, b, d)
}

/// A written entry reads back.
proof fn lemma_entry_reads(
    old: Seq<u8>,
    i: int,
    n: int,
    c: u32,
    sn: Seq<u8>,
    attr: u8,
    start: u32,
    size: u32,
)
    requires
        0 <= i < n,
        n * 32 <= old.len(),
        n * 32 <= 0xFFFF_FFFF,
        plain(sn),
        attr == 0 || attr == fat::ATTR_DIRECTORY,
        quiet(old, i, sn),
    ensures
        ({
            let d = bytes::splice(old, i * 32, fat::entry_bytes(sn, attr, start, size));
            &&& is_named(d, i, sn)
            &&& quiet(d, i, sn)
            &&& fat_dir::info_at(d, c, i) == (DirEntryInfo {
                start_cluster: start,
                file_size: size,
                attr,
                dir_cluster: c,
                entry_offset: (i * 32) as u32,
            })
        }),
{
    let e = fat::entry_bytes(sn, attr, start, size);
    let d = bytes::splice(old, i * 32, e);
    let o = i * 32;
    assert(0u8 & 0x0F == 0 && 0u8 & 0x08 == 0 && 0x10u8 & 0x0F == 0 && 0x10u8 & 0x08 == 0)
        by (bit_vector);
    assert(e.len() == 32);
    assert(d.subrange(o, o + 11) =~= sn);
    assert(d[o] == d.subrange(o, o + 11)[0]);
    assert(d[o + 11] == e[11]);
    assert forall|x: int| 0 <= x < i implies !#[trigger] stops(d, x, sn) by {
        assert(!stops(old, x, sn));
        assert(d.subrange(x * 32, x * 32 + 11) =~= old.subrange(x * 32, x * 32 + 11));
    }
    let hi = bytes::bytes16((start / 0x1_0000) as u16);
    let lo = bytes::bytes16((start % 0x1_0000) as u16);
    let sz = bytes::bytes32(size);
    assert(d.subrange(o + 20, o + 22) =~= hi);
    assert(d.subrange(o + 26, o + 28) =~= lo);
    assert(d.subrange(o + 28, o + 32) =~= sz);
    assert(d[o + 20] == hi[0] && d[o + 21] == hi[1]);
    assert(d[o + 26] == lo[0] && d[o + 27] == lo[1]);
    assert(d[o + 28] == sz[0] && d[o + 29] == sz[1] && d[o + 30] == sz[2] && d[o + 31] == sz[3]);
}

/// What a new entry leaves: the directory's chain is `ch2`, its first entry with the short
/// name `sn` is entry `i` of cluster `k`, and clusters in use outside the directory are as they
/// were.
pub open spec fn placed(
    s: FatView,
    t: FatView,
    b: Fat32Bpb,
    ch: Seq<u32>,
    ch2: Seq<u32>,
    k: int,
    i: int,
    sn: Seq<u8>,
) -> bool {
    &&& fat_laws::ready(t, b)
    &&& fat_laws::same_volume(s, t)
    &&& fat_laws::linked(t, b, ch2)
    &&& fat_laws::fits(t, b, ch2)
    &&& ch.len() <= ch2.len() <= ch.len() + 1
    &&& ch2.subrange(0, ch.len() as int) == ch
    &&& ch.len() < ch2.len() ==> fat_laws::entry(s, b, ch2.last()) == 0
    &&& first(t, b, ch2, k, i, sn)
    &&& forall|d: u32|
        fat_laws::valid(b, d) && fat_laws::entry(s, b, d) != 0 && !ch.contains(d)
            ==> #[trigger] fat_laws::entry(t, b, d) == fat_laws::entry(s, b, d)
    &&& forall|d: u32|
        fat_laws::valid(b, d) && fat_laws::entry(s, b, d) != 0 && !ch.contains(d)
            ==> #[trigger] fat_laws::data_of(t, b, d) == fat_laws::data_of(s, b, d)
}

/// The first entry after a write before which no search stops.
proof fn lemma_first(
    s: FatView,
    t: FatView,
    b: Fat32Bpb,
    ch: Seq<u32>,
    k: int,
    i: int,
    sn: Seq<u8>,
    attr: u8,
    start: u32,
    size: u32,
)
    requires
        fat_laws::good_geo(b),
        fat_laws::ready(s, b),
        fat_laws::linked(s, b, ch),
        0 <= k < ch.len(),
        0 <= i < slots(b),
        plain(sn),
        attr == 0 || attr == fat::ATTR_DIRECTORY,
        forall|m: int|
            0 <= m < k ==> quiet(fat_laws::data_of(s, b, #[trigger] ch[m]), slots(b), sn),
        quiet(fat_laws::data_of(s, b, ch[k]), i, sn),
        changed(s, t, b, ch[k], i, fat::entry_bytes(sn, attr, start, size)),
    ensures
        first(t, b, ch, k, i, sn),
        fat_laws::linked(t, b, ch),
        fat_dir::info_at(fat_laws::data_of(t, b, ch[k]), ch[k], i) == (DirEntryInfo {
            start_cluster: start,
            file_size: size,
            attr,
            dir_cluster: ch[k],
            entry_offset: (i * 32) as u32,
        }),
{
    assert(fat_laws::valid(b, ch[k]));
    assert(s.store.has(s.cur, b.sector_of(ch[k]) as int, b.spc()));
    fat_laws::lemma_sector_len(s, b.sector_of(ch[k]) as int, b.spc());
    let old = fat_laws::data_of(s, b, ch[k]);
    lemma_entry_reads(old, i, slots(b), ch[k], sn, attr, start, size);
    assert forall|m: int| 0 <= m < k implies quiet(
        fat_laws::data_of(t, b, #[trigger] ch[m]),
        slots(b),
        sn,
    ) by {
        assert(fat_laws::valid(b, ch[m]));
        assert(ch[m] != ch[k]);
        assert(quiet(fat_laws::data_of(s, b, ch[m]), slots(b), sn));
    }
    assert forall|m: int| 0 <= m < ch.len() - 1 implies fat_laws::entry(t, b, #[trigger] ch[m])
        == ch[m + 1] by {
        assert(fat_laws::valid(b, ch[m]));
        assert(fat_laws::entry(s, b, ch[m]) == ch[m + 1]);
    }
    assert(fat_laws::valid(b, ch[ch.len() - 1]));
}

/// A place found in state `u` for a name that was not found in state `s`, with the same
/// directory, and the entry written there.
#[verifier::spinoff_prover]
#[verifier::rlimit(60)]
proof fn lemma_placed(
    s: FatView,
    u: FatView,
    b: Fat32Bpb,
    ch: Seq<u32>,
    off: u32,
    dc: u32,
    sn: Seq<u8>,
    attr: u8,
    start: u32,
    size: u32,
) -> (r: (Seq<u32>, int, int))
    requires
        fat_laws::good_geo(b),
        fat_laws::ready(s, b),
        fat_laws::ready(u, b),
        fat_laws::good_hint(u, b),
        fat_laws::linked(s, b, ch),
        fat_laws::linked(u, b, ch),
        fat_laws::fits(s, b, ch),
        fat_laws::same_volume(s, u),
        0 < ch.len() < FAT_WALK_MAX,
        forall|m: int|
            0 <= m < ch.len() ==> fat_laws::data_of(u, b, #[trigger] ch[m]) == fat_laws::data_of(
                s,
                b,
                ch[m],
            ),
        plain(sn),
        attr == 0 || attr == fat::ATTR_DIRECTORY,
        s.find_short(b, ch[0], sn, FAT_WALK_MAX as nat).1 is None,
        u.dir_slot(b, ch[0], FAT_WALK_MAX as nat).1 == Some((off, dc)),
        u.dir_slot(b, ch[0], FAT_WALK_MAX as nat).0.write_entry(
            b,
            dc,
            off,
            sn,
            attr,
            start,
            size,
        ).1,
    ensures
        ({
            let v = u.dir_slot(b, ch[0], FAT_WALK_MAX as nat).0;
            let t = v.write_entry(b, dc, off, sn, attr, start, size).0;
            let (ch2, k, i) = r;
            &&& placed(u, t, b, ch, ch2, k, i, sn)
            &&& fat_dir::info_at(fat_laws::data_of(t, b, ch2[k]), ch2[k], i) == (DirEntryInfo {
                start_cluster: start,
                file_size: size,
                attr,
                dir_cluster: dc,
                entry_offset: off,
            })
        }),
{
    let (v, _) = u.dir_slot(b, ch[0], FAT_WALK_MAX as nat);
    fat_laws::lemma_fits(s, u, b, ch);
    let (k, i, w) = lemma_dir_slot(u, b, ch, 0, FAT_WALK_MAX as nat);
    let n = slots(b);
    assert(fat_laws::valid(b, ch[0]));
    fat_laws::lemma_geo(b, 0, ch[0]);
    assert forall|m: int| 0 <= m < k implies full(
        fat_laws::data_of(s, b, #[trigger] ch[m]),
        n,
    ) by {
        assert(full(fat_laws::data_of(u, b, ch[m]), n));
    }
    lemma_find_said(s, b, ch, 0, k, i, sn, FAT_WALK_MAX as nat);
    assert forall|m: int| 0 <= m < k implies quiet(
        fat_laws::data_of(u, b, #[trigger] ch[m]),
        n,
        sn,
    ) by {
        assert(quiet(fat_laws::data_of(s, b, ch[m]), n, sn));
    }
    let e = fat::entry_bytes(sn, attr, start, size);
    lemma_same(u, w, b, ch, 0, 0, sn);
    if k < ch.len() {
        assert(v == w && off == i * 32 && dc == ch[k]);
        assert(fat_laws::valid(b, ch[k]));
        assert(fat_laws::ready(v, b));
        lemma_write_entry(v, b, dc, i, sn, attr, start, size);
        let t = v.write_entry(b, dc, off, sn, attr, start, size).0;
        assert forall|m: int| 0 <= m < k implies quiet(
            fat_laws::data_of(v, b, #[trigger] ch[m]),
            n,
            sn,
        ) by {
            assert(quiet(fat_laws::data_of(u, b, ch[m]), n, sn));
        }
        lemma_first(v, t, b, ch, k, i, sn, attr, start, size);
        fat_laws::lemma_fits(u, t, b, ch);
        assert(ch.subrange(0, ch.len() as int) =~= ch);
        assert forall|d: u32|
            fat_laws::valid(b, d) && fat_laws::entry(u, b, d) != 0 && !ch.contains(
                d,
            ) implies #[trigger] fat_laws::data_of(t, b, d) == fat_laws::data_of(u, b, d) by {
            assert(ch.contains(ch[k]));
            assert(fat_laws::data_of(v, b, d) == fat_laws::data_of(u, b, d));
        }
        (ch, k, i)
    } else {
        assert(fat_laws::ready(w, b));
        lemma_grow(w, b, ch, off, dc);
        let ch2 = ch.push(dc);
        assert(fat_laws::entry(u, b, dc) == 0);
        assert forall|m: int| 0 <= m < ch.len() implies ch[m] != dc by {
            assert(fat_laws::valid(b, ch[m]));
            if m < ch.len() - 1 {
                assert(fat_laws::entry(u, b, ch[m]) == ch[m + 1]);
                assert(fat_laws::valid(b, ch[m + 1]));
            } else {
                assert(ch[m] == ch.last());
            }
        }
        lemma_write_entry(v, b, dc, 0, sn, attr, start, size);
        let t = v.write_entry(b, dc, off, sn, attr, start, size).0;
        assert(ch2[k] == dc);
        assert forall|m: int| 0 <= m < k implies quiet(
            fat_laws::data_of(v, b, #[trigger] ch2[m]),
            n,
            sn,
        ) by {
            assert(ch2[m] == ch[m]);
            assert(fat_laws::valid(b, ch[m]));
            assert(fat_laws::data_of(w, b, ch[m]) == fat_laws::data_of(u, b, ch[m]));
            assert(quiet(fat_laws::data_of(u, b, ch[m]), n, sn));
        }
        lemma_first(v, t, b, ch2, k, 0, sn, attr, start, size);
        fat_laws::lemma_fits(u, v, b, ch);
        assert forall|m: int| 0 <= m < ch2.len() implies fat_laws::fit(v, b, #[trigger] ch2[m]) by {
            if m < ch.len() {
                assert(ch2[m] == ch[m]);
            }
        }
        fat_laws::lemma_fits(v, t, b, ch2);
        assert(ch2.subrange(0, ch.len() as int) =~= ch);
        assert forall|d: u32|
            fat_laws::valid(b, d) && fat_laws::entry(u, b, d) != 0 && !ch.contains(
                d,
            ) implies #[trigger] fat_laws::data_of(t, b, d) == fat_laws::data_of(u, b, d) by {
            assert(d != dc);
            assert(fat_laws::data_of(v, b, d) == fat_laws::data_of(w, b, d));
        }
        assert forall|d: u32|
            fat_laws::valid(b, d) && fat_laws::entry(u, b, d) != 0 && !ch.contains(
                d,
            ) implies #[trigger] fat_laws::entry(t, b, d) == fat_laws::entry(u, b, d) by {
            assert(fat_laws::entry(w, b, d) == fat_laws::entry(u, b, d));
            assert(fat_laws::entry(v, b, d) == fat_laws::entry(w, b, d));
        }
        (ch2, k, 0)
    }
}

/// Law: a file created under a name that no entry had is found under it, empty, and no cluster
/// in use outside the directory changes.
pub proof fn law_made_is_found(
    s: FatView,
    b: Fat32Bpb,
    dir: u32,
    ch: Seq<u32>,
    name: Seq<u8>,
    sn: Seq<u8>,
    off: u32,
    dc: u32,
)
    requires
        fat_laws::good_geo(b),
        fat_laws::ready(s, b),
        fat_laws::good_hint(s, b),
        dir_ok(s, b, dir, ch),
        crate::fat_name::short_name(name) == Some(sn),
        plain(sn),
        s.find_short(b, dir, sn, FAT_WALK_MAX as nat).1 is None,
        s.make_file(b, dir, sn).1 == Some((off, dc)),
    ensures
        ({
            let t = s.make_file(b, dir, sn).0;
            let made = DirEntryInfo {
                start_cluster: 0,
                file_size: 0,
                attr: 0,
                dir_cluster: dc,
                entry_offset: off,
            };
            &&& t.find_short(b, dir, sn, FAT_WALK_MAX as nat).1 == Some(made)
            &&& t.find(b, dir, name).1 == Some(made)
            &&& exists|ch2: Seq<u32>, k: int, i: int| #[trigger] placed(s, t, b, ch, ch2, k, i, sn)
        }),
{
    let (ch2, k, i) = lemma_placed(s, s, b, ch, off, dc, sn, 0, 0, 0);
    let t = s.make_file(b, dir, sn).0;
    assert(placed(s, t, b, ch, ch2, k, i, sn));
    assert(ch2[0] == ch2.subrange(0, ch.len() as int)[0]);
    lemma_find_short(t, b, ch2, 0, k, i, sn, FAT_WALK_MAX as nat);
    lemma_find(t, b, ch2, 0, k, i, sn, name, LfnView::empty(), None, FAT_WALK_MAX as nat);
}

/// A new directory cluster has two entries.
proof fn lemma_two(z: Seq<u8>, f: u32, parent: u32, n: int)
    requires
        n >= 3,
        z == bytes::zeros(n * 32),
    ensures
        ({
            let d1 = bytes::splice(
                z,
                0,
                fat::entry_bytes(fat_srv::dot_name(), fat::ATTR_DIRECTORY, f, 0),
            );
            let d = bytes::splice(
                d1,
                32,
                fat::entry_bytes(fat_srv::dotdot_name(), fat::ATTR_DIRECTORY, parent, 0),
            );
            fat_dir::scan_count(d, 0, n, 0) == (true, 2int)
        }),
{
    assert(0x10u8 & 0x0F == 0 && 0x10u8 & 0x08 == 0) by (bit_vector);
    let e1 = fat::entry_bytes(fat_srv::dot_name(), fat::ATTR_DIRECTORY, f, 0);
    let e2 = fat::entry_bytes(fat_srv::dotdot_name(), fat::ATTR_DIRECTORY, parent, 0);
    let d1 = bytes::splice(z, 0, e1);
    let d = bytes::splice(d1, 32, e2);
    assert(e1.len() == 32 && e2.len() == 32);
    assert(e1[0] == 0x2E && e1[11] == 0x10 && e2[0] == 0x2E && e2[11] == 0x10);
    assert(d[0] == 0x2E && d[11] == 0x10 && d[32] == 0x2E && d[43] == 0x10 && d[64] == 0);
    reveal_with_fuel(fat_dir::scan_count, 4);
}

/// What changes nothing but the cluster `f` and its entry.
pub open spec fn but(s: FatView, t: FatView, b: Fat32Bpb, f: u32) -> bool {
    &&& fat_laws::ready(t, b)
    &&& fat_laws::same_volume(s, t)
    &&& t.hint == s.hint
    &&& forall|d: u32|
        fat_laws::valid(b, d) && d != f ==> #[trigger] fat_laws::data_of(t, b, d)
            == fat_laws::data_of(s, b, d)
    &&& forall|d: u32|
        fat_laws::valid(b, d) && d != f ==> #[trigger] fat_laws::entry(t, b, d) == fat_laws::entry(
            s,
            b,
            d,
        )
}

/// One change of a cluster after another.
proof fn lemma_but(s: FatView, t: FatView, u: FatView, b: Fat32Bpb, f: u32)
    requires
        but(s, t, b, f),
        but(t, u, b, f),
    ensures
        but(s, u, b, f),
{
    assert forall|d: u32| fat_laws::valid(b, d) && d != f implies #[trigger] fat_laws::data_of(
        u,
        b,
        d,
    ) == fat_laws::data_of(s, b, d) by {
        assert(fat_laws::data_of(t, b, d) == fat_laws::data_of(s, b, d));
    }
    assert forall|d: u32| fat_laws::valid(b, d) && d != f implies #[trigger] fat_laws::entry(
        u,
        b,
        d,
    ) == fat_laws::entry(s, b, d) by {
        assert(fat_laws::entry(t, b, d) == fat_laws::entry(s, b, d));
    }
}

/// A cluster taken and cleared.
proof fn lemma_new_cluster(s: FatView, b: Fat32Bpb, f: u32)
    requires
        fat_laws::good_geo(b),
        fat_laws::ready(s, b),
        fat_laws::valid(b, f),
        s.fat_set(b, f, FAT_EOC).0.put_cluster(b, f, bytes::zeros(b.cb())).1,
    ensures
        ({
            let s1 = s.fat_set(b, f, FAT_EOC).0;
            let s2 = s1.put_cluster(b, f, bytes::zeros(b.cb())).0;
            &&& fat_laws::fit(s2, b, f)
            &&& but(s, s2, b, f)
            &&& fat_laws::entry(s2, b, f) >= FAT_EOC_MIN
            &&& fat_laws::data_of(s2, b, f) == bytes::zeros(b.cb())
        }),
{
    fat_laws::law_fat_set(s, b, f, FAT_EOC);
    fat_laws::lemma_mask(0, FAT_EOC);
    let s1 = s.fat_set(b, f, FAT_EOC).0;
    let z = bytes::zeros(b.cb());
    fat_laws::lemma_put_cluster(s1, b, f, z);
    let s2 = s1.put_cluster(b, f, z).0;
    fat_laws::lemma_fit(s1, s2, b, f);
    lemma_but(s, s1, s2, b, f);
}

/// The bytes of a new directory that starts with cluster `own`, in the one that starts with `up`: the
/// entries `.` and `..`, both directories, which name the one and the other; nothing follows.
pub open spec fn dots(d: Seq<u8>, own: u32, up: u32) -> bool {
    &&& d[0] == 0x2E
    &&& forall|k: int| 1 <= k < 11 ==> #[trigger] d[k] == 0x20
    &&& d[11] == 0x10
    &&& bytes::le16(d, 26) + 0x1_0000 * bytes::le16(d, 20) == own
    &&& d[32] == 0x2E && d[33] == 0x2E
    &&& forall|k: int| 34 <= k < 43 ==> #[trigger] d[k] == 0x20
    &&& d[43] == 0x10
    &&& bytes::le16(d, 58) + 0x1_0000 * bytes::le16(d, 52) == up
    &&& forall|k: int| 64 <= k < d.len() ==> #[trigger] d[k] == 0
}

/// The bytes of an entry.
proof fn lemma_entry_bytes(sn: Seq<u8>, attr: u8, start: u32, size: u32)
    requires
        sn.len() == 11,
    ensures
        ({
            let e = fat::entry_bytes(sn, attr, start, size);
            &&& e.len() == 32
            &&& forall|k: int| 0 <= k < 11 ==> #[trigger] e[k] == sn[k]
            &&& e[11] == attr
            &&& bytes::le16(e, 26) + 0x1_0000 * bytes::le16(e, 20) == start
            &&& bytes::le32(e, 28) == size
        }),
{
    let e = fat::entry_bytes(sn, attr, start, size);
    let hi = bytes::bytes16((start / 0x1_0000) as u16);
    let lo = bytes::bytes16((start % 0x1_0000) as u16);
    assert(e[20] == hi[0] && e[21] == hi[1] && e[26] == lo[0] && e[27] == lo[1]);
    let z = bytes::bytes32(size);
    assert(e[28] == z[0] && e[29] == z[1] && e[30] == z[2] && e[31] == z[3]);
}

/// `.` and `..` in a cluster.
proof fn lemma_dots(n: int, own: u32, up: u32)
    requires
        n >= 64,
    ensures
        dots(
            bytes::splice(
                bytes::splice(
                    bytes::zeros(n),
                    0,
                    fat::entry_bytes(fat_srv::dot_name(), fat::ATTR_DIRECTORY, own, 0),
                ),
                32,
                fat::entry_bytes(fat_srv::dotdot_name(), fat::ATTR_DIRECTORY, up, 0),
            ),
            own,
            up,
        ),
{
    let a = fat::entry_bytes(fat_srv::dot_name(), fat::ATTR_DIRECTORY, own, 0);
    let c = fat::entry_bytes(fat_srv::dotdot_name(), fat::ATTR_DIRECTORY, up, 0);
    lemma_entry_bytes(fat_srv::dot_name(), fat::ATTR_DIRECTORY, own, 0);
    lemma_entry_bytes(fat_srv::dotdot_name(), fat::ATTR_DIRECTORY, up, 0);
    let d = bytes::splice(bytes::splice(bytes::zeros(n), 0, a), 32, c);
    assert forall|k: int| 0 <= k < 32 implies #[trigger] d[k] == a[k] by {}
    assert forall|k: int| 32 <= k < 64 implies #[trigger] d[k] == c[k - 32] by {}
    assert(d[26] == a[26] && d[27] == a[27] && d[20] == a[20] && d[21] == a[21]);
    assert(d[58] == c[26] && d[59] == c[27] && d[52] == c[20] && d[53] == c[21]);
}

/// `.` and `..` written to a cleared cluster.
proof fn lemma_new_entries(s: FatView, b: Fat32Bpb, f: u32, parent: u32)
    requires
        fat_laws::good_geo(b),
        fat_laws::ready(s, b),
        fat_laws::valid(b, f),
        fat_laws::data_of(s, b, f) == bytes::zeros(b.cb()),
        fat_laws::fit(s, b, f),
    ensures
        ({
            let (s1, ok1) = s.write_entry(
                b,
                f,
                0,
                fat_srv::dot_name(),
                fat::ATTR_DIRECTORY,
                f,
                0,
            );
            let (s2, ok2) = s1.write_entry(
                b,
                f,
                32,
                fat_srv::dotdot_name(),
                fat::ATTR_DIRECTORY,
                parent,
                0,
            );
            &&& ok1 && ok2
            &&& but(s, s2, b, f)
            &&& fat_laws::entry(s2, b, f) == fat_laws::entry(s, b, f)
            &&& fat_dir::scan_count(fat_laws::data_of(s2, b, f), 0, slots(b), 0) == (true, 2int)
            &&& dots(fat_laws::data_of(s2, b, f), f, parent)
        }),
{
    fat_laws::lemma_geo(b, 0, f);
    lemma_dots(b.cb(), f, parent);
    lemma_entry_fits(s, b, f, 0);
    lemma_write_entry(s, b, f, 0, fat_srv::dot_name(), fat::ATTR_DIRECTORY, f, 0);
    let s1 = s.write_entry(b, f, 0, fat_srv::dot_name(), fat::ATTR_DIRECTORY, f, 0).0;
    fat_laws::lemma_fit(s, s1, b, f);
    lemma_entry_fits(s1, b, f, 1);
    lemma_write_entry(s1, b, f, 1, fat_srv::dotdot_name(), fat::ATTR_DIRECTORY, parent, 0);
    let s2 = s1.write_entry(b, f, 32, fat_srv::dotdot_name(), fat::ATTR_DIRECTORY, parent, 0).0;
    lemma_two(bytes::zeros(b.cb()), f, parent, slots(b));
    lemma_but(s, s1, s2, b, f);
}

/// A chain without the cluster `f` outlives a change of it.
proof fn lemma_but_linked(s: FatView, t: FatView, b: Fat32Bpb, ch: Seq<u32>, f: u32)
    requires
        fat_laws::linked(s, b, ch),
        fat_laws::entry(s, b, f) == 0,
        but(s, t, b, f),
    ensures
        fat_laws::linked(t, b, ch),
        !ch.contains(f),
{
    assert forall|m: int| 0 <= m < ch.len() implies ch[m] != f by {
        assert(fat_laws::valid(b, ch[m]));
        if m < ch.len() - 1 {
            assert(fat_laws::entry(s, b, ch[m]) == ch[m + 1]);
            assert(fat_laws::valid(b, ch[m + 1]));
        } else {
            assert(ch[m] == ch.last());
        }
    }
    assert forall|m: int| 0 <= m < ch.len() - 1 implies fat_laws::entry(t, b, #[trigger] ch[m])
        == ch[m + 1] by {
        assert(fat_laws::valid(b, ch[m]));
        assert(fat_laws::entry(s, b, ch[m]) == ch[m + 1]);
    }
    if ch.len() > 0 {
        assert(fat_laws::valid(b, ch[ch.len() - 1]));
        assert(fat_laws::entry(t, b, ch.last()) == fat_laws::entry(s, b, ch.last()));
    }
}

/// Law: a directory created under a name that no entry had is found under it, and it is empty:
/// it holds `.` and `..` alone, which name it and the directory it is in, in a cluster that was free.
pub proof fn law_made_directory(
    s: FatView,
    b: Fat32Bpb,
    dir: u32,
    ch: Seq<u32>,
    name: Seq<u8>,
    sn: Seq<u8>,
)
    requires
        fat_laws::good_geo(b),
        fat_laws::ready(s, b),
        fat_laws::good_hint(s, b),
        dir_ok(s, b, dir, ch),
        crate::fat_name::short_name(name) == Some(sn),
        plain(sn),
        s.find_short(b, dir, sn, FAT_WALK_MAX as nat).1 is None,
        s.make_dir(b, dir, sn).1,
    ensures
        ({
            let t = s.make_dir(b, dir, sn).0;
            let found = t.find(b, dir, name).1;
            &&& found == t.find_short(b, dir, sn, FAT_WALK_MAX as nat).1
            &&& found matches Some(e) && e.is_dir() && e.file_size == 0 && fat_laws::valid(
                b,
                e.start_cluster,
            ) && fat_laws::entry(s, b, e.start_cluster) == 0 && t.at_most_two(
                b,
                e.start_cluster,
                0,
                FAT_WALK_MAX as nat,
            ).1 && dots(fat_laws::data_of(t, b, e.start_cluster), e.start_cluster, dir)
        }),
{
    let f = s.find_free(b).1->Some_0;
    let st = s.search_start();
    fat_laws::lemma_search(s, b, st, st, 0xFFFF_FFFF);
    let s0 = s.find_free(b).0;
    lemma_same(s, s0, b, ch, 0, 0, sn);
    lemma_new_cluster(s0, b, f);
    let s1 = s0.fat_set(b, f, FAT_EOC).0;
    let s2 = s1.put_cluster(b, f, bytes::zeros(b.cb())).0;
    lemma_new_entries(s2, b, f, dir);
    let s3 = s2.write_entry(b, f, 0, fat_srv::dot_name(), fat::ATTR_DIRECTORY, f, 0).0;
    let u = s3.write_entry(b, f, 32, fat_srv::dotdot_name(), fat::ATTR_DIRECTORY, dir, 0).0;
    lemma_but(s0, s2, u, b, f);
    assert(fat_laws::entry(s0, b, f) == 0);
    lemma_but_linked(s0, u, b, ch, f);
    let (v, slot) = u.dir_slot(b, dir, FAT_WALK_MAX as nat);
    let (off, dc) = slot->Some_0;
    assert forall|m: int| 0 <= m < ch.len() implies fat_laws::data_of(u, b, #[trigger] ch[m])
        == fat_laws::data_of(s, b, ch[m]) by {
        assert(fat_laws::valid(b, ch[m]));
        assert(ch.contains(ch[m]));
        assert(fat_laws::data_of(s0, b, ch[m]) == fat_laws::data_of(s, b, ch[m]));
    }
    let (ch2, k, i) = lemma_placed(s, u, b, ch, off, dc, sn, fat::ATTR_DIRECTORY, f, 0);
    let t = s.make_dir(b, dir, sn).0;
    assert(ch2[0] == ch2.subrange(0, ch.len() as int)[0]);
    lemma_find_short(t, b, ch2, 0, k, i, sn, FAT_WALK_MAX as nat);
    lemma_find(t, b, ch2, 0, k, i, sn, name, LfnView::empty(), None, FAT_WALK_MAX as nat);
    assert(0x10u8 & 0x10 == 0x10) by (bit_vector);
    assert(fat_laws::data_of(t, b, f) == fat_laws::data_of(u, b, f));
    fat_laws::lemma_fit(s2, t, b, f);
}

/// What releasing a chain leaves: its entries are 0, every other entry and every cluster is as
/// it was.
pub open spec fn released(s: FatView, t: FatView, b: Fat32Bpb, ch: Seq<u32>) -> bool {
    &&& fat_laws::ready(t, b)
    &&& fat_laws::same_volume(s, t)
    &&& forall|j: int| 0 <= j < ch.len() ==> fat_laws::entry(t, b, #[trigger] ch[j]) == 0
    &&& forall|d: u32|
        fat_laws::valid(b, d) && !ch.contains(d) ==> #[trigger] fat_laws::entry(t, b, d)
            == fat_laws::entry(s, b, d)
    &&& forall|d: u32|
        fat_laws::valid(b, d) ==> #[trigger] fat_laws::data_of(t, b, d) == fat_laws::data_of(
            s,
            b,
            d,
        )
}

/// The chain from its cluster `j` on released.
#[verifier::spinoff_prover]
#[verifier::rlimit(80)]
proof fn lemma_release(s: FatView, b: Fat32Bpb, ch: Seq<u32>, steps: int)
    requires
        fat_laws::good_geo(b),
        fat_laws::ready(s, b),
        fat_laws::linked(s, b, ch),
        0 <= steps,
        0 < ch.len() <= 4096 - steps,
    ensures
        s.free_chain(b, ch[0], steps).1,
        released(s, s.free_chain(b, ch[0], steps).0, b, ch),
    decreases ch.len(),
{
    let c = ch[0];
    assert(fat_laws::valid(b, c));
    fat_laws::lemma_fat_get(s, b, c);
    let (u, next) = s.fat_get(b, c);
    fat_laws::law_fat_set(u, b, c, 0);
    fat_laws::lemma_mask(0, 0);
    let v = u.fat_set(b, c, 0).0;
    let t = s.free_chain(b, c, steps).0;
    let rest = ch.subrange(1, ch.len() as int);
    assert forall|d: u32| fat_laws::valid(b, d) && d != c implies #[trigger] fat_laws::entry(
        v,
        b,
        d,
    ) == fat_laws::entry(s, b, d) by {
        assert(fat_laws::entry(u, b, d) == fat_laws::entry(s, b, d));
    }
    assert forall|d: u32| fat_laws::valid(b, d) implies #[trigger] fat_laws::data_of(v, b, d)
        == fat_laws::data_of(s, b, d) by {
        assert(fat_laws::data_of(u, b, d) == fat_laws::data_of(s, b, d));
    }
    if ch.len() == 1 {
        assert(c == ch.last());
        assert(v.free_chain(b, next, steps + 1) == (v, true));
        assert forall|d: u32| fat_laws::valid(b, d) && !ch.contains(d) implies #[trigger] fat_laws::entry(
            t,
            b,
            d,
        ) == fat_laws::entry(s, b, d) by {
            assert(ch.contains(ch[0]));
        }
    } else {
        assert(next == ch[1]);
        assert(fat_laws::valid(b, ch[1]));
        assert forall|i: int| 0 <= i < rest.len() - 1 implies fat_laws::entry(v, b, #[trigger] rest[i])
            == rest[i + 1] by {
            assert(rest[i] == ch[i + 1]);
            assert(fat_laws::valid(b, ch[i + 1]));
            assert(fat_laws::entry(s, b, ch[i + 1]) == ch[i + 2]);
        }
        assert(rest.last() == ch.last());
        assert(fat_laws::valid(b, ch[ch.len() - 1]));
        assert(fat_laws::linked(v, b, rest));
        lemma_release(v, b, rest, steps + 1);
        assert forall|j: int| 0 <= j < ch.len() implies fat_laws::entry(t, b, #[trigger] ch[j])
            == 0 by {
            if j > 0 {
                assert(ch[j] == rest[j - 1]);
            } else {
                assert(!rest.contains(c));
            }
        }
        assert forall|d: u32| fat_laws::valid(b, d) && !ch.contains(d) implies #[trigger] fat_laws::entry(
            t,
            b,
            d,
        ) == fat_laws::entry(s, b, d) by {
            assert(ch.contains(ch[0]));
            assert(!rest.contains(d)) by {
                if rest.contains(d) {
                    let j = choose|j: int| 0 <= j < rest.len() && rest[j] == d;
                    assert(ch[j + 1] == d);
                }
            }
            assert(fat_laws::entry(v, b, d) == fat_laws::entry(s, b, d));
        }
        assert forall|d: u32| fat_laws::valid(b, d) implies #[trigger] fat_laws::data_of(t, b, d)
            == fat_laws::data_of(s, b, d) by {
            assert(fat_laws::data_of(v, b, d) == fat_laws::data_of(s, b, d));
        }
    }
}

/// Law: releasing a chain of at most 4096 clusters clears exactly its entries and touches no
/// cluster.
pub proof fn law_chain_is_released(s: FatView, b: Fat32Bpb, start: u32, ch: Seq<u32>)
    requires
        fat_laws::good_geo(b),
        fat_laws::ready(s, b),
        fat_laws::chain_of(s, b, start, ch),
        ch.len() <= 4096,
    ensures
        s.free_chain(b, start, 0).1,
        released(s, s.free_chain(b, start, 0).0, b, ch),
{
    if ch.len() > 0 {
        lemma_release(s, b, ch, 0);
    }
}

/// Entry `i` of cluster `k` is the only one of the directory with the short name `sn`.
pub open spec fn only(s: FatView, b: Fat32Bpb, ch: Seq<u32>, k: int, i: int, sn: Seq<u8>) -> bool {
    forall|m: int, x: int|
        0 <= m < ch.len() && 0 <= x < slots(b) && (m != k || x != i) ==> !#[trigger] is_named(
            fat_laws::data_of(s, b, ch[m]),
            x,
            sn,
        )
}

/// An entry marked as deleted.
proof fn lemma_mark(s: FatView, b: Fat32Bpb, c: u32, i: int)
    requires
        fat_laws::good_geo(b),
        fat_laws::ready(s, b),
        fat_laws::valid(b, c),
        0 <= i < slots(b),
        fat_laws::fit(s, b, c),
    ensures
        ({
            let (t, ok) = s.unlink(b, c, (i * 32) as u32, 0);
            let old = fat_laws::data_of(s, b, c);
            &&& ok
            &&& fat_laws::ready(t, b)
            &&& fat_laws::same_volume(s, t)
            &&& old.len() == b.cb()
            &&& fat_laws::data_of(t, b, c) == old.update(i * 32, 0xE5u8)
            &&& forall|d: u32|
                fat_laws::valid(b, d) && d != c ==> #[trigger] fat_laws::data_of(t, b, d)
                    == fat_laws::data_of(s, b, d)
            &&& forall|d: u32|
                fat_laws::valid(b, d) ==> #[trigger] fat_laws::entry(t, b, d) == fat_laws::entry(
                    s,
                    b,
                    d,
                )
        }),
{
    fat_laws::lemma_geo(b, 0, c);
    let off = (i * 32) as u32;
    let k = off as int / 512;
    let old = fat_laws::data_of(s, b, c);
    lemma_entry_fits(s, b, c, i);
    fat_laws::lemma_sector_len(s, b.sector_of(c) as int, b.spc());
    let sec = old.subrange(k * 512, k * 512 + 512);
    let data = sec.update(off as int % 512, 0xE5u8);
    lemma_sector(s, b, c, off, data);
    assert(bytes::splice(old, k * 512, data) =~= old.update(i * 32, 0xE5u8));
}

/// What marking entry `i` as deleted does to a search of its cluster for the name `sn`.
proof fn lemma_marked(old: Seq<u8>, i: int, x: int, n: int, sn: Seq<u8>)
    requires
        0 <= i < n,
        0 <= x < n,
        n * 32 <= old.len(),
    ensures
        x != i ==> is_named(old.update(i * 32, 0xE5u8), x, sn) == is_named(old, x, sn),
        x != i ==> stops(old.update(i * 32, 0xE5u8), x, sn) == stops(old, x, sn),
        x == i ==> !stops(old.update(i * 32, 0xE5u8), x, sn),
{
    let d = old.update(i * 32, 0xE5u8);
    if x != i {
        assert(d.subrange(x * 32, x * 32 + 11) =~= old.subrange(x * 32, x * 32 + 11));
        assert(d[x * 32] == old[x * 32] && d[x * 32 + 11] == old[x * 32 + 11]);
    }
}

/// A name that the marked entry did not have stays where it was.
proof fn lemma_others(
    s: FatView,
    t: FatView,
    b: Fat32Bpb,
    ch: Seq<u32>,
    k: int,
    i: int,
    k2: int,
    i2: int,
    other: Seq<u8>,
)
    requires
        fat_laws::linked(s, b, ch),
        0 <= k < ch.len(),
        0 <= i < slots(b),
        first(s, b, ch, k2, i2, other),
        !is_named(fat_laws::data_of(s, b, ch[k]), i, other),
        fat_laws::data_of(s, b, ch[k]).len() == b.cb(),
        fat_laws::data_of(t, b, ch[k]) == fat_laws::data_of(s, b, ch[k]).update(i * 32, 0xE5u8),
        forall|m: int|
            0 <= m < ch.len() && m != k ==> fat_laws::data_of(t, b, #[trigger] ch[m])
                == fat_laws::data_of(s, b, ch[m]),
    ensures
        first(t, b, ch, k2, i2, other),
{
    let n = slots(b);
    let old = fat_laws::data_of(s, b, ch[k]);
    assert(k2 != k || i2 != i);
    if k2 == k {
        lemma_marked(old, i, i2, n, other);
        assert forall|x: int| 0 <= x < i2 implies !#[trigger] stops(
            fat_laws::data_of(t, b, ch[k2]),
            x,
            other,
        ) by {
            assert(!stops(old, x, other));
            lemma_marked(old, i, x, n, other);
        }
    } else {
        assert(fat_laws::data_of(t, b, ch[k2]) == fat_laws::data_of(s, b, ch[k2]));
    }
    assert forall|j: int| 0 <= j < k2 implies quiet(
        fat_laws::data_of(t, b, #[trigger] ch[j]),
        n,
        other,
    ) by {
        assert(quiet(fat_laws::data_of(s, b, ch[j]), n, other));
        if j == k {
            assert forall|x: int| 0 <= x < n implies !#[trigger] stops(
                fat_laws::data_of(t, b, ch[j]),
                x,
                other,
            ) by {
                assert(!stops(old, x, other));
                lemma_marked(old, i, x, n, other);
            }
        }
    }
}

/// Law: after an entry is removed its name, which no other entry has, is not found; its chain
/// is free, every other table entry and every cluster but that of the entry is as it was, and
/// every other name is found where it was.
pub proof fn law_removed_is_gone(
    s: FatView,
    b: Fat32Bpb,
    dir: u32,
    ch: Seq<u32>,
    k: int,
    i: int,
    sn: Seq<u8>,
    start: u32,
    fch: Seq<u32>,
)
    requires
        fat_laws::good_geo(b),
        fat_laws::ready(s, b),
        dir_ok(s, b, dir, ch),
        first(s, b, ch, k, i, sn),
        only(s, b, ch, k, i, sn),
        fat_laws::chain_of(s, b, start, fch),
        fch.len() <= 4096,
        forall|m: int| 0 <= m < ch.len() ==> !fch.contains(#[trigger] ch[m]),
    ensures
        ({
            let (t, ok) = s.unlink(b, ch[k], (i * 32) as u32, start);
            &&& ok
            &&& dir_ok(t, b, dir, ch)
            &&& t.find_short(b, dir, sn, FAT_WALK_MAX as nat).1 is None
            &&& forall|j: int| 0 <= j < fch.len() ==> fat_laws::entry(t, b, #[trigger] fch[j]) == 0
            &&& forall|d: u32|
                fat_laws::valid(b, d) && !fch.contains(d) ==> #[trigger] fat_laws::entry(t, b, d)
                    == fat_laws::entry(s, b, d)
            &&& forall|d: u32|
                fat_laws::valid(b, d) && d != ch[k] ==> #[trigger] fat_laws::data_of(t, b, d)
                    == fat_laws::data_of(s, b, d)
            &&& forall|k2: int, i2: int, other: Seq<u8>|
                other != sn && first(s, b, ch, k2, i2, other) ==> #[trigger] first(
                    t,
                    b,
                    ch,
                    k2,
                    i2,
                    other,
                )
        }),
{
    let c = ch[k];
    let off = (i * 32) as u32;
    assert(fat_laws::valid(b, c));
    law_chain_is_released(s, b, start, fch);
    let u = if start != 0 {
        s.free_chain(b, start, 0).0
    } else {
        s
    };
    let t = s.unlink(b, c, off, start).0;
    assert(fat_laws::fit(s, b, c));
    fat_laws::lemma_fit(s, u, b, c);
    lemma_mark(u, b, c, i);
    fat_laws::lemma_fits(s, t, b, ch);
    assert(u.unlink(b, c, off, 0) == s.unlink(b, c, off, start));
    lemma_removed(s, u, t, b, ch, k, i, sn, fch);
    lemma_find_none(t, b, ch, 0, sn, FAT_WALK_MAX as nat);
}

/// The directory after one of its entries was marked and a chain apart from it released.
proof fn lemma_removed(
    s: FatView,
    u: FatView,
    t: FatView,
    b: Fat32Bpb,
    ch: Seq<u32>,
    k: int,
    i: int,
    sn: Seq<u8>,
    fch: Seq<u32>,
)
    requires
        fat_laws::good_geo(b),
        fat_laws::ready(s, b),
        fat_laws::linked(s, b, ch),
        0 <= k < ch.len(),
        0 <= i < slots(b),
        is_named(fat_laws::data_of(s, b, ch[k]), i, sn),
        only(s, b, ch, k, i, sn),
        forall|m: int| 0 <= m < ch.len() ==> !fch.contains(#[trigger] ch[m]),
        forall|j: int| 0 <= j < fch.len() ==> fat_laws::valid(b, #[trigger] fch[j]),
        released(s, u, b, fch),
        fat_laws::data_of(t, b, ch[k]) == fat_laws::data_of(u, b, ch[k]).update(i * 32, 0xE5u8),
        forall|d: u32|
            fat_laws::valid(b, d) && d != ch[k] ==> #[trigger] fat_laws::data_of(t, b, d)
                == fat_laws::data_of(u, b, d),
        forall|d: u32|
            fat_laws::valid(b, d) ==> #[trigger] fat_laws::entry(t, b, d) == fat_laws::entry(
                u,
                b,
                d,
            ),
    ensures
        fat_laws::linked(t, b, ch),
        absent(t, b, ch, sn),
        forall|j: int| 0 <= j < fch.len() ==> fat_laws::entry(t, b, #[trigger] fch[j]) == 0,
        forall|d: u32|
            fat_laws::valid(b, d) && !fch.contains(d) ==> #[trigger] fat_laws::entry(t, b, d)
                == fat_laws::entry(s, b, d),
        forall|d: u32|
            fat_laws::valid(b, d) && d != ch[k] ==> #[trigger] fat_laws::data_of(t, b, d)
                == fat_laws::data_of(s, b, d),
        forall|k2: int, i2: int, other: Seq<u8>|
            other != sn && first(s, b, ch, k2, i2, other) ==> #[trigger] first(
                t,
                b,
                ch,
                k2,
                i2,
                other,
            ),
{
    let n = slots(b);
    let old = fat_laws::data_of(s, b, ch[k]);
    assert(fat_laws::valid(b, ch[k]));
    assert(fat_laws::data_of(u, b, ch[k]) == old);
    assert(s.store.has(s.cur, b.sector_of(ch[k]) as int, b.spc()));
    fat_laws::lemma_sector_len(s, b.sector_of(ch[k]) as int, b.spc());
    assert forall|j: int| 0 <= j < fch.len() implies fat_laws::entry(t, b, #[trigger] fch[j])
        == 0 by {
        assert(fat_laws::valid(b, fch[j]));
        assert(fat_laws::entry(u, b, fch[j]) == 0);
    }
    assert forall|d: u32|
        fat_laws::valid(b, d) && !fch.contains(d) implies #[trigger] fat_laws::entry(t, b, d)
        == fat_laws::entry(s, b, d) by {
        assert(fat_laws::entry(u, b, d) == fat_laws::entry(s, b, d));
    }
    assert forall|d: u32| fat_laws::valid(b, d) && d != ch[k] implies #[trigger] fat_laws::data_of(
        t,
        b,
        d,
    ) == fat_laws::data_of(s, b, d) by {
        assert(fat_laws::data_of(u, b, d) == fat_laws::data_of(s, b, d));
    }
    assert forall|m: int| 0 <= m < ch.len() - 1 implies fat_laws::entry(t, b, #[trigger] ch[m])
        == ch[m + 1] by {
        assert(fat_laws::valid(b, ch[m]));
        assert(fat_laws::entry(s, b, ch[m]) == ch[m + 1]);
    }
    assert(fat_laws::valid(b, ch[ch.len() - 1]));
    assert(!fch.contains(ch[ch.len() - 1]));
    assert(fat_laws::entry(t, b, ch.last()) == fat_laws::entry(s, b, ch.last()));
    assert forall|m: int| 0 <= m < ch.len() && m != k implies fat_laws::data_of(
        t,
        b,
        #[trigger] ch[m],
    ) == fat_laws::data_of(s, b, ch[m]) by {
        assert(fat_laws::valid(b, ch[m]));
    }
    assert forall|m: int, x: int| 0 <= m < ch.len() && 0 <= x < n implies !#[trigger] is_named(
        fat_laws::data_of(t, b, ch[m]),
        x,
        sn,
    ) by {
        if m == k {
            lemma_marked(old, i, x, n, sn);
            if x != i {
                assert(!is_named(fat_laws::data_of(s, b, ch[m]), x, sn));
            } else {
                assert(!stops(fat_laws::data_of(t, b, ch[m]), x, sn));
            }
        } else {
            assert(!is_named(fat_laws::data_of(s, b, ch[m]), x, sn));
        }
    }
    assert forall|k2: int, i2: int, other: Seq<u8>|
        other != sn && first(s, b, ch, k2, i2, other) implies #[trigger] first(
        t,
        b,
        ch,
        k2,
        i2,
        other,
    ) by {
        lemma_others(s, t, b, ch, k, i, k2, i2, other);
    }
}

} // verus!
