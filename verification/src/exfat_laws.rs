//! What holds of exFAT volumes: the table, the allocation bitmap, chains.
use vstd::prelude::*;

use crate::bytes;
use crate::disk;
use crate::disk::StoreView;
use crate::exfat;
use crate::exfat::{ExGeo, ExfatView, EXFAT_FAT_EOC, EXFAT_FAT_EOC_MIN};

verus! {

/// The layout of a real volume: the copies of the table and the clusters lie one after the
/// other, and the table and the bitmap have an entry for each cluster.
pub open spec fn good_geo(g: ExGeo) -> bool {
    &&& g.wf()
    &&& g.fat_off + g.nfats * g.fat_len <= g.heap
    &&& g.heap + g.count * g.spc <= 0xFFFF_FFFF
    &&& g.count + 2 <= 128 * g.fat_len
    &&& g.count + 2 <= EXFAT_FAT_EOC_MIN
    &&& g.count <= 8 * g.bmp_bytes
}

/// The numbers of clusters.
pub open spec fn valid(g: ExGeo, c: u32) -> bool {
    2 <= c < g.count + 2
}

/// The volume has all its sectors, and those of the table can be transferred.
pub open spec fn ready(s: ExfatView) -> bool {
    &&& s.store.wf()
    &&& forall|k: int, c: u32|
        0 <= k < s.geo.nfats && valid(s.geo, c) ==> s.store.can(
            s.vol,
            #[trigger] s.fat_lba(c, k) as int,
            1,
        )
    &&& forall|c: u32|
        valid(s.geo, c) ==> s.store.has(
            s.vol,
            #[trigger] s.cluster_lba(c) as int,
            s.geo.spc as int,
        )
}

/// Cluster `c` can be transferred.
pub open spec fn fit(s: ExfatView, c: u32) -> bool {
    s.store.can(s.vol, s.cluster_lba(c) as int, s.geo.spc as int)
}

/// All clusters of a chain can be transferred.
pub open spec fn fits(s: ExfatView, ch: Seq<u32>) -> bool {
    forall|i: int| 0 <= i < ch.len() ==> fit(s, #[trigger] ch[i])
}

/// It is the same volume, and the same sectors of it can be transferred.
pub open spec fn same_volume(s: ExfatView, t: ExfatView) -> bool {
    &&& t.vol == s.vol
    &&& t.geo == s.geo
    &&& t.store.disks.len() == s.store.disks.len()
    &&& t.store.disks[s.vol as int].ok == s.store.disks[s.vol as int].ok
}

/// What can be transferred stays so.
pub proof fn lemma_fit(s: ExfatView, t: ExfatView, c: u32)
    requires
        same_volume(s, t),
    ensures
        fit(t, c) == fit(s, c),
{
    assert(t.cluster_lba(c) == s.cluster_lba(c));
}

/// What can be transferred of a chain stays so.
pub proof fn lemma_fits(s: ExfatView, t: ExfatView, ch: Seq<u32>)
    requires
        same_volume(s, t),
    ensures
        fits(s, ch) ==> fits(t, ch),
{
    if fits(s, ch) {
        assert forall|i: int| 0 <= i < ch.len() implies fit(t, #[trigger] ch[i]) by {
            assert(fit(s, ch[i]));
            lemma_fit(s, t, ch[i]);
        }
    }
}

/// The table entry of a cluster.
#[verifier::opaque]
pub open spec fn entry(s: ExfatView, c: u32) -> u32 {
    bytes::le32(s.store.get(s.vol, s.fat_lba(c, 0) as int, 1), c as int % 128 * 4)
}

/// The bytes of a cluster.
#[verifier::opaque]
pub open spec fn data_of(s: ExfatView, c: u32) -> Seq<u8> {
    s.store.get(s.vol, s.cluster_lba(c) as int, s.geo.spc as int)
}

/// Sizes of clusters.
pub proof fn lemma_spc(g: ExGeo)
    requires
        g.wf(),
    ensures
        2 <= g.spc <= 512,
        g.cb() == 512 * g.spc,
{
    let i = choose|i: int| 0 <= i < exfat::spc_sizes().len() && exfat::spc_sizes()[i] == g.spc;
    assert(exfat::spc_sizes()[i] == g.spc);
}

/// Where the table and the clusters are.
pub proof fn lemma_geo(s: ExfatView, k: int, c: u32)
    requires
        good_geo(s.geo),
        valid(s.geo, c),
        0 <= k < s.geo.nfats,
    ensures
        s.fat_lba(c, k) == s.geo.fat_off + k * s.geo.fat_len + c as int / 128,
        s.fat_lba(c, k) < s.geo.heap,
        s.cluster_lba(c) == s.geo.heap + (c - 2) * s.geo.spc,
        s.geo.heap <= s.cluster_lba(c),
        s.cluster_lba(c) + s.geo.spc <= s.geo.heap + s.geo.count * s.geo.spc,
        2 <= s.geo.spc <= 512,
        s.geo.cb() == 512 * s.geo.spc,
{
    lemma_spc(s.geo);
    let nf = s.geo.nfats as int;
    let fl = s.geo.fat_len as int;
    let spc = s.geo.spc as int;
    let n = s.geo.count as int;
    assert(0 <= k * fl && k * fl + fl <= nf * fl) by (nonlinear_arith)
        requires
            0 <= k,
            k + 1 <= nf,
            0 <= fl,
    ;
    assert(c as int / 128 < fl);
    let x = c - 2;
    assert(0 <= x * spc && x * spc + spc <= n * spc) by (nonlinear_arith)
        requires
            0 <= x,
            x + 1 <= n,
            spc > 0,
    ;
}

/// Different clusters share no sector.
pub proof fn lemma_apart(s: ExfatView, c: u32, d: u32)
    requires
        good_geo(s.geo),
        valid(s.geo, c),
        valid(s.geo, d),
        c != d,
    ensures
        s.cluster_lba(c) + s.geo.spc <= s.cluster_lba(d) || s.cluster_lba(d) + s.geo.spc
            <= s.cluster_lba(c),
{
    lemma_geo(s, 0, c);
    lemma_geo(s, 0, d);
    let spc = s.geo.spc as int;
    let x = c - 2;
    let y = d - 2;
    if x < y {
        assert(x * spc + spc <= y * spc) by (nonlinear_arith)
            requires
                x + 1 <= y,
                spc > 0,
        ;
    } else {
        assert(y * spc + spc <= x * spc) by (nonlinear_arith)
            requires
                y + 1 <= x,
                spc > 0,
        ;
    }
}

/// What a successful write leaves of a run of sectors.
pub proof fn lemma_store(st: StoreView, vol: u64, lba: u32, data: Seq<u8>, at: u32, n: int)
    requires
        st.wf(),
        data.len() % 512 == 0,
        st.can(vol, lba as int, data.len() as int / 512),
    ensures
        st.write(vol, lba, data).1,
        st.write(vol, lba, data).0.wf(),
        st.write(vol, lba, data).0.disks.len() == st.disks.len(),
        st.write(vol, lba, data).0.disks[vol as int].ok == st.disks[vol as int].ok,
        st.write(vol, lba, data).0.get(vol, lba as int, data.len() as int / 512) == data,
        st.has(vol, at as int, n) && (at + n <= lba || lba + data.len() as int / 512 <= at)
            ==> st.write(vol, lba, data).0.get(vol, at as int, n) == st.get(vol, at as int, n),
{
    disk::lemma_write_wf(st, vol, lba, data);
    disk::law_read_after_write(st, vol, lba, data);
    if st.has(vol, at as int, n) && (at + n <= lba || lba + data.len() as int / 512 <= at) {
        disk::lemma_get_kept(st, vol, lba, data, at as int, n);
    }
}

/// Only what is on the volume differs.
pub open spec fn same_state(s: ExfatView, t: ExfatView) -> bool {
    t == (ExfatView { store: t.store, ..s }) && same_volume(s, t)
}

/// A volume stays ready.
pub proof fn lemma_ready(s: ExfatView, t: ExfatView)
    requires
        ready(s),
        same_volume(s, t),
        t.store.wf(),
    ensures
        ready(t),
{
    assert forall|k: int, c: u32| 0 <= k < t.geo.nfats && valid(t.geo, c) implies t.store.can(
        t.vol,
        #[trigger] t.fat_lba(c, k) as int,
        1,
    ) by {
        assert(t.fat_lba(c, k) == s.fat_lba(c, k));
        assert(s.store.can(s.vol, s.fat_lba(c, k) as int, 1));
    }
    assert forall|c: u32| valid(t.geo, c) implies t.store.has(
        t.vol,
        #[trigger] t.cluster_lba(c) as int,
        t.geo.spc as int,
    ) by {
        assert(t.cluster_lba(c) == s.cluster_lba(c));
        assert(s.store.has(s.vol, s.cluster_lba(c) as int, s.geo.spc as int));
    }
}

/// One copy of a table entry set: the first copy holds it where it is the first that was
/// set, no cluster and no other entry changes.
pub proof fn lemma_fat_put(s: ExfatView, c: u32, v: u32, k: int)
    requires
        good_geo(s.geo),
        ready(s),
        valid(s.geo, c),
        0 <= k < s.geo.nfats,
    ensures
        s.fat_put(c, v, k).1,
        ready(s.fat_put(c, v, k).0),
        same_state(s, s.fat_put(c, v, k).0),
        entry(s.fat_put(c, v, k).0, c) == if k == 0 {
            v
        } else {
            entry(s, c)
        },
        forall|d: u32|
            valid(s.geo, d) && d != c ==> #[trigger] entry(s.fat_put(c, v, k).0, d) == entry(s, d),
        forall|d: u32|
            valid(s.geo, d) ==> #[trigger] data_of(s.fat_put(c, v, k).0, d) == data_of(s, d),
{
    reveal(entry);
    reveal(data_of);
    lemma_geo(s, k, c);
    let lba = s.fat_lba(c, k);
    assert(s.store.can(s.vol, lba as int, 1));
    let b = s.store.get(s.vol, lba as int, 1);
    assert(b.len() == 512);
    let o = c as int % 128 * 4;
    let e = bytes::put32(b, o, v);
    bytes::law_put32_reads_back(b, o, v);
    let t = s.fat_put(c, v, k).0;
    lemma_store(s.store, s.vol, lba, e, 0, 1);
    lemma_ready(s, t);
    assert forall|d: u32| valid(s.geo, d) && (d != c || k != 0) implies #[trigger] entry(t, d)
        == entry(s, d) by {
        lemma_geo(s, 0, d);
        lemma_geo(s, 0, c);
        let f = s.fat_lba(d, 0);
        assert(t.fat_lba(d, 0) == f);
        assert(s.store.can(s.vol, f as int, 1));
        lemma_store(s.store, s.vol, lba, e, f, 1);
        if k == 0 {
            if c as int / 128 == d as int / 128 {
                assert(f == lba);
                let o2 = d as int % 128 * 4;
                assert(o2 + 4 <= o || o + 4 <= o2);
                assert(bytes::le32(e, o2) == bytes::le32(b, o2));
            }
        } else {
            let fl = s.geo.fat_len as int;
            assert(fl <= k * fl) by (nonlinear_arith)
                requires
                    k >= 1,
                    fl >= 0,
            ;
            assert(d as int / 128 < fl);
        }
    }
    assert forall|d: u32| valid(s.geo, d) implies #[trigger] data_of(t, d) == data_of(s, d) by {
        lemma_geo(s, 0, d);
        assert(t.cluster_lba(d) == s.cluster_lba(d));
        assert(s.store.has(s.vol, s.cluster_lba(d) as int, s.geo.spc as int));
        lemma_store(s.store, s.vol, lba, e, s.cluster_lba(d), s.geo.spc as int);
    }
}

/// Law: a table entry reads back as it was set; every other entry and every cluster stays as
/// it was.
pub proof fn law_fat_set(s: ExfatView, c: u32, v: u32)
    requires
        good_geo(s.geo),
        ready(s),
        valid(s.geo, c),
    ensures
        s.fat_set(c, v).1,
        ready(s.fat_set(c, v).0),
        same_state(s, s.fat_set(c, v).0),
        entry(s.fat_set(c, v).0, c) == v,
        forall|d: u32|
            valid(s.geo, d) && d != c ==> #[trigger] entry(s.fat_set(c, v).0, d) == entry(s, d),
        forall|d: u32|
            valid(s.geo, d) ==> #[trigger] data_of(s.fat_set(c, v).0, d) == data_of(s, d),
{
    reveal(entry);
    reveal(data_of);
    reveal(ExfatView::fat_set);
    lemma_fat_put(s, c, v, 0);
    let t = s.fat_put(c, v, 0).0;
    if s.geo.nfats >= 2 {
        lemma_fat_put(t, c, v, 1);
        let u = t.fat_put(c, v, 1).0;
        assert forall|d: u32| valid(s.geo, d) && d != c implies #[trigger] entry(u, d) == entry(
            s,
            d,
        ) by {
            assert(entry(t, d) == entry(s, d));
        }
        assert forall|d: u32| valid(s.geo, d) implies #[trigger] data_of(u, d) == data_of(s, d) by {
            assert(data_of(t, d) == data_of(s, d));
        }
    }
}

/// Sectors within a cluster written: that part of the cluster changes, no other cluster and
/// no entry does.
pub proof fn lemma_wr_within(s: ExfatView, t: ExfatView, c: u32, j: int, data: Seq<u8>)
    requires
        good_geo(s.geo),
        ready(s),
        valid(s.geo, c),
        data.len() % 512 == 0,
        0 < data.len(),
        0 <= j,
        j + data.len() as int / 512 <= s.geo.spc,
        s.store.write(s.vol, bytes::w32(s.cluster_lba(c) + j), data).1,
        t.store == s.store.write(s.vol, bytes::w32(s.cluster_lba(c) + j), data).0,
        t.vol == s.vol,
        t.geo == s.geo,
    ensures
        same_volume(s, t),
        ready(t),
        data_of(t, c) == bytes::splice(data_of(s, c), 512 * j, data),
        forall|d: u32| valid(s.geo, d) && d != c ==> #[trigger] data_of(t, d) == data_of(s, d),
        forall|d: u32| valid(s.geo, d) ==> #[trigger] entry(t, d) == entry(s, d),
{
    reveal(entry);
    reveal(data_of);
    lemma_geo(s, 0, c);
    let n = data.len() as int / 512;
    let base = s.cluster_lba(c);
    let lba = bytes::w32(base + j);
    assert(lba == base + j);
    assert(s.store.can(s.vol, lba as int, n));
    assert(s.store.has(s.vol, base as int, s.geo.spc as int));
    lemma_store(s.store, s.vol, lba, data, base, s.geo.spc as int);
    lemma_ready(s, t);
    assert(t.cluster_lba(c) == base);
    assert(data_of(t, c) =~= bytes::splice(data_of(s, c), 512 * j, data));
    assert forall|d: u32| valid(s.geo, d) && d != c implies #[trigger] data_of(t, d) == data_of(
        s,
        d,
    ) by {
        lemma_apart(s, c, d);
        assert(t.cluster_lba(d) == s.cluster_lba(d));
        assert(s.store.has(s.vol, s.cluster_lba(d) as int, s.geo.spc as int));
        lemma_store(s.store, s.vol, lba, data, s.cluster_lba(d), s.geo.spc as int);
    }
    assert forall|d: u32| valid(s.geo, d) implies #[trigger] entry(t, d) == entry(s, d) by {
        lemma_geo(s, 0, d);
        assert(t.fat_lba(d, 0) == s.fat_lba(d, 0));
        assert(s.store.can(s.vol, s.fat_lba(d, 0) as int, 1));
        lemma_store(s.store, s.vol, lba, data, s.fat_lba(d, 0), 1);
    }
}

/// A cluster written reads back; every other cluster and every entry stays.
pub proof fn lemma_wr_cl(s: ExfatView, c: u32, data: Seq<u8>)
    requires
        good_geo(s.geo),
        ready(s),
        valid(s.geo, c),
        data.len() == s.geo.cb(),
        s.wr_cl(c, data).1,
    ensures
        fit(s, c),
        ready(s.wr_cl(c, data).0),
        same_state(s, s.wr_cl(c, data).0),
        data_of(s.wr_cl(c, data).0, c) == data,
        forall|d: u32|
            valid(s.geo, d) && d != c ==> #[trigger] data_of(s.wr_cl(c, data).0, d) == data_of(s, d),
        forall|d: u32| valid(s.geo, d) ==> #[trigger] entry(s.wr_cl(c, data).0, d) == entry(s, d),
{
    reveal(entry);
    reveal(data_of);
    lemma_geo(s, 0, c);
    let t = s.wr_cl(c, data).0;
    assert(bytes::w32(s.cluster_lba(c) + 0) == s.cluster_lba(c));
    assert(fit(s, c));
    lemma_wr_within(s, t, c, 0, data);
    assert(data_of(s, c).len() == 512 * s.geo.spc);
    assert(bytes::splice(data_of(s, c), 0, data) =~= data);
}

/// A cluster is read where it can be transferred, and so is every table entry.
pub proof fn lemma_rd_cl(s: ExfatView, c: u32)
    requires
        good_geo(s.geo),
        ready(s),
        valid(s.geo, c),
    ensures
        s.rd_cl(c) == if fit(s, c) {
            Some(data_of(s, c))
        } else {
            None
        },
        data_of(s, c).len() == s.geo.cb(),
        s.fat_get(c) == Some(entry(s, c)),
{
    reveal(entry);
    reveal(data_of);
    lemma_geo(s, 0, c);
    assert(s.store.has(s.vol, s.cluster_lba(c) as int, s.geo.spc as int));
    assert(s.store.can(s.vol, s.fat_lba(c, 0) as int, 1));
}

/// A chain in the table: valid clusters, all different, each entry names the next, the last
/// ends the chain.
pub open spec fn linked(s: ExfatView, ch: Seq<u32>) -> bool {
    &&& ch.no_duplicates()
    &&& forall|i: int| 0 <= i < ch.len() ==> valid(s.geo, #[trigger] ch[i])
    &&& forall|i: int| 0 <= i < ch.len() - 1 ==> entry(s, #[trigger] ch[i]) == ch[i + 1]
    &&& ch.len() > 0 ==> exfat::is_end(entry(s, ch.last()))
}

/// A chain has no more clusters than there are.
pub proof fn lemma_chain_fits(g: ExGeo, ch: Seq<u32>)
    requires
        ch.no_duplicates(),
        forall|i: int| 0 <= i < ch.len() ==> valid(g, #[trigger] ch[i]),
    ensures
        ch.len() <= g.count,
{
    let v = Seq::new(ch.len(), |i: int| ch[i] as int);
    assert(v.no_duplicates());
    v.unique_seq_to_set();
    vstd::set_lib::lemma_int_range(2, g.count + 2);
    let all = vstd::set_lib::set_int_range(2, g.count + 2);
    assert(v.to_set().subset_of(all)) by {
        assert forall|x: int| v.to_set().contains(x) implies all.contains(x) by {
            let i = choose|i: int| 0 <= i < v.len() && v[i] == x;
            assert(valid(g, ch[i]));
        }
    }
    vstd::set_lib::lemma_len_subset(v.to_set(), all);
}

/// Walking a chain.
pub proof fn lemma_nth(s: ExfatView, ch: Seq<u32>, i: int, idx: int)
    requires
        good_geo(s.geo),
        ready(s),
        linked(s, ch),
        0 <= i < ch.len(),
        i <= idx,
    ensures
        idx < ch.len() ==> s.nth_from(ch[i], i, idx) == Some(ch[idx]),
        idx >= ch.len() ==> s.nth_from(ch[i], i, idx) is None,
        idx < ch.len() ==> s.step_from(ch[i], i, idx) == Some(ch[idx]),
        idx >= ch.len() ==> s.step_from(ch[i], i, idx) is None,
    decreases idx - i,
{
    reveal(entry);
    assert(valid(s.geo, ch[i]));
    lemma_rd_cl(s, ch[i]);
    lemma_chain_fits(s.geo, ch);
    if i < idx {
        if i + 1 < ch.len() {
            assert(entry(s, ch[i]) == ch[i + 1]);
            assert(valid(s.geo, ch[i + 1]));
            lemma_nth(s, ch, i + 1, idx);
        } else {
            assert(ch[i] == ch.last());
        }
    }
}

/// A chain stays a chain while its entries stay.
pub proof fn lemma_linked(s: ExfatView, t: ExfatView, ch: Seq<u32>)
    requires
        linked(s, ch),
        t.geo == s.geo,
        forall|i: int| 0 <= i < ch.len() ==> entry(t, #[trigger] ch[i]) == entry(s, ch[i]),
    ensures
        linked(t, ch),
{
    reveal(entry);
    assert forall|i: int| 0 <= i < ch.len() - 1 implies entry(t, #[trigger] ch[i]) == ch[i + 1] by {
        assert(entry(s, ch[i]) == ch[i + 1]);
    }
    if ch.len() > 0 {
        assert(entry(t, ch[ch.len() - 1]) == entry(s, ch[ch.len() - 1]));
    }
}

/// Sector `k` of the allocation bitmap, which is the chain `bm`, on the disk.
pub open spec fn disk_sec(s: ExfatView, bm: Seq<u32>, k: int) -> Seq<u8> {
    let j = k % (s.geo.spc as int);
    data_of(s, bm[k / (s.geo.spc as int)]).subrange(512 * j, 512 * j + 512)
}

/// Sector `k` of the allocation bitmap: the one in memory, or else the one on the disk.
pub open spec fn sec(s: ExfatView, bm: Seq<u32>, k: int) -> Seq<u8> {
    if s.win == Some(k as u32) {
        s.win_buf
    } else {
        disk_sec(s, bm, k)
    }
}

/// Number of the bitmap sector of a cluster.
pub open spec fn sec_of(c: u32) -> int {
    (c - 2) / 8 / 512
}

/// Whether a cluster is in use.
#[verifier::opaque]
pub open spec fn used(s: ExfatView, bm: Seq<u32>, c: u32) -> bool {
    bytes::bit_at(sec(s, bm, sec_of(c))[(c - 2) / 8 % 512], (c - 2) % 8)
}

/// First sector of the `k`th sector of the bitmap.
pub open spec fn sec_lba(s: ExfatView, bm: Seq<u32>, k: int) -> u32 {
    bytes::w32(s.cluster_lba(bm[k / (s.geo.spc as int)]) + k % (s.geo.spc as int))
}

/// The bitmap is the chain `bm`, which has a sector for each cluster; the sector in memory is
/// one of them, and what of it is not to be written is on the disk.
pub open spec fn map_ok(s: ExfatView, bm: Seq<u32>) -> bool {
    &&& linked(s, bm)
    &&& bm.len() > 0
    &&& bm[0] == s.geo.bmp_cl
    &&& s.geo.bmp_bytes <= 512 * (bm.len() * s.geo.spc)
    &&& s.win_buf.len() == 512
    &&& match s.win {
        None => !s.dirty,
        Some(k) => k < bm.len() * s.geo.spc && s.win_lba == sec_lba(s, bm, k as int) && (!s.dirty
            ==> s.win_buf == disk_sec(s, bm, k as int)),
    }
}

/// Where a bitmap sector is.
pub proof fn lemma_sec(s: ExfatView, bm: Seq<u32>, k: int)
    requires
        good_geo(s.geo),
        ready(s),
        linked(s, bm),
        0 <= k < bm.len() * s.geo.spc,
    ensures
        0 <= k / (s.geo.spc as int) < bm.len(),
        0 <= k % (s.geo.spc as int) < s.geo.spc,
        valid(s.geo, bm[k / (s.geo.spc as int)]),
        sec_lba(s, bm, k) == s.cluster_lba(bm[k / (s.geo.spc as int)]) + k % (s.geo.spc as int),
        disk_sec(s, bm, k).len() == 512,
        s.store.read(s.vol, sec_lba(s, bm, k), 1) matches Some(b) ==> b == disk_sec(s, bm, k),
        fits(s, bm) ==> s.store.can(s.vol, sec_lba(s, bm, k) as int, 1),
{
    reveal(data_of);
    let spc = s.geo.spc as int;
    lemma_spc(s.geo);
    let n = bm.len() as int;
    let q = k / spc;
    assert(0 <= q < n) by (nonlinear_arith)
        requires
            q == k / spc,
            0 <= k < n * spc,
            spc > 0,
    ;
    let c = bm[q];
    assert(valid(s.geo, c));
    lemma_geo(s, 0, c);
    lemma_rd_cl(s, c);
    let j = k % spc;
    assert(s.store.has(s.vol, s.cluster_lba(c) as int, spc));
    let lba = sec_lba(s, bm, k);
    assert(fits(s, bm) ==> fit(s, c));
    assert(s.store.get(s.vol, lba as int, 1) =~= disk_sec(s, bm, k));
}

/// Sectors of the bitmap there are.
pub open spec fn secs(s: ExfatView, bm: Seq<u32>) -> int {
    bm.len() * s.geo.spc
}

/// The bitmap has a sector for each cluster.
pub proof fn lemma_sec_of(s: ExfatView, bm: Seq<u32>, c: u32)
    requires
        good_geo(s.geo),
        map_ok(s, bm),
        valid(s.geo, c),
    ensures
        0 <= sec_of(c) < secs(s, bm),
        secs(s, bm) <= 0xFFFF_FFFF,
        (c - 2) / 8 < s.geo.bmp_bytes,
        ((c - 2) / 8 / 512) as u32 == sec_of(c),
{
    reveal(entry);
    reveal(data_of);
    lemma_chain_fits(s.geo, bm);
    let n = bm.len() as int;
    let cnt = s.geo.count as int;
    let spc = s.geo.spc as int;
    assert(n * spc <= cnt * spc) by (nonlinear_arith)
        requires
            n <= cnt,
            spc >= 0,
    ;
}

/// The volume after a step on the bitmap: nothing but the bitmap may differ.
pub open spec fn map_step(s: ExfatView, t: ExfatView, bm: Seq<u32>) -> bool {
    &&& t == (ExfatView {
        store: t.store,
        win: t.win,
        win_lba: t.win_lba,
        win_buf: t.win_buf,
        dirty: t.dirty,
        ..s
    })
    &&& same_volume(s, t)
    &&& ready(t)
    &&& map_ok(t, bm)
    &&& forall|d: u32| valid(s.geo, d) ==> #[trigger] entry(t, d) == entry(s, d)
    &&& forall|d: u32|
        valid(s.geo, d) && !bm.contains(d) ==> #[trigger] data_of(t, d) == data_of(s, d)
}

/// The bitmap says the same.
pub open spec fn same_secs(s: ExfatView, t: ExfatView, bm: Seq<u32>) -> bool {
    forall|k: int| 0 <= k < secs(s, bm) ==> #[trigger] sec(t, bm, k) == sec(s, bm, k)
}

/// The same clusters are in use.
pub proof fn lemma_same_used(s: ExfatView, t: ExfatView, bm: Seq<u32>, c: u32)
    requires
        good_geo(s.geo),
        map_ok(s, bm),
        valid(s.geo, c),
        same_secs(s, t, bm),
    ensures
        used(t, bm, c) == used(s, bm, c),
{
    reveal(entry);
    reveal(data_of);
    reveal(used);
    lemma_sec_of(s, bm, c);
    assert(sec(t, bm, sec_of(c)) == sec(s, bm, sec_of(c)));
}

/// One sector of the bitmap written.
pub proof fn lemma_sec_write(s: ExfatView, t: ExfatView, bm: Seq<u32>, k: int, buf: Seq<u8>)
    requires
        good_geo(s.geo),
        ready(s),
        linked(s, bm),
        0 <= k < secs(s, bm),
        buf.len() == 512,
        s.store.write(s.vol, sec_lba(s, bm, k), buf).1,
        t.store == s.store.write(s.vol, sec_lba(s, bm, k), buf).0,
        t.vol == s.vol,
        t.geo == s.geo,
    ensures
        same_volume(s, t),
        ready(t),
        linked(t, bm),
        disk_sec(t, bm, k) == buf,
        forall|q: int|
            0 <= q < secs(s, bm) && q != k ==> #[trigger] disk_sec(t, bm, q) == disk_sec(s, bm, q),
        forall|d: u32| valid(s.geo, d) ==> #[trigger] entry(t, d) == entry(s, d),
        forall|d: u32|
            valid(s.geo, d) && !bm.contains(d) ==> #[trigger] data_of(t, d) == data_of(s, d),
        forall|q: int| #[trigger] sec_lba(t, bm, q) == sec_lba(s, bm, q),
{
    reveal(entry);
    reveal(data_of);
    let spc = s.geo.spc as int;
    lemma_sec(s, bm, k);
    let c = bm[k / spc];
    let j = k % spc;
    lemma_rd_cl(s, c);
    lemma_wr_within(s, t, c, j, buf);
    assert forall|i: int| 0 <= i < bm.len() implies entry(t, #[trigger] bm[i]) == entry(
        s,
        bm[i],
    ) by {
        assert(valid(s.geo, bm[i]));
    }
    lemma_linked(s, t, bm);
    assert(disk_sec(t, bm, k) =~= buf);
    assert forall|q: int| 0 <= q < secs(s, bm) && q != k implies #[trigger] disk_sec(t, bm, q)
        == disk_sec(s, bm, q) by {
        lemma_sec(s, bm, q);
        let i = q % spc;
        if q / spc == k / spc {
            assert(i != j) by {
                vstd::arithmetic::div_mod::lemma_fundamental_div_mod(q, spc);
                vstd::arithmetic::div_mod::lemma_fundamental_div_mod(k, spc);
            }
            assert(disk_sec(t, bm, q) =~= disk_sec(s, bm, q));
        } else {
            assert(bm[q / spc] != c);
            assert(data_of(t, bm[q / spc]) == data_of(s, bm[q / spc]));
        }
    }
    assert forall|d: u32| valid(s.geo, d) && !bm.contains(d) implies #[trigger] data_of(t, d)
        == data_of(s, d) by {
        assert(bm.contains(c));
    }
    assert forall|q: int| #[trigger] sec_lba(t, bm, q) == sec_lba(s, bm, q) by {
        assert(t.cluster_lba(bm[q / spc]) == s.cluster_lba(bm[q / spc]));
    }
}

/// The bitmap sector in memory written.
pub proof fn lemma_bmp_flush(s: ExfatView, bm: Seq<u32>)
    requires
        good_geo(s.geo),
        ready(s),
        map_ok(s, bm),
    ensures
        map_step(s, s.bmp_flush().0, bm),
        same_secs(s, s.bmp_flush().0, bm),
        s.bmp_flush().1 ==> s.bmp_flush().0 == (ExfatView {
            store: s.bmp_flush().0.store,
            dirty: false,
            ..s
        }),
        fits(s, bm) ==> s.bmp_flush().1,
{
    reveal(entry);
    reveal(data_of);
    if s.dirty {
        lemma_sec(s, bm, s.win->Some_0 as int);
    }
    if s.dirty && s.bmp_flush().1 {
        let k = s.win->Some_0 as int;
        let t = s.bmp_flush().0;
        let u = ExfatView { store: s.store.write(s.vol, s.win_lba, s.win_buf).0, ..s };
        lemma_sec_write(s, u, bm, k, s.win_buf);
        lemma_flag(u, t, bm);
        lemma_chain_fits(s.geo, bm);
        assert forall|q: int| 0 <= q < secs(s, bm) implies #[trigger] sec(t, bm, q) == sec(
            s,
            bm,
            q,
        ) by {
            assert(disk_sec(t, bm, q) == disk_sec(u, bm, q));
            if q != k {
                assert(disk_sec(u, bm, q) == disk_sec(s, bm, q));
            }
        }
        assert forall|d: u32| valid(s.geo, d) implies #[trigger] entry(t, d) == entry(s, d) by {
            assert(entry(t, d) == entry(u, d));
        }
        assert forall|d: u32| valid(s.geo, d) && !bm.contains(d) implies #[trigger] data_of(t, d)
            == data_of(s, d) by {
            assert(data_of(t, d) == data_of(u, d));
        }
        assert(sec_lba(t, bm, k) == sec_lba(u, bm, k));
    } else {
        lemma_map_refl(s, bm);
    }
}

/// What is on the volume does not depend on what is in memory.
pub proof fn lemma_flag(s: ExfatView, t: ExfatView, bm: Seq<u32>)
    requires
        t.store == s.store,
        t.vol == s.vol,
        t.geo == s.geo,
    ensures
        same_volume(s, t),
        ready(s) ==> ready(t),
        linked(s, bm) ==> linked(t, bm),
        forall|d: u32| #[trigger] entry(t, d) == entry(s, d),
        forall|d: u32| #[trigger] data_of(t, d) == data_of(s, d),
        forall|q: int| #[trigger] disk_sec(t, bm, q) == disk_sec(s, bm, q),
        forall|q: int| #[trigger] sec_lba(t, bm, q) == sec_lba(s, bm, q),
{
    reveal(entry);
    reveal(data_of);
    assert forall|d: u32| #[trigger] entry(t, d) == entry(s, d) by {
        assert(t.fat_lba(d, 0) == s.fat_lba(d, 0));
    }
    assert forall|d: u32| #[trigger] data_of(t, d) == data_of(s, d) by {
        assert(t.cluster_lba(d) == s.cluster_lba(d));
    }
    assert forall|q: int| #[trigger] disk_sec(t, bm, q) == disk_sec(s, bm, q) by {
        assert(data_of(t, bm[q / (s.geo.spc as int)]) == data_of(s, bm[q / (s.geo.spc as int)]));
    }
    assert forall|q: int| #[trigger] sec_lba(t, bm, q) == sec_lba(s, bm, q) by {
        assert(t.cluster_lba(bm[q / (s.geo.spc as int)]) == s.cluster_lba(
            bm[q / (s.geo.spc as int)],
        ));
    }
    if ready(s) {
        lemma_ready(s, t);
    }
    if linked(s, bm) {
        lemma_linked(s, t, bm);
    }
}

/// No step.
pub proof fn lemma_map_refl(s: ExfatView, bm: Seq<u32>)
    requires
        ready(s),
        map_ok(s, bm),
    ensures
        map_step(s, s, bm),
        same_secs(s, s, bm),
{
    reveal(entry);
    reveal(data_of);
}

/// The bitmap sector of a cluster brought into memory.
pub proof fn lemma_bmp_fetch(s: ExfatView, bm: Seq<u32>, c: u32)
    requires
        good_geo(s.geo),
        ready(s),
        map_ok(s, bm),
        valid(s.geo, c),
    ensures
        map_step(s, s.bmp_fetch(c).0, bm),
        same_secs(s, s.bmp_fetch(c).0, bm),
        s.bmp_fetch(c).1 ==> s.bmp_fetch(c).0.win == Some(sec_of(c) as u32),
        fits(s, bm) ==> s.bmp_fetch(c).1,
{
    reveal(entry);
    reveal(data_of);
    reveal(ExfatView::bmp_fetch);
    lemma_sec_of(s, bm, c);
    lemma_map_refl(s, bm);
    let k = sec_of(c);
    if s.win != Some(k as u32) {
        lemma_bmp_flush(s, bm);
        let t = s.bmp_flush().0;
        lemma_nth(t, bm, 0, k / (s.geo.spc as int));
        lemma_sec(t, bm, k);
        lemma_fits(s, t, bm);
        assert(t.chain_lba(t.geo.bmp_cl, k as u32) == Some(sec_lba(t, bm, k)));
    }
    if s.win != Some(k as u32) && s.bmp_fetch(c).1 {
        let t = s.bmp_flush().0;
        let u = s.bmp_fetch(c).0;
        lemma_flag(t, u, bm);
        assert forall|q: int| 0 <= q < secs(s, bm) implies #[trigger] sec(u, bm, q) == sec(
            s,
            bm,
            q,
        ) by {
            assert(sec(t, bm, q) == sec(s, bm, q));
            assert(disk_sec(u, bm, q) == disk_sec(t, bm, q));
            if t.win == Some(q as u32) {
                assert(t.win_buf == disk_sec(t, bm, q));
            }
        }
        assert forall|d: u32| valid(s.geo, d) implies #[trigger] entry(u, d) == entry(s, d) by {
            assert(entry(u, d) == entry(t, d));
            assert(entry(t, d) == entry(s, d));
        }
        assert forall|d: u32| valid(s.geo, d) && !bm.contains(d) implies #[trigger] data_of(u, d)
            == data_of(s, d) by {
            assert(data_of(u, d) == data_of(t, d));
            assert(data_of(t, d) == data_of(s, d));
        }
    }
}

/// A bitmap sector that cannot be brought into memory cannot be so the next time.
pub proof fn lemma_fetch_again(s: ExfatView, c: u32)
    ensures
        s.bmp_fetch(c).0.bmp_fetch(c).1 ==> s.bmp_fetch(c).1,
{
    reveal(ExfatView::bmp_fetch);
}

/// The bit of a cluster read, where the bitmap can be.
pub proof fn lemma_bmp_get(s: ExfatView, bm: Seq<u32>, c: u32)
    requires
        good_geo(s.geo),
        ready(s),
        map_ok(s, bm),
        valid(s.geo, c),
    ensures
        s.bmp_get(c).1 ==> used(s, bm, c),
        s.bmp_get(c).0.bmp_fetch(c).1 ==> s.bmp_get(c).1 == used(s, bm, c),
        map_step(s, s.bmp_get(c).0, bm),
        same_secs(s, s.bmp_get(c).0, bm),
{
    reveal(entry);
    reveal(data_of);
    reveal(used);
    reveal(ExfatView::bmp_get);
    lemma_bmp_fetch(s, bm, c);
    lemma_fetch_again(s, c);
    lemma_sec_of(s, bm, c);
    let t = s.bmp_fetch(c).0;
    assert(sec(t, bm, sec_of(c)) == sec(s, bm, sec_of(c)));
}

/// The bit of a cluster is set where the bitmap can be transferred.
pub proof fn lemma_put_works(s: ExfatView, bm: Seq<u32>, c: u32, v: bool)
    requires
        good_geo(s.geo),
        ready(s),
        map_ok(s, bm),
        valid(s.geo, c),
        fits(s, bm),
    ensures
        s.bmp_put(c, v).1,
{
    reveal(ExfatView::bmp_put);
    lemma_bmp_fetch(s, bm, c);
}

/// The bit of a cluster set: no other bit changes.
pub proof fn lemma_bmp_put(s: ExfatView, bm: Seq<u32>, c: u32, v: bool)
    requires
        good_geo(s.geo),
        ready(s),
        map_ok(s, bm),
        valid(s.geo, c),
        s.bmp_put(c, v).1,
    ensures
        map_step(s, s.bmp_put(c, v).0, bm),
        used(s.bmp_put(c, v).0, bm, c) == v,
        forall|d: u32|
            valid(s.geo, d) && d != c ==> #[trigger] used(s.bmp_put(c, v).0, bm, d) == used(
                s,
                bm,
                d,
            ),
{
    reveal(entry);
    reveal(data_of);
    reveal(used);
    reveal(ExfatView::bmp_put);
    lemma_bmp_fetch(s, bm, c);
    let t = s.bmp_fetch(c).0;
    let u = s.bmp_put(c, v).0;
    lemma_flag(t, u, bm);
    lemma_sec_of(s, bm, c);
    let o = (c - 2) / 8 % 512;
    let j = (c - 2) % 8;
    assert(map_step(s, u, bm)) by {
        assert forall|d: u32| valid(s.geo, d) implies #[trigger] entry(u, d) == entry(s, d) by {
            assert(entry(u, d) == entry(t, d));
        }
        assert forall|d: u32| valid(s.geo, d) && !bm.contains(d) implies #[trigger] data_of(u, d)
            == data_of(s, d) by {
            assert(data_of(u, d) == data_of(t, d));
        }
    }
    bytes::law_bit_reads_back(t.win_buf[o], j, v, j);
    assert forall|d: u32| valid(s.geo, d) && d != c implies #[trigger] used(u, bm, d) == used(
        s,
        bm,
        d,
    ) by {
        lemma_sec_of(s, bm, d);
        let k = sec_of(d);
        assert(sec(t, bm, k) == sec(s, bm, k));
        let p = (d - 2) / 8 % 512;
        let i = (d - 2) % 8;
        if k == sec_of(c) {
            if p == o {
                assert(i != j);
                bytes::law_bit_reads_back(t.win_buf[o], j, v, i);
            }
        } else {
            assert(disk_sec(u, bm, k) == disk_sec(t, bm, k));
        }
    }
}

/// A volume in good order: its layout, its table, its bitmap; the clusters of the bitmap are
/// in use.
#[verifier::opaque]
pub open spec fn vol_ok(s: ExfatView, bm: Seq<u32>) -> bool {
    &&& good_geo(s.geo)
    &&& ready(s)
    &&& map_ok(s, bm)
    &&& valid(s.geo, s.hint)
    &&& forall|i: int| 0 <= i < bm.len() ==> used(s, bm, #[trigger] bm[i])
}

/// What a volume in good order has.
pub proof fn lemma_vol(s: ExfatView, bm: Seq<u32>)
    requires
        vol_ok(s, bm),
    ensures
        good_geo(s.geo),
        ready(s),
        map_ok(s, bm),
        s.geo.cb() == 512 * s.geo.spc,
        2 <= s.geo.spc <= 512,
{
    reveal(vol_ok);
    lemma_spc(s.geo);
}

/// What taking a cluster leaves: it is in use and ends a chain; every other entry and bit, and
/// every cluster but those of the bitmap, stays.
pub open spec fn taken(s: ExfatView, t: ExfatView, bm: Seq<u32>, c: u32) -> bool {
    &&& vol_ok(t, bm)
    &&& same_volume(s, t)
    &&& t.now == s.now
    &&& valid(s.geo, c)
    &&& !used(s, bm, c)
    &&& used(t, bm, c)
    &&& entry(t, c) == EXFAT_FAT_EOC
    &&& forall|d: u32| valid(s.geo, d) && d != c ==> #[trigger] entry(t, d) == entry(s, d)
    &&& forall|d: u32| valid(s.geo, d) && d != c ==> #[trigger] used(t, bm, d) == used(s, bm, d)
    &&& forall|d: u32|
        valid(s.geo, d) && !bm.contains(d) ==> #[trigger] data_of(t, d) == data_of(s, d)
}

/// A free cluster taken.
pub proof fn lemma_take(s: ExfatView, bm: Seq<u32>, c: u32)
    requires
        vol_ok(s, bm),
        valid(s.geo, c),
        !used(s, bm, c),
        s.take(c).1,
    ensures
        taken(s, s.take(c).0, bm, c),
{
    reveal(entry);
    reveal(data_of);
    reveal(used);
    reveal(vol_ok);
    reveal(ExfatView::take);
    lemma_bmp_put(s, bm, c, true);
    let s1 = s.bmp_put(c, true).0;
    law_fat_set(s1, c, EXFAT_FAT_EOC);
    let s2 = s1.fat_set(c, EXFAT_FAT_EOC).0;
    lemma_set_map(s1, s2, bm);
    lemma_bmp_flush(s2, bm);
    let s3 = s2.bmp_flush().0;
    let t = s.take(c).0;
    lemma_flag(s3, t, bm);
    assert(map_ok(t, bm)) by {
        assert(sec_lba(t, bm, 0) == sec_lba(s3, bm, 0));
        if t.win is Some {
            let k = t.win->Some_0 as int;
            assert(sec_lba(t, bm, k) == sec_lba(s3, bm, k));
            assert(disk_sec(t, bm, k) == disk_sec(s3, bm, k));
        }
    }
    assert forall|d: u32| valid(s.geo, d) implies #[trigger] used(t, bm, d) == used(s1, bm, d) by {
        lemma_sec_of(s2, bm, d);
        assert(sec(s3, bm, sec_of(d)) == sec(s2, bm, sec_of(d)));
        assert(sec(t, bm, sec_of(d)) == sec(s3, bm, sec_of(d))) by {
            assert(disk_sec(t, bm, sec_of(d)) == disk_sec(s3, bm, sec_of(d)));
        }
        assert(sec(s2, bm, sec_of(d)) == sec(s1, bm, sec_of(d)));
    }
    assert forall|i: int| 0 <= i < bm.len() implies used(t, bm, #[trigger] bm[i]) by {
        assert(valid(s.geo, bm[i]));
        assert(used(s, bm, bm[i]));
        assert(bm[i] != c);
        assert(used(s1, bm, bm[i]) == used(s, bm, bm[i]));
    }
    assert forall|d: u32| valid(s.geo, d) && d != c implies #[trigger] entry(t, d) == entry(
        s,
        d,
    ) by {
        assert(entry(t, d) == entry(s3, d));
        assert(entry(s3, d) == entry(s2, d));
        assert(entry(s2, d) == entry(s1, d));
    }
    assert(entry(t, c) == EXFAT_FAT_EOC) by {
        assert(entry(t, c) == entry(s3, c));
        assert(entry(s3, c) == entry(s2, c));
    }
    assert forall|d: u32| valid(s.geo, d) && d != c implies #[trigger] used(t, bm, d) == used(
        s,
        bm,
        d,
    ) by {
        assert(used(t, bm, d) == used(s1, bm, d));
    }
    assert(used(t, bm, c) == used(s1, bm, c));
    assert forall|d: u32| valid(s.geo, d) && !bm.contains(d) implies #[trigger] data_of(t, d)
        == data_of(s, d) by {
        assert(data_of(t, d) == data_of(s3, d));
        assert(data_of(s3, d) == data_of(s2, d));
        assert(data_of(s2, d) == data_of(s1, d));
    }
}

/// Writes outside the bitmap and its chain: the bitmap stays.
pub proof fn lemma_set_map(s: ExfatView, t: ExfatView, bm: Seq<u32>)
    requires
        good_geo(s.geo),
        map_ok(s, bm),
        ready(t),
        same_state(s, t),
        forall|i: int| 0 <= i < bm.len() ==> entry(t, #[trigger] bm[i]) == entry(s, bm[i]),
        forall|i: int| 0 <= i < bm.len() ==> data_of(t, #[trigger] bm[i]) == data_of(s, bm[i]),
    ensures
        map_ok(t, bm),
        forall|k: int| 0 <= k < secs(s, bm) ==> #[trigger] sec(t, bm, k) == sec(s, bm, k),
{
    reveal(entry);
    reveal(data_of);
    lemma_linked(s, t, bm);
    let spc = s.geo.spc as int;
    lemma_spc(s.geo);
    assert forall|k: int| 0 <= k < secs(s, bm) implies #[trigger] disk_sec(t, bm, k) == disk_sec(
        s,
        bm,
        k,
    ) && sec_lba(t, bm, k) == sec_lba(s, bm, k) by {
        lemma_index(k, bm.len() as int, spc);
        assert(data_of(t, bm[k / spc]) == data_of(s, bm[k / spc]));
        assert(t.cluster_lba(bm[k / spc]) == s.cluster_lba(bm[k / spc]));
    }
    assert forall|k: int| 0 <= k < secs(s, bm) implies #[trigger] sec(t, bm, k) == sec(
        s,
        bm,
        k,
    ) by {
        assert(disk_sec(t, bm, k) == disk_sec(s, bm, k));
    }
    if t.win is Some {
        let k = t.win->Some_0 as int;
        assert(disk_sec(t, bm, k) == disk_sec(s, bm, k));
    }
}

/// A quotient in range.
pub proof fn lemma_index(k: int, n: int, m: int)
    requires
        0 <= k < n * m,
        m > 0,
    ensures
        0 <= k / m < n,
{
    assert(0 <= k / m < n) by (nonlinear_arith)
        requires
            0 <= k < n * m,
            m > 0,
    ;
}

/// The search for a free cluster.
pub proof fn lemma_alloc_from(s: ExfatView, bm: Seq<u32>, start: u32, i: int)
    requires
        vol_ok(s, bm),
        valid(s.geo, start),
        0 <= i,
    ensures
        s.alloc_from(start, i).1 matches Some(c) ==> taken(s, s.alloc_from(start, i).0, bm, c),
    decreases s.geo.count - i,
{
    reveal(entry);
    reveal(data_of);
    reveal(used);
    reveal(vol_ok);
    if i < s.geo.count {
        let c = s.candidate(start, i);
        let n = s.geo.count as int;
        assert(0 <= (start - 2 + i) % n < n) by (nonlinear_arith)
            requires
                n > 0,
        ;
        assert(valid(s.geo, c));
        lemma_bmp_get(s, bm, c);
        let (t, u) = s.bmp_get(c);
        assert forall|d: u32| valid(s.geo, d) implies #[trigger] used(t, bm, d) == used(
            s,
            bm,
            d,
        ) by {
            lemma_same_used(s, t, bm, d);
        }
        assert(vol_ok(t, bm)) by {
            assert forall|j: int| 0 <= j < bm.len() implies used(t, bm, #[trigger] bm[j]) by {
                assert(valid(s.geo, bm[j]));
                assert(used(s, bm, bm[j]));
                assert(used(t, bm, bm[j]) == used(s, bm, bm[j]));
            }
        }
        if u {
            lemma_alloc_from(t, bm, start, i + 1);
            let (x, r) = t.alloc_from(start, i + 1);
            if r is Some {
                lemma_taken_from(s, t, x, bm, r->Some_0);
            }
        } else if t.take(c).1 {
            assert(t.bmp_fetch(c).1) by {
                reveal(ExfatView::take);
                reveal(ExfatView::bmp_put);
            }
            assert(used(t, bm, c) == used(s, bm, c));
            lemma_take(t, bm, c);
            lemma_taken_from(s, t, t.take(c).0, bm, c);
        }
    }
}

/// Taking a cluster after a look at the bitmap.
pub proof fn lemma_taken_from(s: ExfatView, t: ExfatView, u: ExfatView, bm: Seq<u32>, c: u32)
    requires
        map_step(s, t, bm),
        forall|d: u32| valid(s.geo, d) ==> #[trigger] used(t, bm, d) == used(s, bm, d),
        taken(t, u, bm, c),
    ensures
        taken(s, u, bm, c),
{
    reveal(entry);
    reveal(data_of);
    reveal(used);
    reveal(vol_ok);
    assert(used(t, bm, c) == used(s, bm, c));
    assert forall|d: u32| valid(s.geo, d) && d != c implies #[trigger] entry(u, d) == entry(
        s,
        d,
    ) by {
        assert(entry(u, d) == entry(t, d));
        assert(entry(t, d) == entry(s, d));
    }
    assert forall|d: u32| valid(s.geo, d) && d != c implies #[trigger] used(u, bm, d) == used(
        s,
        bm,
        d,
    ) by {
        assert(used(u, bm, d) == used(t, bm, d));
        assert(used(t, bm, d) == used(s, bm, d));
    }
    assert forall|d: u32| valid(s.geo, d) && !bm.contains(d) implies #[trigger] data_of(u, d)
        == data_of(s, d) by {
        assert(data_of(u, d) == data_of(t, d));
        assert(data_of(t, d) == data_of(s, d));
    }
}

/// Law: a cluster is only ever taken that the bitmap shows as free. It is in use from then on
/// and ends a chain; every other cluster stays as it was.
pub proof fn law_alloc_takes_free(s: ExfatView, bm: Seq<u32>)
    requires
        vol_ok(s, bm),
    ensures
        s.alloc_cluster().1 matches Some(c) ==> taken(s, s.alloc_cluster().0, bm, c),
{
    reveal(entry);
    reveal(data_of);
    reveal(used);
    reveal(vol_ok);
    reveal(ExfatView::alloc_cluster);
    lemma_alloc_from(s, bm, s.hint, 0);
}

} // verus!
