//! What holds of files on FAT32 volumes: what a write leaves, and what a read gives back.
use vstd::prelude::*;

use crate::bytes;
use crate::disk;
use crate::fat::{Fat32Bpb, FatView, FAT_EOC, FAT_EOC_MIN};
use crate::fat_file::{OpenNode, WritePlan, MAX_CHAIN};
use crate::tmpfs;

verus! {

/// The layout of a real volume: the copies of the table and the clusters lie one after the
/// other inside it, and the table has an entry for each cluster.
pub open spec fn good_geo(b: Fat32Bpb) -> bool {
    &&& b.wf()
    &&& b.num_fats >= 1
    &&& b.reserved_sectors + b.num_fats * b.fat_size <= b.total_sectors
    &&& b.clusters() + 2 <= 128 * b.fat_size
    &&& b.clusters() + 2 <= 0x0FFF_FFF7
}

/// The numbers of clusters.
pub open spec fn valid(b: Fat32Bpb, c: u32) -> bool {
    2 <= c < b.clusters() + 2
}

/// The volume has all clusters, and every sector of the table can be transferred. (Where one
/// cannot be read the service goes on with the sector that it read last, so that nothing holds
/// of what it does then.)
pub open spec fn ready(s: FatView, b: Fat32Bpb) -> bool {
    &&& s.store.wf()
    &&& s.cur < s.store.disks.len()
    &&& forall|k: int, c: u32|
        0 <= k < b.num_fats && valid(b, c) ==> s.store.can(
            s.cur,
            #[trigger] b.fat_sector(k, c) as int,
            1,
        )
    &&& forall|c: u32|
        valid(b, c) ==> s.store.has(s.cur, #[trigger] b.sector_of(c) as int, b.spc())
}

/// Cluster `c` can be transferred.
pub open spec fn fit(s: FatView, b: Fat32Bpb, c: u32) -> bool {
    s.store.can(s.cur, b.sector_of(c) as int, b.spc())
}

/// All clusters of a chain can be transferred.
pub open spec fn fits(s: FatView, b: Fat32Bpb, ch: Seq<u32>) -> bool {
    forall|i: int| 0 <= i < ch.len() ==> fit(s, b, #[trigger] ch[i])
}

/// The same volume is current, and the same sectors of it can be transferred.
pub open spec fn same_volume(s: FatView, t: FatView) -> bool {
    &&& t.cur == s.cur
    &&& t.store.disks.len() == s.store.disks.len()
    &&& t.store.disks[s.cur as int].ok == s.store.disks[s.cur as int].ok
}

/// What can be transferred stays so.
pub proof fn lemma_fit(s: FatView, t: FatView, b: Fat32Bpb, c: u32)
    requires
        same_volume(s, t),
    ensures
        fit(t, b, c) == fit(s, b, c),
{
}

/// What can be transferred of a chain stays so.
pub proof fn lemma_fits(s: FatView, t: FatView, b: Fat32Bpb, ch: Seq<u32>)
    requires
        same_volume(s, t),
    ensures
        fits(s, b, ch) ==> fits(t, b, ch),
{
    if fits(s, b, ch) {
        assert forall|i: int| 0 <= i < ch.len() implies fit(t, b, #[trigger] ch[i]) by {
            assert(fit(s, b, ch[i]));
            lemma_fit(s, t, b, ch[i]);
        }
    }
}

/// The table entry of a cluster.
pub open spec fn entry(s: FatView, b: Fat32Bpb, c: u32) -> u32 {
    bytes::le32(s.store.get(s.cur, b.fat_sector(0, c) as int, 1), Fat32Bpb::fat_off(c))
        & 0x0FFF_FFFF
}

/// The bytes of a cluster.
pub open spec fn data_of(s: FatView, b: Fat32Bpb, c: u32) -> Seq<u8> {
    s.store.get(s.cur, b.sector_of(c) as int, b.spc())
}

/// The search for free clusters starts at one.
pub open spec fn good_hint(s: FatView, b: Fat32Bpb) -> bool {
    b.clusters() >= 1 && s.hint < b.clusters() + 2
}

/// Where the table and the clusters are.
pub proof fn lemma_geo(b: Fat32Bpb, k: int, c: u32)
    requires
        good_geo(b),
        valid(b, c),
        0 <= k < b.num_fats,
    ensures
        b.cb() == 512 * b.spc(),
        1 <= b.spc() <= 128,
        b.data_start() == b.reserved_sectors + b.num_fats * b.fat_size,
        b.fat_sector(k, c) == b.reserved_sectors + k * b.fat_size + c as int / 128,
        b.fat_sector(k, c) < b.data_start(),
        b.sector_of(c) == b.data_start() + (c - 2) * b.spc(),
        b.sector_of(c) + b.spc() <= b.data_start() + b.clusters() * b.spc(),
        b.data_start() + b.clusters() * b.spc() <= b.total_sectors,
{
    let nf = b.num_fats as int;
    let fs = b.fat_size as int;
    let spc = b.spc();
    let cl = b.clusters() as int;
    let room = b.total_sectors - b.data_start();
    assert(k * fs + fs <= nf * fs) by (nonlinear_arith)
        requires
            0 <= k,
            k + 1 <= nf,
            0 <= fs,
    ;
    assert(0 <= k * fs) by (nonlinear_arith)
        requires
            0 <= k,
            0 <= fs,
    ;
    assert(c as int / 128 < fs);
    assert(cl == room / spc);
    assert(cl * spc <= room) by (nonlinear_arith)
        requires
            cl == room / spc,
            spc > 0,
            room >= 0,
    ;
    let x = c - 2;
    assert(0 <= x * spc && x * spc + spc <= cl * spc) by (nonlinear_arith)
        requires
            0 <= x,
            x + 1 <= cl,
            spc > 0,
    ;
}

/// Different clusters share no sector, and none with the table.
pub proof fn lemma_apart(b: Fat32Bpb, c: u32, d: u32)
    requires
        good_geo(b),
        valid(b, c),
        valid(b, d),
        c != d,
    ensures
        b.sector_of(c) + b.spc() <= b.sector_of(d) || b.sector_of(d) + b.spc() <= b.sector_of(c),
{
    lemma_geo(b, 0, c);
    lemma_geo(b, 0, d);
    let spc = b.spc();
    let x = c - 2;
    let y = d - 2;
    if x < y {
        assert(x * spc + spc <= y * spc) by (nonlinear_arith)
            requires
                x + 1 <= y,
                spc > 0,
        ;
    } else {
        assert(y * spc + spc <= x * spc) by (nonlinear_arith)
            requires
                y + 1 <= x,
                spc > 0,
        ;
    }
}

/// The same sector of different copies of the table.
pub proof fn lemma_copies_apart(b: Fat32Bpb, j: int, k: int, c: u32)
    requires
        good_geo(b),
        valid(b, c),
        0 <= j < k < b.num_fats,
    ensures
        b.fat_sector(j, c) < b.fat_sector(k, c),
{
    lemma_geo(b, j, c);
    lemma_geo(b, k, c);
    let fs = b.fat_size as int;
    assert(j * fs + fs <= k * fs) by (nonlinear_arith)
        requires
            j + 1 <= k,
            fs >= 1,
    ;
}

/// What a successful write leaves of a run of sectors.
pub proof fn lemma_wr(s: FatView, sector: u32, data: Seq<u8>, lba: u32, n: int)
    requires
        s.store.wf(),
        data.len() % 512 == 0,
        s.store.can(s.cur, sector as int, data.len() as int / 512),
    ensures
        s.wr(sector, data).1,
        s.wr(sector, data).0.store.wf(),
        same_volume(s, s.wr(sector, data).0),
        s.wr(sector, data).0.hint == s.hint,
        s.wr(sector, data).0.fat_buf == s.fat_buf,
        s.wr(sector, data).0.store.get(s.cur, sector as int, data.len() as int / 512) == data,
        s.store.has(s.cur, lba as int, n) && (lba + n <= sector || sector + data.len() as int / 512
            <= lba) ==> s.wr(sector, data).0.store.get(s.cur, lba as int, n) == s.store.get(
            s.cur,
            lba as int,
            n,
        ),
{
    disk::lemma_write_wf(s.store, s.cur, sector, data);
    disk::law_read_after_write(s.store, s.cur, sector, data);
    if s.store.has(s.cur, lba as int, n) && (lba + n <= sector || sector + data.len() as int / 512
        <= lba) {
        disk::lemma_get_kept(s.store, s.cur, sector, data, lba as int, n);
    }
}

/// A write keeps the volume ready.
pub proof fn lemma_wr_ready(s: FatView, b: Fat32Bpb, sector: u32, data: Seq<u8>)
    requires
        ready(s, b),
        data.len() % 512 == 0,
        s.store.can(s.cur, sector as int, data.len() as int / 512),
    ensures
        ready(s.wr(sector, data).0, b),
{
    lemma_wr(s, sector, data, 0, 1);
    lemma_ready(s, s.wr(sector, data).0, b);
}

/// The same volume is as ready.
pub proof fn lemma_ready(s: FatView, t: FatView, b: Fat32Bpb)
    requires
        ready(s, b),
        same_volume(s, t),
        t.store.wf(),
    ensures
        ready(t, b),
{
    assert forall|k: int, c: u32| 0 <= k < b.num_fats && valid(b, c) implies t.store.can(
        t.cur,
        #[trigger] b.fat_sector(k, c) as int,
        1,
    ) by {
        assert(s.store.can(s.cur, b.fat_sector(k, c) as int, 1));
    }
    assert forall|c: u32| valid(b, c) implies t.store.has(
        t.cur,
        #[trigger] b.sector_of(c) as int,
        b.spc(),
    ) by {
        assert(s.store.has(s.cur, b.sector_of(c) as int, b.spc()));
    }
}

/// A sector has 512 bytes.
pub proof fn lemma_sector_len(s: FatView, lba: int, n: int)
    requires
        s.store.wf(),
        s.store.has(s.cur, lba, n),
    ensures
        s.store.get(s.cur, lba, n).len() == 512 * n,
{
}

/// The buffered sector written to the copies from `k` on: those copies hold it, nothing else
/// changes.
pub proof fn lemma_put_copies(s: FatView, b: Fat32Bpb, c: u32, k: int)
    requires
        good_geo(b),
        ready(s, b),
        valid(b, c),
        s.fat_buf.len() == 512,
        0 <= k <= b.num_fats,
    ensures
        s.put_copies(b, c, k).1,
        ready(s.put_copies(b, c, k).0, b),
        same_volume(s, s.put_copies(b, c, k).0),
        s.put_copies(b, c, k).0.hint == s.hint,
        forall|j: int|
            k <= j < b.num_fats ==> s.put_copies(b, c, k).0.store.get(
                s.cur,
                #[trigger] b.fat_sector(j, c) as int,
                1,
            ) == s.fat_buf,
        forall|lba: u32, n: int|
            s.store.has(s.cur, lba as int, n) && (forall|j: int|
                k <= j < b.num_fats ==> lba + n <= #[trigger] b.fat_sector(j, c) || b.fat_sector(
                    j,
                    c,
                ) < lba) ==> s.put_copies(b, c, k).0.store.get(s.cur, lba as int, n)
                == #[trigger] s.store.get(s.cur, lba as int, n),
    decreases b.num_fats - k,
{
    if k < b.num_fats {
        let t = s.wr(b.fat_sector(k, c), s.fat_buf).0;
        lemma_wr(s, b.fat_sector(k, c), s.fat_buf, 0, 1);
        lemma_wr_ready(s, b, b.fat_sector(k, c), s.fat_buf);
        lemma_put_copies(t, b, c, k + 1);
        let u = s.put_copies(b, c, k).0;
        assert(u == t.put_copies(b, c, k + 1).0);
        assert forall|j: int| k <= j < b.num_fats implies u.store.get(
            s.cur,
            #[trigger] b.fat_sector(j, c) as int,
            1,
        ) == s.fat_buf by {
            if j == k {
                assert forall|i: int| k + 1 <= i < b.num_fats implies b.fat_sector(k, c) + 1
                    <= #[trigger] b.fat_sector(i, c) by {
                    lemma_copies_apart(b, k, i, c);
                }
                assert(t.store.can(t.cur, b.fat_sector(k, c) as int, 1));
                assert(t.store.get(s.cur, b.fat_sector(k, c) as int, 1) == s.fat_buf);
            }
        }
        assert forall|lba: u32, n: int|
            s.store.has(s.cur, lba as int, n) && (forall|j: int|
                k <= j < b.num_fats ==> lba + n <= #[trigger] b.fat_sector(j, c) || b.fat_sector(
                    j,
                    c,
                ) < lba) implies u.store.get(s.cur, lba as int, n) == #[trigger] s.store.get(
            s.cur,
            lba as int,
            n,
        ) by {
            assert(lba + n <= b.fat_sector(k, c) || b.fat_sector(k, c) < lba);
            lemma_wr(s, b.fat_sector(k, c), s.fat_buf, lba, n);
            assert(t.store.has(t.cur, lba as int, n));
            assert(t.store.get(s.cur, lba as int, n) == s.store.get(s.cur, lba as int, n));
        }
    }
}

/// Masks of table entries.
pub proof fn lemma_mask(old: u32, v: u32)
    ensures
        (((old & 0xF000_0000) | (v & 0x0FFF_FFFF)) & 0x0FFF_FFFF) == v & 0x0FFF_FFFF,
        v <= 0x0FFF_FFFF ==> v & 0x0FFF_FFFF == v,
{
    assert((((old & 0xF000_0000) | (v & 0x0FFF_FFFF)) & 0x0FFF_FFFF) == v & 0x0FFF_FFFF)
        by (bit_vector);
    assert(v <= 0x0FFF_FFFF ==> v & 0x0FFF_FFFF == v) by (bit_vector);
}

/// A field that another one does not touch.
pub proof fn lemma_field_apart(s: Seq<u8>, o: int, v: u32, o2: int)
    requires
        0 <= o <= s.len() - 4,
        0 <= o2 <= s.len() - 4,
        o2 + 4 <= o || o + 4 <= o2,
    ensures
        bytes::le32(bytes::put32(s, o, v), o2) == bytes::le32(s, o2),
{
}

/// Law: a table entry reads back as it was set, every other entry and every cluster stays as
/// it was, and all copies of the table agree on the sector changed.
pub proof fn law_fat_set(s: FatView, b: Fat32Bpb, c: u32, v: u32)
    requires
        good_geo(b),
        ready(s, b),
        valid(b, c),
    ensures
        s.fat_set(b, c, v).1,
        ready(s.fat_set(b, c, v).0, b),
        same_volume(s, s.fat_set(b, c, v).0),
        s.fat_set(b, c, v).0.hint == s.hint,
        entry(s.fat_set(b, c, v).0, b, c) == v & 0x0FFF_FFFF,
        forall|d: u32|
            valid(b, d) && d != c ==> #[trigger] entry(s.fat_set(b, c, v).0, b, d) == entry(
                s,
                b,
                d,
            ),
        forall|d: u32|
            valid(b, d) ==> #[trigger] data_of(s.fat_set(b, c, v).0, b, d) == data_of(s, b, d),
        forall|j: int|
            0 <= j < b.num_fats ==> s.fat_set(b, c, v).0.store.get(
                s.cur,
                #[trigger] b.fat_sector(j, c) as int,
                1,
            ) == s.fat_set(b, c, v).0.store.get(s.cur, b.fat_sector(0, c) as int, 1),
{
    lemma_geo(b, 0, c);
    let sec = s.store.get(s.cur, b.fat_sector(0, c) as int, 1);
    assert(s.store.can(s.cur, b.fat_sector(0, c) as int, 1));
    lemma_sector_len(s, b.fat_sector(0, c) as int, 1);
    let o = Fat32Bpb::fat_off(c);
    let e = (bytes::le32(sec, o) & 0xF000_0000) | (v & 0x0FFF_FFFF);
    let t = FatView { fat_buf: bytes::put32(sec, o, e), ..s };
    lemma_put_copies(t, b, c, 0);
    let u = s.fat_set(b, c, v).0;
    assert(u == t.put_copies(b, c, 0).0);
    lemma_mask(bytes::le32(sec, o), v);
    bytes::law_put32_reads_back(sec, o, e);
    assert(u.store.get(s.cur, b.fat_sector(0, c) as int, 1) == t.fat_buf);
    assert forall|d: u32| valid(b, d) && d != c implies #[trigger] entry(u, b, d) == entry(
        s,
        b,
        d,
    ) by {
        lemma_geo(b, 0, d);
        let f = b.fat_sector(0, d);
        assert(s.store.can(s.cur, f as int, 1));
        if c / 128 == d / 128 {
            lemma_field_apart(sec, o, e, Fat32Bpb::fat_off(d));
        } else {
            assert forall|j: int| 0 <= j < b.num_fats implies f + 1 <= #[trigger] b.fat_sector(j, c)
                || b.fat_sector(j, c) < f by {
                lemma_geo(b, j, c);
                lemma_table_apart(b, j, c, d);
            }
            assert(u.store.get(s.cur, f as int, 1) == s.store.get(s.cur, f as int, 1));
        }
    }
    assert forall|d: u32| valid(b, d) implies #[trigger] data_of(u, b, d) == data_of(s, b, d) by {
        lemma_geo(b, 0, d);
        let f = b.sector_of(d);
        assert(s.store.has(s.cur, f as int, b.spc()));
        assert forall|j: int| 0 <= j < b.num_fats implies f + b.spc() <= #[trigger] b.fat_sector(
            j,
            c,
        ) || b.fat_sector(j, c) < f by {
            lemma_geo(b, j, c);
            assert(0 <= (d - 2) * b.spc()) by (nonlinear_arith)
                requires
                    d >= 2,
                    b.spc() >= 0,
            ;
        }
        assert(u.store.get(s.cur, f as int, b.spc()) == s.store.get(s.cur, f as int, b.spc()));
    }
}

/// Table sectors of clusters in different sectors of the table, in any copies.
pub proof fn lemma_table_apart(b: Fat32Bpb, j: int, c: u32, d: u32)
    requires
        good_geo(b),
        valid(b, c),
        valid(b, d),
        0 <= j < b.num_fats,
        c as int / 128 != d as int / 128,
    ensures
        b.fat_sector(j, c) != b.fat_sector(0, d),
{
    lemma_geo(b, j, c);
    lemma_geo(b, 0, d);
    let fs = b.fat_size as int;
    if j >= 1 {
        assert(fs <= j * fs) by (nonlinear_arith)
            requires
                j >= 1,
                fs >= 0,
        ;
        assert(d as int / 128 < fs);
    }
}

/// Reading an entry.
pub proof fn lemma_fat_get(s: FatView, b: Fat32Bpb, c: u32)
    requires
        ready(s, b),
        valid(b, c),
        b.num_fats >= 1,
    ensures
        s.fat_get(b, c).1 == entry(s, b, c),
        s.fat_get(b, c).0 == (FatView { fat_buf: s.fat_get(b, c).0.fat_buf, ..s }),
        ready(s.fat_get(b, c).0, b),
{
    assert(s.store.can(s.cur, b.fat_sector(0, c) as int, 1));
}

/// A cluster written reads back; every other cluster and every table entry stays.
pub proof fn lemma_put_cluster(s: FatView, b: Fat32Bpb, c: u32, data: Seq<u8>)
    requires
        good_geo(b),
        ready(s, b),
        valid(b, c),
        data.len() == b.cb(),
        s.put_cluster(b, c, data).1,
    ensures
        fit(s, b, c),
        ready(s.put_cluster(b, c, data).0, b),
        same_volume(s, s.put_cluster(b, c, data).0),
        s.put_cluster(b, c, data).0.hint == s.hint,
        data_of(s.put_cluster(b, c, data).0, b, c) == data,
        forall|d: u32|
            valid(b, d) && d != c ==> #[trigger] data_of(s.put_cluster(b, c, data).0, b, d)
                == data_of(s, b, d),
        forall|d: u32|
            valid(b, d) ==> #[trigger] entry(s.put_cluster(b, c, data).0, b, d) == entry(s, b, d),
{
    lemma_geo(b, 0, c);
    let t = s.put_cluster(b, c, data).0;
    assert(fit(s, b, c));
    lemma_wr(s, b.sector_of(c), data, 0, 1);
    lemma_wr_ready(s, b, b.sector_of(c), data);
    assert forall|d: u32| valid(b, d) && d != c implies #[trigger] data_of(t, b, d) == data_of(
        s,
        b,
        d,
    ) by {
        lemma_apart(b, c, d);
        assert(s.store.has(s.cur, b.sector_of(d) as int, b.spc()));
        lemma_wr(s, b.sector_of(c), data, b.sector_of(d), b.spc());
    }
    assert forall|d: u32| valid(b, d) implies #[trigger] entry(t, b, d) == entry(s, b, d) by {
        lemma_geo(b, 0, d);
        assert(0 <= (c - 2) * b.spc()) by (nonlinear_arith)
            requires
                c >= 2,
                b.spc() >= 0,
        ;
        assert(s.store.can(s.cur, b.fat_sector(0, d) as int, 1));
        lemma_wr(s, b.sector_of(c), data, b.fat_sector(0, d), 1);
    }
}

/// A chain in the table: valid clusters, all different, each entry names the next, the last
/// ends the chain.
pub open spec fn linked(s: FatView, b: Fat32Bpb, ch: Seq<u32>) -> bool {
    &&& ch.no_duplicates()
    &&& forall|i: int| 0 <= i < ch.len() ==> valid(b, #[trigger] ch[i])
    &&& forall|i: int| 0 <= i < ch.len() - 1 ==> entry(s, b, #[trigger] ch[i]) == ch[i + 1]
    &&& ch.len() > 0 ==> entry(s, b, ch.last()) >= FAT_EOC_MIN
}

/// The chain of a file, which is empty where the file has no first cluster.
pub open spec fn chain_of(s: FatView, b: Fat32Bpb, start: u32, ch: Seq<u32>) -> bool {
    &&& linked(s, b, ch)
    &&& ch.len() <= MAX_CHAIN
    &&& if ch.len() == 0 {
        start == 0
    } else {
        start == ch[0]
    }
}

/// The first `size` bytes of a chain.
pub open spec fn content(s: FatView, b: Fat32Bpb, ch: Seq<u32>, size: int) -> Seq<u8> {
    Seq::new(size as nat, |pos: int| data_of(s, b, ch[pos / b.cb()])[pos % b.cb()])
}

/// Walking the chain collects it.
pub proof fn lemma_chain_from(s: FatView, b: Fat32Bpb, ch: Seq<u32>, k: int)
    requires
        good_geo(b),
        ready(s, b),
        linked(s, b, ch),
        ch.len() <= MAX_CHAIN,
        0 <= k < ch.len(),
    ensures
        s.chain_from(b, ch[k], ch.subrange(0, k)).1 == Some(ch),
        s.chain_from(b, ch[k], ch.subrange(0, k)).0 == (FatView {
            fat_buf: s.chain_from(b, ch[k], ch.subrange(0, k)).0.fat_buf,
            ..s
        }),
    decreases ch.len() - k,
{
    let c = ch[k];
    assert(valid(b, c));
    lemma_fat_get(s, b, c);
    let (t, next) = s.fat_get(b, c);
    assert(ch.subrange(0, k).push(c) =~= ch.subrange(0, k + 1));
    if k + 1 < ch.len() {
        assert(next == ch[k + 1]);
        lemma_same_table(s, t, b, ch);
        lemma_chain_from(t, b, ch, k + 1);
    } else {
        reveal_with_fuel(FatView::chain_from, 2);
        assert(ch.subrange(0, k + 1) =~= ch);
        assert(c == ch.last());
    }
}

/// What depends on the volume alone.
pub proof fn lemma_same_table(s: FatView, t: FatView, b: Fat32Bpb, ch: Seq<u32>)
    requires
        linked(s, b, ch),
        t.store == s.store,
        t.cur == s.cur,
    ensures
        linked(t, b, ch),
{
    assert forall|i: int| 0 <= i < ch.len() - 1 implies entry(t, b, #[trigger] ch[i]) == ch[i
        + 1] by {
        assert(entry(s, b, ch[i]) == ch[i + 1]);
    }
}

/// Quotient and remainder of a position.
pub proof fn lemma_pos(i: int, k: int, cb: int)
    requires
        0 <= k < cb,
        0 <= i,
    ensures
        (i * cb + k) / cb == i,
        (i * cb + k) % cb == k,
{
    vstd::arithmetic::div_mod::lemma_fundamental_div_mod_converse(i * cb + k, cb, i, k);
}

/// A position lies in the cluster that its quotient names.
pub proof fn lemma_div(pos: int, cb: int)
    requires
        0 <= pos,
        0 < cb,
    ensures
        0 <= pos / cb,
        pos / cb * cb <= pos < pos / cb * cb + cb,
        pos % cb == pos - pos / cb * cb,
{
    vstd::arithmetic::div_mod::lemma_fundamental_div_mod(pos, cb);
    vstd::arithmetic::div_mod::lemma_div_pos_is_pos(pos, cb);
    assert(cb * (pos / cb) == pos / cb * cb) by (nonlinear_arith);
}

/// Fewer whole clusters take no more room.
pub proof fn lemma_mono(i: int, j: int, cb: int)
    requires
        i <= j,
        0 <= cb,
    ensures
        i * cb <= j * cb,
        (i + 1) * cb == i * cb + cb,
{
    assert(i * cb <= j * cb) by (nonlinear_arith)
        requires
            i <= j,
            0 <= cb,
    ;
    assert((i + 1) * cb == i * cb + cb) by (nonlinear_arith);
}

/// Going to an offset inside a chain.
pub proof fn lemma_skip_to(s: FatView, b: Fat32Bpb, ch: Seq<u32>, k: int, offset: int)
    requires
        good_geo(b),
        ready(s, b),
        linked(s, b, ch),
        0 <= k < ch.len(),
        k * b.cb() <= offset < ch.len() * b.cb(),
    ensures
        s.skip_to(b, ch[k], k * b.cb(), offset).1 == Some(
            (ch[offset / b.cb()], offset / b.cb() * b.cb()),
        ),
        s.skip_to(b, ch[k], k * b.cb(), offset).0 == (FatView {
            fat_buf: s.skip_to(b, ch[k], k * b.cb(), offset).0.fat_buf,
            ..s
        }),
    decreases ch.len() - k,
{
    let cb = b.cb();
    let c = ch[k];
    assert(valid(b, c));
    lemma_geo(b, 0, c);
    lemma_mono(k, k, cb);
    if k * cb + cb > offset {
        lemma_pos(k, offset - k * cb, cb);
    } else {
        if k + 1 >= ch.len() {
            lemma_mono(ch.len() as int, k + 1, cb);
        }
        lemma_fat_get(s, b, c);
        let (t, next) = s.fat_get(b, c);
        assert(next == ch[k + 1]);
        assert(valid(b, ch[k + 1]));
        lemma_same_table(s, t, b, ch);
        lemma_skip_to(t, b, ch, k + 1, offset);
    }
}

/// A part of one cluster of a chain.
proof fn lemma_part(s: FatView, b: Fat32Bpb, ch: Seq<u32>, k: int, skip: int, take: int, size: int)
    requires
        0 <= k,
        0 <= skip,
        0 <= take,
        skip + take <= b.cb(),
        k * b.cb() + skip + take <= size,
        data_of(s, b, ch[k]).len() == b.cb(),
    ensures
        data_of(s, b, ch[k]).subrange(skip, skip + take) == content(s, b, ch, size).subrange(
            k * b.cb() + skip,
            k * b.cb() + skip + take,
        ),
{
    let cb = b.cb();
    assert(0 <= k * cb) by (nonlinear_arith)
        requires
            0 <= k,
            0 <= cb,
    ;
    let all = content(s, b, ch, size);
    let part = data_of(s, b, ch[k]).subrange(skip, skip + take);
    let from = k * cb + skip;
    assert forall|x: int| 0 <= x < take implies part[x] == all.subrange(from, from + take)[x] by {
        lemma_pos(k, skip + x, cb);
        assert(from + x == k * cb + (skip + x));
    }
    assert(part =~= all.subrange(from, from + take));
}

/// The buffered sector of the table plays no part in what a chain holds.
proof fn lemma_buffer_content(s: FatView, t: FatView, b: Fat32Bpb, ch: Seq<u32>, size: int)
    requires
        t.store == s.store,
        t.cur == s.cur,
    ensures
        content(t, b, ch, size) == content(s, b, ch, size),
{
    assert(content(t, b, ch, size) =~= content(s, b, ch, size));
}

/// Reading on along a chain gives its contents.
#[verifier::spinoff_prover]
#[verifier::rlimit(60)]
pub proof fn lemma_gather(
    s: FatView,
    b: Fat32Bpb,
    ch: Seq<u32>,
    k: int,
    offset: int,
    want: int,
    out: Seq<u8>,
    size: int,
)
    requires
        good_geo(b),
        ready(s, b),
        linked(s, b, ch),
        0 <= k < ch.len(),
        0 <= offset,
        0 < want,
        out.len() < want,
        offset + want <= size <= ch.len() * b.cb(),
        k * b.cb() <= offset + out.len() < (k + 1) * b.cb(),
        out.len() > 0 ==> offset + out.len() == k * b.cb(),
    ensures
        s.gather(b, ch[k], k * b.cb(), offset, want, out).1 matches Some(v) ==> v == out + content(
            s,
            b,
            ch,
            size,
        ).subrange(offset + out.len(), offset + want),
        fits(s, b, ch) ==> s.gather(b, ch[k], k * b.cb(), offset, want, out).1 is Some,
    decreases ch.len() - k,
{
    let cb = b.cb();
    let c = ch[k];
    let all = content(s, b, ch, size);
    assert(valid(b, c));
    lemma_geo(b, 0, c);
    lemma_mono(k, k, cb);
    let at = k * cb;
    let skip = if offset > at {
        offset - at
    } else {
        0
    };
    assert(skip == offset + out.len() - at);
    let take = if want - out.len() < cb - skip {
        want - out.len()
    } else {
        cb - skip
    };
    assert(s.store.has(s.cur, b.sector_of(c) as int, b.spc()));
    let d = data_of(s, b, c);
    lemma_sector_len(s, b.sector_of(c) as int, b.spc());
    assert(fits(s, b, ch) ==> fit(s, b, c));
    let part = d.subrange(skip, skip + take);
    let out2 = out + part;
    let from = offset + out.len();
    lemma_part(s, b, ch, k, skip, take, size);
    assert(part == all.subrange(from, from + take));
    if out2.len() >= want {
        assert(out2 =~= out + all.subrange(from, offset + want));
    } else {
        assert(take == cb - skip);
        assert(offset + out2.len() == (k + 1) * cb);
        if k + 1 >= ch.len() {
            lemma_mono(ch.len() as int, k + 1, cb);
        }
        lemma_fat_get(s, b, c);
        let (t, next) = s.fat_get(b, c);
        assert(next == ch[k + 1]);
        assert(valid(b, ch[k + 1]));
        lemma_same_table(s, t, b, ch);
        lemma_fits(s, t, b, ch);
        lemma_mono(k + 1, k + 1, cb);
        lemma_gather(t, b, ch, k + 1, offset, want, out2, size);
        lemma_buffer_content(s, t, b, ch, size);
        assert(out2 + all.subrange(offset + out2.len(), offset + want) =~= out + all.subrange(
            from,
            offset + want,
        ));
    }
}

/// Law: reading a file gives the bytes of its chain from the offset on, as many as were
/// asked for and the file has, or fails; it does not fail where the clusters of the chain can be
/// transferred.
pub proof fn law_read_gives_content(
    s: FatView,
    b: Fat32Bpb,
    start: u32,
    ch: Seq<u32>,
    size: u32,
    offset: u32,
    count: u32,
)
    requires
        good_geo(b),
        ready(s, b),
        chain_of(s, b, start, ch),
        size <= ch.len() * b.cb(),
    ensures
        s.read_range(b, start, size, offset, count).1 matches Some(v) ==> v == if offset >= size {
            Seq::empty()
        } else {
            content(s, b, ch, size as int).subrange(
                offset as int,
                if count < size - offset {
                    offset + count
                } else {
                    size as int
                },
            )
        },
        fits(s, b, ch) ==> s.read_range(b, start, size, offset, count).1 is Some,
{
    if offset < size {
        let cb = b.cb();
        let want = if count < size - offset {
            count as int
        } else {
            size - offset
        };
        assert(ch.len() > 0) by {
            if ch.len() == 0 {
                assert(ch.len() * cb == 0) by (nonlinear_arith)
                    requires
                        ch.len() == 0,
                ;
            }
        }
        assert(valid(b, ch[0]));
        lemma_geo(b, 0, ch[0]);
        assert(0 * cb == 0) by (nonlinear_arith);
        lemma_skip_to(s, b, ch, 0, offset as int);
        let (t, at) = s.skip_to(b, start, 0, offset as int);
        lemma_same_table(s, t, b, ch);
        lemma_fits(s, t, b, ch);
        lemma_div(offset as int, cb);
        let k = offset as int / cb;
        lemma_mono(k, k, cb);
        if k >= ch.len() {
            lemma_mono(ch.len() as int, k, cb);
        }
        let all = content(s, b, ch, size as int);
        if want == 0 {
            assert(all.subrange(offset as int, offset as int) =~= Seq::empty());
        } else {
            lemma_gather(t, b, ch, k, offset as int, want, Seq::empty(), size as int);
            assert(content(t, b, ch, size as int) =~= all) by {
                assert forall|p: int| 0 <= p < size implies content(t, b, ch, size as int)[p]
                    == all[p] by {
                    assert(data_of(t, b, ch[p / cb]) == data_of(s, b, ch[p / cb]));
                }
            }
            let r = all.subrange(offset as int, offset + want);
            assert(Seq::empty() + r =~= r);
        }
    }
}

/// The search for a free cluster finds one whose entry is 0, and changes nothing on the
/// volume.
pub proof fn lemma_search(s: FatView, b: Fat32Bpb, start: u32, c: u32, fuel: nat)
    requires
        good_geo(b),
        ready(s, b),
        b.clusters() >= 1,
        valid(b, c),
    ensures
        s.search_free(b, start, c, fuel).0 == (FatView {
            fat_buf: s.search_free(b, start, c, fuel).0.fat_buf,
            hint: s.search_free(b, start, c, fuel).0.hint,
            ..s
        }),
        s.search_free(b, start, c, fuel).1 matches Some(f) ==> valid(b, f) && entry(s, b, f) == 0
            && valid(b, s.search_free(b, start, c, fuel).0.hint),
    decreases fuel,
{
    lemma_fat_get(s, b, c);
    let (t, e) = s.fat_get(b, c);
    let c2 = FatView::next_candidate(b, c);
    assert(valid(b, c2));
    if e != 0 && c2 != start && fuel > 0 {
        lemma_search(t, b, start, c2, (fuel - 1) as nat);
        let f = t.search_free(b, start, c2, (fuel - 1) as nat).1;
        if f is Some {
            assert(entry(t, b, f->Some_0) == entry(s, b, f->Some_0));
        }
    }
}

/// What extending a chain leaves.
pub open spec fn extended(s: FatView, t: FatView, b: Fat32Bpb, ch: Seq<u32>, ch2: Seq<u32>) -> bool {
    &&& ready(t, b)
    &&& good_hint(t, b)
    &&& same_volume(s, t)
    &&& linked(t, b, ch2)
    &&& ch.len() <= ch2.len()
    &&& ch2.subrange(0, ch.len() as int) == ch
    &&& forall|i: int| ch.len() <= i < ch2.len() ==> entry(s, b, #[trigger] ch2[i]) == 0
    &&& forall|d: u32| valid(b, d) ==> #[trigger] data_of(t, b, d) == data_of(s, b, d)
    &&& forall|d: u32|
        valid(b, d) && entry(s, b, d) != 0 && !ch.contains(d) ==> #[trigger] entry(t, b, d)
            == entry(s, b, d)
}

/// One cluster appended to a chain.
pub proof fn lemma_append(s: FatView, b: Fat32Bpb, ch: Seq<u32>, f: u32)
    requires
        good_geo(b),
        ready(s, b),
        good_hint(s, b),
        linked(s, b, ch),
        valid(b, f),
        entry(s, b, f) == 0,
    ensures
        ({
            let s1 = if ch.len() > 0 {
                s.fat_set(b, ch.last(), f)
            } else {
                (s, true)
            };
            let s2 = s1.0.fat_set(b, f, FAT_EOC);
            s1.1 && s2.1 && extended(s, s2.0, b, ch, ch.push(f))
        }),
{
    let s1 = if ch.len() > 0 {
        s.fat_set(b, ch.last(), f).0
    } else {
        s
    };
    let ch2 = ch.push(f);
    assert forall|i: int| 0 <= i < ch.len() implies ch[i] != f by {
        assert(valid(b, ch[i]));
        if i < ch.len() - 1 {
            assert(entry(s, b, ch[i]) == ch[i + 1]);
            assert(valid(b, ch[i + 1]));
        } else {
            assert(ch[i] == ch.last());
        }
    }
    if ch.len() > 0 {
        assert(valid(b, ch[ch.len() - 1]));
        law_fat_set(s, b, ch.last(), f);
        lemma_mask(0, f);
    }
    law_fat_set(s1, b, f, FAT_EOC);
    let t = s1.fat_set(b, f, FAT_EOC).0;
    lemma_mask(0, FAT_EOC);
    assert(ch2.no_duplicates());
    assert forall|i: int| 0 <= i < ch2.len() implies valid(b, #[trigger] ch2[i]) by {
        if i < ch.len() {
            assert(ch2[i] == ch[i]);
        }
    }
    assert forall|i: int| 0 <= i < ch2.len() - 1 implies entry(t, b, #[trigger] ch2[i]) == ch2[i
        + 1] by {
        assert(ch2[i] == ch[i]);
        assert(valid(b, ch[i]));
        assert(entry(t, b, ch[i]) == entry(s1, b, ch[i]));
        if i < ch.len() - 1 {
            assert(ch[i] != ch.last());
            assert(entry(s1, b, ch[i]) == entry(s, b, ch[i]));
            assert(ch2[i + 1] == ch[i + 1]);
        }
    }
    assert(ch2.subrange(0, ch.len() as int) =~= ch);
    assert forall|d: u32| valid(b, d) implies #[trigger] data_of(t, b, d) == data_of(s, b, d) by {
        assert(data_of(t, b, d) == data_of(s1, b, d));
        if ch.len() > 0 {
            assert(data_of(s1, b, d) == data_of(s, b, d));
        }
    }
    assert forall|d: u32|
        valid(b, d) && entry(s, b, d) != 0 && !ch.contains(d) implies #[trigger] entry(t, b, d)
        == entry(s, b, d) by {
        assert(entry(t, b, d) == entry(s1, b, d));
        if ch.len() > 0 {
            assert(ch.contains(ch[ch.len() - 1]));
            assert(entry(s1, b, d) == entry(s, b, d));
        }
    }
}

/// Extensions one after the other.
pub proof fn lemma_extended_trans(
    s: FatView,
    t: FatView,
    u: FatView,
    b: Fat32Bpb,
    ch: Seq<u32>,
    f: u32,
    ch3: Seq<u32>,
)
    requires
        extended(s, t, b, ch, ch.push(f)),
        extended(t, u, b, ch.push(f), ch3),
        entry(s, b, f) == 0,
        valid(b, f),
        forall|i: int| 0 <= i < ch3.len() ==> valid(b, #[trigger] ch3[i]),
        linked(s, b, ch),
    ensures
        extended(s, u, b, ch, ch3),
{
    let ch2 = ch.push(f);
    let n = ch.len() as int;
    assert(ch3.subrange(0, n) =~= ch) by {
        assert forall|i: int| 0 <= i < n implies ch3[i] == ch[i] by {
            assert(ch3.subrange(0, ch2.len() as int)[i] == ch2[i]);
        }
    }
    assert(ch3.subrange(0, ch2.len() as int)[n] == f);
    assert forall|i: int| n <= i < ch3.len() implies entry(s, b, #[trigger] ch3[i]) == 0 by {
        if i == n {
            assert(ch3[i] == f);
        } else {
            let d = ch3[i];
            assert(entry(t, b, d) == 0);
            if entry(s, b, d) != 0 {
                if ch.contains(d) {
                    let j = choose|j: int| 0 <= j < ch.len() && ch[j] == d;
                    assert(ch3.subrange(0, n)[j] == ch3[j]);
                    assert(ch3[j] == ch3[i] && j != i);
                } else {
                    assert(entry(t, b, d) == entry(s, b, d));
                }
            }
        }
    }
    assert forall|d: u32| valid(b, d) implies #[trigger] data_of(u, b, d) == data_of(s, b, d) by {
        assert(data_of(u, b, d) == data_of(t, b, d));
        assert(data_of(t, b, d) == data_of(s, b, d));
    }
    assert forall|d: u32|
        valid(b, d) && entry(s, b, d) != 0 && !ch.contains(d) implies #[trigger] entry(u, b, d)
        == entry(s, b, d) by {
        assert(entry(t, b, d) == entry(s, b, d));
        if ch2.contains(d) {
            let j = choose|j: int| 0 <= j < ch2.len() && ch2[j] == d;
            if j < n {
                assert(ch[j] == d);
            } else {
                assert(d == f);
            }
        }
        assert(entry(u, b, d) == entry(t, b, d));
    }
}

/// Extending a chain to a length.
pub proof fn lemma_extend(s: FatView, b: Fat32Bpb, ch: Seq<u32>, needed: int)
    requires
        good_geo(b),
        ready(s, b),
        good_hint(s, b),
        linked(s, b, ch),
    ensures
        s.extend_chain(b, ch, needed).1 matches Some(ch2) ==> extended(
            s,
            s.extend_chain(b, ch, needed).0,
            b,
            ch,
            ch2,
        ) && ch2.len() >= needed && (ch2.len() == needed || ch2 == ch),
    decreases needed - ch.len(),
{
    if ch.len() >= needed {
        assert(ch.subrange(0, ch.len() as int) =~= ch);
    } else {
        let start = s.search_start();
        lemma_search(s, b, start, start, 0xFFFF_FFFF);
        let (t, free) = s.find_free(b);
        if free is Some {
            let f = free->Some_0;
            assert forall|d: u32| entry(t, b, d) == entry(s, b, d) && data_of(t, b, d) == data_of(
                s,
                b,
                d,
            ) by {}
            lemma_same_table(s, t, b, ch);
            assert(ready(t, b));
            assert(entry(t, b, f) == entry(s, b, f));
            lemma_append(t, b, ch, f);
            let s1 = if ch.len() > 0 {
                t.fat_set(b, ch.last(), f).0
            } else {
                t
            };
            let s2 = s1.fat_set(b, f, FAT_EOC).0;
            let ch2 = ch.push(f);
            lemma_extend(s2, b, ch2, needed);
            if s2.extend_chain(b, ch2, needed).1 is Some {
                let (u, r) = s2.extend_chain(b, ch2, needed);
                let ch3 = r->Some_0;
                lemma_extended_trans(t, s2, u, b, ch, f, ch3);
                lemma_extended_from(s, t, u, b, ch, ch3);
            }
        }
    }
}

/// An extension does not depend on buffer and hint.
pub proof fn lemma_extended_from(
    s: FatView,
    t: FatView,
    u: FatView,
    b: Fat32Bpb,
    ch: Seq<u32>,
    ch3: Seq<u32>,
)
    requires
        extended(t, u, b, ch, ch3),
        t.store == s.store,
        t.cur == s.cur,
    ensures
        extended(s, u, b, ch, ch3),
{
    assert forall|d: u32| entry(t, b, d) == entry(s, b, d) && data_of(t, b, d) == data_of(
        s,
        b,
        d,
    ) by {}
    assert forall|i: int| ch.len() <= i < ch3.len() implies entry(s, b, #[trigger] ch3[i]) == 0 by {
        assert(entry(t, b, ch3[i]) == 0);
    }
    assert forall|d: u32| valid(b, d) implies #[trigger] data_of(u, b, d) == data_of(s, b, d) by {
        assert(data_of(u, b, d) == data_of(t, b, d));
    }
    assert forall|d: u32|
        valid(b, d) && entry(s, b, d) != 0 && !ch.contains(d) implies #[trigger] entry(u, b, d)
        == entry(s, b, d) by {
        assert(entry(u, b, d) == entry(t, b, d));
    }
}

/// What stands in cluster `i` of a file before a write.
pub open spec fn was(s: FatView, b: Fat32Bpb, ch: Seq<u32>, p: WritePlan, i: int) -> Seq<u8> {
    if i < p.old_clusters {
        data_of(s, b, ch[i])
    } else {
        bytes::zeros(b.cb())
    }
}

/// Bringing one cluster up to date.
pub proof fn lemma_write_one(s: FatView, b: Fat32Bpb, ch: Seq<u32>, p: WritePlan, i: int)
    requires
        good_geo(b),
        ready(s, b),
        0 <= i < ch.len(),
        valid(b, ch[i]),
        0 <= p.offset,
        p.new_size >= p.old_size,
        p.new_size >= p.end(),
        i < p.needed,
        s.write_one(b, ch, p, i).1,
    ensures
        fit(s, b, ch[i]) || p.keeps(b.cb(), i),
        ready(s.write_one(b, ch, p, i).0, b),
        same_volume(s, s.write_one(b, ch, p, i).0),
        s.write_one(b, ch, p, i).0.hint == s.hint,
        data_of(s.write_one(b, ch, p, i).0, b, ch[i]) == p.image(b.cb(), i, was(s, b, ch, p, i)),
        forall|d: u32|
            valid(b, d) && d != ch[i] ==> #[trigger] data_of(s.write_one(b, ch, p, i).0, b, d)
                == data_of(s, b, d),
        forall|d: u32|
            valid(b, d) ==> #[trigger] entry(s.write_one(b, ch, p, i).0, b, d) == entry(s, b, d),
{
    let cb = b.cb();
    let c = ch[i];
    lemma_geo(b, 0, c);
    lemma_mono(i, i, cb);
    let w = was(s, b, ch, p, i);
    let img = p.image(cb, i, w);
    assert(s.store.has(s.cur, b.sector_of(c) as int, b.spc()));
    lemma_sector_len(s, b.sector_of(c) as int, b.spc());
    if p.covers(cb, i) {
        let part = p.data.subrange(i * cb - p.offset, (i + 1) * cb - p.offset);
        assert(part =~= img);
        lemma_put_cluster(s, b, c, img);
    } else if p.keeps(cb, i) {
        assert(data_of(s, b, c) =~= img);
    } else {
        lemma_put_cluster(s, b, c, img);
    }
}

/// Bringing the clusters from `i` on up to date.
pub proof fn lemma_write_all(s: FatView, b: Fat32Bpb, ch: Seq<u32>, p: WritePlan, i: int)
    requires
        good_geo(b),
        ready(s, b),
        0 <= i <= p.needed <= ch.len(),
        ch.no_duplicates(),
        forall|j: int| 0 <= j < ch.len() ==> valid(b, #[trigger] ch[j]),
        0 <= p.offset,
        p.new_size >= p.old_size,
        p.new_size >= p.end(),
        s.write_all(b, ch, p, i).1,
    ensures
        forall|j: int|
            i <= j < p.needed ==> fit(s, b, #[trigger] ch[j]) || p.keeps(b.cb(), j),
        ready(s.write_all(b, ch, p, i).0, b),
        same_volume(s, s.write_all(b, ch, p, i).0),
        s.write_all(b, ch, p, i).0.hint == s.hint,
        forall|j: int|
            i <= j < p.needed ==> data_of(s.write_all(b, ch, p, i).0, b, #[trigger] ch[j])
                == p.image(b.cb(), j, was(s, b, ch, p, j)),
        forall|d: u32|
            valid(b, d) && !(exists|j: int| i <= j < p.needed && ch[j] == d) ==> #[trigger] data_of(
                s.write_all(b, ch, p, i).0,
                b,
                d,
            ) == data_of(s, b, d),
        forall|d: u32|
            valid(b, d) ==> #[trigger] entry(s.write_all(b, ch, p, i).0, b, d) == entry(s, b, d),
    decreases p.needed - i,
{
    if i < p.needed {
        assert(valid(b, ch[i]));
        lemma_write_one(s, b, ch, p, i);
        let t = s.write_one(b, ch, p, i).0;
        lemma_write_all(t, b, ch, p, i + 1);
        let u = s.write_all(b, ch, p, i).0;
        assert(u == t.write_all(b, ch, p, i + 1).0);
        assert forall|j: int| i <= j < p.needed implies fit(s, b, #[trigger] ch[j]) || p.keeps(
            b.cb(),
            j,
        ) by {
            if j > i {
                assert(fit(t, b, ch[j]) || p.keeps(b.cb(), j));
                lemma_fit(s, t, b, ch[j]);
            }
        }
        assert forall|j: int| i <= j < p.needed implies data_of(u, b, #[trigger] ch[j]) == p.image(
            b.cb(),
            j,
            was(s, b, ch, p, j),
        ) by {
            if j == i {
                assert(!(exists|k: int| i + 1 <= k < p.needed && ch[k] == ch[i]));
                assert(data_of(u, b, ch[i]) == data_of(t, b, ch[i]));
            } else {
                assert(ch[j] != ch[i]);
                assert(valid(b, ch[j]));
                assert(data_of(t, b, ch[j]) == data_of(s, b, ch[j]));
                assert(was(t, b, ch, p, j) == was(s, b, ch, p, j));
            }
        }
        assert forall|d: u32|
            valid(b, d) && !(exists|j: int| i <= j < p.needed && ch[j] == d) implies
            #[trigger] data_of(u, b, d) == data_of(s, b, d) by {
            assert(d != ch[i]);
            assert(data_of(t, b, d) == data_of(s, b, d));
            assert(!(exists|j: int| i + 1 <= j < p.needed && ch[j] == d));
        }
        assert forall|d: u32| valid(b, d) implies #[trigger] entry(u, b, d) == entry(s, b, d) by {
            assert(entry(t, b, d) == entry(s, b, d));
        }
    }
}

/// An entry changed in its sector is changed in its cluster.
#[verifier::spinoff_prover]
#[verifier::rlimit(60)]
proof fn lemma_entry_in_cluster(old: Seq<u8>, sec: Seq<u8>, off: int, start: u32, size: u32)
    requires
        0 <= off,
        off % 32 == 0,
        old.len() % 512 == 0,
        off + 32 <= old.len(),
        sec.len() == 512,
        forall|x: int| 0 <= x < 512 ==> #[trigger] sec[x] == old[off / 512 * 512 + x],
    ensures
        bytes::splice(
            old,
            off / 512 * 512,
            crate::fat::entry_with_start(sec, off % 512, start, size),
        ) == crate::fat::entry_with_start(old, off, start, size),
{
    let o = off % 512;
    let base = off / 512 * 512;
    assert(base + 512 <= old.len());
    let new = crate::fat::entry_with_start(sec, o, start, size);
    let want = crate::fat::entry_with_start(old, off, start, size);
    assert forall|x: int| 0 <= x < old.len() implies bytes::splice(old, base, new)[x] == want[x] by {
        if base <= x < base + 512 {
            assert(sec[x - base] == old[x]);
        }
    }
    assert(bytes::splice(old, base, new) =~= want);
}

/// The directory entry of a file brought up to date: only the cluster that holds it changes.
pub proof fn lemma_update_entry(s: FatView, b: Fat32Bpb, dc: u32, off: u32, start: u32, size: u32)
    requires
        good_geo(b),
        ready(s, b),
        valid(b, dc),
        off + 32 <= b.cb(),
        off % 32 == 0,
        s.update_entry(b, dc, off, start, size).1,
    ensures
        ready(s.update_entry(b, dc, off, start, size).0, b),
        same_volume(s, s.update_entry(b, dc, off, start, size).0),
        s.update_entry(b, dc, off, start, size).0.hint == s.hint,
        data_of(s, b, dc).len() == b.cb(),
        data_of(s.update_entry(b, dc, off, start, size).0, b, dc) == crate::fat::entry_with_start(
            data_of(s, b, dc),
            off as int,
            start,
            size,
        ),
        forall|d: u32|
            valid(b, d) && d != dc ==> #[trigger] data_of(
                s.update_entry(b, dc, off, start, size).0,
                b,
                d,
            ) == data_of(s, b, d),
        forall|d: u32|
            valid(b, d) ==> #[trigger] entry(s.update_entry(b, dc, off, start, size).0, b, d)
                == entry(s, b, d),
{
    lemma_geo(b, 0, dc);
    let f = FatView::entry_sector(b, dc, off);
    let k = off as int / 512;
    assert(f == b.sector_of(dc) + k);
    assert(k < b.spc());
    assert(s.store.has(s.cur, b.sector_of(dc) as int, b.spc()));
    assert(s.store.can(s.cur, f as int, 1));
    lemma_sector_len(s, f as int, 1);
    let sec = s.store.get(s.cur, f as int, 1);
    let data = crate::fat::entry_with_start(sec, off as int % 512, start, size);
    assert(data.len() == 512);
    let t = s.update_entry(b, dc, off, start, size).0;
    lemma_wr(s, f, data, 0, 1);
    lemma_wr_ready(s, b, f, data);
    lemma_sector_len(s, b.sector_of(dc) as int, b.spc());
    lemma_entry_in_cluster(data_of(s, b, dc), sec, off as int, start, size);
    assert(data_of(t, b, dc) =~= bytes::splice(data_of(s, b, dc), k * 512, data));
    assert forall|d: u32| valid(b, d) && d != dc implies #[trigger] data_of(t, b, d) == data_of(
        s,
        b,
        d,
    ) by {
        lemma_apart(b, dc, d);
        assert(s.store.has(s.cur, b.sector_of(d) as int, b.spc()));
        lemma_wr(s, f, data, b.sector_of(d), b.spc());
    }
    assert forall|d: u32| valid(b, d) implies #[trigger] entry(t, b, d) == entry(s, b, d) by {
        lemma_geo(b, 0, d);
        assert(0 <= (dc - 2) * b.spc()) by (nonlinear_arith)
            requires
                dc >= 2,
                b.spc() >= 0,
        ;
        assert(s.store.can(s.cur, b.fat_sector(0, d) as int, 1));
        lemma_wr(s, f, data, b.fat_sector(0, d), 1);
    }
}

/// An open file in good order: its chain is in the table and long enough, and its directory
/// entry lies in a cluster in use that is not its own.
pub open spec fn file_ok(s: FatView, b: Fat32Bpb, node: OpenNode, ch: Seq<u32>) -> bool {
    &&& chain_of(s, b, node.start_cluster, ch)
    &&& node.file_size <= ch.len() * b.cb()
    &&& valid(b, node.dir_cluster)
    &&& !ch.contains(node.dir_cluster)
    &&& entry(s, b, node.dir_cluster) != 0
    &&& node.entry_offset + 32 <= b.cb()
    &&& node.entry_offset % 32 == 0
}

/// The size of a file after `data` was written at `offset`.
pub open spec fn size_after(node: OpenNode, offset: u32, data: Seq<u8>) -> int {
    if node.file_size > offset + data.len() {
        node.file_size as int
    } else {
        offset + data.len()
    }
}

/// The plan of a write to a file of `clusters` clusters.
pub open spec fn plan_of(
    b: Fat32Bpb,
    node: OpenNode,
    offset: u32,
    data: Seq<u8>,
    clusters: int,
) -> WritePlan {
    WritePlan {
        data,
        offset: offset as int,
        old_size: node.file_size as int,
        new_size: size_after(node, offset, data),
        old_clusters: clusters,
        needed: FatView::clusters_for(b, size_after(node, offset, data)),
    }
}

/// The node after a write that left the chain `ch`.
pub open spec fn node_after(node: OpenNode, offset: u32, data: Seq<u8>, ch: Seq<u32>) -> OpenNode {
    OpenNode {
        start_cluster: ch[0],
        file_size: size_after(node, offset, data) as u32,
        ..node
    }
}

/// The steps of a write: the states after the chain was extended and after its clusters were
/// brought up to date, and the chain.
proof fn lemma_write_steps(
    s: FatView,
    b: Fat32Bpb,
    node: OpenNode,
    ch: Seq<u32>,
    offset: u32,
    data: Seq<u8>,
) -> (r: (FatView, FatView, Seq<u32>))
    requires
        good_geo(b),
        ready(s, b),
        good_hint(s, b),
        file_ok(s, b, node, ch),
        data.len() > 0,
        offset + data.len() <= u32::MAX,
        s.write_range(b, node, offset, data).1 is Some,
    ensures
        ({
            let (s2, s3, ch2) = r;
            let p = plan_of(b, node, offset, data, ch.len() as int);
            let n2 = node_after(node, offset, data, ch2);
            &&& extended(s, s2, b, ch, ch2)
            &&& p.needed <= ch2.len() <= MAX_CHAIN
            &&& ch2.len() == p.needed || ch2 == ch
            &&& s2.write_all(b, ch2, p, 0) == (s3, true)
            &&& if n2 == node {
                s.write_range(b, node, offset, data) == (s3, Some(n2))
            } else {
                let u = s3.update_entry(
                    b,
                    node.dir_cluster,
                    node.entry_offset,
                    n2.start_cluster,
                    n2.file_size,
                );
                u.1 && s.write_range(b, node, offset, data) == (u.0, Some(n2))
            }
        }),
{
    lemma_geo(b, 0, node.dir_cluster);
    let (s1, chain) = s.chain_from(b, node.start_cluster, Seq::empty());
    if ch.len() > 0 {
        assert(ch.subrange(0, 0) =~= Seq::empty());
        lemma_chain_from(s, b, ch, 0);
    } else {
        assert(ch =~= Seq::empty());
    }
    assert(chain == Some(ch));
    lemma_same_table(s, s1, b, ch);
    assert(ready(s1, b));
    let needed = FatView::clusters_for(b, size_after(node, offset, data));
    lemma_extend(s1, b, ch, needed);
    let (s2, full) = s1.extend_chain(b, ch, needed);
    let ch2 = full->Some_0;
    lemma_extended_from(s, s1, s2, b, ch, ch2);
    let p = plan_of(b, node, offset, data, ch.len() as int);
    (s2, s2.write_all(b, ch2, p, 0).0, ch2)
}

/// The chain of a file extended and brought up to date.
proof fn lemma_write_body(
    s: FatView,
    s2: FatView,
    s3: FatView,
    b: Fat32Bpb,
    node: OpenNode,
    ch: Seq<u32>,
    ch2: Seq<u32>,
    offset: u32,
    data: Seq<u8>,
)
    requires
        good_geo(b),
        ready(s, b),
        file_ok(s, b, node, ch),
        data.len() > 0,
        extended(s, s2, b, ch, ch2),
        plan_of(b, node, offset, data, ch.len() as int).needed <= ch2.len(),
        ch2.len() == plan_of(b, node, offset, data, ch.len() as int).needed || ch2 == ch,
        s2.write_all(b, ch2, plan_of(b, node, offset, data, ch.len() as int), 0) == (s3, true),
    ensures
        ready(s3, b),
        good_hint(s3, b),
        same_volume(s, s3),
        ch2.len() > 0,
        size_after(node, offset, data) <= ch2.len() * b.cb(),
        linked(s3, b, ch2),
        fits(s, b, ch) ==> fits(s3, b, ch2),
        !ch2.contains(node.dir_cluster),
        content(s3, b, ch2, size_after(node, offset, data)) == tmpfs::overwritten(
            content(s, b, ch, node.file_size as int),
            offset as int,
            data,
        ),
        forall|d: u32|
            valid(b, d) && entry(s, b, d) != 0 && !ch.contains(d) ==> #[trigger] entry(s3, b, d)
                == entry(s, b, d),
        forall|d: u32|
            valid(b, d) && !ch2.contains(d) ==> #[trigger] data_of(s3, b, d) == data_of(s, b, d),
{
    let cb = b.cb();
    lemma_geo(b, 0, node.dir_cluster);
    let p = plan_of(b, node, offset, data, ch.len() as int);
    lemma_clusters_for(p.new_size, cb);
    lemma_write_all(s2, b, ch2, p, 0);
    lemma_mono(p.needed, ch2.len() as int, cb);
    assert(!ch2.contains(node.dir_cluster)) by {
        if ch2.contains(node.dir_cluster) {
            let j = choose|j: int| 0 <= j < ch2.len() && ch2[j] == node.dir_cluster;
            if j < ch.len() {
                assert(ch2.subrange(0, ch.len() as int)[j] == ch2[j]);
                assert(ch[j] == node.dir_cluster);
            } else {
                assert(entry(s, b, ch2[j]) == 0);
            }
        }
    }
    assert(linked(s3, b, ch2)) by {
        assert forall|i: int| 0 <= i < ch2.len() implies entry(s3, b, #[trigger] ch2[i]) == entry(
            s2,
            b,
            ch2[i],
        ) by {
            assert(valid(b, ch2[i]));
        }
        lemma_still_linked(s2, s3, b, ch2);
    }
    lemma_still_fits(s, s2, s3, b, ch, ch2, p);
    assert forall|d: u32|
        valid(b, d) && entry(s, b, d) != 0 && !ch.contains(d) implies #[trigger] entry(s3, b, d)
        == entry(s, b, d) by {
        assert(entry(s2, b, d) == entry(s, b, d));
    }
    assert forall|d: u32| valid(b, d) && !ch2.contains(d) implies #[trigger] data_of(s3, b, d)
        == data_of(s, b, d) by {
        assert(!(exists|j: int| 0 <= j < p.needed && ch2[j] == d));
        assert(data_of(s3, b, d) == data_of(s2, b, d));
        assert(data_of(s2, b, d) == data_of(s, b, d));
    }
    lemma_new_content(s, s2, s3, b, ch, ch2, p);
}

/// The clusters of an extended chain that was brought up to date can be transferred where those
/// of the chain could.
proof fn lemma_still_fits(
    s: FatView,
    s2: FatView,
    s3: FatView,
    b: Fat32Bpb,
    ch: Seq<u32>,
    ch2: Seq<u32>,
    p: WritePlan,
)
    requires
        same_volume(s, s2),
        same_volume(s2, s3),
        ch.len() <= ch2.len(),
        ch2.subrange(0, ch.len() as int) == ch,
        p.old_clusters == ch.len(),
        ch2.len() == p.needed || ch2 == ch,
        forall|j: int| 0 <= j < p.needed ==> fit(s2, b, #[trigger] ch2[j]) || p.keeps(b.cb(), j),
    ensures
        fits(s, b, ch) ==> fits(s3, b, ch2),
{
    if fits(s, b, ch) {
        assert forall|i: int| 0 <= i < ch2.len() implies fit(s3, b, #[trigger] ch2[i]) by {
            if i < ch.len() {
                assert(ch2.subrange(0, ch.len() as int)[i] == ch2[i]);
                assert(fit(s, b, ch[i]));
                lemma_fit(s, s2, b, ch2[i]);
            } else {
                assert(fit(s2, b, ch2[i]) || p.keeps(b.cb(), i));
            }
            lemma_fit(s2, s3, b, ch2[i]);
        }
    }
}

/// A write that succeeds does not end beyond what a size can say: the chain would be too long.
proof fn lemma_write_small(s: FatView, b: Fat32Bpb, node: OpenNode, offset: u32, data: Seq<u8>)
    requires
        good_geo(b),
        valid(b, node.dir_cluster),
        data.len() > 0,
        s.write_range(b, node, offset, data).1 is Some,
    ensures
        offset + data.len() <= u32::MAX,
{
    lemma_geo(b, 0, node.dir_cluster);
    let cb = b.cb();
    let most = u32::MAX as int;
    assert((most + cb - 1) / cb > 256) by (nonlinear_arith)
        requires
            512 <= cb <= 65536,
            most == 0xFFFF_FFFF,
    ;
}

/// What a write leaves: the volume, the node, the chain.
pub proof fn lemma_write_range(
    s: FatView,
    b: Fat32Bpb,
    node: OpenNode,
    ch: Seq<u32>,
    offset: u32,
    data: Seq<u8>,
) -> (ch2: Seq<u32>)
    requires
        good_geo(b),
        ready(s, b),
        good_hint(s, b),
        file_ok(s, b, node, ch),
        data.len() > 0,
        s.write_range(b, node, offset, data).1 is Some,
    ensures
        ({
            let t = s.write_range(b, node, offset, data).0;
            let n2 = s.write_range(b, node, offset, data).1->Some_0;
            let end = offset + data.len();
            let size = if node.file_size > end {
                node.file_size as int
            } else {
                end
            };
            &&& ready(t, b)
            &&& good_hint(t, b)
            &&& same_volume(s, t)
            &&& fits(s, b, ch) ==> fits(t, b, ch2)
            &&& n2.file_size == size
            &&& file_ok(t, b, n2, ch2)
            &&& ch.len() <= ch2.len()
            &&& ch2.subrange(0, ch.len() as int) == ch
            &&& content(t, b, ch2, size) == tmpfs::overwritten(
                content(s, b, ch, node.file_size as int),
                offset as int,
                data,
            )
            &&& n2 == (OpenNode {
                start_cluster: n2.start_cluster,
                file_size: n2.file_size,
                ..node
            })
            &&& data_of(t, b, node.dir_cluster) == if n2 == node {
                data_of(s, b, node.dir_cluster)
            } else {
                crate::fat::entry_with_start(
                    data_of(s, b, node.dir_cluster),
                    node.entry_offset as int,
                    n2.start_cluster,
                    n2.file_size,
                )
            }
            &&& forall|i: int| ch.len() <= i < ch2.len() ==> entry(s, b, #[trigger] ch2[i]) == 0
            &&& forall|d: u32|
                valid(b, d) && entry(s, b, d) != 0 && !ch.contains(d) ==> #[trigger] entry(t, b, d)
                    == entry(s, b, d)
            &&& forall|d: u32|
                valid(b, d) && !ch2.contains(d) && d != node.dir_cluster ==> #[trigger] data_of(
                    t,
                    b,
                    d,
                ) == data_of(s, b, d)
        }),
{
    lemma_write_small(s, b, node, offset, data);
    let (s2, s3, ch2) = lemma_write_steps(s, b, node, ch, offset, data);
    lemma_write_body(s, s2, s3, b, node, ch, ch2, offset, data);
    let n2 = node_after(node, offset, data, ch2);
    let t = s.write_range(b, node, offset, data).0;
    let size = size_after(node, offset, data);
    assert(entry(s3, b, node.dir_cluster) == entry(s, b, node.dir_cluster));
    assert(data_of(s3, b, node.dir_cluster) == data_of(s, b, node.dir_cluster));
    if n2 != node {
        lemma_update_entry(
            s3,
            b,
            node.dir_cluster,
            node.entry_offset,
            n2.start_cluster,
            n2.file_size,
        );
        lemma_geo(b, 0, node.dir_cluster);
        assert forall|i: int| 0 <= i < ch2.len() implies entry(t, b, #[trigger] ch2[i]) == entry(
            s3,
            b,
            ch2[i],
        ) && data_of(t, b, ch2[i]) == data_of(s3, b, ch2[i]) by {
            assert(valid(b, ch2[i]));
            assert(ch2.contains(ch2[i]));
        }
        lemma_still_linked(s3, t, b, ch2);
        lemma_same_content(s3, t, b, ch2, size);
        lemma_fits(s3, t, b, ch2);
        assert forall|d: u32|
            valid(b, d) && entry(s, b, d) != 0 && !ch.contains(d) implies #[trigger] entry(t, b, d)
            == entry(s, b, d) by {
            assert(entry(s3, b, d) == entry(s, b, d));
        }
        assert forall|d: u32|
            valid(b, d) && !ch2.contains(d) && d != node.dir_cluster implies #[trigger] data_of(
            t,
            b,
            d,
        ) == data_of(s, b, d) by {
            assert(data_of(s3, b, d) == data_of(s, b, d));
        }
    }
    ch2
}

/// Enough clusters for a size, and not one too many.
pub proof fn lemma_clusters_for(size: int, cb: int)
    requires
        size >= 1,
        cb >= 1,
    ensures
        1 <= (size + cb - 1) / cb,
        size <= (size + cb - 1) / cb * cb,
        (size + cb - 1) / cb * cb < size + cb,
{
    let n = (size + cb - 1) / cb;
    lemma_div(size + cb - 1, cb);
    if n == 0 {
        assert(n * cb == 0) by (nonlinear_arith)
            requires
                n == 0,
        ;
    }
}

/// The contents of a chain after its clusters were brought up to date.
pub proof fn lemma_new_content(
    s: FatView,
    s2: FatView,
    t: FatView,
    b: Fat32Bpb,
    ch: Seq<u32>,
    ch2: Seq<u32>,
    p: WritePlan,
)
    requires
        good_geo(b),
        ready(s, b),
        linked(s, b, ch),
        ch.len() <= ch2.len(),
        ch2.subrange(0, ch.len() as int) == ch,
        forall|i: int| 0 <= i < ch2.len() ==> valid(b, #[trigger] ch2[i]),
        p.old_clusters == ch.len(),
        0 <= p.old_size <= ch.len() * b.cb(),
        0 <= p.offset,
        p.data.len() > 0,
        p.new_size == if p.old_size > p.end() {
            p.old_size
        } else {
            p.end()
        },
        p.needed <= ch2.len(),
        p.new_size <= p.needed * b.cb(),
        ch2.len() > 0,
        forall|d: u32| valid(b, d) ==> #[trigger] data_of(s2, b, d) == data_of(s, b, d),
        forall|j: int|
            0 <= j < p.needed ==> data_of(t, b, #[trigger] ch2[j]) == p.image(
                b.cb(),
                j,
                was(s2, b, ch2, p, j),
            ),
    ensures
        content(t, b, ch2, p.new_size) == tmpfs::overwritten(
            content(s, b, ch, p.old_size),
            p.offset,
            p.data,
        ),
{
    let cb = b.cb();
    assert(valid(b, ch2[0]));
    lemma_geo(b, 0, ch2[0]);
    let old = content(s, b, ch, p.old_size);
    let new = content(t, b, ch2, p.new_size);
    let want = tmpfs::overwritten(old, p.offset, p.data);
    assert(new.len() == want.len());
    assert forall|pos: int| 0 <= pos < p.new_size implies new[pos] == want[pos] by {
        lemma_div(pos, cb);
        let i = pos / cb;
        let k = pos % cb;
        if i >= p.needed {
            lemma_mono(p.needed, i, cb);
        }
        assert(data_of(t, b, ch2[i]) == p.image(cb, i, was(s2, b, ch2, p, i)));
        assert(new[pos] == p.byte_at(i, i * cb + k, was(s2, b, ch2, p, i)[k]));
        assert(i * cb + k == pos);
        if pos < p.old_size && !(p.offset <= pos < p.end()) {
            if i >= ch.len() {
                lemma_mono(ch.len() as int, i, cb);
            }
            assert(ch2.subrange(0, ch.len() as int)[i] == ch2[i]);
            assert(valid(b, ch2[i]));
            assert(data_of(s2, b, ch2[i]) == data_of(s, b, ch[i]));
            assert(old[pos] == data_of(s, b, ch[i])[k]);
        }
    }
    assert(new =~= want);
}

/// Law: after a write, reading the file anywhere gives its contents with the data written
/// over them, zeros between the old end and the offset, and the file is as long as it has to
/// be. It is in good order again. The read succeeds where the clusters of the file could be
/// transferred before the write.
pub proof fn law_write_reads_back(
    s: FatView,
    b: Fat32Bpb,
    node: OpenNode,
    ch: Seq<u32>,
    offset: u32,
    data: Seq<u8>,
    at: u32,
    count: u32,
) -> (ch2: Seq<u32>)
    requires
        good_geo(b),
        ready(s, b),
        good_hint(s, b),
        file_ok(s, b, node, ch),
        data.len() > 0,
        s.write_range(b, node, offset, data).1 is Some,
    ensures
        ({
            let t = s.write_range(b, node, offset, data).0;
            let n2 = s.write_range(b, node, offset, data).1->Some_0;
            let want = tmpfs::overwritten(
                content(s, b, ch, node.file_size as int),
                offset as int,
                data,
            );
            &&& n2.file_size == want.len()
            &&& file_ok(t, b, n2, ch2)
            &&& t.read_range(b, n2.start_cluster, n2.file_size, at, count).1 matches Some(v) ==> v
                == if at >= want.len() {
                Seq::empty()
            } else {
                want.subrange(
                    at as int,
                    if count < want.len() - at {
                        at + count
                    } else {
                        want.len() as int
                    },
                )
            }
            &&& fits(s, b, ch) ==> fits(t, b, ch2) && t.read_range(
                b,
                n2.start_cluster,
                n2.file_size,
                at,
                count,
            ).1 is Some
        }),
{
    let ch2 = lemma_write_range(s, b, node, ch, offset, data);
    let t = s.write_range(b, node, offset, data).0;
    let n2 = s.write_range(b, node, offset, data).1->Some_0;
    law_read_gives_content(t, b, n2.start_cluster, ch2, n2.file_size, at, count);
    ch2
}

/// A chain that shares no cluster with a file shares none with the file extended by clusters
/// that were free.
pub proof fn lemma_chain_apart(
    s: FatView,
    b: Fat32Bpb,
    ch: Seq<u32>,
    ch2: Seq<u32>,
    other: Seq<u32>,
    i: int,
)
    requires
        linked(s, b, other),
        ch.len() <= ch2.len(),
        ch2.subrange(0, ch.len() as int) == ch,
        forall|j: int| ch.len() <= j < ch2.len() ==> entry(s, b, #[trigger] ch2[j]) == 0,
        0 <= i < other.len(),
        !ch.contains(other[i]),
    ensures
        entry(s, b, other[i]) != 0,
        !ch2.contains(other[i]),
{
    assert(valid(b, other[i]));
    if i < other.len() - 1 {
        assert(entry(s, b, other[i]) == other[i + 1]);
        assert(valid(b, other[i + 1]));
    } else {
        assert(other[i] == other.last());
    }
    if ch2.contains(other[i]) {
        let j = choose|j: int| 0 <= j < ch2.len() && ch2[j] == other[i];
        if j < ch.len() {
            assert(ch2.subrange(0, ch.len() as int)[j] == ch2[j]);
            assert(ch[j] == other[i]);
        } else {
            assert(entry(s, b, ch2[j]) == 0);
        }
    }
}

/// A chain whose table entries are as they were.
pub proof fn lemma_still_linked(s: FatView, t: FatView, b: Fat32Bpb, ch: Seq<u32>)
    requires
        linked(s, b, ch),
        forall|i: int|
            0 <= i < ch.len() ==> entry(t, b, #[trigger] ch[i]) == entry(s, b, ch[i]),
    ensures
        linked(t, b, ch),
{
    assert forall|i: int| 0 <= i < ch.len() - 1 implies entry(t, b, #[trigger] ch[i]) == ch[i
        + 1] by {
        assert(entry(s, b, ch[i]) == ch[i + 1]);
    }
    if ch.len() > 0 {
        let l = ch[ch.len() - 1];
        assert(entry(t, b, l) == entry(s, b, l));
    }
}

/// A chain whose clusters are as they were.
proof fn lemma_same_content(s: FatView, t: FatView, b: Fat32Bpb, ch: Seq<u32>, size: int)
    requires
        b.cb() >= 1,
        0 <= size <= ch.len() * b.cb(),
        forall|i: int|
            0 <= i < ch.len() ==> data_of(t, b, #[trigger] ch[i]) == data_of(s, b, ch[i]),
    ensures
        content(t, b, ch, size) == content(s, b, ch, size),
{
    let cb = b.cb();
    let x = content(t, b, ch, size);
    let y = content(s, b, ch, size);
    assert forall|pos: int| 0 <= pos < size implies x[pos] == y[pos] by {
        lemma_div(pos, cb);
        let i = pos / cb;
        if i >= ch.len() {
            lemma_mono(ch.len() as int, i, cb);
        }
        assert(data_of(t, b, ch[i]) == data_of(s, b, ch[i]));
    }
    assert(x =~= y);
}

/// Law: a write leaves every other file as it was: one whose chain shares no cluster with
/// the file written, nor with the directory that names it.
pub proof fn law_write_keeps_others(
    s: FatView,
    b: Fat32Bpb,
    node: OpenNode,
    ch: Seq<u32>,
    offset: u32,
    data: Seq<u8>,
    other: Seq<u32>,
    size: int,
)
    requires
        good_geo(b),
        ready(s, b),
        good_hint(s, b),
        file_ok(s, b, node, ch),
        data.len() > 0,
        s.write_range(b, node, offset, data).1 is Some,
        linked(s, b, other),
        0 <= size <= other.len() * b.cb(),
        forall|i: int|
            0 <= i < other.len() ==> !ch.contains(#[trigger] other[i]) && other[i]
                != node.dir_cluster,
    ensures
        linked(s.write_range(b, node, offset, data).0, b, other),
        content(s.write_range(b, node, offset, data).0, b, other, size) == content(
            s,
            b,
            other,
            size,
        ),
{
    let t = s.write_range(b, node, offset, data).0;
    let ch2 = lemma_write_range(s, b, node, ch, offset, data);
    lemma_geo(b, 0, node.dir_cluster);
    assert forall|i: int| 0 <= i < other.len() implies entry(t, b, #[trigger] other[i]) == entry(
        s,
        b,
        other[i],
    ) && data_of(t, b, other[i]) == data_of(s, b, other[i]) by {
        lemma_chain_apart(s, b, ch, ch2, other, i);
        assert(valid(b, other[i]));
    }
    lemma_still_linked(s, t, b, other);
    lemma_same_content(s, t, b, other, size);
}

} // verus!
