//! FAT32: what a directory says of a file that was written.
use vstd::prelude::*;

use crate::bytes;
use crate::fat;
use crate::fat::{Fat32Bpb, FatView};
use crate::fat_dir;
use crate::fat_dir::DirEntryInfo;
use crate::fat_file::OpenNode;
use crate::fat_laws;
use crate::fat_name;
use crate::fat_tree;
use crate::tmpfs;

verus! {

/// The first cluster and the size of an entry changed: it says the new ones, and all else in
/// the cluster is as it was.
proof fn lemma_restarted(old: Seq<u8>, i: int, n: int, c: u32, start: u32, size: u32)
    requires
        0 <= i < n,
        n * 32 <= old.len(),
    ensures
        ({
            let d = fat::entry_with_start(old, i * 32, start, size);
            &&& fat_dir::info_at(d, c, i) == (DirEntryInfo {
                start_cluster: start,
                file_size: size,
                ..fat_dir::info_at(old, c, i)
            })
            &&& forall|x: int|
                0 <= x < n && x != i ==> #[trigger] fat_dir::info_at(d, c, x)
                    == fat_dir::info_at(old, c, x)
            &&& forall|x: int, sn: Seq<u8>|
                0 <= x < n ==> #[trigger] fat_tree::is_named(d, x, sn) == fat_tree::is_named(
                    old,
                    x,
                    sn,
                )
            &&& forall|x: int, sn: Seq<u8>|
                0 <= x < n ==> #[trigger] fat_tree::stops(d, x, sn) == fat_tree::stops(old, x, sn)
        }),
{
    let o = i * 32;
    let hi = (start / 0x1_0000) as u16;
    let lo = (start % 0x1_0000) as u16;
    let d1 = bytes::put16(old, o + 20, hi);
    let d2 = bytes::put16(d1, o + 26, lo);
    let d = fat::entry_with_start(old, o, start, size);
    bytes::law_put16_reads_back(old, o + 20, hi);
    bytes::law_put16_reads_back(d1, o + 26, lo);
    bytes::law_put32_reads_back(d2, o + 28, size);
    assert(d[o + 20] == d1[o + 20] && d[o + 21] == d1[o + 21]);
    assert(d[o + 26] == d2[o + 26] && d[o + 27] == d2[o + 27]);
    assert(d[o + 11] == old[o + 11]);
    assert forall|x: int| 0 <= x < n && x != i implies #[trigger] fat_dir::info_at(d, c, x)
        == fat_dir::info_at(old, c, x) by {
        assert forall|y: int| x * 32 <= y < x * 32 + 32 implies d[y] == old[y] by {}
    }
    assert forall|x: int, sn: Seq<u8>| 0 <= x < n implies #[trigger] fat_tree::is_named(d, x, sn)
        == fat_tree::is_named(old, x, sn) by {
        lemma_head(old, d, i, x);
    }
    assert forall|x: int, sn: Seq<u8>| 0 <= x < n implies #[trigger] fat_tree::stops(d, x, sn)
        == fat_tree::stops(old, x, sn) by {
        lemma_head(old, d, i, x);
        assert(fat_tree::is_named(d, x, sn) == fat_tree::is_named(old, x, sn));
    }
}

/// The name and the attributes of an entry are in its first bytes.
proof fn lemma_head(old: Seq<u8>, d: Seq<u8>, i: int, x: int)
    requires
        d.len() == old.len(),
        0 <= x,
        x * 32 + 32 <= old.len(),
        forall|y: int|
            0 <= y < old.len() && !(i * 32 + 20 <= y < i * 32 + 32) ==> #[trigger] d[y] == old[y],
    ensures
        fat_dir::slot_kind(d, x * 32) == fat_dir::slot_kind(old, x * 32),
        d.subrange(x * 32, x * 32 + 11) == old.subrange(x * 32, x * 32 + 11),
{
    assert(d[x * 32] == old[x * 32]);
    assert(d[x * 32 + 11] == old[x * 32 + 11]);
    assert(d.subrange(x * 32, x * 32 + 11) =~= old.subrange(x * 32, x * 32 + 11));
}

/// One cluster of a directory changed, so that no entry there has another name: each name is
/// first where it was.
proof fn lemma_first_kept(
    s: FatView,
    t: FatView,
    b: Fat32Bpb,
    ch: Seq<u32>,
    k: int,
    k2: int,
    i2: int,
    sn: Seq<u8>,
)
    requires
        0 <= k < ch.len(),
        fat_tree::first(s, b, ch, k2, i2, sn),
        forall|m: int|
            0 <= m < ch.len() && m != k ==> fat_laws::data_of(t, b, #[trigger] ch[m])
                == fat_laws::data_of(s, b, ch[m]),
        forall|x: int|
            0 <= x < fat_tree::slots(b) ==> #[trigger] fat_tree::is_named(
                fat_laws::data_of(t, b, ch[k]),
                x,
                sn,
            ) == fat_tree::is_named(fat_laws::data_of(s, b, ch[k]), x, sn),
        forall|x: int|
            0 <= x < fat_tree::slots(b) ==> #[trigger] fat_tree::stops(
                fat_laws::data_of(t, b, ch[k]),
                x,
                sn,
            ) == fat_tree::stops(fat_laws::data_of(s, b, ch[k]), x, sn),
    ensures
        fat_tree::first(t, b, ch, k2, i2, sn),
{
    let n = fat_tree::slots(b);
    assert(fat_tree::is_named(fat_laws::data_of(t, b, ch[k2]), i2, sn)) by {
        if k2 != k {
            assert(fat_laws::data_of(t, b, ch[k2]) == fat_laws::data_of(s, b, ch[k2]));
        }
    }
    assert forall|x: int| 0 <= x < i2 implies !#[trigger] fat_tree::stops(
        fat_laws::data_of(t, b, ch[k2]),
        x,
        sn,
    ) by {
        assert(!fat_tree::stops(fat_laws::data_of(s, b, ch[k2]), x, sn));
        if k2 != k {
            assert(fat_laws::data_of(t, b, ch[k2]) == fat_laws::data_of(s, b, ch[k2]));
        }
    }
    assert forall|j: int| 0 <= j < k2 implies fat_tree::quiet(
        fat_laws::data_of(t, b, #[trigger] ch[j]),
        n,
        sn,
    ) by {
        assert(fat_tree::quiet(fat_laws::data_of(s, b, ch[j]), n, sn));
        assert forall|x: int| 0 <= x < n implies !#[trigger] fat_tree::stops(
            fat_laws::data_of(t, b, ch[j]),
            x,
            sn,
        ) by {
            assert(!fat_tree::stops(fat_laws::data_of(s, b, ch[j]), x, sn));
            if j != k {
                assert(fat_laws::data_of(t, b, ch[j]) == fat_laws::data_of(s, b, ch[j]));
            }
        }
    }
}

/// An open file is that of entry `i` of cluster `k` of a directory, and shares no cluster with
/// the directory.
pub open spec fn opened(
    s: FatView,
    b: Fat32Bpb,
    ch: Seq<u32>,
    k: int,
    i: int,
    node: OpenNode,
    fch: Seq<u32>,
) -> bool {
    let e = fat_dir::info_at(fat_laws::data_of(s, b, ch[k]), ch[k], i);
    &&& fat_laws::file_ok(s, b, node, fch)
    &&& node.start_cluster == e.start_cluster
    &&& node.file_size == e.file_size
    &&& node.dir_cluster == e.dir_cluster
    &&& node.entry_offset == e.entry_offset
    &&& forall|m: int| 0 <= m < ch.len() ==> !fch.contains(#[trigger] ch[m])
}

/// The directory after a file in it was written.
#[verifier::spinoff_prover]
proof fn lemma_written(
    s: FatView,
    b: Fat32Bpb,
    dir: u32,
    ch: Seq<u32>,
    k: int,
    i: int,
    node: OpenNode,
    fch: Seq<u32>,
    offset: u32,
    data: Seq<u8>,
    fch2: Seq<u32>,
)
    requires
        fat_laws::good_geo(b),
        fat_laws::ready(s, b),
        fat_tree::dir_ok(s, b, dir, ch),
        0 <= k < ch.len(),
        0 <= i < fat_tree::slots(b),
        opened(s, b, ch, k, i, node, fch),
        s.write_range(b, node, offset, data).1 is Some,
        fch.len() <= fch2.len(),
        fch2.subrange(0, fch.len() as int) == fch,
        forall|j: int|
            fch.len() <= j < fch2.len() ==> fat_laws::entry(s, b, #[trigger] fch2[j]) == 0,
        ({
            let t = s.write_range(b, node, offset, data).0;
            let n2 = s.write_range(b, node, offset, data).1->Some_0;
            &&& fat_laws::same_volume(s, t)
            &&& n2 == (OpenNode {
                start_cluster: n2.start_cluster,
                file_size: n2.file_size,
                ..node
            })
            &&& fat_laws::data_of(t, b, ch[k]) == if n2 == node {
                fat_laws::data_of(s, b, ch[k])
            } else {
                fat::entry_with_start(
                    fat_laws::data_of(s, b, ch[k]),
                    i * 32,
                    n2.start_cluster,
                    n2.file_size,
                )
            }
            &&& forall|d: u32|
                fat_laws::valid(b, d) && fat_laws::entry(s, b, d) != 0 && !fch.contains(d)
                    ==> #[trigger] fat_laws::entry(t, b, d) == fat_laws::entry(s, b, d)
            &&& forall|d: u32|
                fat_laws::valid(b, d) && !fch2.contains(d) && d != ch[k]
                    ==> #[trigger] fat_laws::data_of(t, b, d) == fat_laws::data_of(s, b, d)
        }),
    ensures
        ({
            let t = s.write_range(b, node, offset, data).0;
            let n2 = s.write_range(b, node, offset, data).1->Some_0;
            let old = fat_laws::data_of(s, b, ch[k]);
            let new = fat_laws::data_of(t, b, ch[k]);
            &&& fat_tree::dir_ok(t, b, dir, ch)
            &&& fat_dir::info_at(new, ch[k], i) == (DirEntryInfo {
                start_cluster: n2.start_cluster,
                file_size: n2.file_size,
                ..fat_dir::info_at(old, ch[k], i)
            })
            &&& forall|x: int|
                0 <= x < fat_tree::slots(b) && x != i ==> #[trigger] fat_dir::info_at(new, ch[k], x)
                    == fat_dir::info_at(old, ch[k], x)
            &&& forall|m: int|
                0 <= m < ch.len() && m != k ==> fat_laws::data_of(t, b, #[trigger] ch[m])
                    == fat_laws::data_of(s, b, ch[m])
            &&& forall|k2: int, i2: int, sn: Seq<u8>|
                fat_tree::first(s, b, ch, k2, i2, sn) ==> #[trigger] fat_tree::first(
                    t,
                    b,
                    ch,
                    k2,
                    i2,
                    sn,
                )
        }),
{
    let t = s.write_range(b, node, offset, data).0;
    let n2 = s.write_range(b, node, offset, data).1->Some_0;
    let old = fat_laws::data_of(s, b, ch[k]);
    let n = fat_tree::slots(b);
    assert(fat_laws::valid(b, ch[k]));
    fat_laws::lemma_geo(b, 0, ch[k]);
    assert(s.store.has(s.cur, b.sector_of(ch[k]) as int, b.spc()));
    fat_laws::lemma_sector_len(s, b.sector_of(ch[k]) as int, b.spc());
    lemma_restarted(old, i, n, ch[k], n2.start_cluster, n2.file_size);
    assert forall|m: int| 0 <= m < ch.len() implies fat_laws::entry(t, b, #[trigger] ch[m])
        == fat_laws::entry(s, b, ch[m]) && (m != k ==> fat_laws::data_of(t, b, ch[m])
        == fat_laws::data_of(s, b, ch[m])) by {
        fat_laws::lemma_chain_apart(s, b, fch, fch2, ch, m);
        assert(fat_laws::valid(b, ch[m]));
        if m != k {
            assert(ch[m] != ch[k]);
        }
    }
    fat_laws::lemma_still_linked(s, t, b, ch);
    fat_laws::lemma_fits(s, t, b, ch);
    assert forall|k2: int, i2: int, sn: Seq<u8>|
        fat_tree::first(s, b, ch, k2, i2, sn) implies #[trigger] fat_tree::first(
        t,
        b,
        ch,
        k2,
        i2,
        sn,
    ) by {
        lemma_first_kept(s, t, b, ch, k, k2, i2, sn);
    }
}

/// Law: after a write the directory says of the file under its name where it now starts and how
/// long it now is, so that whoever finds it there reads it as written. The file's other
/// attributes are as they were, and every other name of the directory is found where it was and
/// says what it said. Gives the file's chain after the write.
pub proof fn law_written_is_found(
    s: FatView,
    b: Fat32Bpb,
    dir: u32,
    ch: Seq<u32>,
    k: int,
    i: int,
    name: Seq<u8>,
    sn: Seq<u8>,
    node: OpenNode,
    fch: Seq<u32>,
    offset: u32,
    data: Seq<u8>,
) -> (fch2: Seq<u32>)
    requires
        fat_laws::good_geo(b),
        fat_laws::ready(s, b),
        fat_laws::good_hint(s, b),
        fat_tree::dir_ok(s, b, dir, ch),
        fat_name::short_name(name) == Some(sn),
        fat_tree::plain(sn),
        fat_tree::first(s, b, ch, k, i, sn),
        opened(s, b, ch, k, i, node, fch),
        data.len() > 0,
        s.write_range(b, node, offset, data).1 is Some,
    ensures
        ({
            let t = s.write_range(b, node, offset, data).0;
            let n2 = s.write_range(b, node, offset, data).1->Some_0;
            let want = tmpfs::overwritten(
                fat_laws::content(s, b, fch, node.file_size as int),
                offset as int,
                data,
            );
            &&& s.find(b, dir, name).1 matches Some(was) && t.find(b, dir, name).1 == Some(
                DirEntryInfo {
                    start_cluster: n2.start_cluster,
                    file_size: want.len() as u32,
                    ..was
                },
            )
            &&& n2.file_size == want.len()
            &&& fat_laws::ready(t, b)
            &&& fat_laws::good_hint(t, b)
            &&& opened(t, b, ch, k, i, n2, fch2)
            &&& fat_laws::fits(s, b, fch) ==> fat_laws::fits(t, b, fch2)
            &&& fat_laws::content(t, b, fch2, want.len() as int) == want
            &&& fat_tree::dir_ok(t, b, dir, ch)
            &&& forall|k2: int, i2: int, other: Seq<u8>|
                fat_tree::first(s, b, ch, k2, i2, other) ==> #[trigger] fat_tree::first(
                    t,
                    b,
                    ch,
                    k2,
                    i2,
                    other,
                )
            &&& forall|k2: int, i2: int|
                0 <= k2 < ch.len() && 0 <= i2 < fat_tree::slots(b) && !(k2 == k && i2 == i)
                    ==> #[trigger] fat_dir::info_at(fat_laws::data_of(t, b, ch[k2]), ch[k2], i2)
                    == fat_dir::info_at(fat_laws::data_of(s, b, ch[k2]), ch[k2], i2)
        }),
{
    let fch2 = fat_laws::lemma_write_range(s, b, node, fch, offset, data);
    let t = s.write_range(b, node, offset, data).0;
    fat_laws::lemma_geo(b, 0, node.dir_cluster);
    assert(node.entry_offset == i * 32);
    lemma_written(s, b, dir, ch, k, i, node, fch, offset, data, fch2);
    fat_tree::law_find(s, b, dir, ch, k, i, name, sn);
    assert(fat_tree::first(t, b, ch, k, i, sn));
    fat_tree::law_find(t, b, dir, ch, k, i, name, sn);
    assert forall|m: int| 0 <= m < ch.len() implies !fch2.contains(#[trigger] ch[m]) by {
        fat_laws::lemma_chain_apart(s, b, fch, fch2, ch, m);
    }
    fch2
}

} // verus!
