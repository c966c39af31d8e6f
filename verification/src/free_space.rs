//! What holds of the search for free space: which cluster or block is taken, and when none is.
use vstd::prelude::*;

use crate::exfat::ExfatView;
use crate::exfat_laws;
use crate::fat::{Fat32Bpb, FatView};
use crate::fat_laws;
use crate::mfs;
use crate::mfs::MfsView;

verus! {

/// Going up from `from`, and round from the last number to the first, `d` comes before `to`.
pub open spec fn passed(from: u32, d: u32, to: u32) -> bool {
    if from <= to {
        from <= d < to
    } else {
        from <= d || d < to
    }
}

/// The clusters of a FAT32 volume from `from` up to `to`, round the end, are in use.
#[verifier::opaque]
pub open spec fn in_use(s: FatView, b: Fat32Bpb, from: u32, to: u32) -> bool {
    forall|d: u32|
        fat_laws::valid(b, d) && passed(from, d, to) ==> #[trigger] fat_laws::entry(s, b, d) != 0
}

/// All clusters of a FAT32 volume are in use.
#[verifier::opaque]
pub open spec fn all_in_use(s: FatView, b: Fat32Bpb) -> bool {
    forall|d: u32| fat_laws::valid(b, d) ==> #[trigger] fat_laws::entry(s, b, d) != 0
}

/// The cluster after `c`, round the end.
pub open spec fn after(b: Fat32Bpb, c: u32) -> int {
    if c == b.clusters() + 1 {
        2
    } else {
        c + 1
    }
}

/// One more cluster passed.
proof fn lemma_one_more(s: FatView, b: Fat32Bpb, from: u32, c: u32, next: u32)
    requires
        fat_laws::valid(b, from),
        fat_laws::valid(b, c),
        next == after(b, c),
        fat_laws::entry(s, b, c) != 0,
        in_use(s, b, from, c),
    ensures
        next == from ==> all_in_use(s, b),
        next != from ==> in_use(s, b, from, next),
{
    reveal(in_use);
    reveal(all_in_use);
    if next == from {
        assert forall|d: u32| fat_laws::valid(b, d) implies #[trigger] fat_laws::entry(s, b, d)
            != 0 by {
            assert(d == c || passed(from, d, c));
        }
    } else {
        assert forall|d: u32|
            fat_laws::valid(b, d) && passed(from, d, next) implies #[trigger] fat_laws::entry(
            s,
            b,
            d,
        ) != 0 by {
            assert(d == c || passed(from, d, c));
        }
    }
}

/// What is in use does not depend on which sector of the table is in memory.
proof fn lemma_same_use(s: FatView, t: FatView, b: Fat32Bpb, from: u32, to: u32)
    requires
        t == (FatView { fat_buf: t.fat_buf, ..s }),
    ensures
        in_use(t, b, from, to) == in_use(s, b, from, to),
        all_in_use(t, b) == all_in_use(s, b),
        fat_laws::entry(t, b, to) == fat_laws::entry(s, b, to),
{
    reveal(in_use);
    reveal(all_in_use);
    assert forall|d: u32|
        #![trigger fat_laws::entry(t, b, d)]
        #![trigger fat_laws::entry(s, b, d)]
        fat_laws::entry(t, b, d) == fat_laws::entry(s, b, d) by {}
}

/// What the search for a free cluster says.
pub open spec fn first_free(s: FatView, b: Fat32Bpb, from: u32, r: (FatView, Option<u32>)) -> bool {
    match r {
        (t, Some(f)) => {
            &&& fat_laws::valid(b, f)
            &&& fat_laws::entry(s, b, f) == 0
            &&& in_use(s, b, from, f)
            &&& t.hint == after(b, f)
        },
        (t, None) => all_in_use(s, b) && t.hint == s.hint,
    }
}

/// The rest of the search for a free cluster on a FAT32 volume.
proof fn lemma_round(s: FatView, b: Fat32Bpb, start: u32, c: u32, fuel: nat)
    requires
        fat_laws::good_geo(b),
        fat_laws::ready(s, b),
        fat_laws::valid(b, start),
        fat_laws::valid(b, c),
        fuel >= if start <= c {
            b.clusters() - (c - start)
        } else {
            start - c
        },
        in_use(s, b, start, c),
    ensures
        first_free(s, b, start, s.search_free(b, start, c, fuel)),
    decreases fuel,
{
    fat_laws::lemma_fat_get(s, b, c);
    let (t, e) = s.fat_get(b, c);
    let c2 = FatView::next_candidate(b, c);
    assert(c2 == after(b, c));
    if e != 0 {
        lemma_one_more(s, b, start, c, c2);
        if c2 != start {
            lemma_same_use(s, t, b, start, c2);
            lemma_round(t, b, start, c2, (fuel - 1) as nat);
            let r = t.search_free(b, start, c2, (fuel - 1) as nat);
            if r.1 is Some {
                lemma_same_use(s, t, b, start, r.1->Some_0);
            }
        }
    }
}

/// Law: on a FAT32 volume the first free cluster is taken, from the one behind the last that was
/// taken on and round to it again, and none only where none is free.
pub proof fn law_fat_first_free(s: FatView, b: Fat32Bpb)
    requires
        fat_laws::good_geo(b),
        fat_laws::ready(s, b),
        fat_laws::valid(b, s.hint),
    ensures
        match s.find_free(b) {
            (t, Some(f)) => {
                &&& fat_laws::valid(b, f)
                &&& fat_laws::entry(s, b, f) == 0
                &&& forall|d: u32|
                    fat_laws::valid(b, d) && passed(s.hint, d, f) ==> #[trigger] fat_laws::entry(
                        s,
                        b,
                        d,
                    ) != 0
                &&& t.hint == if f == b.clusters() + 1 {
                    2
                } else {
                    f + 1
                }
            },
            (t, None) => {
                &&& forall|d: u32|
                    fat_laws::valid(b, d) ==> #[trigger] fat_laws::entry(s, b, d) != 0
                &&& t.hint == s.hint
            },
        },
{
    reveal(in_use);
    reveal(all_in_use);
    lemma_round(s, b, s.hint, s.hint, 0xFFFF_FFFF);
}

/// The first free block from `b` on.
proof fn lemma_first(m: Seq<bool>, b: int, end: int)
    ensures
        match mfs::first_free(m, b, end) {
            Some(x) => b <= x < end && !m[x] && forall|i: int| b <= i < x ==> #[trigger] m[i],
            None => forall|i: int| b <= i < end ==> #[trigger] m[i],
        },
    decreases end - b,
{
    if b < end && m[b] {
        lemma_first(m, b + 1, end);
    }
}

/// Law: on a MorionFS the first free block of the data area is taken, from the one behind the last
/// that was taken on, else the first before that.
pub proof fn law_mfs_first_free(s: MfsView, b: u32)
    requires
        s.alloc_block().1 == Some(b),
        s.bmp.len() == s.total,
        mfs::data_start(s.total) <= s.alloc_next <= s.total,
    ensures
        !s.bmp[b as int],
        s.alloc_block().0.alloc_next == b + 1,
        s.alloc_next <= b ==> forall|i: int| s.alloc_next <= i < b ==> #[trigger] s.bmp[i],
        b < s.alloc_next ==> forall|i: int|
            mfs::data_start(s.total) <= i < b || s.alloc_next <= i < s.total ==> #[trigger] s.bmp[i],
{
    reveal(MfsView::alloc_block);
    lemma_first(s.bmp, s.alloc_next as int, s.total as int);
    lemma_first(s.bmp, mfs::data_start(s.total), s.alloc_next as int);
}

/// The number of the candidate that comes `i` after `start`.
proof fn lemma_candidate(s: ExfatView, start: u32, i: int)
    requires
        2 <= start < s.geo.count + 2,
        0 <= i < s.geo.count,
        s.geo.count + 2 <= 0xFFFF_FFFF,
    ensures
        s.candidate(start, i) == if start + i < s.geo.count + 2 {
            start + i
        } else {
            start + i - s.geo.count
        },
{
    let n = s.geo.count as int;
    let x = start - 2 + i;
    assert(x % n == if x < n {
        x
    } else {
        x - n
    }) by (nonlinear_arith)
        requires
            0 <= x < 2 * n,
            n > 0,
    ;
}

/// The rest of the search for a free cluster on an exFAT volume.
proof fn lemma_search(s: ExfatView, bm: Seq<u32>, start: u32, i: int)
    requires
        exfat_laws::vol_ok(s, bm),
        exfat_laws::fits(s, bm),
        exfat_laws::valid(s.geo, start),
        0 <= i <= s.geo.count,
        forall|j: int|
            0 <= j < i ==> exfat_laws::used(s, bm, #[trigger] s.candidate(start, j)),
    ensures
        match s.alloc_from(start, i).1 {
            Some(f) => exists|k: int|
                i <= k < s.geo.count && f == #[trigger] s.candidate(start, k) && forall|j: int|
                    0 <= j < k ==> exfat_laws::used(s, bm, #[trigger] s.candidate(start, j)),
            None => true,
        },
    decreases s.geo.count - i,
{
    exfat_laws::lemma_vol(s, bm);
    if i < s.geo.count {
        let c = s.candidate(start, i);
        lemma_candidate(s, start, i);
        exfat_laws::lemma_bmp_get(s, bm, c);
        let (t, u) = s.bmp_get(c);
        if u {
            assert forall|d: u32|
                exfat_laws::valid(s.geo, d) implies #[trigger] exfat_laws::used(t, bm, d)
                == exfat_laws::used(s, bm, d) by {
                exfat_laws::lemma_same_used(s, t, bm, d);
            }
            assert(t.geo == s.geo);
            assert(exfat_laws::vol_ok(t, bm)) by {
                reveal(exfat_laws::vol_ok);
                assert forall|j: int| 0 <= j < bm.len() implies exfat_laws::used(
                    t,
                    bm,
                    #[trigger] bm[j],
                ) by {
                    assert(exfat_laws::valid(s.geo, bm[j]));
                    assert(exfat_laws::used(s, bm, bm[j]));
                }
            }
            exfat_laws::lemma_fits(s, t, bm);
            assert forall|j: int| 0 <= j < i + 1 implies exfat_laws::used(
                t,
                bm,
                #[trigger] t.candidate(start, j),
            ) by {
                lemma_candidate(s, start, j);
                assert(t.candidate(start, j) == s.candidate(start, j));
                assert(exfat_laws::used(s, bm, s.candidate(start, j)));
            }
            lemma_search(t, bm, start, i + 1);
            if t.alloc_from(start, i + 1).1 is Some {
                let f = t.alloc_from(start, i + 1).1->Some_0;
                let k = choose|k: int|
                    i + 1 <= k < t.geo.count && f == #[trigger] t.candidate(start, k)
                        && forall|j: int|
                        0 <= j < k ==> exfat_laws::used(t, bm, #[trigger] t.candidate(start, j));
                assert(f == s.candidate(start, k));
                assert forall|j: int| 0 <= j < k implies exfat_laws::used(
                    s,
                    bm,
                    #[trigger] s.candidate(start, j),
                ) by {
                    lemma_candidate(s, start, j);
                    assert(t.candidate(start, j) == s.candidate(start, j));
                    assert(exfat_laws::used(t, bm, t.candidate(start, j)));
                }
            }
        } else {
            assert(s.candidate(start, i) == c);
        }
    }
}

/// Law: on an exFAT volume the first free cluster is taken, from the one behind the last that was
/// taken on and round to it again.
pub proof fn law_exfat_first_free(s: ExfatView, bm: Seq<u32>, f: u32)
    requires
        exfat_laws::vol_ok(s, bm),
        exfat_laws::fits(s, bm),
        s.alloc_cluster().1 == Some(f),
    ensures
        exfat_laws::valid(s.geo, f),
        forall|d: u32|
            exfat_laws::valid(s.geo, d) && passed(s.hint, d, f) ==> #[trigger] exfat_laws::used(
                s,
                bm,
                d,
            ),
{
    reveal(ExfatView::alloc_cluster);
    assert(exfat_laws::valid(s.geo, s.hint)) by {
        reveal(exfat_laws::vol_ok);
    }
    let h = s.hint;
    exfat_laws::lemma_vol(s, bm);
    lemma_search(s, bm, h, 0);
    let k = choose|k: int|
        0 <= k < s.geo.count && f == #[trigger] s.candidate(h, k) && forall|j: int|
            0 <= j < k ==> exfat_laws::used(s, bm, #[trigger] s.candidate(h, j));
    lemma_candidate(s, h, k);
    assert forall|d: u32|
        exfat_laws::valid(s.geo, d) && passed(h, d, f) implies #[trigger] exfat_laws::used(
        s,
        bm,
        d,
    ) by {
        let j = if d >= h {
            d - h
        } else {
            d - h + s.geo.count
        };
        lemma_candidate(s, h, j);
        assert(s.candidate(h, j) == d);
    }
}

} // verus!
