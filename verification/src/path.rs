//! Paths: byte strings cut at slashes.
use vstd::prelude::*;

use crate::bytes;

verus! {

/// Where the segment that covers position `i` ends.
pub open spec fn seg_end(p: Seq<u8>, i: int) -> int
    decreases p.len() - i,
{
    if i >= p.len() || p[i] == 0x2F {
        i
    } else {
        seg_end(p, i + 1)
    }
}

/// A segment ends inside the path and not before it starts.
pub proof fn lemma_seg_end(p: Seq<u8>, i: int)
    requires
        0 <= i <= p.len(),
    ensures
        i <= seg_end(p, i) <= p.len(),
        i < p.len() && p[i] != 0x2F ==> i < seg_end(p, i),
        seg_end(p, i) < p.len() ==> p[seg_end(p, i)] == 0x2F,
        forall|j: int| i <= j < seg_end(p, i) ==> p[j] != 0x2F,
    decreases p.len() - i,
{
    if i < p.len() && p[i] != 0x2F {
        lemma_seg_end(p, i + 1);
    }
}

/// The non-empty segments of a path from position `i` on.
pub open spec fn segs_from(p: Seq<u8>, i: int) -> Seq<Seq<u8>>
    decreases p.len() - i,
{
    if i < 0 || i >= p.len() {
        Seq::empty()
    } else if p[i] == 0x2F {
        segs_from(p, i + 1)
    } else {
        proof {
            lemma_seg_end(p, i);
        }
        let j = seg_end(p, i);
        if i < j {
            seq![p.subrange(i, j)] + segs_from(p, j)
        } else {
            Seq::empty()
        }
    }
}

/// The non-empty segments of a path.
pub open spec fn segs(p: Seq<u8>) -> Seq<Seq<u8>> {
    segs_from(p, 0)
}

/// The non-empty segments of a path.
pub fn split(p: &[u8]) -> (r: Vec<Vec<u8>>)
    ensures
        bytes::deep(r@) == segs(p@),
        r.len() <= p.len(),
        forall|k: int| 0 <= k < r@.len() ==> (#[trigger] r@[k]).len() <= p.len(),
{
    let mut out: Vec<Vec<u8>> = Vec::new();
    let mut i: usize = 0;
    assert(bytes::deep(out@) + segs_from(p@, 0) =~= segs(p@));
    while i < p.len()
        invariant
            i <= p.len(),
            out.len() <= i,
            bytes::deep(out@) + segs_from(p@, i as int) == segs(p@),
            forall|k: int| 0 <= k < out@.len() ==> (#[trigger] out@[k]).len() <= p.len(),
        decreases p.len() - i,
    {
        if p[i] == 0x2F {
            i = i + 1;
        } else {
            let start: usize = i;
            let ghost whole = seg_end(p@, start as int);
            while i < p.len() && p[i] != 0x2F
                invariant
                    start <= i <= p.len(),
                    seg_end(p@, i as int) == whole,
                decreases p.len() - i,
            {
                i = i + 1;
            }
            let ghost before = out@;
            out.push(bytes::slice_copy(p, start, i));
            proof {
                lemma_seg_end(p@, start as int);
                assert(bytes::deep(out@) =~= bytes::deep(before).push(
                    p@.subrange(start as int, i as int),
                ));
                assert(bytes::deep(out@) + segs_from(p@, i as int) =~= bytes::deep(before)
                    + segs_from(p@, start as int));
            }
        }
    }
    assert(bytes::deep(out@) + segs_from(p@, i as int) =~= bytes::deep(out@));
    out
}

/// Position after the last slash among the first `n` bytes, at least 1 (at `n` = 0, 0).
pub open spec fn after_slash(p: Seq<u8>, n: int) -> int
    decreases n,
{
    if n <= 1 || p[n - 1] == 0x2F {
        n
    } else {
        after_slash(p, n - 1)
    }
}

/// `n` less the slashes that end the first `n` bytes, the first byte kept.
pub open spec fn before_slashes(p: Seq<u8>, n: int) -> int
    decreases n,
{
    if n <= 1 || p[n - 1] != 0x2F {
        n
    } else {
        before_slashes(p, n - 1)
    }
}

/// The directory that a path lies in; that of the root is the root.
pub open spec fn parent_of(p: Seq<u8>) -> Seq<u8> {
    p.subrange(0, before_slashes(p, after_slash(p, p.len() as int)))
}

/// The last segment of a path.
pub open spec fn leaf_of(p: Seq<u8>) -> Seq<u8> {
    p.subrange(after_slash(p, p.len() as int), p.len() as int)
}

/// A path without its last segment.
pub open spec fn pop_segment(out: Seq<u8>) -> Seq<u8> {
    let k = after_slash(out, out.len() as int);
    if out.len() <= 1 {
        out
    } else {
        out.subrange(
            0,
            if k > 1 {
                k - 1
            } else {
                1
            },
        )
    }
}

/// A path with one more segment.
pub open spec fn push_segment(out: Seq<u8>, comp: Seq<u8>) -> Seq<u8> {
    if out.len() > 1 {
        out + seq![0x2Fu8] + comp
    } else {
        out + comp
    }
}

/// The position after the last slash lies in the path.
pub proof fn lemma_after_slash(p: Seq<u8>, n: int)
    requires
        0 <= n <= p.len(),
    ensures
        0 <= after_slash(p, n) <= n,
        n >= 1 ==> after_slash(p, n) >= 1,
    decreases n,
{
    if n > 1 && p[n - 1] != 0x2F {
        lemma_after_slash(p, n - 1);
    }
}

/// Slashes are stripped from the end only.
pub proof fn lemma_before_slashes(p: Seq<u8>, n: int)
    requires
        0 <= n <= p.len(),
    ensures
        0 <= before_slashes(p, n) <= n,
        n >= 1 ==> before_slashes(p, n) >= 1,
    decreases n,
{
    if n > 1 && p[n - 1] == 0x2F {
        lemma_before_slashes(p, n - 1);
    }
}

/// Position after the last slash of a path.
pub fn leaf_start(p: &[u8]) -> (r: usize)
    ensures
        r == after_slash(p@, p@.len() as int),
        r <= p@.len(),
        p@.len() >= 1 ==> r >= 1,
{
    let mut n: usize = p.len();
    while n > 1 && p[n - 1] != 0x2F
        invariant
            n <= p.len(),
            after_slash(p@, n as int) == after_slash(p@, p@.len() as int),
        decreases n,
    {
        n = n - 1;
    }
    proof {
        lemma_after_slash(p@, p@.len() as int);
    }
    n
}

/// The segments of a path that are names: not empty, no slash, neither `.` nor `..`.
pub open spec fn is_name(s: Seq<u8>) -> bool {
    &&& s.len() > 0
    &&& forall|i: int| 0 <= i < s.len() ==> s[i] != 0x2F
    &&& s != seq![0x2Eu8]
    &&& s != seq![0x2Eu8, 0x2Eu8]
}

/// All are names.
pub open spec fn all_names(c: Seq<Seq<u8>>) -> bool {
    forall|k: int| 0 <= k < c.len() ==> is_name(#[trigger] c[k])
}

/// None is longer than `n`.
pub open spec fn all_short(c: Seq<Seq<u8>>, n: int) -> bool {
    forall|k: int| 0 <= k < c.len() ==> (#[trigger] c[k]).len() <= n
}

/// None is empty, and none holds a slash.
pub open spec fn all_clean(c: Seq<Seq<u8>>) -> bool {
    forall|k: int|
        0 <= k < c.len() ==> (#[trigger] c[k]).len() > 0 && (forall|j: int|
            0 <= j < c[k].len() ==> c[k][j] != 0x2F)
}

/// Names, each after a slash.
pub open spec fn joined(c: Seq<Seq<u8>>) -> Seq<u8>
    decreases c.len(),
{
    if c.len() == 0 {
        Seq::empty()
    } else {
        joined(c.drop_last()) + seq![0x2Fu8] + c.last()
    }
}

/// The path in normal form that goes through the given names.
pub open spec fn rendered(c: Seq<Seq<u8>>) -> Seq<u8> {
    if c.len() == 0 {
        seq![0x2Fu8]
    } else {
        joined(c)
    }
}

/// The names that are left of `c` and the segments from `k` on: `.` stays where it is,
/// `..` goes one up, at the root it stays.
pub open spec fn names_after(segs: Seq<Seq<u8>>, k: int, c: Seq<Seq<u8>>) -> Seq<Seq<u8>>
    decreases segs.len() - k,
{
    if k >= segs.len() {
        c
    } else if segs[k] == seq![0x2Eu8] {
        names_after(segs, k + 1, c)
    } else if segs[k] == seq![0x2Eu8, 0x2Eu8] {
        names_after(
            segs,
            k + 1,
            if c.len() == 0 {
                c
            } else {
                c.drop_last()
            },
        )
    } else {
        names_after(segs, k + 1, c.push(segs[k]))
    }
}

/// The normal form of the segments from `k` on below `out`. Names longer than `name_max` and
/// paths that get longer than `path_max` have none.
pub open spec fn plain_from(
    segs: Seq<Seq<u8>>,
    k: int,
    out: Seq<u8>,
    name_max: int,
    path_max: int,
) -> Option<Seq<u8>>
    decreases segs.len() - k,
{
    if k >= segs.len() {
        Some(out)
    } else if segs[k] == seq![0x2Eu8] {
        plain_from(segs, k + 1, out, name_max, path_max)
    } else if segs[k] == seq![0x2Eu8, 0x2Eu8] {
        plain_from(segs, k + 1, pop_segment(out), name_max, path_max)
    } else if segs[k].len() > name_max || push_segment(out, segs[k]).len() > path_max {
        None
    } else {
        plain_from(segs, k + 1, push_segment(out, segs[k]), name_max, path_max)
    }
}

/// The normal form of an absolute path: `.` and `..` resolved, single slashes, no slash at
/// the end; names stay as they are.
pub open spec fn plain(p: Seq<u8>, name_max: int, path_max: int) -> Option<Seq<u8>> {
    if p.len() == 0 || p[0] != 0x2F {
        None
    } else {
        plain_from(segs(p), 0, seq![0x2Fu8], name_max, path_max)
    }
}

/// A name after a slash is one more segment.
pub proof fn lemma_segs_append(p: Seq<u8>, s: Seq<u8>, i: int)
    requires
        s.len() > 0,
        forall|j: int| 0 <= j < s.len() ==> s[j] != 0x2F,
        0 <= i <= p.len(),
    ensures
        segs_from(p + seq![0x2Fu8] + s, i) == segs_from(p, i).push(s),
    decreases p.len() - i,
{
    let q = p + seq![0x2Fu8] + s;
    let n = p.len() as int;
    if i == n {
        assert(q[n] == 0x2F);
        lemma_run(q, n + 1, q.len() as int);
        assert(q.subrange(n + 1, q.len() as int) =~= s);
        assert(segs_from(q, q.len() as int) =~= Seq::empty());
        assert(segs_from(q, n + 1) =~= seq![s]);
        assert(segs_from(p, i).push(s) =~= seq![s]);
    } else if p[i] == 0x2F {
        assert(q[i] == 0x2F);
        lemma_segs_append(p, s, i + 1);
    } else {
        lemma_seg_end(p, i);
        let j = seg_end(p, i);
        assert(q[i] == p[i]);
        assert(j == n ==> q[j] == 0x2F);
        lemma_run(q, i, j);
        assert(q.subrange(i, j) =~= p.subrange(i, j));
        lemma_segs_append(p, s, j);
        assert(segs_from(q, i) =~= segs_from(p, i).push(s));
    }
}

/// The normal form of segments with one more name.
proof fn lemma_plain_from_push(
    segs: Seq<Seq<u8>>,
    k: int,
    out: Seq<u8>,
    n: Seq<u8>,
    name_max: int,
    path_max: int,
)
    requires
        is_name(n),
        0 <= k <= segs.len(),
    ensures
        plain_from(segs.push(n), k, out, name_max, path_max) == (match plain_from(
            segs,
            k,
            out,
            name_max,
            path_max,
        ) {
            None => None,
            Some(o) => if n.len() > name_max || push_segment(o, n).len() > path_max {
                None
            } else {
                Some(push_segment(o, n))
            },
        }),
    decreases segs.len() - k,
{
    let up = segs.push(n);
    if k == segs.len() {
        reveal_with_fuel(plain_from, 2);
    } else {
        assert(up[k] == segs[k]);
        if segs[k] == seq![0x2Eu8] {
            lemma_plain_from_push(segs, k + 1, out, n, name_max, path_max);
        } else if segs[k] == seq![0x2Eu8, 0x2Eu8] {
            lemma_plain_from_push(segs, k + 1, pop_segment(out), n, name_max, path_max);
        } else {
            lemma_plain_from_push(segs, k + 1, push_segment(out, segs[k]), n, name_max, path_max);
        }
    }
}

/// The normal form of a path with one more name is that of the path, with the name added.
pub proof fn lemma_plain_push(p: Seq<u8>, n: Seq<u8>, name_max: int, path_max: int)
    requires
        is_name(n),
        p.len() > 0,
        plain(p + seq![0x2Fu8] + n, name_max, path_max) is Some,
    ensures
        ({
            let q = plain(p + seq![0x2Fu8] + n, name_max, path_max)->Some_0;
            &&& plain(p, name_max, path_max) == Some(pop_segment(q))
            &&& leaf_of(q) == n
            &&& q.len() > 1
        }),
{
    lemma_segs_append(p, n, 0);
    assert((p + seq![0x2Fu8] + n)[0] == p[0]);
    lemma_plain_from_push(segs(p), 0, seq![0x2Fu8], n, name_max, path_max);
    law_normal_form(p, name_max, path_max);
    let c = names_after(segs(p), 0, Seq::empty());
    let o = plain(p, name_max, path_max)->Some_0;
    let q = push_segment(o, n);
    lemma_push_pop(c);
    lemma_starts(c);
    if o.len() > 1 {
        lemma_after_last(o, n, q.len() as int);
        assert(pop_segment(q) =~= o);
        assert(leaf_of(q) =~= n);
    } else {
        let none: Seq<u8> = Seq::empty();
        assert(o =~= seq![0x2Fu8]);
        assert(q =~= none + seq![0x2Fu8] + n);
        lemma_after_last(none, n, q.len() as int);
        assert(pop_segment(q) =~= o);
        assert(leaf_of(q) =~= n);
    }
}

/// A run without a slash up to `j`, where a slash stands or the path ends, is a segment.
pub proof fn lemma_run(q: Seq<u8>, i: int, j: int)
    requires
        0 <= i <= j <= q.len(),
        forall|k: int| i <= k < j ==> q[k] != 0x2F,
        j == q.len() || q[j] == 0x2F,
    ensures
        seg_end(q, i) == j,
    decreases j - i,
{
    if i < j {
        lemma_run(q, i + 1, j);
    }
}

/// The segments of a path are its names.
pub proof fn lemma_segs_joined(c: Seq<Seq<u8>>)
    requires
        all_names(c),
    ensures
        segs(rendered(c)) == c,
        c.len() > 0 ==> segs(joined(c)) == c,
    decreases c.len(),
{
    if c.len() == 0 {
        assert(segs_from(seq![0x2Fu8], 1) =~= Seq::empty());
        assert(segs(rendered(c)) =~= c);
    } else {
        let d = c.drop_last();
        assert forall|k: int| 0 <= k < d.len() implies is_name(#[trigger] d[k]) by {
            assert(d[k] == c[k]);
        }
        lemma_segs_joined(d);
        assert(is_name(c[c.len() - 1]));
        if d.len() == 0 {
            assert(segs(joined(d)) =~= d);
        }
        lemma_segs_append(joined(d), c.last(), 0);
        assert(d.push(c.last()) =~= c);
    }
}

/// Where the last name of a path starts.
proof fn lemma_after_last(x: Seq<u8>, s: Seq<u8>, n: int)
    requires
        forall|i: int| 0 <= i < s.len() ==> s[i] != 0x2F,
        x.len() + 1 <= n <= x.len() + 1 + s.len(),
    ensures
        after_slash(x + seq![0x2Fu8] + s, n) == x.len() + 1,
    decreases n,
{
    let q = x + seq![0x2Fu8] + s;
    if n > x.len() + 1 {
        assert(q[n - 1] == s[n - 1 - x.len() - 1]);
        lemma_after_last(x, s, n - 1);
    } else {
        assert(q[n - 1] == 0x2F);
    }
}

/// Adding and dropping a name on a path in normal form.
pub proof fn lemma_push_pop(c: Seq<Seq<u8>>)
    requires
        all_names(c),
    ensures
        rendered(c).len() >= 1,
        c.len() > 0 ==> rendered(c).len() >= 2,
        forall|s: Seq<u8>| is_name(s) ==> #[trigger] push_segment(rendered(c), s) == rendered(
            c.push(s),
        ),
        pop_segment(rendered(c)) == rendered(
            if c.len() == 0 {
                c
            } else {
                c.drop_last()
            },
        ),
    decreases c.len(),
{
    if c.len() > 0 {
        assert(is_name(c[c.len() - 1]));
    }
    assert forall|s: Seq<u8>| is_name(s) implies #[trigger] push_segment(rendered(c), s)
        == rendered(c.push(s)) by {
        let up = c.push(s);
        assert(up.drop_last() =~= c);
        assert(up.last() == s);
        assert(joined(up) == joined(c) + seq![0x2Fu8] + s);
        if c.len() == 0 {
            assert(push_segment(rendered(c), s) =~= joined(up));
        } else {
            assert(joined(c).len() >= 2);
            assert(push_segment(rendered(c), s) =~= joined(up));
        }
    }
    if c.len() > 0 {
        let d = c.drop_last();
        let x = joined(d);
        assert forall|k: int| 0 <= k < d.len() implies is_name(#[trigger] d[k]) by {
            assert(d[k] == c[k]);
        }
        lemma_push_pop(d);
        let q = rendered(c);
        lemma_after_last(x, c.last(), q.len() as int);
        if d.len() == 0 {
            assert(q.subrange(0, 1) =~= rendered(d));
        } else {
            assert(q.subrange(0, x.len() as int) =~= x);
        }
    }
}

/// The segments of a path are not empty and hold no slash.
pub proof fn lemma_segs_clean(p: Seq<u8>, i: int)
    requires
        0 <= i <= p.len(),
    ensures
        all_clean(segs_from(p, i)),
    decreases p.len() - i,
{
    if i < p.len() {
        if p[i] == 0x2F {
            lemma_segs_clean(p, i + 1);
        } else {
            lemma_seg_end(p, i);
            let j = seg_end(p, i);
            lemma_segs_clean(p, j);
            let all = segs_from(p, i);
            let rest = segs_from(p, j);
            assert(all == seq![p.subrange(i, j)] + rest);
            assert forall|k: int| 0 <= k < all.len() implies (#[trigger] all[k]).len() > 0 && (
            forall|x: int| 0 <= x < all[k].len() ==> all[k][x] != 0x2F) by {
                if k > 0 {
                    assert(all[k] == rest[k - 1]);
                } else {
                    assert(all[k] == p.subrange(i, j));
                }
            }
        }
    }
}

/// The normal form goes through the names that are left.
proof fn lemma_plain_names(
    segs: Seq<Seq<u8>>,
    k: int,
    c: Seq<Seq<u8>>,
    name_max: int,
    path_max: int,
)
    requires
        0 <= k <= segs.len(),
        all_names(c),
        all_clean(segs),
    ensures
        all_names(names_after(segs, k, c)),
        plain_from(segs, k, rendered(c), name_max, path_max) matches Some(q) ==> q == rendered(
            names_after(segs, k, c),
        ),
    decreases segs.len() - k,
{
    lemma_push_pop(c);
    if k < segs.len() {
        let s = segs[k];
        let down = if c.len() == 0 {
            c
        } else {
            c.drop_last()
        };
        assert forall|j: int| 0 <= j < down.len() implies is_name(#[trigger] down[j]) by {
            assert(down[j] == c[j]);
        }
        if s == seq![0x2Eu8] {
            lemma_plain_names(segs, k + 1, c, name_max, path_max);
        } else if s == seq![0x2Eu8, 0x2Eu8] {
            lemma_plain_names(segs, k + 1, down, name_max, path_max);
        } else {
            assert(is_name(s));
            let up = c.push(s);
            assert forall|j: int| 0 <= j < up.len() implies is_name(#[trigger] up[j]) by {
                if j < c.len() {
                    assert(up[j] == c[j]);
                }
            }
            lemma_plain_names(segs, k + 1, up, name_max, path_max);
        }
    }
}

/// Law: the normal form of a path goes through the names that are left when every `.` and
/// `..` has been followed, and through nothing else.
pub proof fn law_normal_form(p: Seq<u8>, name_max: int, path_max: int)
    requires
        plain(p, name_max, path_max) is Some,
    ensures
        plain(p, name_max, path_max) == Some(rendered(names_after(segs(p), 0, Seq::empty()))),
        all_names(names_after(segs(p), 0, Seq::empty())),
{
    lemma_segs_clean(p, 0);
    assert(rendered(Seq::<Seq<u8>>::empty()) =~= seq![0x2Fu8]);
    lemma_plain_names(segs(p), 0, Seq::empty(), name_max, path_max);
}

/// Names are taken over one by one.
proof fn lemma_names_kept(
    c: Seq<Seq<u8>>,
    k: int,
    name_max: int,
    path_max: int,
)
    requires
        0 <= k <= c.len(),
        all_names(c),
        all_short(c, name_max),
        rendered(c).len() <= path_max,
    ensures
        plain_from(c, k, rendered(c.subrange(0, k)), name_max, path_max) == Some(rendered(c)),
    decreases c.len() - k,
{
    let d = c.subrange(0, k);
    if k < c.len() {
        let up = c.subrange(0, k + 1);
        assert forall|j: int| 0 <= j < d.len() implies is_name(#[trigger] d[j]) by {
            assert(d[j] == c[j]);
        }
        lemma_push_pop(d);
        assert(is_name(c[k]));
        assert(d.push(c[k]) =~= up);
        lemma_names_kept(c, k + 1, name_max, path_max);
        lemma_longer(c, k + 1);
    } else {
        assert(d =~= c);
    }
}

/// A path through more names is longer.
pub proof fn lemma_longer(c: Seq<Seq<u8>>, k: int)
    requires
        0 < k <= c.len(),
    ensures
        rendered(c.subrange(0, k)).len() <= rendered(c).len(),
    decreases c.len() - k,
{
    if k < c.len() {
        let up = c.subrange(0, k + 1);
        assert(up.drop_last() =~= c.subrange(0, k));
        lemma_longer(c, k + 1);
    } else {
        assert(c.subrange(0, k) =~= c);
    }
}

/// No name left is longer than the limit.
proof fn lemma_names_short(
    segs: Seq<Seq<u8>>,
    k: int,
    c: Seq<Seq<u8>>,
    out: Seq<u8>,
    name_max: int,
    path_max: int,
)
    requires
        0 <= k <= segs.len(),
        all_short(c, name_max),
        plain_from(segs, k, out, name_max, path_max) is Some,
    ensures
        all_short(names_after(segs, k, c), name_max),
    decreases segs.len() - k,
{
    if k < segs.len() {
        let s = segs[k];
        let down = if c.len() == 0 {
            c
        } else {
            c.drop_last()
        };
        assert forall|j: int| 0 <= j < down.len() implies (#[trigger] down[j]).len()
            <= name_max by {
            assert(down[j] == c[j]);
        }
        if s == seq![0x2Eu8] {
            lemma_names_short(segs, k + 1, c, out, name_max, path_max);
        } else if s == seq![0x2Eu8, 0x2Eu8] {
            lemma_names_short(segs, k + 1, down, pop_segment(out), name_max, path_max);
        } else {
            let up = c.push(s);
            assert forall|j: int| 0 <= j < up.len() implies (#[trigger] up[j]).len()
                <= name_max by {
                if j < c.len() {
                    assert(up[j] == c[j]);
                }
            }
            lemma_names_short(
                segs,
                k + 1,
                up,
                push_segment(out, s),
                name_max,
                path_max,
            );
        }
    }
}

/// The length of a path in normal form stays within its limit.
pub proof fn lemma_plain_len(segs: Seq<Seq<u8>>, k: int, out: Seq<u8>, name_max: int, path_max: int)
    requires
        0 <= k <= segs.len(),
        1 <= out.len() <= path_max,
    ensures
        plain_from(segs, k, out, name_max, path_max) matches Some(q) ==> 1 <= q.len() <= path_max,
    decreases segs.len() - k,
{
    if k < segs.len() {
        lemma_after_slash(out, out.len() as int);
        lemma_plain_len(segs, k + 1, out, name_max, path_max);
        lemma_plain_len(segs, k + 1, pop_segment(out), name_max, path_max);
        if push_segment(out, segs[k]).len() <= path_max {
            lemma_plain_len(segs, k + 1, push_segment(out, segs[k]), name_max, path_max);
        }
    }
}

/// Law: a path in normal form is its own normal form.
pub proof fn law_normal_is_fixed(p: Seq<u8>, name_max: int, path_max: int)
    requires
        path_max >= 1,
    ensures
        plain(p, name_max, path_max) matches Some(q) ==> plain(q, name_max, path_max) == Some(q),
{
    if plain(p, name_max, path_max) is Some {
        let q = plain(p, name_max, path_max)->Some_0;
        let c = names_after(segs(p), 0, Seq::empty());
        law_normal_form(p, name_max, path_max);
        lemma_names_short(segs(p), 0, Seq::empty(), seq![0x2Fu8], name_max, path_max);
        lemma_plain_len(segs(p), 0, seq![0x2Fu8], name_max, path_max);
        lemma_segs_joined(c);
        lemma_names_kept(c, 0, name_max, path_max);
        assert(c.subrange(0, 0) =~= Seq::empty());
        assert(rendered(c.subrange(0, 0)) =~= seq![0x2Fu8]);
        lemma_push_pop(c);
        lemma_starts(c);
    }
}

/// A path in normal form starts with a slash.
pub proof fn lemma_starts(c: Seq<Seq<u8>>)
    ensures
        rendered(c).len() > 0,
        rendered(c)[0] == 0x2F,
    decreases c.len(),
{
    if c.len() > 1 {
        lemma_starts(c.drop_last());
    } else if c.len() == 1 {
        assert(joined(c.drop_last()).len() == 0);
    }
}

/// The normal form of an absolute path; names stay as they are.
#[verifier::loop_isolation(false)]
pub fn normalize(p: &[u8], name_max: usize, path_max: usize) -> (r: Option<Vec<u8>>)
    requires
        path_max >= 1,
    ensures
        bytes::opt(r) == plain(p@, name_max as int, path_max as int),
        r matches Some(v) ==> 1 <= v@.len() <= path_max,
{
    if p.len() == 0 || p[0] != 0x2F {
        return None;
    }
    let parts: Vec<Vec<u8>> = split(p);
    let mut out: Vec<u8> = vec![0x2Fu8];
    assert(out@ =~= seq![0x2Fu8]);
    let mut k: usize = 0;
    let ghost goal = plain(p@, name_max as int, path_max as int);
    while k < parts.len()
        invariant
            k <= parts.len(),
            1 <= out.len() <= path_max,
            bytes::deep(parts@) == segs(p@),
            plain_from(segs(p@), k as int, out@, name_max as int, path_max as int) == goal,
        decreases parts.len() - k,
    {
        assert(bytes::deep(parts@)[k as int] == parts@[k as int]@);
        let seg: &Vec<u8> = &parts[k];
        let dot: bool = seg.len() == 1 && seg[0] == 0x2E;
        let dotdot: bool = seg.len() == 2 && seg[0] == 0x2E && seg[1] == 0x2E;
        proof {
            assert(dot == (seg@ =~= seq![0x2Eu8]));
            assert(dotdot == (seg@ =~= seq![0x2Eu8, 0x2Eu8]));
        }
        if dot {
        } else if dotdot {
            if out.len() > 1 {
                let at: usize = leaf_start(&out);
                out.truncate(
                    if at > 1 {
                        at - 1
                    } else {
                        1
                    },
                );
            }
        } else {
            if seg.len() > name_max {
                return None;
            }
            let ghost want = push_segment(out@, seg@);
            if out.len() > 1 {
                if out.len() >= path_max {
                    return None;
                }
                out.push(0x2F);
            }
            if seg.len() > path_max - out.len() {
                return None;
            }
            let mut comp: Vec<u8> = bytes::slice_copy(seg, 0, seg.len());
            out.append(&mut comp);
            assert(out@ =~= want);
        }
        k = k + 1;
    }
    Some(out)
}

/// How many bytes stand before the first 0 byte, from `i` on.
pub open spec fn nul_at(p: Seq<u8>, i: int) -> int
    decreases p.len() - i,
{
    if i >= p.len() || p[i] == 0 {
        i
    } else {
        nul_at(p, i + 1)
    }
}

/// The path in a message body: what stands before the first 0 byte.
pub fn payload_path(payload: &[u8]) -> (r: Vec<u8>)
    ensures
        0 <= nul_at(payload@, 0) <= payload@.len(),
        r@ == payload@.subrange(0, nul_at(payload@, 0)),
{
    let mut n: usize = 0;
    while n < payload.len() && payload[n] != 0
        invariant
            n <= payload.len(),
            nul_at(payload@, n as int) == nul_at(payload@, 0),
        decreases payload.len() - n,
    {
        n = n + 1;
    }
    bytes::slice_copy(payload, 0, n)
}

/// The path at the start of a shared page: what stands before the first 0 byte, at
/// most 95 bytes.
pub fn page_path(page: &[u8]) -> (r: Vec<u8>)
    ensures
        r@ == ({
            let p = if page@.len() > crate::vfs::PAYLOAD_LEN - 1 {
                page@.subrange(0, crate::vfs::PAYLOAD_LEN - 1)
            } else {
                page@
            };
            p.subrange(0, nul_at(p, 0))
        }),
{
    let p: Vec<u8> = if page.len() > crate::vfs::PAYLOAD_LEN - 1 {
        bytes::slice_copy(page, 0, crate::vfs::PAYLOAD_LEN - 1)
    } else {
        vstd::slice::slice_to_vec(page)
    };
    payload_path(&p)
}

/// The two paths of a request that names two: `a`, a separator byte, `b`, at the
/// start of a shared page. `None` where they do not fit one message or the page.
pub fn two_paths(page: &[u8], a_len: u32, b_len: u32) -> (r: Option<(Vec<u8>, Vec<u8>)>)
    ensures
        r is Some <==> a_len + 1 + b_len <= crate::vfs::PAYLOAD_LEN && a_len + 1 + b_len
            <= page@.len(),
        r matches Some((a, b)) ==> a@ == page@.subrange(0, a_len as int) && b@ == page@.subrange(
            a_len + 1,
            a_len + 1 + b_len,
        ),
{
    let total: u64 = a_len as u64 + 1 + b_len as u64;
    if total > crate::vfs::PAYLOAD_LEN as u64 || total > page.len() as u64 {
        return None;
    }
    let a: Vec<u8> = bytes::slice_copy(page, 0, a_len as usize);
    let b: Vec<u8> = bytes::slice_copy(page, a_len as usize + 1, total as usize);
    Some((a, b))
}

} // verus!
