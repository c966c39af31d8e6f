//! What holds of the normal form of a path, step by step.
use vstd::prelude::*;

use crate::path;

verus! {

/// The bytes of `.`.
pub open spec fn dot() -> Seq<u8> {
    seq![0x2Eu8]
}

/// The bytes of `..`.
pub open spec fn two_dots() -> Seq<u8> {
    seq![0x2Eu8, 0x2E]
}

/// A path, a slash, and something behind it.
pub open spec fn one_more(p: Seq<u8>, n: Seq<u8>) -> Seq<u8> {
    p + seq![0x2Fu8] + n
}

/// A name: not empty, no slash in it, and neither of the two that mean a directory.
pub open spec fn ordinary(n: Seq<u8>) -> bool {
    n.len() > 0 && !n.contains(0x2F) && n != dot() && n != two_dots()
}

/// The normal form of segments with one more.
proof fn lemma_push(
    segs: Seq<Seq<u8>>,
    k: int,
    out: Seq<u8>,
    n: Seq<u8>,
    name_max: int,
    path_max: int,
)
    requires
        0 <= k <= segs.len(),
    ensures
        path::plain_from(segs.push(n), k, out, name_max, path_max) == match path::plain_from(
            segs,
            k,
            out,
            name_max,
            path_max,
        ) {
            None => None,
            Some(o) => path::plain_from(seq![n], 0, o, name_max, path_max),
        },
    decreases segs.len() - k,
{
    let up = segs.push(n);
    if k == segs.len() {
        reveal_with_fuel(path::plain_from, 2);
        assert(up[k] == n);
        assert(seq![n][0] == n);
    } else {
        assert(up[k] == segs[k]);
        if segs[k] == seq![0x2Eu8] {
            lemma_push(segs, k + 1, out, n, name_max, path_max);
        } else if segs[k] == seq![0x2Eu8, 0x2Eu8] {
            lemma_push(segs, k + 1, path::pop_segment(out), n, name_max, path_max);
        } else {
            lemma_push(segs, k + 1, path::push_segment(out, segs[k]), n, name_max, path_max);
        }
    }
}

/// One segment more.
proof fn lemma_one(p: Seq<u8>, n: Seq<u8>, name_max: int, path_max: int)
    requires
        path::plain(p, name_max, path_max) is Some,
        n.len() > 0,
        !n.contains(0x2F),
    ensures
        ({
            let q = path::plain(p, name_max, path_max)->Some_0;
            let r = path::plain(one_more(p, n), name_max, path_max);
            &&& n == dot() ==> r == Some(q)
            &&& n == two_dots() ==> r == Some(path::pop_segment(q))
            &&& n != dot() && n != two_dots() ==> r == if n.len() > name_max
                || path::push_segment(q, n).len() > path_max {
                None
            } else {
                Some(path::push_segment(q, n))
            }
        }),
{
    let q = path::plain(p, name_max, path_max)->Some_0;
    assert forall|j: int| 0 <= j < n.len() implies n[j] != 0x2F by {
        assert(n.contains(n[j]));
    }
    path::lemma_segs_append(p, n, 0);
    assert(one_more(p, n)[0] == p[0]);
    lemma_push(path::segs(p), 0, seq![0x2Fu8], n, name_max, path_max);
    reveal_with_fuel(path::plain_from, 2);
    assert(seq![n][0] == n);
}

/// Law: the normal form of a path is had step by step. That of `/` is `/`, and there is nothing
/// above it. A name more is a name more, after a slash, unless it or the whole gets too long. A dot
/// more changes nothing, and two dots take the name before them away.
pub proof fn law_step_by_step(p: Seq<u8>, n: Seq<u8>, name_max: int, path_max: int)
    requires
        path::plain(p, name_max, path_max) is Some,
        ordinary(n),
        p.len() > 0,
    ensures
        ({
            let root = seq![0x2Fu8];
            let q = path::plain(p, name_max, path_max)->Some_0;
            let r = if q == root {
                root + n
            } else {
                q + root + n
            };
            &&& path::plain(root, name_max, path_max) == Some(root)
            &&& path::plain(one_more(root, two_dots()), name_max, path_max) == Some(root)
            &&& path::plain(one_more(p, n), name_max, path_max) == if n.len() <= name_max && r.len()
                <= path_max {
                Some(r)
            } else {
                None
            }
            &&& path::plain(one_more(p, dot()), name_max, path_max) == Some(q)
            &&& n.len() <= name_max && r.len() <= path_max ==> path::plain(
                one_more(one_more(p, n), two_dots()),
                name_max,
                path_max,
            ) == Some(q)
        }),
{
    let root = seq![0x2Fu8];
    let q = path::plain(p, name_max, path_max)->Some_0;
    assert(path::segs_from(root, 1) =~= Seq::<Seq<u8>>::empty());
    assert(path::segs(root) =~= Seq::<Seq<u8>>::empty());
    assert(path::plain(root, name_max, path_max) == Some(root));
    lemma_dots();
    lemma_one(root, two_dots(), name_max, path_max);
    assert(path::pop_segment(root) =~= root);
    lemma_one(p, n, name_max, path_max);
    lemma_one(p, dot(), name_max, path_max);
    path::law_normal_form(p, name_max, path_max);
    let c = path::names_after(path::segs(p), 0, Seq::empty());
    path::lemma_push_pop(c);
    path::lemma_starts(c);
    assert(q.len() == 1 ==> q =~= root);
    assert(path::push_segment(q, n) =~= if q == root {
        root + n
    } else {
        q + root + n
    });
    if path::plain(one_more(p, n), name_max, path_max) is Some {
        lemma_one(one_more(p, n), two_dots(), name_max, path_max);
        assert forall|j: int| 0 <= j < n.len() implies n[j] != 0x2F by {
            assert(n.contains(n[j]));
        }
        path::lemma_plain_push(p, n, name_max, path_max);
    }
}

/// There is no slash in the dots.
proof fn lemma_dots()
    ensures
        !dot().contains(0x2F),
        !two_dots().contains(0x2F),
        dot() != two_dots(),
{
    assert(dot().len() != two_dots().len());
}

} // verus!
