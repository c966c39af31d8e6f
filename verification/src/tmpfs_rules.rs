//! What holds of the files in memory as their callers see them: what is read, written, made and
//! told, and which names stand for which.
use vstd::prelude::*;

use crate::bytes;
use crate::fat_long;
use crate::fat_name;
use crate::path;
use crate::path_laws;
use crate::tmpfs;
use crate::tmpfs::{TmpNodeView, TmpView};
use crate::tmpfs_laws;
use crate::vfs::{DirEntryView, ReplyView};
use crate::volume_laws::just_those;

verus! {

/// Law: reading gives the bytes of the file from the offset on, as many as are there and were asked
/// for. A directory, what is not open, and an offset beyond 32 bits are refused.
pub proof fn law_read(s: TmpView, fd: u32, offset: u64, count: u32)
    requires
        tmpfs_laws::sound(s),
    ensures
        match s.fd_node(fd) {
            Some(n) => if s.nodes[n].is_dir || offset > 0xFFFF_FFFF {
                s.read(fd, offset, count) is Fail
            } else {
                s.read(fd, offset, count) matches ReplyView::Data(d) && {
                    let left = s.nodes[n].content.len() - offset;
                    &&& d.len() == if left < 0 {
                        0
                    } else if left < count {
                        left
                    } else {
                        count as int
                    }
                    &&& forall|i: int|
                        0 <= i < d.len() ==> #[trigger] d[i] == s.nodes[n].content[offset + i]
                }
            },
            None => s.read(fd, offset, count) is Fail,
        },
{
}

/// Law: a write is done exactly where it is to an open file, the offset has 32 bits, and the file
/// does not grow or there is room for the whole of it among the 32768 bytes; the answer is how many
/// bytes were written, and the file then reaches to the end of what was written, if it did not
/// already reach further.
pub proof fn law_write_done(s: TmpView, fd: u32, offset: u64, data: Seq<u8>)
    requires
        tmpfs_laws::sound(s),
        data.len() <= u32::MAX,
    ensures
        ({
            let (t, r) = s.write(fd, offset, data);
            let end = offset + data.len();
            match s.fd_node(fd) {
                Some(n) => {
                    let old = s.nodes[n].content.len();
                    if !s.nodes[n].is_dir && offset <= 0xFFFF_FFFF && (end <= old || s.space + end
                        <= 32768) {
                        &&& r == ReplyView::Value(data.len() as u64)
                        &&& t.nodes[n].content.len() == if end <= old {
                            old as int
                        } else {
                            end
                        }
                        &&& t.space == if end <= old {
                            s.space
                        } else {
                            s.space + end
                        }
                        &&& t.fds == s.fds
                    } else {
                        r is Fail && t == s
                    }
                },
                None => r is Fail && t == s,
            }
        }),
{
    if s.fd_node(fd) is Some {
        assert(s.fds[fd as int] == s.fd_node(fd));
    }
}

/// Law: what is told of a path is the length of the file, and whether it is a directory.
pub proof fn law_stat(s: TmpView, p: Seq<u8>, c: Seq<u8>, n: int)
    requires
        tmpfs_laws::sound(s),
        tmpfs::normal(p) == Some(c),
        0 <= n < s.nodes.len(),
        s.nodes[n].used,
        s.nodes[n].path == c,
    ensures
        s.stat(p) matches ReplyView::StatOf(f) && f.size == s.nodes[n].content.len() as u64
            && f.is_dir == s.nodes[n].is_dir && f.mode == 0,
{
    tmpfs_laws::lemma_find(s.nodes, c, 0);
    let k = s.find(c)->Some_0;
    assert(s.nodes[k].used && s.nodes[k].path == c);
    if s.find(c) is None {
        assert(s.nodes[n].path != c);
    }
}

/// Where the last name starts.
proof fn lemma_after(p: Seq<u8>, i: int, z: int)
    requires
        0 < i <= z <= p.len(),
        p[i - 1] == 0x2F,
        forall|k: int| i <= k < z ==> #[trigger] p[k] != 0x2F,
    ensures
        path::after_slash(p, z) == i,
    decreases z - i,
{
    if i < z {
        assert(p[z - 1] != 0x2F);
        lemma_after(p, i, z - 1);
    }
}

/// Law: a path of a directory, a slash and a name lies in that directory and ends with that name;
/// one of only a slash and a name lies in the root.
pub proof fn law_parent_and_leaf(d: Seq<u8>, n: Seq<u8>)
    requires
        n.len() > 0,
        !n.contains(0x2F),
        d.len() == 0 || (d[0] == 0x2F && d.len() > 1 && d.last() != 0x2F),
    ensures
        path::leaf_of(d + seq![0x2Fu8] + n) == n,
        path::parent_of(d + seq![0x2Fu8] + n) == if d.len() == 0 {
            seq![0x2Fu8]
        } else {
            d
        },
{
    let p = d + seq![0x2Fu8] + n;
    let i = d.len() as int + 1;
    let z = p.len() as int;
    assert forall|k: int| i <= k < z implies #[trigger] p[k] != 0x2F by {
        assert(p[k] == n[k - i]);
        assert(n.contains(n[k - i]));
    }
    lemma_after(p, i, z);
    assert(p.subrange(i, z) =~= n);
    if d.len() == 0 {
        assert(path::before_slashes(p, 1) == 1);
        assert(p.subrange(0, 1) =~= seq![0x2Fu8]);
    } else {
        assert(p[i - 1] == 0x2F);
        assert(p[i - 2] == d.last());
        assert(path::before_slashes(p, i - 1) == i - 1);
        assert(path::before_slashes(p, i) == i - 1);
        assert(p.subrange(0, i - 1) =~= d);
    }
}

/// What a listing says of a file or directory with the name `a`, or `a`, a dot and `x`.
pub open spec fn is_record(c: TmpNodeView, a: Seq<u8>, x: Seq<u8>, r: DirEntryView) -> bool {
    &&& r.name.len() == 11
    &&& forall|i: int|
        0 <= i < 8 ==> #[trigger] r.name[i] == if i < a.len() {
            a[i]
        } else {
            0x20
        }
    &&& forall|i: int|
        8 <= i < 11 ==> #[trigger] r.name[i] == if i - 8 < x.len() {
            x[i - 8]
        } else {
            0x20
        }
    &&& r.long.len() == 0
    &&& r.is_dir == c.is_dir
    &&& r.size == if c.is_dir {
        0
    } else {
        c.content.len() as u64 as int
    }
}

/// Where the first dot is.
proof fn lemma_first_dot(s: Seq<u8>, i: int, k: int)
    requires
        0 <= i <= k <= s.len(),
        forall|j: int| i <= j < k ==> #[trigger] s[j] != 0x2E,
        k < s.len() ==> s[k] == 0x2E,
    ensures
        tmpfs::first_dot(s, i) == k,
    decreases k - i,
{
    if i < k {
        assert(s[i] != 0x2E);
        lemma_first_dot(s, i + 1, k);
    }
}

/// Law: a listing shows a file or a directory with its name, the part before the dot filled up to
/// eight bytes and the part behind it to three, with its length, which is 0 for a directory, and
/// whether it is one.
pub proof fn law_record(c: TmpNodeView, d: Seq<u8>, a: Seq<u8>, x: Seq<u8>)
    requires
        a.len() <= 8,
        x.len() <= 3,
        a.len() > 0,
        !a.contains(0x2F) && !a.contains(0x2E) && !x.contains(0x2F),
        d.len() == 0 || (d[0] == 0x2F && d.len() > 1 && d.last() != 0x2F),
        c.path == d + seq![0x2Fu8] + if x.len() > 0 {
            a + seq![0x2Eu8] + x
        } else {
            a
        },
    ensures
        is_record(c, a, x, tmpfs::record_of(c)),
{
    let n = if x.len() > 0 {
        a + seq![0x2Eu8] + x
    } else {
        a
    };
    if n.contains(0x2F) {
        let k = choose|k: int| 0 <= k < n.len() && n[k] == 0x2F;
        if k < a.len() {
            assert(a[k] == 0x2F);
        } else if k > a.len() {
            assert(x[k - a.len() - 1] == 0x2F);
        }
    }
    law_parent_and_leaf(d, n);
    assert forall|j: int| 0 <= j < a.len() implies #[trigger] n[j] != 0x2E by {
        assert(n[j] == a[j]);
        assert(a.contains(a[j]));
    }
    lemma_first_dot(n, 0, a.len() as int);
}

/// Law: a listing of an open directory shows exactly what lies in it, each as it is, in the order of
/// the table, up to 36. The numbers are handed back.
pub proof fn law_readdir(s: TmpView, fd: u32, n: int) -> (at: Seq<int>)
    requires
        tmpfs_laws::sound(s),
        s.fd_node(fd) == Some(n),
    ensures
        just_those(|i: int| lies_in(s.nodes, i, s.nodes[n].path), 0, s.nodes.len() as int, at),
        !s.nodes[n].is_dir ==> s.readdir(fd) is Fail,
        s.nodes[n].is_dir ==> (s.readdir(fd) matches ReplyView::Entries(t) && {
            &&& t.len() == if at.len() <= 36 {
                at.len()
            } else {
                36
            }
            &&& forall|x: int|
                0 <= x < t.len() ==> #[trigger] t[x] == tmpfs::record_of(s.nodes[at[x]])
        }),
{
    lemma_children(s.nodes, s.nodes[n].path, 0, Seq::empty())
}

/// Node `i` is in use and lies in the directory.
pub open spec fn lies_in(nodes: Seq<TmpNodeView>, i: int, dir: Seq<u8>) -> bool {
    nodes[i].used && nodes[i].path != dir && path::parent_of(nodes[i].path) == dir
}

/// The listing from node `i` on.
proof fn lemma_children(
    nodes: Seq<TmpNodeView>,
    dir: Seq<u8>,
    i: int,
    out: Seq<DirEntryView>,
) -> (at: Seq<int>)
    requires
        0 <= i <= nodes.len(),
        out.len() <= 36,
    ensures
        just_those(|k: int| lies_in(nodes, k, dir), i, nodes.len() as int, at),
        ({
            let t = tmpfs::list_nodes(nodes, dir, i, out);
            &&& t.len() == if out.len() + at.len() <= 36 {
                out.len() + at.len()
            } else {
                36
            }
            &&& forall|x: int| 0 <= x < out.len() ==> #[trigger] t[x] == out[x]
            &&& forall|x: int|
                out.len() <= x < t.len() ==> #[trigger] t[x] == tmpfs::record_of(
                    nodes[at[x - out.len()]],
                )
        }),
    decreases nodes.len() - i,
{
    let p = |k: int| lies_in(nodes, k, dir);
    let e = nodes.len() as int;
    if i == nodes.len() {
        Seq::empty()
    } else if !p(i) {
        let rest = lemma_children(nodes, dir, i + 1, out);
        crate::fat_list::lemma_front(p, i, e, rest)
    } else if out.len() >= 36 {
        let rest = crate::fat_list::lemma_rest(p, i + 1, e);
        crate::fat_list::lemma_front(p, i, e, rest)
    } else {
        let out2 = out.push(tmpfs::record_of(nodes[i]));
        let rest = lemma_children(nodes, dir, i + 1, out2);
        let at = crate::fat_list::lemma_front(p, i, e, rest);
        let t = tmpfs::list_nodes(nodes, dir, i, out);
        assert(t == tmpfs::list_nodes(nodes, dir, i + 1, out2));
        assert forall|x: int| 0 <= x < out.len() implies #[trigger] t[x] == out[x] by {
            assert(t[x] == out2[x]);
        }
        assert forall|x: int| out.len() <= x < t.len() implies #[trigger] t[x] == tmpfs::record_of(
            nodes[at[x - out.len()]],
        ) by {
            if x == out.len() {
                assert(t[x] == out2[x]);
            } else {
                assert(at[x - out.len()] == rest[x - out2.len()]);
            }
        }
        at
    }
}

/// Law: a directory is made exactly where the path has a normal form other than the root, nothing is
/// there yet, its parent is a directory, and there is room for one more; it is then there, empty,
/// and nothing else has changed.
pub proof fn law_mkdir(s: TmpView, p: Seq<u8>, c: Seq<u8>, m: int)
    requires
        tmpfs_laws::sound(s),
        tmpfs::normal(p) == Some(c),
        0 <= m < s.nodes.len(),
    ensures
        ({
            let (t, r) = s.mkdir(p);
            let parent = s.find(path::parent_of(c));
            let free = exists|i: int| 0 <= i < s.nodes.len() && !(#[trigger] s.nodes[i]).used;
            if c.len() > 1 && s.find(c) is None && parent is Some && s.nodes[parent->Some_0].is_dir
                && free {
                &&& r == ReplyView::Value(1)
                &&& t.find(c) matches Some(n) && t.nodes[n].is_dir && t.nodes[n].content.len() == 0
                    && !s.nodes[n].used && (m != n ==> t.nodes[m] == s.nodes[m])
                &&& t.fds == s.fds && t.space == s.space
            } else {
                r is Fail && t == s
            }
        }),
{
    tmpfs_laws::lemma_free(s.nodes, 0);
    tmpfs_laws::lemma_find(s.nodes, c, 0);
    if s.mkdir(p).1 is Value {
        let n = tmpfs::free_node(s.nodes, 0)->Some_0;
        let t = s.new_node(c, true).0;
        tmpfs_laws::lemma_find(t.nodes, c, 0);
        assert(t.nodes[n].used && t.nodes[n].path == c);
        let k = t.find(c)->Some_0;
        if k != n {
            assert(s.nodes[k].used && s.nodes[k].path == c);
        }
    }
}

/// A name in capitals.
pub open spec fn capitals(a: Seq<u8>) -> Seq<u8> {
    Seq::new(a.len(), |i: int| fat_long::capital(a[i]))
}

/// Law: a name is taken in capitals, up to eight bytes and, behind a dot, up to three; a name with
/// more, with two dots, or with nothing before the dot is none. A dot at the end is left out.
pub proof fn law_name(a: Seq<u8>, x: Seq<u8>)
    requires
        !a.contains(0x2E),
        !x.contains(0x2E),
    ensures
        tmpfs::norm_component(a) == if 1 <= a.len() <= 8 {
            Some(capitals(a))
        } else {
            None
        },
        tmpfs::norm_component(a + seq![0x2Eu8] + x) == if 1 <= a.len() <= 8 && x.len() <= 3 {
            Some(
                if x.len() == 0 {
                    capitals(a)
                } else {
                    capitals(a) + seq![0x2Eu8] + capitals(x)
                },
            )
        } else {
            None
        },
{
    let f = |c: u8| bytes::upper(c);
    assert(a.map_values(f) =~= capitals(a));
    assert(x.map_values(f) =~= capitals(x));
    lemma_no_dot(a, a.len() as int);
    assert(fat_name::name_ext(a) =~= Seq::empty());
    let n = a + seq![0x2Eu8] + x;
    lemma_dot(n, a.len() as int, n.len() as int, x);
    assert(n.subrange(0, a.len() as int) =~= a);
    assert(n.subrange(a.len() as int + 1, n.len() as int) =~= x);
}

/// No dot is found where there is none.
proof fn lemma_no_dot(a: Seq<u8>, n: int)
    requires
        0 <= n <= a.len(),
        !a.contains(0x2E),
    ensures
        fat_name::last_dot(a, n) == -1,
    decreases n,
{
    if n > 0 {
        assert(a.contains(a[n - 1]));
        lemma_no_dot(a, n - 1);
    }
}

/// The last dot is found.
proof fn lemma_dot(n: Seq<u8>, k: int, z: int, x: Seq<u8>)
    requires
        0 <= k < z <= n.len(),
        n[k] == 0x2E,
        !x.contains(0x2E),
        n.len() == k + 1 + x.len(),
        forall|i: int| k < i < n.len() ==> #[trigger] n[i] == x[i - k - 1],
    ensures
        fat_name::last_dot(n, z) == k,
    decreases z,
{
    if z - 1 > k {
        assert(n[z - 1] == x[z - 1 - k - 1]);
        assert(x.contains(x[z - 1 - k - 1]));
        lemma_dot(n, k, z - 1, x);
    }
}

/// The normal form of segments with one more.
proof fn lemma_push(segs: Seq<Seq<u8>>, k: int, out: Seq<u8>, n: Seq<u8>)
    requires
        0 <= k <= segs.len(),
    ensures
        tmpfs::norm_segs(segs.push(n), k, out) == match tmpfs::norm_segs(segs, k, out) {
            None => None,
            Some(o) => tmpfs::norm_segs(seq![n], 0, o),
        },
    decreases segs.len() - k,
{
    let up = segs.push(n);
    if k == segs.len() {
        reveal_with_fuel(tmpfs::norm_segs, 2);
        assert(up[k] == n);
        assert(seq![n][0] == n);
    } else {
        assert(up[k] == segs[k]);
        if segs[k] == seq![0x2Eu8] {
            lemma_push(segs, k + 1, out, n);
        } else if segs[k] == seq![0x2Eu8, 0x2Eu8] {
            lemma_push(segs, k + 1, path::pop_segment(out), n);
        } else if tmpfs::norm_component(segs[k]) is Some {
            let c = tmpfs::norm_component(segs[k])->Some_0;
            lemma_push(segs, k + 1, path::push_segment(out, c), n);
        }
    }
}

/// Law: the normal form of a path is had step by step: one more name is added to it as it is taken,
/// behind a slash, up to 96 bytes in all, and a dot changes nothing.
pub proof fn law_step_by_step(p: Seq<u8>, n: Seq<u8>, q: Seq<u8>)
    requires
        p.len() > 0,
        tmpfs::normal(p) == Some(q),
        path_laws::ordinary(n),
    ensures
        tmpfs::normal(seq![0x2Fu8]) == Some(seq![0x2Fu8]),
        tmpfs::normal(p + seq![0x2Fu8] + path_laws::dot()) == Some(q),
        tmpfs::normal(p + seq![0x2Fu8] + n) == match tmpfs::norm_component(n) {
            None => None,
            Some(c) => {
                let r = if q.len() > 1 {
                    q + seq![0x2Fu8] + c
                } else {
                    q + c
                };
                if r.len() <= 96 {
                    Some(r)
                } else {
                    None
                }
            },
        },
{
    let root = seq![0x2Fu8];
    let dot = path_laws::dot();
    assert(path::segs_from(root, 1) =~= Seq::<Seq<u8>>::empty());
    assert(path::segs(root) =~= Seq::<Seq<u8>>::empty());
    assert forall|j: int| 0 <= j < n.len() implies n[j] != 0x2F by {
        assert(n.contains(n[j]));
    }
    path::lemma_segs_append(p, n, 0);
    path::lemma_segs_append(p, dot, 0);
    assert((p + root + n)[0] == p[0]);
    assert((p + root + dot)[0] == p[0]);
    lemma_push(path::segs(p), 0, root, n);
    lemma_push(path::segs(p), 0, root, dot);
    reveal_with_fuel(tmpfs::norm_segs, 2);
    assert(seq![n][0] == n);
    assert(seq![dot][0] == dot);
}

} // verus!
