//! What holds of directories on ext2 volumes: which names are found, what a listing shows, where
//! a path leads, and what the service answers.
use vstd::prelude::*;

use crate::bytes;
use crate::ext2;
use crate::ext2::{Ext2SrvView, Ext2View, InodeView};
use crate::ext2_laws;
use crate::fat_long::capital;
use crate::fat_name;
use crate::path;
use crate::vfs::{DirEntryView, ReplyView, Request};

verus! {

/// The entries of a directory block start at `ps`: the first at its start, each one where the
/// one before ends, the last one ends with the block; each has room for its name.
pub open spec fn tiles(b: Seq<u8>, ps: Seq<int>) -> bool {
    &&& ps.len() > 0
    &&& ps[0] == 0
    &&& b.len() <= 65536
    &&& forall|k: int|
        0 <= k < ps.len() ==> 0 <= #[trigger] ps[k] && ps[k] + 8 + b[ps[k] + 6] <= b.len()
            && bytes::le16(b, ps[k] + 4) >= 8 && ps[k] + bytes::le16(b, ps[k] + 4) == next(
            b,
            ps,
            k,
        )
}

/// Where entry `k` ends.
pub open spec fn next(b: Seq<u8>, ps: Seq<int>, k: int) -> int {
    if k + 1 < ps.len() {
        ps[k + 1]
    } else {
        b.len() as int
    }
}

/// The inode number in the entry at `p`.
pub open spec fn num_at(b: Seq<u8>, p: int) -> u32 {
    bytes::le32(b, p)
}

/// The name in the entry at `p`.
pub open spec fn name_at(b: Seq<u8>, p: int) -> Seq<u8> {
    b.subrange(p + 8, p + 8 + b[p + 6])
}

/// The entry at `p` is in use and has the name; where `ci` says so, up to the case of letters.
pub open spec fn has_name(b: Seq<u8>, p: int, name: Seq<u8>, ci: bool) -> bool {
    &&& num_at(b, p) != 0
    &&& name_at(b, p).len() == name.len()
    &&& forall|x: int|
        0 <= x < name.len() ==> #[trigger] name_at(b, p)[x] == name[x] || (ci && bytes::upper(
            name_at(b, p)[x],
        ) == bytes::upper(name[x]))
}

/// What the specification of a search looks at.
proof fn lemma_name(b: Seq<u8>, p: int, name: Seq<u8>, ci: bool)
    requires
        0 <= p,
        p + 8 + b[p + 6] <= b.len(),
    ensures
        has_name(b, p, name, ci) <==> bytes::le32(b, p) != 0 && b[p + 6] == name.len()
            && ext2::same_name(ext2::entry_name(b, p), name, ci),
{
    let a = name_at(b, p);
    assert(ext2::entry_name(b, p) == a);
    assert(a.len() == b[p + 6]);
    if !ci && has_name(b, p, name, ci) {
        assert(a =~= name);
    }
    if ci && ext2::same_name(a, name, ci) && b[p + 6] == name.len() {
        assert forall|x: int| 0 <= x < name.len() implies #[trigger] a[x] == name[x] || (ci
            && bytes::upper(a[x]) == bytes::upper(name[x])) by {
            assert(bytes::upper(a[x]) == bytes::upper(name[x]));
        }
    }
    if ci && has_name(b, p, name, ci) {
        assert forall|x: int| 0 <= x < a.len() implies bytes::upper(#[trigger] a[x])
            == bytes::upper(name[x]) by {
            assert(a[x] == name[x] || bytes::upper(a[x]) == bytes::upper(name[x]));
        }
    }
}

/// A search in a block, from entry `k` on. Where one is found, which is handed back.
proof fn lemma_find_block(b: Seq<u8>, ps: Seq<int>, k: int, name: Seq<u8>, ci: bool) -> (m: int)
    requires
        tiles(b, ps),
        0 <= k < ps.len(),
    ensures
        k <= m <= ps.len(),
        forall|x: int| k <= x < m ==> !has_name(b, #[trigger] ps[x], name, ci),
        m < ps.len() ==> has_name(b, ps[m], name, ci),
        ext2::find_in_block(b, ps[k], name, ci) == if m < ps.len() {
            Some(num_at(b, ps[m]))
        } else {
            None
        },
    decreases ps.len() - k,
{
    lemma_name(b, ps[k], name, ci);
    if has_name(b, ps[k], name, ci) {
        k
    } else if k + 1 < ps.len() {
        assert(ps[k + 1] == ps[k] + bytes::le16(b, ps[k] + 4));
        assert(ps[k + 1] + 8 + b[ps[k + 1] + 6] <= b.len());
        let m = lemma_find_block(b, ps, k + 1, name, ci);
        assert forall|x: int| k <= x < m implies !has_name(b, #[trigger] ps[x], name, ci) by {
            if x > k {
                assert(k + 1 <= x);
            }
        }
        m
    } else {
        let end = ps[k] + bytes::le16(b, ps[k] + 4);
        assert(ext2::find_in_block(b, end, name, ci) is None);
        ps.len() as int
    }
}

/// A directory: its blocks are `ds`, they hold `cs`, and their entries start at `ts`.
pub open spec fn dir_is(
    e: Ext2View,
    dir: InodeView,
    ds: Seq<u32>,
    cs: Seq<Seq<u8>>,
    ts: Seq<Seq<int>>,
) -> bool {
    &&& e.geo.wf()
    &&& e.store.wf()
    &&& dir.size == ds.len() * e.geo.block_size
    &&& cs.len() == ds.len()
    &&& ts.len() == ds.len()
    &&& forall|n: int|
        0 <= n < ds.len() ==> #[trigger] ds[n] != 0 && ext2_laws::is_block(e, dir, n, ds[n])
            && ext2_laws::on_disk(e, ds[n], cs[n]) && tiles(cs[n], ts[n])
}

/// The block at a position of a directory.
proof fn lemma_block(
    e: Ext2View,
    dir: InodeView,
    ds: Seq<u32>,
    cs: Seq<Seq<u8>>,
    ts: Seq<Seq<int>>,
    n: int,
)
    requires
        dir_is(e, dir, ds, cs, ts),
        0 <= n < ds.len(),
    ensures
        n * e.geo.block_size < dir.size,
        n * e.geo.block_size + e.geo.block_size == (n + 1) * e.geo.block_size,
        (n + 1) * e.geo.block_size <= dir.size,
        (n * e.geo.block_size) / (e.geo.block_size as int) == n,
        e.map(dir, n) == Some(ds[n]),
        e.rd(ds[n]) == Some(cs[n]),
        tiles(cs[n], ts[n]),
        ts[n][0] == 0,
        e.geo.block_size > 0,
{
    ext2_laws::lemma_size(e);
    let bs = e.geo.block_size as int;
    let m = ds.len() as int;
    assert(ds[n] != 0);
    ext2_laws::law_block_tree(e, dir, n, ds[n]);
    ext2_laws::lemma_rd(e, ds[n], cs[n]);
    assert(n * bs + bs <= m * bs && n * bs + bs == (n + 1) * bs) by (nonlinear_arith)
        requires
            n + 1 <= m,
            bs > 0,
    ;
    vstd::arithmetic::div_mod::lemma_fundamental_div_mod_converse(n * bs, bs, n, 0);
}

/// A search in a directory, from block `n` on. Where one is found, block and entry are handed
/// back.
proof fn lemma_find(
    e: Ext2View,
    dir: InodeView,
    ds: Seq<u32>,
    cs: Seq<Seq<u8>>,
    ts: Seq<Seq<int>>,
    n: int,
    name: Seq<u8>,
    ci: bool,
) -> (r: (int, int))
    requires
        dir_is(e, dir, ds, cs, ts),
        0 <= n <= ds.len(),
    ensures
        n <= r.0 <= ds.len(),
        r.0 < ds.len() ==> 0 <= r.1 < ts[r.0].len() && has_name(cs[r.0], ts[r.0][r.1], name, ci),
        forall|x: int, y: int|
            n <= x < ds.len() && 0 <= y < ts[x].len() && (x < r.0 || (x == r.0 && y < r.1))
                ==> !has_name(cs[x], #[trigger] ts[x][y], name, ci),
        e.find(dir, name, ci, n * e.geo.block_size) == if r.0 < ds.len() {
            Some(num_at(cs[r.0], ts[r.0][r.1]))
        } else {
            None
        },
    decreases ds.len() - n,
{
    ext2_laws::lemma_size(e);
    if n < ds.len() {
        lemma_block(e, dir, ds, cs, ts, n);
        let m = lemma_find_block(cs[n], ts[n], 0, name, ci);
        if m < ts[n].len() {
            (n, m)
        } else {
            let r = lemma_find(e, dir, ds, cs, ts, n + 1, name, ci);
            assert forall|x: int, y: int|
                n <= x < ds.len() && 0 <= y < ts[x].len() && (x < r.0 || (x == r.0 && y
                    < r.1)) implies !has_name(cs[x], #[trigger] ts[x][y], name, ci) by {
                if x > n {
                    assert(n + 1 <= x);
                }
            }
            r
        }
    } else {
        (n, 0)
    }
}

/// Law: looking up a name in a directory gives the inode number in the first entry that has
/// exactly this name; if none has, in the first whose name differs in the case of letters only;
/// and nothing if there is none of these either. Which entry it is, is handed back.
pub proof fn law_lookup(
    e: Ext2View,
    dir: InodeView,
    ds: Seq<u32>,
    cs: Seq<Seq<u8>>,
    ts: Seq<Seq<int>>,
    name: Seq<u8>,
) -> (r: (int, int))
    requires
        dir_is(e, dir, ds, cs, ts),
    ensures
        match e.lookup(dir, name) {
            None => forall|x: int, y: int|
                0 <= x < ds.len() && 0 <= y < ts[x].len() ==> !has_name(
                    cs[x],
                    #[trigger] ts[x][y],
                    name,
                    true,
                ),
            Some(i) => {
                &&& 0 <= r.0 < ds.len() && 0 <= r.1 < ts[r.0].len()
                &&& i == num_at(cs[r.0], ts[r.0][r.1])
                &&& has_name(cs[r.0], ts[r.0][r.1], name, true)
                &&& !has_name(cs[r.0], ts[r.0][r.1], name, false) ==> forall|x: int, y: int|
                    0 <= x < ds.len() && 0 <= y < ts[x].len() ==> !has_name(
                        cs[x],
                        #[trigger] ts[x][y],
                        name,
                        false,
                    )
                &&& forall|x: int, y: int|
                    0 <= x < ds.len() && 0 <= y < ts[x].len() && (x < r.0 || (x == r.0 && y < r.1))
                        ==> !has_name(
                        cs[x],
                        #[trigger] ts[x][y],
                        name,
                        !has_name(cs[r.0], ts[r.0][r.1], name, false),
                    )
            },
        },
{
    let a = lemma_find(e, dir, ds, cs, ts, 0, name, false);
    let b = lemma_find(e, dir, ds, cs, ts, 0, name, true);
    assert(0 * e.geo.block_size == 0);
    if a.0 < ds.len() {
        a
    } else {
        b
    }
}

/// An entry that a listing shows: in use, with a name that is neither `.` nor `..`.
pub open spec fn is_shown(b: Seq<u8>, p: int) -> bool {
    let n = name_at(b, p);
    &&& num_at(b, p) != 0
    &&& n.len() > 0
    &&& !(n.len() == 1 && n[0] == 0x2E)
    &&& !(n.len() == 2 && n[0] == 0x2E && n[1] == 0x2E)
}

/// The record of an entry: its name, as much of it as fits, and the type and size that its inode
/// says, or the type in the entry where that cannot be read.
pub open spec fn is_record(e: Ext2View, b: Seq<u8>, p: int, r: DirEntryView) -> bool {
    let n = name_at(b, p);
    &&& n.len() <= 64 ==> r.long == n
    &&& n.len() > 64 ==> r.long.len() <= 64 && r.long == n.subrange(0, r.long.len() as int)
    &&& r.name == ext2::short_name(n)
    &&& match e.inode(num_at(b, p)) {
        Some(i) => r.is_dir == (i.mode / 0x1000 == 4) && r.size == if i.mode / 0x1000 == 4 {
            0
        } else {
            i.size as int
        },
        None => r.is_dir == (b[p + 7] == 2) && r.size == 0,
    }
}

/// A name is cut within it.
proof fn lemma_cut(name: Seq<u8>, n: int)
    requires
        0 <= n <= name.len(),
    ensures
        0 <= ext2::long_cut(name, n) <= n,
        n == name.len() ==> ext2::long_cut(name, n) == n,
    decreases n,
{
    if n > 0 && n < name.len() && name[n] / 64 == 2 {
        lemma_cut(name, n - 1);
    }
}

/// The record of an entry.
proof fn lemma_record(e: Ext2View, b: Seq<u8>, p: int)
    requires
        0 <= p,
        p + 8 + b[p + 6] <= b.len(),
    ensures
        is_record(e, b, p, e.record(ext2::entry_name(b, p), b[p + 7], bytes::le32(b, p))),
        is_shown(b, p) <==> !(bytes::le32(b, p) == 0 || b[p + 6] == 0 || ext2::is_dots(
            ext2::entry_name(b, p),
        )),
{
    let n = name_at(b, p);
    assert(ext2::entry_name(b, p) == n);
    assert(n == seq![0x2Eu8] <==> n.len() == 1 && n[0] == 0x2E) by {
        if n.len() == 1 && n[0] == 0x2E {
            assert(n =~= seq![0x2Eu8]);
        }
    }
    assert(n == seq![0x2Eu8, 0x2Eu8] <==> n.len() == 2 && n[0] == 0x2E && n[1] == 0x2E) by {
        if n.len() == 2 && n[0] == 0x2E && n[1] == 0x2E {
            assert(n =~= seq![0x2Eu8, 0x2Eu8]);
        }
    }
    if n.len() <= 64 {
        lemma_cut(n, n.len() as int);
        assert(n.subrange(0, n.len() as int) =~= n);
    } else {
        lemma_cut(n, 64);
    }
}

/// The first `k` entries of block `n`, or of one before it.
pub open spec fn before(x: (int, int), n: int, k: int) -> bool {
    x.0 < n || (x.0 == n && x.1 < k)
}

/// What a listing of the entries before entry `k` of block `n` is: `at` says which entry each
/// record is of.
pub open spec fn listed(
    e: Ext2View,
    cs: Seq<Seq<u8>>,
    ts: Seq<Seq<int>>,
    n: int,
    k: int,
    at: Seq<(int, int)>,
    l: Seq<DirEntryView>,
) -> bool {
    &&& at.len() == l.len() <= 36
    &&& forall|x: int|
        0 <= x < l.len() ==> {
            &&& 0 <= (#[trigger] at[x]).0 < ts.len()
            &&& 0 <= at[x].1 < ts[at[x].0].len()
            &&& before(at[x], n, k)
            &&& is_shown(cs[at[x].0], ts[at[x].0][at[x].1])
            &&& is_record(e, cs[at[x].0], ts[at[x].0][at[x].1], l[x])
        }
    &&& forall|x: int, y: int|
        0 <= x < y < l.len() ==> before(#[trigger] at[x], (#[trigger] at[y]).0, at[y].1)
    &&& l.len() < 36 ==> forall|i: int, j: int|
        0 <= i < ts.len() && 0 <= j < ts[i].len() && before((i, j), n, k) && is_shown(
            cs[i],
            #[trigger] ts[i][j],
        ) ==> at.contains((i, j))
}

/// The entries of one block listed after others.
proof fn lemma_emit(
    e: Ext2View,
    cs: Seq<Seq<u8>>,
    ts: Seq<Seq<int>>,
    n: int,
    k: int,
    at: Seq<(int, int)>,
    l: Seq<DirEntryView>,
) -> (r: Seq<(int, int)>)
    requires
        cs.len() == ts.len(),
        0 <= n < ts.len(),
        tiles(cs[n], ts[n]),
        0 <= k < ts[n].len(),
        listed(e, cs, ts, n, k, at, l),
    ensures
        listed(e, cs, ts, n + 1, 0, r, e.emit(cs[n], ts[n][k], l)),
    decreases ts[n].len() - k,
{
    let b = cs[n];
    let ps = ts[n];
    let p = ps[k];
    lemma_record(e, b, p);
    assert(p + bytes::le16(b, p + 4) == next(b, ps, k));
    let shown = is_shown(b, p);
    if shown && l.len() >= 36 {
        assert(e.emit(b, p, l) == l);
        assert forall|x: int| 0 <= x < l.len() implies before(#[trigger] at[x], n + 1, 0) by {}
        at
    } else {
        let rec = e.record(ext2::entry_name(b, p), b[p + 7], bytes::le32(b, p));
        let l2 = if shown {
            l.push(rec)
        } else {
            l
        };
        let at2 = if shown {
            at.push((n, k))
        } else {
            at
        };
        assert(e.emit(b, p, l) == e.emit(b, next(b, ps, k), l2));
        assert forall|i: int, j: int|
            l2.len() < 36 && 0 <= i < ts.len() && 0 <= j < ts[i].len() && before((i, j), n, k + 1)
                && is_shown(cs[i], #[trigger] ts[i][j]) implies at2.contains((i, j)) by {
            if before((i, j), n, k) {
                assert(at.contains((i, j)));
                let x = choose|x: int| 0 <= x < at.len() && at[x] == (i, j);
                assert(at2[x] == (i, j));
            } else {
                assert((i, j) == (n, k));
                assert(at2[at2.len() - 1] == (n, k));
            }
        }
        assert forall|x: int, y: int| 0 <= x < y < l2.len() implies before(
            #[trigger] at2[x],
            (#[trigger] at2[y]).0,
            at2[y].1,
        ) by {
            assert(at2[x] == at[x]);
            if y < l.len() {
                assert(at2[y] == at[y]);
            }
        }
        assert(listed(e, cs, ts, n, k + 1, at2, l2));
        if k + 1 < ps.len() {
            lemma_emit(e, cs, ts, n, k + 1, at2, l2)
        } else {
            assert(e.emit(b, b.len() as int, l2) == l2);
            assert forall|i: int, j: int|
                l2.len() < 36 && 0 <= i < ts.len() && 0 <= j < ts[i].len() && before(
                    (i, j),
                    n + 1,
                    0,
                ) && is_shown(cs[i], #[trigger] ts[i][j]) implies at2.contains((i, j)) by {
                assert(before((i, j), n, k + 1));
            }
            at2
        }
    }
}

/// The blocks of a directory from the `n`th on listed.
proof fn lemma_list(
    e: Ext2View,
    dir: InodeView,
    ds: Seq<u32>,
    cs: Seq<Seq<u8>>,
    ts: Seq<Seq<int>>,
    n: int,
    at: Seq<(int, int)>,
    l: Seq<DirEntryView>,
) -> (r: Seq<(int, int)>)
    requires
        dir_is(e, dir, ds, cs, ts),
        0 <= n <= ds.len(),
        listed(e, cs, ts, n, 0, at, l),
    ensures
        e.list_from(dir, n * e.geo.block_size, l) matches Some(out) && listed(
            e,
            cs,
            ts,
            ds.len() as int,
            0,
            r,
            out,
        ),
    decreases ds.len() - n,
{
    ext2_laws::lemma_size(e);
    if n < ds.len() {
        lemma_block(e, dir, ds, cs, ts, n);
        let at2 = lemma_emit(e, cs, ts, n, 0, at, l);
        lemma_list(e, dir, ds, cs, ts, n + 1, at2, e.emit(cs[n], 0, l))
    } else {
        at
    }
}

/// Law: the listing of a directory has one record for each entry in use but `.` and `..`, in
/// their order, up to 36 of them: the name, and the type and size of the inode that it stands
/// for. `at` says which entry each record is of.
pub proof fn law_listing(
    e: Ext2View,
    num: u32,
    dir: InodeView,
    ds: Seq<u32>,
    cs: Seq<Seq<u8>>,
    ts: Seq<Seq<int>>,
) -> (at: Seq<(int, int)>)
    requires
        dir_is(e, dir, ds, cs, ts),
        e.inode(num) == Some(dir),
        dir.mode / 0x1000 == 4,
    ensures
        e.list(num) matches Some(l) && listed(e, cs, ts, ds.len() as int, 0, at, l),
{
    assert(0 * e.geo.block_size == 0);
    lemma_list(e, dir, ds, cs, ts, 0, Seq::empty(), Seq::empty())
}

/// A walk over one segment more.
proof fn lemma_walk_push(e: Ext2View, segs: Seq<Seq<u8>>, k: int, ino: u32, name: Seq<u8>)
    requires
        0 <= k <= segs.len(),
        name != seq![0x2Eu8],
    ensures
        e.walk(segs.push(name), k, ino) == match e.walk(segs, k, ino) {
            None => None,
            Some(d) => match e.inode(d) {
                None => None,
                Some(dir) => if ext2::is_dir_mode(dir.mode) {
                    e.lookup(dir, name)
                } else {
                    None
                },
            },
        },
    decreases segs.len() - k,
{
    let all = segs.push(name);
    if k < segs.len() {
        assert(all[k] == segs[k]);
        if segs[k] == seq![0x2Eu8] {
            lemma_walk_push(e, segs, k + 1, ino, name);
        } else if e.inode(ino) is Some && e.lookup(e.inode(ino)->Some_0, segs[k]) is Some {
            lemma_walk_push(
                e,
                segs,
                k + 1,
                e.lookup(e.inode(ino)->Some_0, segs[k])->Some_0,
                name,
            );
        }
    } else {
        assert(all[k] == name);
        if e.inode(ino) is Some && e.lookup(e.inode(ino)->Some_0, name) is Some {
            let n = e.lookup(e.inode(ino)->Some_0, name)->Some_0;
            assert(e.walk(all, k + 1, n) == Some(n));
        }
    }
}

/// Law: a path leads step by step. `/` leads to inode 2. A path and a slash and a name lead to
/// what the name stands for in the directory that the path leads to, and nowhere if that is no
/// directory or does not have the name.
pub proof fn law_path_leads(e: Ext2View, p: Seq<u8>, name: Seq<u8>)
    requires
        p.len() > 0,
        p[0] == 0x2F,
        path::is_name(name),
        name.len() > 0,
    ensures
        match e.inode(2) {
            Some(i) => e.resolve(seq![0x2Fu8]) == Some((2u32, i.mode / 0x1000 == 4, i.size)),
            None => e.resolve(seq![0x2Fu8]) is None,
        },
        e.resolve(p) matches Some((d, is_dir, size)) ==> {
            let r = e.resolve(p + seq![0x2Fu8] + name);
            &&& e.inode(d) matches Some(dir) && is_dir == (dir.mode / 0x1000 == 4) && size
                == dir.size
            &&& !is_dir ==> r is None
            &&& is_dir ==> match e.lookup(e.inode(d)->Some_0, name) {
                None => r is None,
                Some(n) => match e.inode(n) {
                    None => r is None,
                    Some(i) => r == Some((n, i.mode / 0x1000 == 4, i.size)),
                },
            }
        },
{
    let root = seq![0x2Fu8];
    assert(path::segs_from(root, 1) =~= Seq::<Seq<u8>>::empty());
    assert(path::segs(root) =~= Seq::<Seq<u8>>::empty());
    let q = p + seq![0x2Fu8] + name;
    assert(q[0] == p[0]);
    path::lemma_segs_append(p, name, 0);
    assert(path::segs(q) == path::segs(p).push(name));
    lemma_walk_push(e, path::segs(p), 0, 2, name);
}

/// The first free descriptor is free.
proof fn lemma_free(fds: Seq<Option<ext2::Ext2Fd>>, i: int)
    requires
        0 <= i <= fds.len(),
    ensures
        i <= ext2::free_fd(fds, i) <= fds.len(),
        ext2::free_fd(fds, i) < fds.len() ==> fds[ext2::free_fd(fds, i)] is None,
        ext2::free_fd(fds, i) == fds.len() ==> forall|k: int|
            i <= k < fds.len() ==> #[trigger] fds[k] is Some,
    decreases fds.len() - i,
{
    if i < fds.len() && fds[i] is Some {
        lemma_free(fds, i + 1);
    }
}

/// Law: opening a path gives a descriptor that was free, unless it leads nowhere or none is
/// free. Reading that descriptor gives the bytes of the file that the path leads to, listing it
/// gives the listing of the directory; one of the two is refused. The size and the type that the
/// path is said to have are those of the same inode; a directory has size 0.
pub proof fn law_open_and_look(
    s: Ext2SrvView,
    enc: u64,
    other: u64,
    p: Vec<u8>,
    offset: u64,
    count: u32,
)
    requires
        s.fds.len() == 16,
        s.target(enc, (Request::Open { path: p })) == s.e.vol,
    ensures
        ({
            let (t, r) = s.serve(enc, Request::Open { path: p });
            let st = s.serve(enc, Request::Stat { path: p }).1;
            match s.e.resolve(p@) {
                None => r == ReplyView::Fail && st == ReplyView::Fail,
                Some((ino, is_dir, size)) => {
                    &&& st matches ReplyView::StatOf(x) && x.is_dir == is_dir && x.size == if is_dir {
                        0
                    } else {
                        size as int
                    }
                    &&& (exists|k: int| 0 <= k < 16 && #[trigger] s.fds[k] is None) <==> r is Value
                    &&& r is Value || r == ReplyView::Fail
                    &&& r matches ReplyView::Value(fd) ==> {
                        let data = t.serve(
                            other,
                            Request::Read { fd: fd as u32, offset, count },
                        ).1;
                        let list = t.serve(other, Request::Readdir { fd: fd as u32 }).1;
                        &&& fd < 16 && s.fds[fd as int] is None
                        &&& forall|k: int|
                            0 <= k < 16 && k != fd ==> #[trigger] t.fds[k] == s.fds[k]
                        &&& t.fds.len() == 16
                        &&& is_dir ==> data == ReplyView::Fail && list == match s.e.list(ino) {
                            Some(l) => ReplyView::Entries(l),
                            None => ReplyView::Fail,
                        }
                        &&& !is_dir ==> list == ReplyView::Fail && data == if offset
                            > 0xFFFF_FFFF {
                            ReplyView::Fail
                        } else {
                            match s.e.read(ino, offset as u32, count) {
                                Some(d) => ReplyView::Data(d),
                                None => ReplyView::Fail,
                            }
                        }
                    }
                },
            }
        }),
{
    lemma_free(s.fds, 0);
}

/// Law: the short name in a listing is what stands before the last dot, up to eight bytes, and what
/// stands behind it, up to three, in capitals and filled up with spaces.
pub proof fn law_short_name(name: Seq<u8>, dot: int)
    requires
        0 <= dot <= name.len(),
        dot < name.len() ==> name[dot] == 0x2E,
        forall|i: int| dot < i < name.len() ==> #[trigger] name[i] != 0x2E,
        dot == name.len() ==> !name.contains(0x2E),
    ensures
        ext2::short_name(name).len() == 11,
        forall|i: int|
            0 <= i < 8 ==> #[trigger] ext2::short_name(name)[i] == if i < dot {
                capital(name[i])
            } else {
                0x20
            },
        forall|i: int|
            8 <= i < 11 ==> #[trigger] ext2::short_name(name)[i] == if dot + 1 + (i - 8)
                < name.len() {
                capital(name[dot + 1 + (i - 8)])
            } else {
                0x20
            },
{
    let n = name.len() as int;
    fat_name::lemma_last_dot(name, n);
    let d = fat_name::last_dot(name, n);
    if dot < n {
        if d < dot {
            assert(name[dot] != 0x2E);
        } else if d > dot {
            assert(name[d] == 0x2E);
        }
    } else if d >= 0 {
        assert(name.contains(name[d]));
    }
}

} // verus!
