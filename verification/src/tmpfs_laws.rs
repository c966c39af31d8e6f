//! What holds of the in-memory file service as a whole.
use vstd::prelude::*;

use crate::bytes;
use crate::fat_name;
use crate::path;
use crate::tmpfs;
use crate::tmpfs::{TmpNodeView, TmpView, TMP_DATA_CAP, TMP_MAX_FD, TMP_MAX_NODES, TMP_PATH_MAX};
use crate::vfs::{DirEntryView, ReplyView, Request, RESULT_MAX_ENTRIES};

verus! {

/// No two nodes in use have the same path.
pub open spec fn unique(nodes: Seq<TmpNodeView>) -> bool {
    forall|i: int, j: int|
        #![trigger nodes[i], nodes[j]]
        0 <= i < nodes.len() && 0 <= j < nodes.len() && i != j && nodes[i].used && nodes[j].used
            ==> nodes[i].path != nodes[j].path
}

/// Some directory in use has the given path.
pub open spec fn dir_at(nodes: Seq<TmpNodeView>, p: Seq<u8>) -> bool {
    exists|j: int|
        0 <= j < nodes.len() && (#[trigger] nodes[j]).used && nodes[j].is_dir && nodes[j].path == p
}

/// The nodes form a tree: the root is there, paths are unique, and every other node lies in
/// a directory.
pub open spec fn tree(nodes: Seq<TmpNodeView>) -> bool {
    &&& nodes.len() == TMP_MAX_NODES
    &&& nodes[0].used && nodes[0].is_dir && nodes[0].path == seq![0x2Fu8]
    &&& unique(nodes)
    &&& forall|i: int|
        1 <= i < nodes.len() && (#[trigger] nodes[i]).used ==> nodes[i].path.len() > 1 && dir_at(
            nodes,
            path::parent_of(nodes[i].path),
        )
}

/// Descriptors stand for nodes of the table, and no more space is given out than there is.
pub open spec fn sound(s: TmpView) -> bool {
    &&& tree(s.nodes)
    &&& s.fds.len() == TMP_MAX_FD
    &&& forall|i: int|
        0 <= i < s.fds.len() ==> ((#[trigger] s.fds[i]) matches Some(n) ==> 0 <= n < s.nodes.len())
    &&& 0 <= s.space <= TMP_DATA_CAP
}

/// A node found has the path, and is the only one where paths are unique.
pub proof fn lemma_find(nodes: Seq<TmpNodeView>, p: Seq<u8>, i: int)
    requires
        0 <= i <= nodes.len(),
    ensures
        match tmpfs::find_node(nodes, p, i) {
            Some(k) => i <= k < nodes.len() && nodes[k].used && nodes[k].path == p,
            None => forall|k: int|
                i <= k < nodes.len() && (#[trigger] nodes[k]).used ==> nodes[k].path != p,
        },
    decreases nodes.len() - i,
{
    if i < nodes.len() {
        lemma_find(nodes, p, i + 1);
    }
}

/// A free slot is free.
pub proof fn lemma_free(nodes: Seq<TmpNodeView>, i: int)
    requires
        0 <= i <= nodes.len(),
    ensures
        match tmpfs::free_node(nodes, i) {
            Some(k) => i <= k < nodes.len() && !nodes[k].used,
            None => forall|k: int| i <= k < nodes.len() ==> (#[trigger] nodes[k]).used,
        },
    decreases nodes.len() - i,
{
    if i < nodes.len() && nodes[i].used {
        lemma_free(nodes, i + 1);
    }
}

/// A free descriptor is free.
proof fn lemma_slot(fds: Seq<Option<int>>, i: int)
    requires
        0 <= i <= fds.len(),
    ensures
        i <= tmpfs::free_slot(fds, i) <= fds.len(),
        tmpfs::free_slot(fds, i) < fds.len() ==> fds[tmpfs::free_slot(fds, i)] is None,
        forall|k: int| i <= k < tmpfs::free_slot(fds, i) ==> (#[trigger] fds[k]) is Some,
    decreases fds.len() - i,
{
    if i < fds.len() && fds[i] is Some {
        lemma_slot(fds, i + 1);
    }
}

/// Law: the service starts with the root directory alone, as a tree.
pub proof fn law_starts_sound()
    ensures
        sound(TmpView::init()),
{
}

/// A new node in a directory keeps the tree.
proof fn lemma_new_node(s: TmpView, c: Seq<u8>, is_dir: bool)
    requires
        sound(s),
        c.len() > 1,
        s.find(c) is None,
        s.has_parent(c),
    ensures
        sound(s.new_node(c, is_dir).0),
        s.new_node(c, is_dir).1 matches Some(n) ==> 0 <= n < s.nodes.len(),
{
    lemma_free(s.nodes, 0);
    lemma_find(s.nodes, c, 0);
    lemma_find(s.nodes, path::parent_of(c), 0);
    let t = s.new_node(c, is_dir).0;
    if s.new_node(c, is_dir).1 is Some {
        let n = tmpfs::free_node(s.nodes, 0)->Some_0;
        assert forall|i: int| 1 <= i < t.nodes.len() && (#[trigger] t.nodes[i]).used implies
            t.nodes[i].path.len() > 1 && dir_at(t.nodes, path::parent_of(t.nodes[i].path)) by {
            let q = path::parent_of(t.nodes[i].path);
            let j = if i == n {
                s.find(q)->Some_0
            } else {
                assert(s.nodes[i].used);
                choose|j: int|
                    0 <= j < s.nodes.len() && (#[trigger] s.nodes[j]).used && s.nodes[j].is_dir
                        && s.nodes[j].path == q
            };
            assert(t.nodes[j] == s.nodes[j]);
        }
    }
}

/// Taking a node away that is no directory, or an empty one, keeps the tree.
proof fn lemma_drop_node(s: TmpView, n: int)
    requires
        sound(s),
        1 <= n < s.nodes.len(),
        s.nodes[n].used,
        !s.nodes[n].is_dir || s.dir_empty(s.nodes[n].path),
    ensures
        sound(s.drop_node(n)),
{
    let t = s.drop_node(n);
    assert forall|i: int| 1 <= i < t.nodes.len() && (#[trigger] t.nodes[i]).used implies
        t.nodes[i].path.len() > 1 && dir_at(t.nodes, path::parent_of(t.nodes[i].path)) by {
        assert(s.nodes[i].used);
        let q = path::parent_of(s.nodes[i].path);
        let j = choose|j: int|
            0 <= j < s.nodes.len() && (#[trigger] s.nodes[j]).used && s.nodes[j].is_dir
                && s.nodes[j].path == q;
        if j == n {
            assert(tmpfs::is_child(s.nodes[i], s.nodes[n].path));
        }
        assert(t.nodes[j] == s.nodes[j]);
    }
}

/// A descriptor for a node of the table keeps the state sound.
proof fn lemma_take_fd(s: TmpView, n: int)
    requires
        sound(s),
        0 <= n < s.nodes.len(),
    ensures
        sound(s.take_fd(n).0),
{
    lemma_slot(s.fds, 0);
}

/// Law: whatever is asked, the nodes stay a tree, descriptors stay descriptors of nodes, and
/// no more space is given out than there is.
pub proof fn law_stays_sound(s: TmpView, req: Request)
    requires
        sound(s),
    ensures
        sound(s.serve(req).0),
{
    match req {
        Request::Open { path } => {
            if tmpfs::normal(path@) is Some {
                let c = tmpfs::normal(path@)->Some_0;
                lemma_find(s.nodes, c, 0);
                if s.find(c) is Some {
                    lemma_take_fd(s, s.find(c)->Some_0);
                }
            }
        },
        Request::Write { fd, offset, data } => {
            lemma_write_sound(s, fd, offset, data@);
        },
        Request::Creat { path } => {
            if tmpfs::normal(path@) is Some {
                let c = tmpfs::normal(path@)->Some_0;
                lemma_find(s.nodes, c, 0);
                if s.find(c) is Some {
                    lemma_take_fd(s, s.find(c)->Some_0);
                } else if s.has_parent(c) {
                    lemma_not_root(s, path@);
                    lemma_new_node(s, c, false);
                    let (t, r) = s.new_node(c, false);
                    if r is Some {
                        lemma_take_fd(t, r->Some_0);
                    }
                }
            }
        },
        Request::Mkdir { path } => {
            if tmpfs::normal(path@) is Some {
                let c = tmpfs::normal(path@)->Some_0;
                if c.len() > 1 && s.find(c) is None && s.has_parent(c) {
                    lemma_new_node(s, c, true);
                }
            }
        },
        Request::Unlink { path } => {
            if tmpfs::normal(path@) is Some {
                let c = tmpfs::normal(path@)->Some_0;
                lemma_find(s.nodes, c, 0);
                if s.find(c) is Some && !s.nodes[s.find(c)->Some_0].is_dir {
                    lemma_drop_node(s, s.find(c)->Some_0);
                }
            }
        },
        Request::Rmdir { path } => {
            if tmpfs::normal(path@) is Some {
                let c = tmpfs::normal(path@)->Some_0;
                lemma_find(s.nodes, c, 0);
                if s.find(c) is Some && c.len() > 1 && s.nodes[s.find(c)->Some_0].is_dir
                    && s.dir_empty(c) {
                    lemma_drop_node(s, s.find(c)->Some_0);
                }
            }
        },
        _ => {},
    }
}

/// A write changes neither paths nor types.
proof fn lemma_write_sound(s: TmpView, fd: u32, offset: u64, data: Seq<u8>)
    requires
        sound(s),
    ensures
        sound(s.write(fd, offset, data).0),
{
    let t = s.write(fd, offset, data).0;
    if s.fd_node(fd) is Some {
        let n = s.fd_node(fd)->Some_0;
        assert(s.fds[fd as int] == Some(n));
        if s.write(fd, offset, data).1 !is Fail {
            assert forall|i: int| 0 <= i < s.nodes.len() implies (#[trigger] t.nodes[i]).path
                == s.nodes[i].path && t.nodes[i].used == s.nodes[i].used && t.nodes[i].is_dir
                == s.nodes[i].is_dir by {}
            assert forall|i: int| 1 <= i < t.nodes.len() && (#[trigger] t.nodes[i]).used implies
                t.nodes[i].path.len() > 1 && dir_at(
                t.nodes,
                path::parent_of(t.nodes[i].path),
            ) by {
                assert(s.nodes[i].used);
                let q = path::parent_of(s.nodes[i].path);
                let j = choose|j: int|
                    0 <= j < s.nodes.len() && (#[trigger] s.nodes[j]).used && s.nodes[j].is_dir
                        && s.nodes[j].path == q;
                assert(t.nodes[j].path == q);
            }
        }
    }
}

/// A path in normal form that is no node is not the root.
proof fn lemma_not_root(s: TmpView, p: Seq<u8>)
    requires
        sound(s),
        tmpfs::normal(p) is Some,
        s.find(tmpfs::normal(p)->Some_0) is None,
    ensures
        tmpfs::normal(p)->Some_0.len() > 1,
{
    let c = tmpfs::normal(p)->Some_0;
    lemma_find(s.nodes, c, 0);
    lemma_starts(path::segs(p), 0, seq![0x2Fu8]);
    if c.len() <= 1 {
        assert(c =~= seq![0x2Fu8]);
    }
}

/// A path in normal form starts with a slash.
proof fn lemma_starts(segs: Seq<Seq<u8>>, k: int, out: Seq<u8>)
    requires
        0 <= k <= segs.len(),
        out.len() >= 1,
        out[0] == 0x2F,
    ensures
        tmpfs::norm_segs(segs, k, out) matches Some(c) ==> c.len() >= 1 && c[0] == 0x2F,
    decreases segs.len() - k,
{
    if k < segs.len() {
        path::lemma_after_slash(out, out.len() as int);
        lemma_starts(segs, k + 1, out);
        lemma_starts(segs, k + 1, path::pop_segment(out));
        if tmpfs::norm_component(segs[k]) is Some {
            lemma_starts(
                segs,
                k + 1,
                path::push_segment(out, tmpfs::norm_component(segs[k])->Some_0),
            );
        }
    }
}

/// Law: what was written is read back.
pub proof fn law_write_reads_back(s: TmpView, fd: u32, offset: u64, data: Seq<u8>)
    requires
        sound(s),
        data.len() <= u32::MAX,
        s.write(fd, offset, data).1 !is Fail,
    ensures
        s.write(fd, offset, data).0.read(fd, offset, data.len() as u32) == ReplyView::Data(data),
{
    let t = s.write(fd, offset, data).0;
    let n = s.fd_node(fd)->Some_0;
    assert(s.fds[fd as int] == Some(n));
    let c = t.nodes[n].content;
    assert(c == tmpfs::overwritten(s.nodes[n].content, offset as int, data));
    if offset < c.len() {
        let end = if data.len() < c.len() - offset {
            offset + data.len()
        } else {
            c.len() as int
        };
        assert(c.subrange(offset as int, end) =~= data);
    } else {
        assert(data =~= Seq::empty());
    }
}

/// Law: a write leaves every other file, every name and every byte of the file outside its
/// range as it was; a gap before it is zeros.
pub proof fn law_write_frame(s: TmpView, fd: u32, offset: u64, data: Seq<u8>, m: int, k: int)
    requires
        sound(s),
        s.write(fd, offset, data).1 !is Fail,
        0 <= m < s.nodes.len(),
    ensures
        s.write(fd, offset, data).0.nodes[m].path == s.nodes[m].path,
        s.write(fd, offset, data).0.nodes[m].used == s.nodes[m].used,
        Some(m) != s.fd_node(fd) ==> s.write(fd, offset, data).0.nodes[m] == s.nodes[m],
        Some(m) == s.fd_node(fd) && 0 <= k < s.write(fd, offset, data).0.nodes[m].content.len()
            && !(offset <= k < offset + data.len()) ==> s.write(
            fd,
            offset,
            data,
        ).0.nodes[m].content[k] == if k < s.nodes[m].content.len() {
            s.nodes[m].content[k]
        } else {
            0
        },
{
    let n = s.fd_node(fd)->Some_0;
    assert(s.fds[fd as int] == Some(n));
}

/// Law: a file that was created can be opened, is empty where it is new, and is found at
/// the node that the descriptor stands for.
pub proof fn law_created_is_found(s: TmpView, p: Seq<u8>)
    requires
        sound(s),
        s.creat(p).1 is Value,
    ensures
        s.creat(p).0.find(tmpfs::normal(p)->Some_0) == s.creat(p).0.fd_node(
            s.creat(p).1->Value_0 as u32,
        ),
        s.creat(p).0.find(tmpfs::normal(p)->Some_0) is Some,
        s.find(tmpfs::normal(p)->Some_0) is None ==> s.creat(p).0.stat(p)
            == ReplyView::StatOf(crate::vfs::Stat::plain_spec(0, false)),
{
    let c = tmpfs::normal(p)->Some_0;
    let t = s.creat(p).0;
    lemma_find(s.nodes, c, 0);
    lemma_find(t.nodes, c, 0);
    lemma_free(s.nodes, 0);
    lemma_slot(s.fds, 0);
    if s.find(c) is None {
        let n = tmpfs::free_node(s.nodes, 0)->Some_0;
        let mid = s.new_node(c, false).0;
        assert(t.nodes == mid.nodes);
        assert(t.nodes[n].used && t.nodes[n].path == c);
        let k = t.find(c)->Some_0;
        if k != n {
            assert(s.nodes[k].used && s.nodes[k].path == c);
        }
    }
}

/// Law: what was unlinked or removed is not found any more, and nothing else is lost.
pub proof fn law_removed_is_gone(s: TmpView, p: Seq<u8>, q: Seq<u8>)
    requires
        sound(s),
    ensures
        s.unlink(p).1 is Value ==> s.unlink(p).0.find(tmpfs::normal(p)->Some_0) is None,
        s.rmdir(p).1 is Value ==> s.rmdir(p).0.find(tmpfs::normal(p)->Some_0) is None,
        s.unlink(p).1 is Value && q != tmpfs::normal(p)->Some_0 ==> s.unlink(p).0.find(q)
            == s.find(q),
        s.rmdir(p).1 is Value && q != tmpfs::normal(p)->Some_0 ==> s.rmdir(p).0.find(q) == s.find(
            q,
        ),
{
    if tmpfs::normal(p) is Some {
        let c = tmpfs::normal(p)->Some_0;
        lemma_find(s.nodes, c, 0);
        if s.find(c) is Some {
            let n = s.find(c)->Some_0;
            let t = s.drop_node(n);
            lemma_find(t.nodes, c, 0);
            if t.find(c) is Some {
                let k = t.find(c)->Some_0;
                assert(s.nodes[k].used && s.nodes[k].path == c && k != n);
            }
            if q != c {
                lemma_same_find(s.nodes, t.nodes, n, q, 0);
            }
        }
    }
}

/// A search passes over a node with another path.
proof fn lemma_same_find(a: Seq<TmpNodeView>, b: Seq<TmpNodeView>, n: int, q: Seq<u8>, i: int)
    requires
        0 <= i <= a.len(),
        a.len() == b.len(),
        0 <= n < a.len(),
        a[n].path != q && b[n].path != q,
        forall|k: int| 0 <= k < a.len() && k != n ==> a[k] == b[k],
    ensures
        tmpfs::find_node(a, q, i) == tmpfs::find_node(b, q, i),
    decreases a.len() - i,
{
    if i < a.len() {
        lemma_same_find(a, b, n, q, i + 1);
    }
}

/// Law: a directory that is not empty is not removed.
pub proof fn law_full_directory_stays(s: TmpView, p: Seq<u8>, k: int)
    requires
        sound(s),
        tmpfs::normal(p) is Some,
        0 <= k < s.nodes.len(),
        tmpfs::is_child(s.nodes[k], tmpfs::normal(p)->Some_0),
    ensures
        s.rmdir(p) == (s, ReplyView::Fail),
{
}

/// The listing from node `i` on, before it is cut.
pub open spec fn children(nodes: Seq<TmpNodeView>, dir: Seq<u8>, i: int) -> Seq<DirEntryView>
    decreases nodes.len() - i,
{
    if i >= nodes.len() {
        Seq::empty()
    } else if tmpfs::is_child(nodes[i], dir) {
        seq![tmpfs::record_of(nodes[i])] + children(nodes, dir, i + 1)
    } else {
        children(nodes, dir, i + 1)
    }
}

/// Law: a listing shows the nodes of the directory, in table order, each once, up to the
/// number that one answer holds.
pub proof fn law_listing(nodes: Seq<TmpNodeView>, dir: Seq<u8>, i: int, out: Seq<DirEntryView>)
    requires
        0 <= i <= nodes.len(),
        out.len() <= RESULT_MAX_ENTRIES,
    ensures
        tmpfs::list_nodes(nodes, dir, i, out) == ({
            let all = out + children(nodes, dir, i);
            if all.len() <= RESULT_MAX_ENTRIES {
                all
            } else {
                all.subrange(0, RESULT_MAX_ENTRIES as int)
            }
        }),
    decreases nodes.len() - i,
{
    let all = out + children(nodes, dir, i);
    if i >= nodes.len() {
        assert(all =~= out);
    } else if !tmpfs::is_child(nodes[i], dir) {
        law_listing(nodes, dir, i + 1, out);
    } else if out.len() >= RESULT_MAX_ENTRIES {
        assert(all.subrange(0, RESULT_MAX_ENTRIES as int) =~= out);
    } else {
        let rec = tmpfs::record_of(nodes[i]);
        law_listing(nodes, dir, i + 1, out.push(rec));
        assert(out.push(rec) + children(nodes, dir, i + 1) =~= all);
    }
}

/// Law: descriptors that are open at the same time differ, and a closed one is free again.
pub proof fn law_descriptors(s: TmpView, n: int, fd: u32)
    requires
        sound(s),
        0 <= n < s.nodes.len(),
        s.take_fd(n).1 is Value,
    ensures
        s.take_fd(n).0.fd_node(s.take_fd(n).1->Value_0 as u32) == Some(n),
        s.fd_node(fd) is Some ==> s.take_fd(n).1->Value_0 != fd && s.take_fd(n).0.fd_node(fd)
            == s.fd_node(fd),
        s.close(fd).0.fd_node(fd) is None,
{
    lemma_slot(s.fds, 0);
}

/// A segment in normal form is a name, and its own normal form.
proof fn lemma_component(s: Seq<u8>)
    requires
        forall|i: int| 0 <= i < s.len() ==> s[i] != 0x2F,
    ensures
        tmpfs::norm_component(s) matches Some(c) ==> path::is_name(c) && tmpfs::norm_component(c)
            == Some(c),
{
    if tmpfs::norm_component(s) is Some {
        let c = tmpfs::norm_component(s)->Some_0;
        let base = fat_name::name_base(s);
        let ext = fat_name::name_ext(s);
        let up = base.map_values(|x: u8| bytes::upper(x));
        let uext = ext.map_values(|x: u8| bytes::upper(x));
        fat_name::lemma_last_dot(s, s.len() as int);
        fat_name::lemma_last_dot(base, base.len() as int);
        fat_name::lemma_last_dot(c, c.len() as int);
        let d = fat_name::last_dot(s, s.len() as int);
        assert forall|i: int| 0 <= i < base.len() implies base[i] != 0x2E && base[i] != 0x2F by {
            assert(base[i] == s[i]);
        }
        assert forall|i: int| 0 <= i < ext.len() implies ext[i] != 0x2E && ext[i] != 0x2F by {
            assert(ext[i] == s[d + 1 + i]);
        }
        assert forall|i: int| 0 <= i < c.len() implies c[i] != 0x2F by {
            if i < base.len() {
                assert(c[i] == bytes::upper(base[i]));
            } else if i > base.len() {
                assert(c[i] == bytes::upper(ext[i - base.len() - 1]));
            }
        }
        assert(c[0] == bytes::upper(base[0]));
        let n = base.len() as int;
        let dc = fat_name::last_dot(c, c.len() as int);
        if ext.len() == 0 {
            assert forall|i: int| 0 <= i < c.len() implies c[i] != 0x2E by {
                assert(c[i] == bytes::upper(base[i]));
            }
            assert(dc == -1);
            assert(fat_name::name_base(c) =~= up);
            assert(up.map_values(|x: u8| bytes::upper(x)) =~= up);
            fat_name::lemma_last_dot(up, up.len() as int);
        } else {
            assert(c[n] == 0x2E);
            assert forall|i: int| n < i < c.len() implies c[i] != 0x2E by {
                assert(c[i] == bytes::upper(ext[i - n - 1]));
            }
            assert(dc == n);
            assert(fat_name::name_base(c) =~= up);
            assert(fat_name::name_ext(c) =~= uext);
            assert(up.map_values(|x: u8| bytes::upper(x)) =~= up);
            assert(uext.map_values(|x: u8| bytes::upper(x)) =~= uext);
            fat_name::lemma_last_dot(up, up.len() as int);
            assert forall|i: int| 0 <= i < up.len() implies up[i] != 0x2E by {
                assert(up[i] == bytes::upper(base[i]));
            }
        }
    }
}

/// Names that are their own normal form.
pub open spec fn all_normal(c: Seq<Seq<u8>>) -> bool {
    forall|k: int|
        0 <= k < c.len() ==> path::is_name(#[trigger] c[k]) && tmpfs::norm_component(c[k]) == Some(
            c[k],
        )
}

/// The normal form of a path goes through names that are their own normal form.
proof fn lemma_norm_names(segs: Seq<Seq<u8>>, k: int, c: Seq<Seq<u8>>) -> (r: Seq<Seq<u8>>)
    requires
        0 <= k <= segs.len(),
        path::all_clean(segs),
        all_normal(c),
        1 <= path::rendered(c).len() <= TMP_PATH_MAX,
    ensures
        tmpfs::norm_segs(segs, k, path::rendered(c)) matches Some(q) ==> q == path::rendered(r)
            && all_normal(r) && q.len() <= TMP_PATH_MAX,
    decreases segs.len() - k,
{
    assert(path::all_names(c));
    path::lemma_push_pop(c);
    if k >= segs.len() {
        c
    } else if segs[k] == seq![0x2Eu8] {
        lemma_norm_names(segs, k + 1, c)
    } else if segs[k] == seq![0x2Eu8, 0x2Eu8] {
        let down = if c.len() == 0 {
            c
        } else {
            c.drop_last()
        };
        assert forall|j: int| 0 <= j < down.len() implies path::is_name(#[trigger] down[j])
            && tmpfs::norm_component(down[j]) == Some(down[j]) by {
            assert(down[j] == c[j]);
        }
        assert(path::all_names(down));
        path::lemma_push_pop(down);
        if c.len() > 0 {
            assert(path::is_name(c[c.len() - 1]));
        }
        lemma_norm_names(segs, k + 1, down)
    } else {
        lemma_component(segs[k]);
        match tmpfs::norm_component(segs[k]) {
            None => c,
            Some(comp) => {
                let up = c.push(comp);
                if path::push_segment(path::rendered(c), comp).len() > TMP_PATH_MAX {
                    c
                } else {
                    assert forall|j: int| 0 <= j < up.len() implies path::is_name(#[trigger] up[j])
                        && tmpfs::norm_component(up[j]) == Some(up[j]) by {
                        if j < c.len() {
                            assert(up[j] == c[j]);
                        }
                    }
                    assert(path::all_names(up));
                    path::lemma_push_pop(up);
                    lemma_norm_names(segs, k + 1, up)
                }
            },
        }
    }
}

/// Names in normal form are taken over one by one.
proof fn lemma_norm_kept(c: Seq<Seq<u8>>, k: int)
    requires
        0 <= k <= c.len(),
        all_normal(c),
        path::rendered(c).len() <= TMP_PATH_MAX,
    ensures
        tmpfs::norm_segs(c, k, path::rendered(c.subrange(0, k))) == Some(path::rendered(c)),
    decreases c.len() - k,
{
    let d = c.subrange(0, k);
    if k < c.len() {
        let up = c.subrange(0, k + 1);
        assert forall|j: int| 0 <= j < d.len() implies path::is_name(#[trigger] d[j]) by {
            assert(d[j] == c[j]);
        }
        path::lemma_push_pop(d);
        assert(path::is_name(c[k]));
        assert(d.push(c[k]) =~= up);
        lemma_norm_kept(c, k + 1);
        path::lemma_longer(c, k + 1);
    } else {
        assert(d =~= c);
    }
}

/// Law: a path in normal form is its own normal form.
pub proof fn law_normal_is_fixed(p: Seq<u8>)
    ensures
        tmpfs::normal(p) matches Some(q) ==> tmpfs::normal(q) == Some(q),
{
    if tmpfs::normal(p) is Some {
        let q = tmpfs::normal(p)->Some_0;
        let e = Seq::<Seq<u8>>::empty();
        path::lemma_segs_clean(p, 0);
        assert(path::rendered(e) =~= seq![0x2Fu8]);
        let c = lemma_norm_names(path::segs(p), 0, e);
        assert(path::all_names(c));
        path::lemma_segs_joined(c);
        assert(c.subrange(0, 0) =~= e);
        lemma_norm_kept(c, 0);
        path::lemma_starts(c);
    }
}

/// Slashes stand at the same places whatever the case of letters.
proof fn lemma_seg_end_case(p: Seq<u8>, q: Seq<u8>, i: int)
    requires
        bytes::same_ignoring_case(p, q),
        0 <= i <= p.len(),
    ensures
        path::seg_end(p, i) == path::seg_end(q, i),
    decreases p.len() - i,
{
    if i < p.len() {
        assert(bytes::upper(p[i]) == bytes::upper(q[i]));
        if p[i] != 0x2F {
            lemma_seg_end_case(p, q, i + 1);
        }
    }
}

/// Segments that are the same up to case, one by one.
pub open spec fn same_segs(a: Seq<Seq<u8>>, b: Seq<Seq<u8>>) -> bool {
    a.len() == b.len() && forall|k: int|
        #![trigger a[k]]
        0 <= k < a.len() ==> bytes::same_ignoring_case(a[k], b[k])
}

/// The segments of paths that are the same up to case.
proof fn lemma_segs_case(p: Seq<u8>, q: Seq<u8>, i: int)
    requires
        bytes::same_ignoring_case(p, q),
        0 <= i <= p.len(),
    ensures
        same_segs(path::segs_from(p, i), path::segs_from(q, i)),
    decreases p.len() - i,
{
    if i < p.len() {
        assert(bytes::upper(p[i]) == bytes::upper(q[i]));
        if p[i] == 0x2F {
            lemma_segs_case(p, q, i + 1);
        } else {
            lemma_seg_end_case(p, q, i);
            path::lemma_seg_end(p, i);
            let j = path::seg_end(p, i);
            lemma_segs_case(p, q, j);
            let a = path::segs_from(p, i);
            let b = path::segs_from(q, i);
            let ra = path::segs_from(p, j);
            let rb = path::segs_from(q, j);
            assert(a == seq![p.subrange(i, j)] + ra);
            assert(b == seq![q.subrange(i, j)] + rb);
            let x = p.subrange(i, j);
            let y = q.subrange(i, j);
            assert forall|k: int| 0 <= k < x.len() implies bytes::upper(#[trigger] x[k])
                == bytes::upper(y[k]) by {
                assert(x[k] == p[i + k] && y[k] == q[i + k]);
            }
            assert forall|k: int| #![trigger a[k]] 0 <= k < a.len() implies
                bytes::same_ignoring_case(a[k], b[k]) by {
                if k > 0 {
                    assert(a[k] == ra[k - 1] && b[k] == rb[k - 1]);
                }
            }
        }
    }
}

/// Dots stand at the same places whatever the case of letters.
proof fn lemma_dot_case(a: Seq<u8>, b: Seq<u8>, n: int)
    requires
        bytes::same_ignoring_case(a, b),
        0 <= n <= a.len(),
    ensures
        fat_name::last_dot(a, n) == fat_name::last_dot(b, n),
    decreases n,
{
    if n > 0 {
        assert(bytes::upper(a[n - 1]) == bytes::upper(b[n - 1]));
        lemma_dot_case(a, b, n - 1);
    }
}

/// Segments that are the same up to case have the same normal form.
proof fn lemma_component_case(a: Seq<u8>, b: Seq<u8>)
    requires
        bytes::same_ignoring_case(a, b),
    ensures
        tmpfs::norm_component(a) == tmpfs::norm_component(b),
{
    lemma_dot_case(a, b, a.len() as int);
    fat_name::lemma_last_dot(a, a.len() as int);
    let x = fat_name::name_base(a);
    let y = fat_name::name_base(b);
    let u = fat_name::name_ext(a);
    let v = fat_name::name_ext(b);
    assert forall|k: int| 0 <= k < x.len() implies bytes::upper(#[trigger] x[k]) == bytes::upper(
        y[k],
    ) by {
        assert(x[k] == a[k] && y[k] == b[k]);
    }
    lemma_dot_case(x, y, x.len() as int);
    let d = fat_name::last_dot(a, a.len() as int);
    assert(x.map_values(|c: u8| bytes::upper(c)) =~= y.map_values(|c: u8| bytes::upper(c)));
    assert forall|k: int| 0 <= k < u.len() implies bytes::upper(#[trigger] u[k]) == bytes::upper(
        v[k],
    ) by {
        assert(u[k] == a[d + 1 + k] && v[k] == b[d + 1 + k]);
    }
    assert(u.map_values(|c: u8| bytes::upper(c)) =~= v.map_values(|c: u8| bytes::upper(c)));
}

/// Paths through segments that are the same up to case have the same normal form.
proof fn lemma_norm_case(a: Seq<Seq<u8>>, b: Seq<Seq<u8>>, k: int, out: Seq<u8>)
    requires
        same_segs(a, b),
        0 <= k <= a.len(),
    ensures
        tmpfs::norm_segs(a, k, out) == tmpfs::norm_segs(b, k, out),
    decreases a.len() - k,
{
    if k < a.len() {
        let x = a[k];
        let y = b[k];
        assert(bytes::same_ignoring_case(x, y));
        assert((x == seq![0x2Eu8]) == (y == seq![0x2Eu8])) by {
            if x.len() == 1 {
                assert(bytes::upper(x[0]) == bytes::upper(y[0]));
                assert(x == seq![0x2Eu8] ==> y =~= seq![0x2Eu8]);
                assert(y == seq![0x2Eu8] ==> x =~= seq![0x2Eu8]);
            }
        }
        assert((x == seq![0x2Eu8, 0x2Eu8]) == (y == seq![0x2Eu8, 0x2Eu8])) by {
            if x.len() == 2 {
                assert(bytes::upper(x[0]) == bytes::upper(y[0]));
                assert(bytes::upper(x[1]) == bytes::upper(y[1]));
                assert(x == seq![0x2Eu8, 0x2Eu8] ==> y =~= seq![0x2Eu8, 0x2Eu8]);
                assert(y == seq![0x2Eu8, 0x2Eu8] ==> x =~= seq![0x2Eu8, 0x2Eu8]);
            }
        }
        lemma_component_case(x, y);
        lemma_norm_case(a, b, k + 1, out);
        lemma_norm_case(a, b, k + 1, path::pop_segment(out));
        if tmpfs::norm_component(x) is Some {
            lemma_norm_case(
                a,
                b,
                k + 1,
                path::push_segment(out, tmpfs::norm_component(x)->Some_0),
            );
        }
    }
}

/// Law: paths that differ in the case of letters only name the same file.
pub proof fn law_case_does_not_matter(p: Seq<u8>, q: Seq<u8>)
    requires
        bytes::same_ignoring_case(p, q),
    ensures
        tmpfs::normal(p) == tmpfs::normal(q),
{
    if p.len() > 0 {
        assert(bytes::upper(p[0]) == bytes::upper(q[0]));
        lemma_segs_case(p, q, 0);
        lemma_norm_case(path::segs(p), path::segs(q), 0, seq![0x2Fu8]);
    }
}

} // verus!
