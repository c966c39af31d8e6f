//! What holds of the exFAT service as its callers see it: where paths lead, and what is refused.
use vstd::prelude::*;

use crate::exfat::ExfatView;
use crate::exfat_dir::EntryView;
use crate::exfat_laws;
use crate::exfat_laws::{fits, linked};
use crate::exfat_list;
use crate::exfat_srv::ExfatSrvView;
use crate::path;
use crate::path_laws;
use crate::vfs::{ReplyView, Request};
use crate::volume_laws::just_those;

verus! {

/// The last name of a path.
proof fn lemma_last(s: ExfatView, p: Seq<u8>, n: Seq<u8>, cur: EntryView)
    requires
        path_laws::ordinary(n),
    ensures
        s.walk(p + seq![0x2Fu8] + n, p.len() as int + 1, cur) == if cur.is_dir {
            s.lookup(cur.first, n)
        } else {
            None
        },
{
    let q = p + seq![0x2Fu8] + n;
    let i = p.len() as int + 1;
    assert forall|k: int| i <= k < q.len() implies q[k] != 0x2F by {
        assert(q[k] == n[k - i]);
        assert(n.contains(n[k - i]));
    }
    path::lemma_run(q, i, q.len() as int);
    assert(q.subrange(i, q.len() as int) =~= n);
    reveal_with_fuel(ExfatView::walk, 2);
}

/// One name more on a path, from position `i` on.
proof fn lemma_walk(s: ExfatView, p: Seq<u8>, n: Seq<u8>, i: int, cur: EntryView)
    requires
        path_laws::ordinary(n),
        0 <= i <= p.len(),
    ensures
        s.walk(p + seq![0x2Fu8] + n, i, cur) == match s.walk(p, i, cur) {
            Some(e) => if e.is_dir {
                s.lookup(e.first, n)
            } else {
                None
            },
            None => None,
        },
    decreases p.len() - i,
{
    let q = p + seq![0x2Fu8] + n;
    let z = p.len() as int;
    assert(q[z] == 0x2F);
    if i == z {
        path::lemma_run(q, z, z);
        lemma_last(s, p, n, cur);
    } else {
        path::lemma_seg_end(p, i);
        let j = path::seg_end(p, i);
        assert forall|k: int| i <= k < j implies q[k] != 0x2F by {
            assert(q[k] == p[k]);
        }
        assert(j < z ==> q[j] == p[j]);
        path::lemma_run(q, i, j);
        assert(q.subrange(i, j) =~= p.subrange(i, j));
        let e = s.lookup(cur.first, p.subrange(i, j));
        if j < z {
            lemma_walk(s, p, n, j + 1, cur);
            if e is Some {
                lemma_walk(s, p, n, j + 1, e->Some_0);
            }
        } else {
            lemma_last(s, p, n, cur);
            if e is Some {
                lemma_last(s, p, n, e->Some_0);
                assert(s.walk(p, j, e->Some_0) == Some(e->Some_0));
            }
            assert(s.walk(p, j, cur) == Some(cur));
        }
    }
}

/// Law: a path leads step by step. `/` leads to the root directory. A path, a slash and a name lead
/// to what the directory that the path leads to says of the name, and nowhere where the path leads
/// to no directory.
pub proof fn law_path_leads(s: ExfatView, p: Seq<u8>, n: Seq<u8>)
    requires
        p.len() > 0,
        p[0] == 0x2F,
        path_laws::ordinary(n),
    ensures
        s.resolve(seq![0x2Fu8]) matches Some(r) && r.is_dir && r.first == s.geo.root && !r.contiguous,
        s.resolve(p + seq![0x2Fu8] + n) == match s.resolve(p) {
            Some(e) => if e.is_dir {
                s.lookup(e.first, n)
            } else {
                None
            },
            None => None,
        },
{
    reveal(ExfatView::resolve);
    assert((p + seq![0x2Fu8] + n)[0] == p[0]);
    lemma_walk(s, p, n, 1, s.root_entry());
}

/// Law: the directory of a path of up to 96 bytes is what stands before its last slash, or the root
/// where nothing does, and its name what stands behind it.
pub proof fn law_home(s: ExfatView, d: Seq<u8>, n: Seq<u8>)
    requires
        d.len() == 0 || d[0] == 0x2F,
        path_laws::ordinary(n),
        d.len() + 1 + n.len() <= 96,
    ensures
        ({
            let parent = if d.len() == 0 {
                seq![0x2Fu8]
            } else {
                d
            };
            s.home_of(d + seq![0x2Fu8] + n) == match s.resolve(parent) {
                Some(e) => if e.is_dir {
                    Some((e.first, n))
                } else {
                    None
                },
                None => None,
            }
        }),
{
    reveal(ExfatView::home_of);
    let p = d + seq![0x2Fu8] + n;
    let z = p.len() as int;
    let i = d.len() as int + 1;
    assert(p.last() == n.last());
    assert(n.contains(n.last()));
    assert(path::before_slashes(p, z) == z);
    assert(p.subrange(0, z) =~= p);
    lemma_after(p, i, z);
    assert(p.subrange(i, z) =~= n);
    assert(p.subrange(0, i - 1) =~= d);
    assert(p[0] == 0x2F);
}

/// Where the last name starts.
proof fn lemma_after(p: Seq<u8>, i: int, z: int)
    requires
        0 < i <= z <= p.len(),
        p[i - 1] == 0x2F,
        forall|k: int| i <= k < z ==> #[trigger] p[k] != 0x2F,
    ensures
        path::after_slash(p, z) == i,
    decreases z - i,
{
    if i < z {
        assert(p[z - 1] != 0x2F);
        lemma_after(p, i, z - 1);
    }
}

/// Law: only a file is removed as a file, and only a directory as a directory, and that only where
/// it holds no set. What is refused changes nothing.
pub proof fn law_refused_removal(
    s: ExfatView,
    p: Seq<u8>,
    is_dir: bool,
    ch: Seq<u32>,
    tl: Seq<Seq<int>>,
) -> (at: Seq<int>)
    requires
        exfat_laws::good_geo(s.geo),
        exfat_laws::ready(s),
        linked(s, ch),
        fits(s, ch),
        ch.len() > 0,
        exfat_list::all_laid_out(s, ch, tl),
    ensures
        just_those(|x: int| exfat_list::set_at(s, ch, tl, x), 0, ch.len() * (s.geo.spc * 16), at),
        match s.home_of(p) {
            None => s.remove(p, is_dir) == (s, false),
            Some((dir, name)) => match s.lookup(dir, name) {
                None => s.remove(p, is_dir) == (s, false),
                Some(e) => {
                    &&& e.is_dir != is_dir ==> s.remove(p, is_dir) == (s, false)
                    &&& e.is_dir && e.first == ch[0] && at.len() > 0 ==> s.remove(p, is_dir) == (
                        s,
                        false,
                    )
                },
            },
        },
{
    reveal(ExfatView::remove);
    exfat_list::lemma_sets_from(s, ch, tl, 0, 1, Seq::empty())
}

/// Law: what is told of a path is what the directory says of the file it leads to; listing an open
/// directory gives its listing; what leads nowhere is refused.
pub proof fn law_look(s: ExfatSrvView, p: Vec<u8>, fd: u32)
    ensures
        s.answer(Request::Stat { path: p }).0 == s,
        match s.fs.resolve(p@) {
            Some(e) => s.answer(Request::Stat { path: p }).1 matches ReplyView::StatOf(f) && f.is_dir
                == e.is_dir && f.size == (if e.is_dir {
                0
            } else {
                e.size
            }) && f.mtime == e.mtime,
            None => s.answer(Request::Stat { path: p }).1 is Fail,
        },
        s.answer(Request::Readdir { fd }).0 == s,
        s.fd_get(fd) matches Some(f) && f.is_dir && s.fs.resolve(f.path) is Some ==> s.answer(
            Request::Readdir { fd },
        ).1 == match s.fs.readdir(s.fs.resolve(s.fd_get(fd)->Some_0.path)->Some_0.first) {
            Some(l) => ReplyView::Entries(l),
            None => ReplyView::Fail,
        },
        s.fd_get(fd) is None || !s.fd_get(fd)->Some_0.is_dir ==> s.answer(
            Request::Readdir { fd },
        ).1 is Fail,
{
    reveal(ExfatSrvView::answer);
    reveal(ExfatSrvView::look);
}

} // verus!
