//! MorionFS: symbolic links on the way. Links are followed to their end, and links that lead in
//! a circle lead nowhere.
use vstd::prelude::*;

use crate::mfs::{MfsView, MFS_MAGIC_LINK, MFS_ROOT_INO};
use crate::mfs_cow;
use crate::mfs_dir;
use crate::mfs_dir::{MfsLoc, MFS_TYPE_LINK};
use crate::mfs_file;
use crate::mfs_path;
use crate::mfs_path::{Walk, MFS_LINK_MAX, MFS_PATH_MAX, MFS_SYMLINK_MAX_DEPTH};
use crate::mfs_ways;

verus! {

/// The target that link `ino` holds.
pub open spec fn text(s: MfsView, ino: u32) -> Option<Seq<u8>> {
    match s.load(mfs_cow::obj(s, ino), MFS_MAGIC_LINK) {
        None => None,
        Some(a) => if 0 < mfs_file::file_size(a) <= MFS_LINK_MAX {
            Some(a.subrange(16, 16 + mfs_file::file_size(a)))
        } else {
            None
        },
    }
}

/// The path to go on with where path `p` leads to a link in good order: its last name is
/// replaced by the link's target. The root is not among the paths to go on with.
pub open spec fn hop(s: MfsView, p: Seq<u8>) -> Option<Seq<u8>> {
    match mfs_ways::leads(s, p) {
        None => None,
        Some((ino, typ)) => if typ != MFS_TYPE_LINK || !mfs_cow::good_ino(ino) || mfs_cow::obj(
            s,
            ino,
        ) == 0 {
            None
        } else {
            match text(s, ino) {
                None => None,
                Some(t) => {
                    let merged = mfs_path::with_target(
                        p,
                        mfs_ways::leaf_at(p),
                        p.len() as int,
                        t,
                    );
                    if merged.len() > MFS_PATH_MAX {
                        None
                    } else {
                        match mfs_path::raw_normal(merged) {
                            Some(q) => if 1 < q.len() <= MFS_PATH_MAX {
                                Some(q)
                            } else {
                                None
                            },
                            None => None,
                        }
                    }
                },
            }
        },
    }
}

/// A path on which every directory is in good order.
pub open spec fn sound(s: MfsView, p: Seq<u8>) -> bool {
    mfs_ways::clear(s, p) && 1 < p.len() <= MFS_PATH_MAX
}

/// One link followed: the path that it leads to is resolved with one link less. What is handed
/// back is the state and the entry that it is resolved from.
proof fn lemma_hop(s: MfsView, t: MfsView, p: Seq<u8>, leaf: MfsLoc, links: nat) -> (r: (
    MfsView,
    MfsLoc,
))
    requires
        mfs_cow::table_ok(s),
        mfs_ways::alike(s, t),
        sound(s, p),
        hop(s, p) is Some,
    ensures
        mfs_ways::alike(s, r.0),
        links == 0 ==> t.resolve_from(p, leaf, links, true).1 is None,
        links > 0 ==> t.resolve_from(p, leaf, links, true) == r.0.resolve_from(
            hop(s, p)->Some_0,
            r.1,
            (links - 1) as nat,
            true,
        ),
{
    let ino = mfs_ways::leads(s, p)->Some_0.0;
    mfs_ways::lemma_walk(s, t, p, 1, MFS_ROOT_INO, leaf, true);
    let (u, w) = t.walk(p, 1, MFS_ROOT_INO, leaf, true);
    let a = s.load(mfs_cow::obj(s, ino), MFS_MAGIC_LINK)->Some_0;
    mfs_ways::lemma_link_target(s, u, ino, text(s, ino)->Some_0, a);
    match w {
        Walk::Link { start, end, ino: n, leaf: leaf2 } => (u.link_target(ino).0, leaf2),
        _ => (u, leaf),
    }
}

/// Links followed from path `ps[i]` on.
proof fn lemma_follow(s: MfsView, t: MfsView, ps: Seq<Seq<u8>>, i: int, leaf: MfsLoc, links: nat)
    requires
        mfs_cow::table_ok(s),
        mfs_ways::alike(s, t),
        0 <= i < ps.len(),
        forall|j: int| 0 <= j < ps.len() ==> sound(s, #[trigger] ps[j]),
        forall|j: int| 0 <= j < ps.len() - 1 ==> hop(s, #[trigger] ps[j]) == Some(ps[j + 1]),
        mfs_ways::leads(s, ps.last()) matches Some((ino, typ)) ==> typ != MFS_TYPE_LINK,
    ensures
        links < ps.len() - 1 - i ==> t.resolve_from(ps[i], leaf, links, true).1 is None,
        links >= ps.len() - 1 - i ==> match mfs_ways::leads(s, ps.last()) {
            None => t.resolve_from(ps[i], leaf, links, true).1 is None,
            Some((ino, typ)) => t.resolve_from(ps[i], leaf, links, true).1 matches Some((n, loc))
                && n == ino,
        },
    decreases ps.len() - i,
{
    assert(sound(s, ps[i]));
    if i == ps.len() - 1 {
        mfs_ways::lemma_walk(s, t, ps[i], 1, MFS_ROOT_INO, leaf, true);
    } else {
        assert(hop(s, ps[i]) == Some(ps[i + 1]));
        let (u, leaf2) = lemma_hop(s, t, ps[i], leaf, links);
        if links > 0 {
            lemma_follow(s, u, ps, i + 1, leaf2, (links - 1) as nat);
        }
    }
}

/// Law: a path that leads through links, one after the other, is resolved to what the last of
/// them leads to where there are at most sixteen, and to nothing where there are more.
pub proof fn law_links_are_followed(s: MfsView, ps: Seq<Seq<u8>>)
    requires
        mfs_cow::table_ok(s),
        ps.len() > 0,
        forall|j: int| 0 <= j < ps.len() ==> sound(s, #[trigger] ps[j]),
        forall|j: int| 0 <= j < ps.len() - 1 ==> hop(s, #[trigger] ps[j]) == Some(ps[j + 1]),
        mfs_ways::leads(s, ps.last()) matches Some((ino, typ)) ==> typ != MFS_TYPE_LINK,
    ensures
        match mfs_ways::leads(s, ps.last()) {
            Some((ino, typ)) if ps.len() - 1 <= MFS_SYMLINK_MAX_DEPTH => s.resolve(
                ps[0],
                true,
            ).1 matches Some((n, loc)) && n == ino,
            _ => s.resolve(ps[0], true).1 is None,
        },
{
    reveal(MfsView::resolve);
    mfs_cow::lemma_stable_refl(s);
    assert(sound(s, ps[0]));
    lemma_follow(s, s, ps, 0, mfs_dir::no_loc(), MFS_SYMLINK_MAX_DEPTH as nat);
}

/// Links in a circle followed from path `ps[i]` on.
proof fn lemma_circle(s: MfsView, t: MfsView, ps: Seq<Seq<u8>>, i: int, leaf: MfsLoc, links: nat)
    requires
        mfs_cow::table_ok(s),
        mfs_ways::alike(s, t),
        0 <= i < ps.len(),
        forall|j: int| 0 <= j < ps.len() ==> sound(s, #[trigger] ps[j]),
        forall|j: int| 0 <= j < ps.len() - 1 ==> hop(s, #[trigger] ps[j]) == Some(ps[j + 1]),
        hop(s, ps.last()) == Some(ps[0]),
    ensures
        t.resolve_from(ps[i], leaf, links, true).1 is None,
    decreases links,
{
    assert(sound(s, ps[i]));
    let (u, leaf2) = lemma_hop(s, t, ps[i], leaf, links);
    if links > 0 {
        if i < ps.len() - 1 {
            assert(hop(s, ps[i]) == Some(ps[i + 1]));
            lemma_circle(s, u, ps, i + 1, leaf2, (links - 1) as nat);
        } else {
            assert(ps[i] == ps.last());
            lemma_circle(s, u, ps, 0, leaf2, (links - 1) as nat);
        }
    }
}

/// Law: a path to a link whose links lead in a circle, back to the path itself, is resolved to
/// nothing.
pub proof fn law_circle_leads_nowhere(s: MfsView, ps: Seq<Seq<u8>>)
    requires
        mfs_cow::table_ok(s),
        ps.len() > 0,
        forall|j: int| 0 <= j < ps.len() ==> sound(s, #[trigger] ps[j]),
        forall|j: int| 0 <= j < ps.len() - 1 ==> hop(s, #[trigger] ps[j]) == Some(ps[j + 1]),
        hop(s, ps.last()) == Some(ps[0]),
    ensures
        s.resolve(ps[0], true).1 is None,
{
    reveal(MfsView::resolve);
    mfs_cow::lemma_stable_refl(s);
    assert(sound(s, ps[0]));
    lemma_circle(s, s, ps, 0, mfs_dir::no_loc(), MFS_SYMLINK_MAX_DEPTH as nat);
}

} // verus!
