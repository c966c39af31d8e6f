//! What a caller of the file services does with a route: paths as the service at the mount
//! point sees them, and the targets of symbolic links.
use vstd::prelude::*;

use crate::bytes;
use crate::mount;

verus! {

/// Where a path leads: the service, its volume, and the length of the mount point.
#[derive(Clone, Copy, PartialEq, Eq, Structural)]
pub struct Route {
    pub domain: u64,
    pub vol_enc: u64,
    pub len: usize,
}

/// Takes a packed route apart.
pub fn route_of(word: u64) -> (r: Route)
    ensures
        r == (Route {
            domain: (word >> 32u64) & 0xFF,
            vol_enc: word >> 40u64,
            len: (word & 0xFFFF_FFFF) as usize,
        }),
{
    Route {
        domain: (word >> 32u64) & 0xFF,
        vol_enc: word >> 40u64,
        len: (word & 0xFFFF_FFFF) as usize,
    }
}

/// The rest of a path behind a mount point of `len` bytes; the mount point itself is the
/// service's root, and the root mount takes the path as it is.
pub open spec fn inner(path: Seq<u8>, len: int) -> Seq<u8> {
    if len <= 1 || len > path.len() {
        path
    } else if len == path.len() {
        mount::root()
    } else {
        path.subrange(len, path.len() as int)
    }
}

/// The path that the service at a mount point of `len` bytes is asked for.
pub fn service_path(path: &[u8], len: usize) -> (r: Vec<u8>)
    ensures
        r@ == inner(path@, len as int),
{
    if len <= 1 || len > path.len() {
        let r: Vec<u8> = bytes::slice_copy(path, 0, path.len());
        assert(r@ =~= path@);
        r
    } else if len == path.len() {
        let r: Vec<u8> = vec![0x2Fu8];
        assert(r@ =~= mount::root());
        r
    } else {
        bytes::slice_copy(path, len, path.len())
    }
}

/// Whether two routes lead to the same volume of the same service.
pub open spec fn same_place(a: Route, b: Route) -> bool {
    a.domain == b.domain && a.vol_enc == b.vol_enc
}

/// The target that is stored in a link reached by `link`: a relative one as it is, an
/// absolute one as its service sees it. A target on another volume, or at no mount point
/// (`at` is `None`), has none.
pub open spec fn stored(target: Seq<u8>, link: Route, at: Option<Route>) -> Option<Seq<u8>> {
    if target.len() == 0 || target[0] != 0x2F {
        Some(target)
    } else {
        match at {
            Some(a) => if same_place(a, link) {
                Some(inner(target, a.len as int))
            } else {
                None
            },
            None => None,
        }
    }
}

/// The target that is stored in a link.
pub fn link_target(target: &[u8], link: Route, at: Option<Route>) -> (r: Option<Vec<u8>>)
    ensures
        bytes::opt(r) == stored(target@, link, at),
{
    if target.len() == 0 || target[0] != 0x2F {
        let r: Vec<u8> = bytes::slice_copy(target, 0, target.len());
        assert(r@ =~= target@);
        return Some(r);
    }
    match at {
        Some(a) => {
            if a.domain == link.domain && a.vol_enc == link.vol_enc {
                Some(service_path(target, a.len))
            } else {
                None
            }
        },
        None => None,
    }
}

/// The target shown for a link whose mount point is `prefix`: a relative one as it is, an
/// absolute one with the mount point in front.
pub open spec fn outer(prefix: Seq<u8>, target: Seq<u8>) -> Seq<u8> {
    if target.len() == 0 || target[0] != 0x2F || prefix.len() <= 1 {
        target
    } else if target.len() == 1 {
        prefix
    } else {
        prefix + target
    }
}

/// The target shown for a link whose mount point is `prefix`.
pub fn shown_target(prefix: &[u8], target: &[u8]) -> (r: Vec<u8>)
    ensures
        r@ == outer(prefix@, target@),
{
    let mut t: Vec<u8> = bytes::slice_copy(target, 0, target.len());
    assert(t@ =~= target@);
    if target.len() == 0 || target[0] != 0x2F || prefix.len() <= 1 {
        return t;
    }
    let mut r: Vec<u8> = bytes::slice_copy(prefix, 0, prefix.len());
    assert(r@ =~= prefix@);
    if target.len() > 1 {
        r.append(&mut t);
    }
    r
}

/// Law: reading a link gives the target back that it was made with, byte for byte. (The
/// mount point with one slash more behind it comes back without that slash.)
pub proof fn law_link_reads_back(target: Seq<u8>, prefix: Seq<u8>, link: Route, at: Option<Route>)
    requires
        prefix.len() > 0,
        stored(target, link, at) is Some,
        target.len() > 0 && target[0] == 0x2F ==> at->0.len == prefix.len() && mount::covers(
            target,
            prefix,
        ) == Some(prefix.len() as int) && !(prefix.len() > 1 && target == prefix + mount::root()),
    ensures
        outer(prefix, stored(target, link, at)->0) == target,
{
    let n = prefix.len() as int;
    if target.len() > 0 && target[0] == 0x2F && n > 1 {
        let s = stored(target, link, at)->0;
        assert(prefix != mount::root());
        assert(target.subrange(0, n) == prefix);
        if n == target.len() {
            assert(outer(prefix, s) =~= target);
        } else {
            assert(s == target.subrange(n, target.len() as int));
            assert(s[0] == target[n]);
            assert(prefix + s =~= target);
            if s.len() == 1 {
                assert(s =~= mount::root());
            }
        }
    }
}

/// Law: a link whose target lies on another volume, or at no mount point, is not made.
pub proof fn law_foreign_target_is_refused(target: Seq<u8>, link: Route, at: Option<Route>)
    requires
        target.len() > 0,
        target[0] == 0x2F,
        at matches Some(a) ==> !same_place(a, link),
    ensures
        stored(target, link, at) is None,
{
}

} // verus!
