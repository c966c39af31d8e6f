//! Descriptors of the file system services: in which order they are given out, and what giving one
//! back is answered.
use vstd::prelude::*;

use crate::descriptors;
use crate::exfat_srv;
use crate::exfat_srv::ExfatSrvView;
use crate::fat_file::OpenNode;
use crate::fat_srv;
use crate::fat_srv::FatSrvView;
use crate::mfs_srv;
use crate::mfs_srv::MfsSrvView;
use crate::vfs::ReplyView;

verus! {

/// Law: of the 16 descriptors of a FAT32 service the lowest free one is given out. Giving one back is
/// answered with 1 where it was open, else with 0, and every other one stays as it was.
pub proof fn law_fat_order(s: FatSrvView, n: OpenNode, fd: u32, other: u32)
    requires
        s.fds.len() == 16,
    ensures
        s.take_fd(n).1 matches Some(d) ==> d < 16 && forall|k: u32|
            k < d ==> #[trigger] s.lookup(k) is Some,
        s.take_fd(n).1 is None ==> s.take_fd(n).0 == s,
        s.close(fd).1 == if s.lookup(fd) is Some {
            ReplyView::Value(1)
        } else {
            ReplyView::Value(0)
        },
        other != fd ==> s.close(fd).0.lookup(other) == s.lookup(other),
        fd >= 16 ==> s.lookup(fd) is None,
{
    descriptors::lemma_fat_srv_slot(s.fds, 0);
    assert forall|k: u32| k < 16 && k < fat_srv::free_fd(s.fds, 0) implies #[trigger] s.lookup(
        k,
    ) is Some by {
        assert(s.fds[k as int] is Some);
    }
}

/// Law: of the 16 descriptors of an exFAT service the lowest free one is given out, and none for a path
/// longer than a message. Giving one back is answered with 1 where it was open, else with 0, and every
/// other one stays as it was.
pub proof fn law_exfat_order(s: ExfatSrvView, p: Seq<u8>, is_dir: bool, fd: u32, other: u32)
    requires
        s.fds.len() == 16,
    ensures
        s.take_fd(p, is_dir).1 matches ReplyView::Value(d) ==> p.len() <= 96 && d < 16 && forall|k: u32|
            k < d ==> #[trigger] s.fd_get(k) is Some,
        s.take_fd(p, is_dir).1 is Value || s.take_fd(p, is_dir) == (s, ReplyView::Fail),
        s.close(fd).1 == if s.fd_get(fd) is Some {
            ReplyView::Value(1)
        } else {
            ReplyView::Value(0)
        },
        other != fd ==> s.close(fd).0.fd_get(other) == s.fd_get(other),
        fd >= 16 ==> s.fd_get(fd) is None,
{
    descriptors::lemma_exfat_srv_slot(s.fds, 0);
    assert forall|k: u32| k < 16 && k < exfat_srv::free_fd(s.fds, 0) implies #[trigger] s.fd_get(
        k,
    ) is Some by {
        assert(s.fds[k as int] is Some);
    }
}

/// Law: of the 16 descriptors of a MorionFS service the lowest free one is given out. Giving one back
/// is answered with 1 where it was open, else with 0, and every other one stays as it was.
pub proof fn law_mfs_order(s: MfsSrvView, p: Seq<u8>, is_dir: bool, fd: u32, other: u32)
    requires
        s.fds.len() == 16,
    ensures
        s.take_fd(p, is_dir).1 matches ReplyView::Value(d) ==> d < 16 && forall|k: u32|
            k < d ==> #[trigger] s.fd_get(k) is Some,
        s.take_fd(p, is_dir).1 is Value || s.take_fd(p, is_dir) == (s, ReplyView::Fail),
        s.close(fd).1 == if s.fd_get(fd) is Some {
            ReplyView::Value(1)
        } else {
            ReplyView::Value(0)
        },
        other != fd ==> s.close(fd).0.fd_get(other) == s.fd_get(other),
        fd >= 16 ==> s.fd_get(fd) is None,
{
    descriptors::lemma_mfs_srv_slot(s.fds, 0);
    assert forall|k: u32| k < 16 && k < mfs_srv::free_fd(s.fds, 0) implies #[trigger] s.fd_get(
        k,
    ) is Some by {
        assert(s.fds[k as int] is Some);
    }
}

} // verus!
