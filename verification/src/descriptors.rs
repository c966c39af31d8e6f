//! Descriptors of the file system services: those that are open differ, each stands for what
//! was opened, and one that was closed stands for nothing.
use vstd::prelude::*;

use crate::exfat_srv;
use crate::exfat_srv::{ExfatFdView, ExfatSrvView, EXFAT_MAX_FD};
use crate::ext2;
use crate::ext2::{Ext2Fd, Ext2SrvView, EXT2_MAX_FD};
use crate::fat_file::OpenNode;
use crate::fat_srv;
use crate::fat_srv::{FatSrvView, MAX_FD};
use crate::mfs_srv;
use crate::mfs_srv::{MfsFdView, MfsSrvView, MFS_MAX_FD};
use crate::vfs::{Request, PAYLOAD_LEN};

verus! {

/// The first free slot.
pub proof fn lemma_fat_srv_slot(fds: Seq<Option<OpenNode>>, i: int)
    requires
        0 <= i <= fds.len(),
    ensures
        i <= fat_srv::free_fd(fds, i) <= fds.len(),
        fat_srv::free_fd(fds, i) < fds.len() ==> fds[fat_srv::free_fd(fds, i)] is None,
        forall|j: int| i <= j < fat_srv::free_fd(fds, i) ==> #[trigger] fds[j] is Some,
    decreases fds.len() - i,
{
    if i < fds.len() && fds[i] is Some {
        lemma_fat_srv_slot(fds, i + 1);
    }
}

/// Law: on FAT32, opening gives a descriptor exactly where one is free; it was not open, it
/// stands for what was opened, and every open one still stands for what it stood for. A closed
/// one stands for nothing.
pub proof fn law_fat_srv_descriptors(s: FatSrvView, node: OpenNode, fd: u32)
    requires
        s.fds.len() == MAX_FD,
    ensures
        s.take_fd(node).1 is Some <==> exists|i: int| 0 <= i < s.fds.len() && #[trigger] s.fds[i] is None,
        s.take_fd(node).1 is Some ==> ({
            let new = s.take_fd(node).1->Some_0 as u32;
            let t = s.take_fd(node).0;
            &&& s.lookup(new) is None
            &&& t.lookup(new) == Some(node)
            &&& s.lookup(fd) is Some ==> t.lookup(fd) == s.lookup(fd)
        }),
        s.close(fd).0.lookup(fd) is None,
{
    lemma_fat_srv_slot(s.fds, 0);
}

/// The first free slot.
pub proof fn lemma_mfs_srv_slot(fds: Seq<Option<MfsFdView>>, i: int)
    requires
        0 <= i <= fds.len(),
    ensures
        i <= mfs_srv::free_fd(fds, i) <= fds.len(),
        mfs_srv::free_fd(fds, i) < fds.len() ==> fds[mfs_srv::free_fd(fds, i)] is None,
        forall|j: int| i <= j < mfs_srv::free_fd(fds, i) ==> #[trigger] fds[j] is Some,
    decreases fds.len() - i,
{
    if i < fds.len() && fds[i] is Some {
        lemma_mfs_srv_slot(fds, i + 1);
    }
}

/// Law: on MorionFS, opening gives a descriptor exactly where one is free; it was not open, it
/// stands for what was opened, and every open one still stands for what it stood for. A closed
/// one stands for nothing.
pub proof fn law_mfs_srv_descriptors(s: MfsSrvView, path: Seq<u8>, is_dir: bool, fd: u32)
    requires
        s.fds.len() == MFS_MAX_FD,
    ensures
        s.take_fd(path, is_dir).1 is Value <==> exists|i: int| 0 <= i < s.fds.len() && #[trigger] s.fds[i] is None,
        s.take_fd(path, is_dir).1 is Value ==> ({
            let new = s.take_fd(path, is_dir).1->Value_0 as u32;
            let t = s.take_fd(path, is_dir).0;
            &&& s.fd_get(new) is None
            &&& t.fd_get(new) == Some(MfsFdView { is_dir, path, vol: s.fs.vol })
            &&& s.fd_get(fd) is Some ==> t.fd_get(fd) == s.fd_get(fd)
        }),
        s.close(fd).0.fd_get(fd) is None,
{
    lemma_mfs_srv_slot(s.fds, 0);
}

/// The first free slot.
pub proof fn lemma_exfat_srv_slot(fds: Seq<Option<ExfatFdView>>, i: int)
    requires
        0 <= i <= fds.len(),
    ensures
        i <= exfat_srv::free_fd(fds, i) <= fds.len(),
        exfat_srv::free_fd(fds, i) < fds.len() ==> fds[exfat_srv::free_fd(fds, i)] is None,
        forall|j: int| i <= j < exfat_srv::free_fd(fds, i) ==> #[trigger] fds[j] is Some,
    decreases fds.len() - i,
{
    if i < fds.len() && fds[i] is Some {
        lemma_exfat_srv_slot(fds, i + 1);
    }
}

/// Law: on exFAT, opening gives a descriptor exactly where one is free; it was not open, it
/// stands for what was opened, and every open one still stands for what it stood for. A closed
/// one stands for nothing.
pub proof fn law_exfat_srv_descriptors(s: ExfatSrvView, path: Seq<u8>, is_dir: bool, fd: u32)
    requires
        s.fds.len() == EXFAT_MAX_FD,
        path.len() <= PAYLOAD_LEN,
    ensures
        s.take_fd(path, is_dir).1 is Value <==> exists|i: int| 0 <= i < s.fds.len() && #[trigger] s.fds[i] is None,
        s.take_fd(path, is_dir).1 is Value ==> ({
            let new = s.take_fd(path, is_dir).1->Value_0 as u32;
            let t = s.take_fd(path, is_dir).0;
            &&& s.fd_get(new) is None
            &&& t.fd_get(new) == Some(ExfatFdView { is_dir, path, vol: s.fs.vol })
            &&& s.fd_get(fd) is Some ==> t.fd_get(fd) == s.fd_get(fd)
        }),
        s.close(fd).0.fd_get(fd) is None,
{
    lemma_exfat_srv_slot(s.fds, 0);
}

/// The first free slot.
proof fn lemma_ext2_slot(fds: Seq<Option<Ext2Fd>>, i: int)
    requires
        0 <= i <= fds.len(),
    ensures
        i <= ext2::free_fd(fds, i) <= fds.len(),
        ext2::free_fd(fds, i) < fds.len() ==> fds[ext2::free_fd(fds, i)] is None,
        forall|j: int| i <= j < ext2::free_fd(fds, i) ==> #[trigger] fds[j] is Some,
    decreases fds.len() - i,
{
    if i < fds.len() && fds[i] is Some {
        lemma_ext2_slot(fds, i + 1);
    }
}

/// Law: on ext2, opening gives a descriptor exactly where one is free; it was not open, it
/// stands for what was opened, and every open one still stands for what it stood for. A closed
/// one stands for nothing.
pub proof fn law_ext2_descriptors(s: Ext2SrvView, f: Ext2Fd, fd: u32)
    requires
        s.fds.len() == EXT2_MAX_FD,
    ensures
        s.take_fd(f).1 is Value <==> exists|i: int| 0 <= i < s.fds.len() && #[trigger] s.fds[i] is None,
        s.take_fd(f).1 is Value ==> ({
            let new = s.take_fd(f).1->Value_0 as u32;
            let t = s.take_fd(f).0;
            &&& s.fd_get(new) is None
            &&& t.fd_get(new) == Some(f)
            &&& s.fd_get(fd) is Some ==> t.fd_get(fd) == s.fd_get(fd)
        }),
        s.answer((Request::Close { fd })).0.fd_get(fd) is None,
{
    lemma_ext2_slot(s.fds, 0);
}

} // verus!
