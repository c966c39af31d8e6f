//! The copy-on-write file system, through its service.
use morion::disk::{Disk, Store};
use morion::mfs::{
    mfs_bb_for, mfs_crc32, mfs_ok, mfs_seal, MFS_DEFAULT_TOTAL_BLOCKS, MFS_MAGIC_DATA,
    MFS_MAGIC_DIR,
};
use morion::mfs_srv::MfsSrv;
use morion::mfs_vol::{mfs_next_primary_serial, mfs_primary_of_vol, mfs_vol_claim};
use morion::vfs::{
    DirEntry, Reply, Request, Stat, MODE_FTYPE_DIR, MODE_FTYPE_FILE, MODE_FTYPE_LINK,
    MODE_FTYPE_MASK, RESULT_MAX_ENTRIES,
};
use morion::volume::{
    VolumeDesc, VOL_KIND_EXT2, VOL_KIND_FAT, VOL_KIND_MFS, VOL_KIND_UNKNOWN,
};

const DIRECT: u64 = 1005;
const IND_CAP: u64 = 1022;
const DATA_CAP: u64 = 4088;
const NOW: u64 = 1_700_000_000;
const APP: u16 = 7;

fn desc(id: u32, sectors: u32, kind: u32) -> VolumeDesc {
    VolumeDesc { id, nsid: id + 1, start_lba: 0, sectors, kind }
}

/// A service on volume 1, of the given size and not formatted before.
fn service(blocks: u32) -> MfsSrv {
    let store = Store::new(vec![Disk::blank(8), Disk::blank(blocks * 8)]).unwrap();
    MfsSrv::start(store, vec![desc(1, blocks * 8, VOL_KIND_UNKNOWN)], NOW).unwrap()
}

/// The service started again on the disks of an earlier one.
fn restart(store: Store, blocks: u32) -> MfsSrv {
    MfsSrv::start(store, vec![desc(1, blocks * 8, VOL_KIND_MFS)], NOW).unwrap()
}

fn b(s: &str) -> Vec<u8> {
    s.as_bytes().to_vec()
}

fn call(s: &mut MfsSrv, req: Request) -> Reply {
    s.serve(0, &req, APP, NOW)
}

fn value(r: Reply) -> Option<u64> {
    match r {
        Reply::Value(v) => Some(v),
        Reply::Fail => None,
        _ => panic!("unexpected reply"),
    }
}

fn open(s: &mut MfsSrv, p: &str) -> Option<u32> {
    value(call(s, Request::Open { path: b(p) })).map(|v| v as u32)
}

fn creat(s: &mut MfsSrv, p: &str) -> Option<u32> {
    value(call(s, Request::Creat { path: b(p) })).map(|v| v as u32)
}

fn close(s: &mut MfsSrv, fd: u32) -> Option<u64> {
    value(call(s, Request::Close { fd }))
}

fn write(s: &mut MfsSrv, fd: u32, offset: u64, data: &[u8]) -> Option<u64> {
    value(call(s, Request::Write { fd, offset, data: data.to_vec() }))
}

fn read(s: &mut MfsSrv, fd: u32, offset: u64, count: u32) -> Option<Vec<u8>> {
    match call(s, Request::Read { fd, offset, count }) {
        Reply::Data(d) => Some(d),
        Reply::Fail => None,
        _ => panic!("unexpected reply"),
    }
}

fn mkdir(s: &mut MfsSrv, p: &str) -> Option<u64> {
    value(call(s, Request::Mkdir { path: b(p) }))
}

fn unlink(s: &mut MfsSrv, p: &str) -> Option<u64> {
    value(call(s, Request::Unlink { path: b(p) }))
}

fn rmdir(s: &mut MfsSrv, p: &str) -> Option<u64> {
    value(call(s, Request::Rmdir { path: b(p) }))
}

fn rename(s: &mut MfsSrv, from: &str, to: &str) -> Option<u64> {
    value(call(s, Request::Rename { from: b(from), to: b(to) }))
}

fn link(s: &mut MfsSrv, target: &str, path: &str) -> Option<u64> {
    value(call(s, Request::Link { target: b(target), path: b(path) }))
}

fn symlink(s: &mut MfsSrv, target: &str, path: &str) -> Option<u64> {
    value(call(s, Request::Symlink { target: b(target), path: b(path) }))
}

fn readlink(s: &mut MfsSrv, path: &str) -> Option<Vec<u8>> {
    match call(s, Request::Readlink { path: b(path) }) {
        Reply::Data(d) => Some(d),
        Reply::Fail => None,
        _ => panic!("unexpected reply"),
    }
}

fn stat_with(s: &mut MfsSrv, req: Request) -> Option<Stat> {
    match call(s, req) {
        Reply::StatOf(st) => Some(st),
        Reply::Fail => None,
        _ => panic!("unexpected reply"),
    }
}

fn stat(s: &mut MfsSrv, p: &str) -> Option<Stat> {
    stat_with(s, Request::Stat { path: b(p) })
}

fn lstat(s: &mut MfsSrv, p: &str) -> Option<Stat> {
    stat_with(s, Request::Lstat { path: b(p) })
}

fn list(s: &mut MfsSrv, p: &str) -> Vec<DirEntry> {
    let fd = open(s, p).unwrap();
    let r = call(s, Request::Readdir { fd });
    close(s, fd);
    match r {
        Reply::Entries(l) => l,
        _ => panic!("not a listing"),
    }
}

fn gc(s: &mut MfsSrv) -> Option<u64> {
    value(call(s, Request::CollectGarbage))
}

fn usage(s: &mut MfsSrv) -> (u64, u64) {
    let v = value(call(s, Request::Usage)).unwrap();
    (v >> 32, v & 0xFFFF_FFFF)
}

fn put(s: &mut MfsSrv, p: &str, data: &[u8]) {
    let fd = creat(s, p).unwrap();
    assert_eq!(write(s, fd, 0, data), Some(data.len() as u64));
    assert_eq!(close(s, fd), Some(1));
}

fn get(s: &mut MfsSrv, p: &str, count: u32) -> Option<Vec<u8>> {
    let fd = open(s, p)?;
    let d = read(s, fd, 0, count);
    close(s, fd);
    d
}

fn put_pages(s: &mut MfsSrv, fd: u32, offset: u64, pages: u64, mark: u8) {
    for i in 0..pages {
        let page = vec![mark.wrapping_add(i as u8); 4096];
        assert_eq!(write(s, fd, offset + i * 4096, &page), Some(4096));
    }
}

fn check_pages(s: &mut MfsSrv, fd: u32, offset: u64, pages: u64, mark: u8) {
    for i in 0..pages {
        let d = read(s, fd, offset + i * 4096, 4096).unwrap();
        assert_eq!(d.len(), 4096);
        assert!(d.iter().all(|&x| x == mark.wrapping_add(i as u8)));
    }
}

#[test]
fn crc32_of_the_check_string() {
    assert_eq!(mfs_crc32(b"123456789"), 0xCBF4_3926);
    assert_eq!(mfs_crc32(b""), 0);
}

#[test]
fn sealed_block_is_accepted_until_a_byte_changes() {
    let mut blk = vec![7u8; 4096];
    mfs_seal(&mut blk, MFS_MAGIC_DATA);
    assert!(mfs_ok(&blk, MFS_MAGIC_DATA));
    assert!(!mfs_ok(&blk, MFS_MAGIC_DIR));
    blk[100] ^= 1;
    assert!(!mfs_ok(&blk, MFS_MAGIC_DATA));
}

#[test]
fn bitmap_blocks_for_a_volume() {
    assert_eq!(mfs_bb_for(64), 1);
    assert_eq!(mfs_bb_for(32768), 1);
    assert_eq!(mfs_bb_for(32769), 2);
    assert_eq!(mfs_bb_for(65536), 2);
}

#[test]
fn format_fills_the_volume() {
    let mut s = service(2000);
    let (total, free) = usage(&mut s);
    assert_eq!(total * 8, 16000);
    assert!(free > 0 && free < total);
    // Without a size the default one is taken.
    let disks = vec![Disk::blank(8), Disk::blank(MFS_DEFAULT_TOTAL_BLOCKS * 8)];
    let store = Store::new(disks).unwrap();
    let mut s = MfsSrv::start(store, vec![desc(1, 0, VOL_KIND_UNKNOWN)], NOW).unwrap();
    assert_eq!(usage(&mut s).0, MFS_DEFAULT_TOTAL_BLOCKS as u64);
}

#[test]
fn volume_of_another_kind_is_not_formatted() {
    let store = Store::new(vec![Disk::blank(8000), Disk::blank(8000)]).unwrap();
    let vols = vec![desc(0, 8000, VOL_KIND_FAT), desc(1, 8000, VOL_KIND_EXT2)];
    assert!(MfsSrv::start(store, vols, NOW).is_none());
}

#[test]
fn volume_past_one_bitmap_block() {
    let mut s = service(33_000);
    assert_eq!(usage(&mut s).0, 33_000);
    put(&mut s, "/A", b"two bitmap blocks");
    assert_eq!(get(&mut s, "/A", 64).unwrap(), b"two bitmap blocks");
    // A second service on the same disk finds the file.
    let MfsSrv { fs, .. } = s;
    let mut t = restart(fs.store, 33_000);
    assert_eq!(get(&mut t, "/A", 64).unwrap(), b"two bitmap blocks");
}

#[test]
fn directory_and_file_come_and_go() {
    let mut s = service(2000);
    assert_eq!(mkdir(&mut s, "/D1"), Some(1));
    assert_eq!(mkdir(&mut s, "/D1"), None);
    put(&mut s, "/D1/F1.TXT", b"hello");
    assert_eq!(stat(&mut s, "/D1/F1.TXT").unwrap().size, 5);
    assert!(stat(&mut s, "/D1").unwrap().is_dir);
    assert_eq!(rmdir(&mut s, "/D1"), None);
    assert_eq!(unlink(&mut s, "/D1"), None);
    assert_eq!(rmdir(&mut s, "/D1/F1.TXT"), None);
    assert_eq!(unlink(&mut s, "/D1/F1.TXT"), Some(1));
    assert_eq!(unlink(&mut s, "/D1/F1.TXT"), None);
    assert!(list(&mut s, "/D1").is_empty());
    assert_eq!(rmdir(&mut s, "/D1"), Some(1));
    assert_eq!(open(&mut s, "/D1"), None);
    assert_eq!(rmdir(&mut s, "/"), None);
}

#[test]
fn snapshot_brings_the_first_version_back() {
    let mut s = service(2000);
    assert_eq!(mkdir(&mut s, "/DIR"), Some(1));
    put(&mut s, "/DIR/F.TXT", b"MFS-V1");
    assert_eq!(value(call(&mut s, Request::Snapshot)), Some(0));
    let fd = open(&mut s, "/DIR/F.TXT").unwrap();
    assert_eq!(write(&mut s, fd, 0, b"MFS-V2"), Some(6));
    close(&mut s, fd);
    assert_eq!(get(&mut s, "/DIR/F.TXT", 64).unwrap(), b"MFS-V2");
    match call(&mut s, Request::SnapshotList) {
        Reply::Data(d) => assert_eq!(d.len(), 24),
        _ => panic!("no list"),
    }
    assert!(value(call(&mut s, Request::SnapshotRestore { index: 5 })).is_none());
    assert!(value(call(&mut s, Request::SnapshotRestore { index: 0 })).is_some());
    assert_eq!(get(&mut s, "/DIR/F.TXT", 64).unwrap(), b"MFS-V1");
}

#[test]
fn file_is_there_after_a_restart() {
    let mut s = service(2000);
    put(&mut s, "/PERSIST.TXT", b"MFS-OK");
    let MfsSrv { fs, .. } = s;
    let mut t = restart(fs.store, 2000);
    assert_eq!(get(&mut t, "/PERSIST.TXT", 64).unwrap(), b"MFS-OK");
}

#[test]
fn torn_first_superblock_leaves_the_second() {
    let mut s = service(2000);
    put(&mut s, "/PERSIST.TXT", b"MFS-OK");
    let MfsSrv { mut fs, .. } = s;
    for i in 0..4096 {
        fs.store.disks[1].data[i] = 0xEE;
    }
    let mut t = restart(fs.store, 2000);
    assert_eq!(get(&mut t, "/PERSIST.TXT", 64).unwrap(), b"MFS-OK");
}

#[test]
fn collection_gives_back_what_overwriting_left() {
    let mut s = service(2000);
    let fd = creat(&mut s, "/CHURN.BIN").unwrap();
    put_pages(&mut s, fd, 0, 16, 0x10);
    let (_, before) = usage(&mut s);
    for round in 0..4u8 {
        put_pages(&mut s, fd, 0, 16, 0x20 + round);
    }
    let (_, low) = usage(&mut s);
    assert!(low + 64 <= before);
    assert!(gc(&mut s).unwrap() >= 64);
    let (_, after) = usage(&mut s);
    assert!(after > low);
    check_pages(&mut s, fd, 0, 16, 0x23);
}

/// A tree of three directories, of which a collection looks at the last one first.
fn three_directories() -> MfsSrv {
    let mut s = service(2000);
    for d in ["/A", "/B", "/C"] {
        assert_eq!(mkdir(&mut s, d), Some(1));
    }
    put(&mut s, "/C/INNERMOST", b"kept");
    s
}

/// The sectors of all blocks in which the name of the file in the last directory stands.
fn sectors_of_the_name(s: &MfsSrv) -> Vec<usize> {
    let data = &s.fs.store.disks[1].data;
    let names = |k: &usize| data[k * 4096..(k + 1) * 4096].windows(9).any(|w| w == b"INNERMOST");
    (0..data.len() / 4096).filter(names).flat_map(|k| k * 8..k * 8 + 8).collect()
}

#[test]
fn collection_after_one_that_failed_starts_afresh() {
    let mut s = three_directories();
    let mut t = three_directories();
    let torn = sectors_of_the_name(&s);
    assert!(!torn.is_empty());
    for i in torn.iter() {
        s.fs.store.disks[1].ok[*i] = false;
    }
    let before = usage(&mut s);
    assert_eq!(gc(&mut s), None);
    assert_eq!(usage(&mut s), before);
    for i in torn.iter() {
        s.fs.store.disks[1].ok[*i] = true;
    }
    for d in ["/A", "/B"] {
        assert_eq!(rmdir(&mut s, d), Some(1));
        assert_eq!(rmdir(&mut t, d), Some(1));
    }
    let freed = gc(&mut t);
    assert!(freed.unwrap() >= 2);
    assert_eq!(gc(&mut s), freed);
    assert_eq!(usage(&mut s), usage(&mut t));
    assert_eq!(s.fs.bmp, t.fs.bmp);
    assert_eq!(gc(&mut s), Some(0));
    assert_eq!(get(&mut s, "/C/INNERMOST", 8).unwrap(), b"kept");
}

#[test]
fn collection_keeps_what_a_snapshot_names() {
    let mut s = service(2000);
    let fd = creat(&mut s, "/GCS.BIN").unwrap();
    assert_eq!(write(&mut s, fd, 0, b"SNAP-A"), Some(6));
    assert!(value(call(&mut s, Request::Snapshot)).is_some());
    assert_eq!(write(&mut s, fd, 0, b"SNAP-B"), Some(6));
    assert!(gc(&mut s).is_some());
    let other = creat(&mut s, "/CHURN2.BIN").unwrap();
    put_pages(&mut s, other, 0, 24, 0x77);
    assert_eq!(get(&mut s, "/GCS.BIN", 6).unwrap(), b"SNAP-B");
    assert!(value(call(&mut s, Request::SnapshotRestore { index: 0 })).is_some());
    assert_eq!(get(&mut s, "/GCS.BIN", 6).unwrap(), b"SNAP-A");
}

#[test]
fn file_over_the_direct_and_indirect_ranges() {
    let mut s = service(3000);
    let fd = creat(&mut s, "/BIG.BIN").unwrap();
    let cross = (DIRECT - 3) * DATA_CAP;
    let second = (DIRECT + IND_CAP) * DATA_CAP;
    put_pages(&mut s, fd, cross, 5, 0x40);
    put_pages(&mut s, fd, second, 1, 0x80);
    assert_eq!(stat(&mut s, "/BIG.BIN").unwrap().size, second + 4096);
    assert!(second > 4 * 1024 * 1024);
    check_pages(&mut s, fd, cross, 5, 0x40);
    check_pages(&mut s, fd, second, 1, 0x80);
    assert!(gc(&mut s).is_some());
    let other = creat(&mut s, "/CHURN3.BIN").unwrap();
    put_pages(&mut s, other, 0, 8, 0xC0);
    check_pages(&mut s, fd, cross, 5, 0x40);
    check_pages(&mut s, fd, second, 1, 0x80);
    // What was never written reads as zero.
    assert_eq!(read(&mut s, fd, 0, 64).unwrap(), vec![0u8; 64]);
}

#[test]
fn file_past_four_gibibytes_is_sparse() {
    let off: u64 = 4 * 1024 * 1024 * 1024 + 4096;
    let size: u64 = 5 * 1024 * 1024 * 1024 + 12345;
    let mut s = service(2000);
    let fd = creat(&mut s, "/FS23BIG.BIN").unwrap();
    assert_eq!(value(call(&mut s, Request::Truncate { fd, size })), Some(1));
    assert_eq!(stat(&mut s, "/FS23BIG.BIN").unwrap().size, size);
    assert_eq!(read(&mut s, fd, 0, 4096).unwrap(), vec![0u8; 4096]);
    assert_eq!(write(&mut s, fd, off, &[0xA5; 16]), Some(16));
    assert_eq!(read(&mut s, fd, off, 16).unwrap(), vec![0xA5; 16]);
    close(&mut s, fd);
    assert!(gc(&mut s).is_some());
    let fd = open(&mut s, "/FS23BIG.BIN").unwrap();
    assert_eq!(read(&mut s, fd, off, 16).unwrap(), vec![0xA5; 16]);
    close(&mut s, fd);
    assert_eq!(stat(&mut s, "/FS23BIG.BIN").unwrap().size, size);
    assert_eq!(unlink(&mut s, "/FS23BIG.BIN"), Some(1));
}

#[test]
fn directory_of_two_hundred_names() {
    let mut s = service(4096);
    assert_eq!(mkdir(&mut s, "/DIR12"), Some(1));
    for i in 0..200u32 {
        let p = format!("/DIR12/LONGFILE_{:03}.TXT", i);
        put(&mut s, &p, &[i as u8; 100]);
        if i % 64 == 63 {
            assert!(gc(&mut s).is_some());
        }
    }
    for i in 0..200u32 {
        let p = format!("/DIR12/LONGFILE_{:03}.TXT", i);
        assert_eq!(get(&mut s, &p, 512).unwrap(), vec![i as u8; 100]);
    }
    let l = list(&mut s, "/DIR12");
    assert_eq!(l.len(), RESULT_MAX_ENTRIES);
    assert!(l.iter().all(|e| e.long.len() == 16));
    assert_eq!(open(&mut s, "/DIR12/LONGFILE_200.TXT"), None);
    for i in 0..200u32 {
        assert_eq!(unlink(&mut s, &format!("/DIR12/LONGFILE_{:03}.TXT", i)), Some(1));
        if i % 64 == 63 {
            assert!(gc(&mut s).is_some());
        }
    }
    assert_eq!(rmdir(&mut s, "/DIR12"), Some(1));
}

#[test]
fn long_name_is_listed_whole() {
    let name = "LONGFILE_WITH_A_REALLY_LONG_NAME_0123456789ABCDEFGHIJ.TXT";
    let path = format!("/{}", name);
    let mut s = service(2000);
    put(&mut s, &path, &[0xA5; 4096]);
    assert_eq!(get(&mut s, &path, 4096).unwrap(), vec![0xA5; 4096]);
    let l = list(&mut s, "/");
    assert_eq!(l.len(), 1);
    assert_eq!(l[0].long, name.as_bytes());
    assert_eq!(l[0].size, 4096);
}

#[test]
fn twenty_levels_of_directories() {
    let mut s = service(2000);
    let mut p = String::from("/D12");
    assert_eq!(mkdir(&mut s, &p), Some(1));
    for lvl in 0..18u8 {
        p.push('/');
        p.push((b'a' + lvl % 26) as char);
        assert_eq!(mkdir(&mut s, &p), Some(1));
    }
    let file = format!("{}/H", p);
    put(&mut s, &file, &[0x5A; 4096]);
    assert_eq!(get(&mut s, &file, 4096).unwrap(), vec![0x5A; 4096]);
    assert_eq!(unlink(&mut s, &file), Some(1));
    while p.len() > 4 {
        assert_eq!(rmdir(&mut s, &p), Some(1));
        p.truncate(p.len() - 2);
    }
    assert_eq!(rmdir(&mut s, "/D12"), Some(1));
}

#[test]
fn metadata_truncation_and_renaming() {
    let mut s = service(2000);
    assert_eq!(mkdir(&mut s, "/M5"), Some(1));
    assert_eq!(mkdir(&mut s, "/M5/SUB"), Some(1));
    let fd = creat(&mut s, "/M5/A.TXT").unwrap();
    put_pages(&mut s, fd, 0, 3, 0x50);
    let st = stat(&mut s, "/M5/A.TXT").unwrap();
    assert_eq!((st.size, st.owner, st.nlink, st.is_dir), (3 * 4096, APP, 1, false));
    assert_eq!(st.mode, MODE_FTYPE_FILE | 0o644);
    assert_eq!((st.mtime, st.ctime, st.atime), (NOW, NOW, NOW));

    assert_eq!(value(call(&mut s, Request::Chmod { path: b("/M5/A.TXT"), mode: 0o600 })), Some(1));
    assert!(gc(&mut s).is_some());
    assert_eq!(stat(&mut s, "/M5/A.TXT").unwrap().mode, MODE_FTYPE_FILE | 0o600);

    assert_eq!(value(call(&mut s, Request::Truncate { fd, size: 4096 })), Some(1));
    check_pages(&mut s, fd, 0, 1, 0x50);
    assert_eq!(read(&mut s, fd, 4096, 512).unwrap().len(), 0);
    assert_eq!(value(call(&mut s, Request::Truncate { fd, size: 8192 })), Some(1));
    assert_eq!(stat(&mut s, "/M5/A.TXT").unwrap().size, 8192);
    assert_eq!(read(&mut s, fd, 4096, 4096).unwrap(), vec![0u8; 4096]);
    assert_eq!(value(call(&mut s, Request::Truncate { fd, size: 0 })), Some(1));
    put_pages(&mut s, fd, 0, 1, 0x60);
    close(&mut s, fd);

    assert_eq!(rename(&mut s, "/M5/A.TXT", "/M5/SUB/B.TXT"), Some(1));
    assert_eq!(open(&mut s, "/M5/A.TXT"), None);
    assert_eq!(get(&mut s, "/M5/SUB/B.TXT", 4096).unwrap(), vec![0x60; 4096]);
    let st = stat(&mut s, "/M5/SUB/B.TXT").unwrap();
    assert_eq!((st.mode & 0o777, st.size), (0o600, 4096));

    assert_eq!(rename(&mut s, "/M5/SUB", "/M5/SUB2"), Some(1));
    assert!(open(&mut s, "/M5/SUB2/B.TXT").is_some());
    assert_eq!(mkdir(&mut s, "/M5/SUB2/INNER"), Some(1));
    assert_eq!(rename(&mut s, "/M5/SUB2", "/M5/SUB2/INNER/X"), None);

    put(&mut s, "/M5/C.TXT", &[0x70; 4096]);
    assert_eq!(rename(&mut s, "/M5/SUB2/B.TXT", "/M5/C.TXT"), Some(1));
    assert_eq!(open(&mut s, "/M5/SUB2/B.TXT"), None);
    assert_eq!(get(&mut s, "/M5/C.TXT", 4096).unwrap(), vec![0x60; 4096]);

    let l = list(&mut s, "/M5");
    assert_eq!(l.len(), 2);
    assert!(l.iter().all(|e| e.mode & 0o777 != 0 && e.mtime == NOW && e.owner == APP));

    assert!(gc(&mut s).is_some());
    let churn = creat(&mut s, "/CHURN5.BIN").unwrap();
    put_pages(&mut s, churn, 0, 8, 0xA0);
    assert_eq!(get(&mut s, "/M5/C.TXT", 4096).unwrap(), vec![0x60; 4096]);
    assert_eq!(stat(&mut s, "/M5/C.TXT").unwrap().mode & 0o777, 0o600);
}

#[test]
fn two_names_of_one_file() {
    let mut s = service(2000);
    put(&mut s, "/L1.TXT", &[0x30; 4096]);
    assert_eq!(link(&mut s, "/L1.TXT", "/L2.TXT"), Some(1));
    let (a, c) = (stat(&mut s, "/L1.TXT").unwrap(), stat(&mut s, "/L2.TXT").unwrap());
    assert_eq!((a.nlink, c.nlink, a.size, a.mode & 0o777), (2, 2, 4096, 0o644));
    assert_eq!((a.mtime, a.owner), (c.mtime, c.owner));
    let fd = open(&mut s, "/L2.TXT").unwrap();
    put_pages(&mut s, fd, 0, 1, 0x40);
    close(&mut s, fd);
    assert_eq!(get(&mut s, "/L1.TXT", 4096).unwrap(), vec![0x40; 4096]);
    assert!(gc(&mut s).is_some());
    put(&mut s, "/CHURN6.BIN", &[0xB0; 4096]);
    assert_eq!(get(&mut s, "/L2.TXT", 4096).unwrap(), vec![0x40; 4096]);
    assert_eq!(unlink(&mut s, "/L2.TXT"), Some(1));
    assert_eq!(open(&mut s, "/L2.TXT"), None);
    assert_eq!(get(&mut s, "/L1.TXT", 4096).unwrap(), vec![0x40; 4096]);
    assert_eq!(stat(&mut s, "/L1.TXT").unwrap().nlink, 1);
    assert_eq!(link(&mut s, "/L1.TXT", "/L3.TXT"), Some(1));
    assert_eq!(unlink(&mut s, "/L1.TXT"), Some(1));
    assert_eq!(rename(&mut s, "/L3.TXT", "/L4.TXT"), Some(1));
    assert_eq!(get(&mut s, "/L4.TXT", 4096).unwrap(), vec![0x40; 4096]);
    assert_eq!(mkdir(&mut s, "/DIR14"), Some(1));
    assert_eq!(link(&mut s, "/DIR14", "/DIR14B"), None);
    assert_eq!(link(&mut s, "/L4.TXT", "/L4.TXT"), None);
    assert_eq!(link(&mut s, "/NOPE14", "/NOPE14B"), None);
}

#[test]
fn symbolic_links_are_followed() {
    let mut s = service(2000);
    put(&mut s, "/S19T.TXT", &[0x50; 4096]);
    assert_eq!(symlink(&mut s, "/S19T.TXT", "/S19L1"), Some(1));
    assert_eq!(get(&mut s, "/S19L1", 4096).unwrap(), vec![0x50; 4096]);
    let st = stat(&mut s, "/S19L1").unwrap();
    assert_eq!((st.size, st.is_dir, st.mode & MODE_FTYPE_MASK), (4096, false, MODE_FTYPE_FILE));
    let l = list(&mut s, "/");
    let e = l.iter().find(|e| e.long == b"S19L1").unwrap();
    assert_eq!((e.mode & MODE_FTYPE_MASK, e.is_dir, e.size), (MODE_FTYPE_LINK, false, 9));

    assert_eq!(symlink(&mut s, "S19T.TXT", "/S19L2"), Some(1));
    assert_eq!(get(&mut s, "/S19L2", 4096).unwrap(), vec![0x50; 4096]);

    assert_eq!(mkdir(&mut s, "/D19"), Some(1));
    put(&mut s, "/D19/F.TXT", &[0x60; 4096]);
    assert_eq!(symlink(&mut s, "../D19/F.TXT", "/D19/S19L3"), Some(1));
    assert_eq!(get(&mut s, "/D19/S19L3", 4096).unwrap(), vec![0x60; 4096]);

    assert_eq!(symlink(&mut s, "/D19", "/S19LD"), Some(1));
    assert_eq!(get(&mut s, "/S19LD/F.TXT", 4096).unwrap(), vec![0x60; 4096]);
    assert_eq!(rmdir(&mut s, "/S19LD"), None);
    assert_eq!(unlink(&mut s, "/S19LD"), Some(1));
    assert!(stat(&mut s, "/D19/F.TXT").is_some());

    assert_eq!(unlink(&mut s, "/S19L1"), Some(1));
    assert_eq!(get(&mut s, "/S19T.TXT", 4096).unwrap(), vec![0x50; 4096]);
    assert_eq!(open(&mut s, "/S19L1"), None);

    assert_eq!(rename(&mut s, "/S19L2", "/S19L2R"), Some(1));
    assert_eq!(lstat(&mut s, "/S19L2R").unwrap().mode & MODE_FTYPE_MASK, MODE_FTYPE_LINK);
    assert_eq!(get(&mut s, "/S19L2R", 4096).unwrap(), vec![0x50; 4096]);
}

#[test]
fn renaming_over_a_file_leaves_its_other_names() {
    let mut s = service(2000);
    put(&mut s, "/NEW.TXT", b"new");
    put(&mut s, "/OLD.TXT", b"old");
    assert_eq!(link(&mut s, "/OLD.TXT", "/KEPT.TXT"), Some(1));
    assert_eq!(rename(&mut s, "/NEW.TXT", "/OLD.TXT"), Some(1));
    assert_eq!(open(&mut s, "/NEW.TXT"), None);
    assert_eq!(get(&mut s, "/OLD.TXT", 8).unwrap(), b"new");
    assert_eq!(get(&mut s, "/KEPT.TXT", 8).unwrap(), b"old");
    assert_eq!(stat(&mut s, "/KEPT.TXT").unwrap().nlink, 1);
    assert!(gc(&mut s).is_some());
    put(&mut s, "/CHURN7.BIN", &[0xC0; 4096]);
    assert_eq!(get(&mut s, "/KEPT.TXT", 8).unwrap(), b"old");
}

#[test]
fn renaming_one_name_to_another_of_the_same_file() {
    let mut s = service(2000);
    put(&mut s, "/A.TXT", b"both");
    assert_eq!(link(&mut s, "/A.TXT", "/B.TXT"), Some(1));
    assert_eq!(rename(&mut s, "/A.TXT", "/B.TXT"), Some(1));
    assert_eq!(open(&mut s, "/A.TXT"), None);
    assert_eq!(get(&mut s, "/B.TXT", 8).unwrap(), b"both");
    assert_eq!(stat(&mut s, "/B.TXT").unwrap().nlink, 1);
    assert_eq!(list(&mut s, "/").len(), 1);
    assert!(gc(&mut s).is_some());
    put(&mut s, "/CHURN8.BIN", &[0xD0; 4096]);
    assert_eq!(get(&mut s, "/B.TXT", 8).unwrap(), b"both");
}

#[test]
fn renaming_an_entry_to_itself_does_nothing() {
    let mut s = service(2000);
    assert_eq!(mkdir(&mut s, "/D"), Some(1));
    assert_eq!(symlink(&mut s, "/D", "/L"), Some(1));
    put(&mut s, "/D/F.TXT", b"one");
    assert_eq!(mkdir(&mut s, "/D/SUB"), Some(1));
    for p in ["F.TXT", "SUB"] {
        assert_eq!(rename(&mut s, &format!("/L/{}", p), &format!("/D/{}", p)), Some(1));
        assert_eq!(rename(&mut s, &format!("/D/{}", p), &format!("/D/{}", p)), Some(1));
    }
    assert_eq!(get(&mut s, "/D/F.TXT", 8).unwrap(), b"one");
    assert_eq!(stat(&mut s, "/D/F.TXT").unwrap().nlink, 1);
    assert!(stat(&mut s, "/D/SUB").unwrap().is_dir);
}

#[test]
fn paths_through_a_linked_directory() {
    let mut s = service(2000);
    assert_eq!(mkdir(&mut s, "/REAL"), Some(1));
    assert_eq!(mkdir(&mut s, "/REAL/SUB"), Some(1));
    assert_eq!(symlink(&mut s, "REAL/SUB/../SUB", "/VIA"), Some(1));
    assert_eq!(symlink(&mut s, "/VIA", "/VIA2"), Some(1));
    put(&mut s, "/VIA2/F", b"made");
    assert_eq!(get(&mut s, "/REAL/SUB/F", 8).unwrap(), b"made");
    assert_eq!(mkdir(&mut s, "/VIA/D"), Some(1));
    assert!(stat(&mut s, "/REAL/SUB/D").unwrap().is_dir);
    assert_eq!(symlink(&mut s, "F", "/VIA2/L"), Some(1));
    assert_eq!(readlink(&mut s, "/VIA/L").unwrap(), b"F");
    assert_eq!(get(&mut s, "/VIA2/L", 8).unwrap(), b"made");
    assert_eq!(link(&mut s, "/VIA/L", "/VIA2/G"), Some(1));
    assert_eq!(stat(&mut s, "/REAL/SUB/F").unwrap().nlink, 2);
    assert_eq!(rename(&mut s, "/VIA/F", "/VIA2/D/H"), Some(1));
    assert_eq!(open(&mut s, "/REAL/SUB/F"), None);
    assert_eq!(get(&mut s, "/REAL/SUB/D/H", 8).unwrap(), b"made");
    assert_eq!(unlink(&mut s, "/VIA/G"), Some(1));
    assert_eq!(open(&mut s, "/REAL/SUB/G"), None);
    assert_eq!(get(&mut s, "/VIA/D/H", 8).unwrap(), b"made");
    assert_eq!(lstat(&mut s, "/VIA2").unwrap().mode & MODE_FTYPE_MASK, MODE_FTYPE_LINK);
    assert!(stat(&mut s, "/VIA2").unwrap().is_dir);
}

#[test]
fn bytes_cut_off_do_not_come_back() {
    let mut s = service(2000);
    let fd = creat(&mut s, "/CUT.BIN").unwrap();
    for cut in [0u64, 5, 4087, 4088, 4089, 6000] {
        put_pages(&mut s, fd, 0, 3, 0x11);
        for size in [cut, 12288] {
            assert!(value(call(&mut s, Request::Truncate { fd, size })).is_some());
        }
        let mut all = Vec::new();
        for k in 0..3 {
            all.extend(read(&mut s, fd, k * 4096, 4096).unwrap());
        }
        assert!(all[..cut as usize].iter().all(|b| *b != 0));
        assert_eq!(all[cut as usize..], vec![0u8; 12288 - cut as usize][..]);
    }
}

#[test]
fn table_block_that_cannot_be_trusted_is_not_kept() {
    let mut s = service(2000);
    put(&mut s, "/T.TXT", b"table");
    s.fs.itab_mem[1] = s.fs.itab;
    assert_eq!(s.fs.mfs_ino_block(1022), None);
    assert!(!s.fs.mfs_itab_set(1022, 5));
    assert_eq!(get(&mut s, "/T.TXT", 8).unwrap(), b"table");
    s.fs.itab_mem[1] = 0;
    let at = s.fs.mfs_ino_block(2);
    assert!(at.unwrap() != 0);
    let n = s.fs.store.disks[1].ok.len();
    s.fs.store.disks[1].ok = vec![false; n];
    assert!(!s.fs.mfs_itab_set(2, 0));
    s.fs.store.disks[1].ok = vec![true; n];
    assert_eq!(s.fs.mfs_ino_block(2), at);
    assert_eq!(get(&mut s, "/T.TXT", 8).unwrap(), b"table");
}

#[test]
fn dangling_and_circular_links() {
    let mut s = service(2000);
    assert_eq!(symlink(&mut s, "/S19NOPE.TXT", "/S19L5"), Some(1));
    assert_eq!(open(&mut s, "/S19L5"), None);
    assert_eq!(mkdir(&mut s, "/S19L5"), None);
    assert_eq!(unlink(&mut s, "/S19L5"), Some(1));
    assert_eq!(symlink(&mut s, "/C19B", "/C19A"), Some(1));
    assert_eq!(symlink(&mut s, "/C19A", "/C19B"), Some(1));
    assert_eq!(open(&mut s, "/C19A"), None);
    assert_eq!(open(&mut s, "/C19B"), None);
    assert_eq!(symlink(&mut s, "/C19C", "/C19C"), Some(1));
    assert_eq!(open(&mut s, "/C19C"), None);
}

#[test]
fn sixteen_links_are_followed_and_no_more() {
    let mut s = service(2000);
    put(&mut s, "/END.TXT", &[0x33; 64]);
    assert_eq!(symlink(&mut s, "/END.TXT", "/L1"), Some(1));
    for k in 2..18 {
        assert_eq!(symlink(&mut s, &format!("/L{}", k - 1), &format!("/L{}", k)), Some(1));
    }
    assert_eq!(get(&mut s, "/L16", 64).unwrap(), vec![0x33; 64]);
    assert_eq!(open(&mut s, "/L17"), None);
}

#[test]
fn empty_directory_makes_way() {
    let mut s = service(2000);
    for p in ["/A", "/A/X", "/B", "/C", "/C/Y"] {
        assert_eq!(mkdir(&mut s, p), Some(1));
    }
    assert_eq!(rename(&mut s, "/A", "/C"), None);
    assert_eq!(rename(&mut s, "/A", "/B"), Some(1));
    assert!(stat(&mut s, "/A").is_none());
    assert!(stat(&mut s, "/B/X").unwrap().is_dir);
    assert!(stat(&mut s, "/C/Y").unwrap().is_dir);
}

#[test]
fn links_give_their_target_back() {
    let mut s = service(2000);
    put(&mut s, "/S20T.TXT", &[0x70; 4096]);
    for (target, path) in [("/S20T.TXT", "/S20L1"), ("S20T.TXT", "/S20L2"), ("../S20T.TXT", "/S20L5")] {
        assert_eq!(symlink(&mut s, target, path), Some(1));
        assert_eq!(readlink(&mut s, path).unwrap(), target.as_bytes());
    }
    let st = lstat(&mut s, "/S20L1").unwrap();
    assert_eq!((st.mode & MODE_FTYPE_MASK, st.is_dir, st.size), (MODE_FTYPE_LINK, false, 9));
    assert_eq!(stat(&mut s, "/S20L1").unwrap().size, 4096);
    assert_eq!(symlink(&mut s, "/S20NOPE.TXT", "/S20L3"), Some(1));
    assert!(stat(&mut s, "/S20L3").is_none());
    assert_eq!(readlink(&mut s, "/S20L3").unwrap(), b"/S20NOPE.TXT");
    assert_eq!(lstat(&mut s, "/S20L3").unwrap().size, 12);
    assert!(readlink(&mut s, "/S20T.TXT").is_none());
    assert!(readlink(&mut s, "/").is_none());
    assert_eq!(lstat(&mut s, "/S20T.TXT").unwrap().size, 4096);
    let root = lstat(&mut s, "/").unwrap();
    assert_eq!((root.is_dir, root.size, root.mode & MODE_FTYPE_MASK), (true, 0, MODE_FTYPE_DIR));
}

#[test]
fn formatting_a_second_volume() {
    let disks = vec![Disk::blank(16000), Disk::blank(8000), Disk::blank(8000), Disk::blank(16000)];
    let store = Store::new(disks).unwrap();
    let vols = vec![
        desc(0, 16000, VOL_KIND_MFS),
        desc(1, 8000, VOL_KIND_FAT),
        desc(2, 8000, VOL_KIND_EXT2),
        desc(3, 16000, VOL_KIND_UNKNOWN),
    ];
    let mut s = MfsSrv::start(store, vols, NOW).unwrap();
    for vol in [1u64, 2, 4242] {
        assert!(value(call(&mut s, Request::MakeFs { vol })).is_none());
    }
    put(&mut s, "/FS22KEEP.TXT", b"KEEP");
    let s1 = value(call(&mut s, Request::MakeFs { vol: 3 })).unwrap();
    assert!(s1 > 0);
    // Requests for volume 3 carry its encoding.
    let spare = 4u64;
    let fd = value(s.serve(spare, &Request::Creat { path: b("/NEW.TXT") }, APP, NOW)).unwrap() as u32;
    let w = Request::Write { fd, offset: 0, data: b("SPARE") };
    assert_eq!(value(s.serve(spare, &w, APP, NOW)), Some(5));
    assert_eq!(get(&mut s, "/FS22KEEP.TXT", 16).unwrap(), b"KEEP");
    match s.serve(spare, &Request::Read { fd, offset: 0, count: 5 }, APP, NOW) {
        Reply::Data(d) => assert_eq!(d, b"SPARE"),
        _ => panic!("no data"),
    }
    let s2 = value(call(&mut s, Request::MakeFs { vol: 3 })).unwrap();
    assert!(s2 > s1);
    let put3 = value(s.serve(spare, &Request::Mkdir { path: b("/X") }, APP, NOW));
    assert_eq!(put3, Some(1));
    let s3 = value(call(&mut s, Request::MakeFs { vol: 3 })).unwrap();
    assert!(s3 > s2);
    assert_eq!(get(&mut s, "/FS22KEEP.TXT", 16).unwrap(), b"KEEP");
    // The volume formatted last is claimed at the next start.
    assert_eq!(mfs_primary_of_vol(&s.fs.store, 3), s3);
    assert_eq!(mfs_next_primary_serial(&s.fs.store, &s.list, 3), s3 + 1);
    let mut after = vec![desc(0, 16000, VOL_KIND_MFS), desc(3, 16000, VOL_KIND_MFS)];
    assert_eq!(mfs_vol_claim(&s.fs.store, &after), 3);
    after.truncate(1);
    assert_eq!(mfs_vol_claim(&s.fs.store, &after), 0);
}

#[test]
fn volume_that_cannot_be_loaded_is_not_written() {
    let store = Store::new(vec![Disk::blank(16000), Disk::blank(16000)]).unwrap();
    let vols = vec![desc(0, 16000, VOL_KIND_MFS), desc(1, 16000, VOL_KIND_UNKNOWN)];
    let mut s = MfsSrv::start(store, vols, NOW).unwrap();
    put(&mut s, "/HERE.TXT", b"here");
    s.fs.store.take_log();
    // Volume 1 is blank: every request for it fails, the second one as the first.
    for _ in 0..2 {
        for req in [Request::Snapshot, Request::Mkdir { path: b("/D") }, Request::CollectGarbage] {
            assert!(value(s.serve(2, &req, APP, NOW)).is_none());
            assert_eq!(s.fs.vol, 0);
        }
    }
    assert!(s.fs.store.take_log().is_empty());
    assert!(s.fs.store.disks[1].data.iter().all(|b| *b == 0));
    assert_eq!(get(&mut s, "/HERE.TXT", 8).unwrap(), b"here");
    put(&mut s, "/MORE.TXT", b"more");
    assert!(s.fs.store.take_log().iter().all(|w| w.dev == 0));
    // A volume that a new file system cannot be made on leaves the current one as it was.
    let n = s.fs.store.disks[1].ok.len();
    s.fs.store.disks[1].ok = vec![false; n];
    assert!(value(call(&mut s, Request::MakeFs { vol: 1 })).is_none());
    assert_eq!(get(&mut s, "/MORE.TXT", 8).unwrap(), b"more");
}

#[test]
fn requests_leave_other_volumes_alone() {
    let store = Store::new(vec![Disk::blank(16000), Disk::blank(16000)]).unwrap();
    let vols = vec![desc(0, 16000, VOL_KIND_MFS), desc(1, 16000, VOL_KIND_UNKNOWN)];
    let mut s = MfsSrv::start(store, vols, NOW).unwrap();
    assert!(value(call(&mut s, Request::MakeFs { vol: 1 })).is_some());
    put(&mut s, "/HERE.TXT", b"here");
    // Requests for volume 1 carry its encoding.
    let there = 2u64;
    let before = s.fs.store.disks[0].data.clone();
    s.fs.store.take_log();
    let fd = value(s.serve(there, &Request::Creat { path: b("/T.TXT") }, APP, NOW)).unwrap() as u32;
    let w = Request::Write { fd, offset: 0, data: b("there") };
    assert_eq!(value(s.serve(there, &w, APP, NOW)), Some(5));
    let log = s.fs.store.take_log();
    assert!(!log.is_empty() && log.iter().all(|w| w.dev == 1));
    assert!(s.fs.store.disks[0].data == before);
    for req in [
        Request::Read { fd, offset: 0, count: 5 },
        Request::Stat { path: b("/T.TXT") },
        Request::Usage,
        Request::Close { fd },
    ] {
        s.serve(there, &req, APP, NOW);
    }
    assert!(s.fs.store.take_log().is_empty());
}

#[test]
fn descriptors_run_out_and_come_back() {
    let mut s = service(2000);
    put(&mut s, "/A", b"x");
    let mut fds = vec![];
    for _ in 0..16 {
        fds.push(open(&mut s, "/A").unwrap());
    }
    assert_eq!(open(&mut s, "/A"), None);
    assert_eq!(close(&mut s, fds[3]), Some(1));
    assert_eq!(close(&mut s, fds[3]), Some(0));
    assert_eq!(open(&mut s, "/A"), Some(fds[3]));
    assert_eq!(read(&mut s, 99, 0, 1), None);
    assert!(value(call(&mut s, Request::Unknown)).is_none());
}

#[test]
fn new_file_system_is_empty_and_mounts() {
    let mut s = service(2000);
    assert!(list(&mut s, "/").is_empty());
    assert_eq!(s.fs.snaps.len(), 0);
    let free = usage(&mut s).1;
    // Another service, which has nothing of it in memory, finds the same.
    let mut t = restart(s.fs.store, 2000);
    assert!(list(&mut t, "/").is_empty());
    assert_eq!(usage(&mut t), (2000, free));
    put(&mut t, "/A", b"x");
    assert_eq!(get(&mut t, "/A", 4).unwrap(), b"x");
    // Made anew it is empty again.
    let mut m = t.fs;
    assert!(m.mfs_format());
    let mut u = restart(m.store, 2000);
    assert!(list(&mut u, "/").is_empty());
}

#[test]
fn directory_does_not_get_below_itself_through_links() {
    let mut s = service(1024);
    assert_eq!(mkdir(&mut s, "/d"), Some(1));
    assert_eq!(mkdir(&mut s, "/d/e"), Some(1));
    assert_eq!(mkdir(&mut s, "/f"), Some(1));
    put(&mut s, "/d/e/x", b"deep");
    assert_eq!(symlink(&mut s, "/d", "/l"), Some(1));
    assert_eq!(symlink(&mut s, "/d/e", "/k"), Some(1));
    assert_eq!(symlink(&mut s, "l", "/m"), Some(1));
    for to in ["/d/y", "/d/e/y", "/l/y", "/l/e/y", "/k/y", "/m/e/y", "/d/e/../y"] {
        assert_eq!(rename(&mut s, "/d", to), None);
        assert_eq!(get(&mut s, "/d/e/x", 10).unwrap(), b"deep");
        assert_eq!(get(&mut s, "/k/x", 10).unwrap(), b"deep");
    }
    assert_eq!(rename(&mut s, "/l/e", "/k/y"), None);
    // Another directory may go there, and so may the files in it.
    assert_eq!(rename(&mut s, "/f", "/l/f"), Some(1));
    assert!(stat(&mut s, "/d/f").is_some());
    assert_eq!(rename(&mut s, "/d/e/x", "/m/x"), Some(1));
    assert_eq!(get(&mut s, "/d/x", 10).unwrap(), b"deep");
    // The directory itself may go beside it.
    assert_eq!(rename(&mut s, "/d/e", "/e"), Some(1));
    assert_eq!(rename(&mut s, "/d", "/e/d"), Some(1));
    assert_eq!(get(&mut s, "/e/d/x", 10).unwrap(), b"deep");
}

#[test]
fn file_set_longer_than_can_be_mapped_reads_as_zeros() {
    let mut s = service(1024);
    put(&mut s, "/big", b"head");
    let fd = open(&mut s, "/big").unwrap();
    let most = 1_068_509_159u64 * DATA_CAP;
    for size in [most + 10, most + 5_000_000_000, u64::MAX - 9] {
        assert!(value(call(&mut s, Request::Truncate { fd, size })).is_some());
        assert_eq!(stat(&mut s, "/big").unwrap().size, size);
        assert_eq!(read(&mut s, fd, 0, 6).unwrap(), b"head\0\0");
        assert_eq!(read(&mut s, fd, size - 7, 20).unwrap(), vec![0u8; 7]);
    }
    assert!(value(call(&mut s, Request::Truncate { fd, size: 2 })).is_some());
    assert!(value(call(&mut s, Request::Truncate { fd, size: most + 3 })).is_some());
    assert_eq!(read(&mut s, fd, 0, 6).unwrap(), b"he\0\0\0\0");
    assert_eq!(write(&mut s, fd, most - 1, b"z"), Some(1));
    assert_eq!(read(&mut s, fd, most - 1, 9).unwrap(), b"z\0\0\0");
    assert_eq!(write(&mut s, fd, most, b"z"), None);
}

#[test]
fn link_at_the_end_costs_one_link() {
    let mut s = service(1024);
    put(&mut s, "/f", b"here");
    assert_eq!(symlink(&mut s, "f", "/l1"), Some(1));
    for i in 2..=17 {
        assert_eq!(symlink(&mut s, &format!("l{}", i - 1), &format!("/l{}", i)), Some(1));
    }
    // What the target reaches, the link reaches, as long as a link is left to follow.
    assert_eq!(get(&mut s, "/l15", 10).unwrap(), b"here");
    assert_eq!(get(&mut s, "/l16", 10).unwrap(), b"here");
    assert_eq!(get(&mut s, "/l17", 10), None);
    assert_eq!(readlink(&mut s, "/l17").unwrap(), b"l16");
}
