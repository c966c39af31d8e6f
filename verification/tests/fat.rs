//! The FAT32 service, on small images.
use morion::disk::{Disk, Store};
use morion::fat::{Fat, Fat32Bpb};
use morion::fat_name::{short_name_from_query, utf16_to_utf8};
use morion::fat_srv::{FatSrv, FatStartError, Fs1Fault};
use morion::vfs::{DirEntry, Reply, Request, Stat};

/// An empty volume with clusters of `spc` sectors.
fn image(spc: u8, clusters: u32) -> Disk {
    let fat_size = (clusters + 2 + 127) / 128;
    let total = 32 + 2 * fat_size + clusters * spc as u32;
    let mut disk = Disk::blank(total);
    let d = &mut disk.data;
    d[11..13].copy_from_slice(&512u16.to_le_bytes());
    d[13] = spc;
    d[14..16].copy_from_slice(&32u16.to_le_bytes());
    d[16] = 2;
    d[32..36].copy_from_slice(&total.to_le_bytes());
    d[36..40].copy_from_slice(&fat_size.to_le_bytes());
    d[44..48].copy_from_slice(&2u32.to_le_bytes());
    d[510] = 0x55;
    d[511] = 0xAA;
    for fat in 0..2 {
        for c in 0..3usize {
            fat_put(d, fat, fat_size, c, 0x0FFF_FFFF);
        }
    }
    disk
}

fn fat_put(d: &mut [u8], fat: u32, fat_size: u32, c: usize, v: u32) {
    let o = (32 + fat * fat_size) as usize * 512 + 4 * c;
    d[o..o + 4].copy_from_slice(&v.to_le_bytes());
}

fn start(disk: Disk) -> FatSrv {
    match FatSrv::start(Store::new(vec![disk]).unwrap(), 0) {
        Ok(s) => s,
        Err(_) => panic!("the service did not start"),
    }
}

fn b(s: &str) -> Vec<u8> {
    s.as_bytes().to_vec()
}

fn value(r: Reply) -> Option<u64> {
    match r {
        Reply::Value(v) => Some(v),
        Reply::Fail => None,
        _ => panic!("unexpected reply"),
    }
}

fn creat(s: &mut FatSrv, p: &str) -> Option<u32> {
    value(s.serve(0, &Request::Creat { path: b(p) })).map(|v| v as u32)
}

fn open(s: &mut FatSrv, p: &str) -> Option<u32> {
    value(s.serve(0, &Request::Open { path: b(p) })).map(|v| v as u32)
}

fn close(s: &mut FatSrv, fd: u32) -> Option<u64> {
    value(s.serve(0, &Request::Close { fd }))
}

fn write(s: &mut FatSrv, fd: u32, offset: u64, data: &[u8]) -> Option<u64> {
    value(s.serve(0, &Request::Write { fd, offset, data: data.to_vec() }))
}

fn read(s: &mut FatSrv, fd: u32, offset: u64, count: u32) -> Option<Vec<u8>> {
    match s.serve(0, &Request::Read { fd, offset, count }) {
        Reply::Data(d) => Some(d),
        _ => None,
    }
}

fn mkdir(s: &mut FatSrv, p: &str) -> Option<u64> {
    value(s.serve(0, &Request::Mkdir { path: b(p) }))
}

fn unlink(s: &mut FatSrv, p: &str) -> Option<u64> {
    value(s.serve(0, &Request::Unlink { path: b(p) }))
}

fn rmdir(s: &mut FatSrv, p: &str) -> Option<u64> {
    value(s.serve(0, &Request::Rmdir { path: b(p) }))
}

fn stat(s: &mut FatSrv, p: &str) -> Option<Stat> {
    match s.serve(0, &Request::Stat { path: b(p) }) {
        Reply::StatOf(st) => Some(st),
        _ => None,
    }
}

fn list(s: &mut FatSrv, p: &str) -> Vec<DirEntry> {
    let fd = open(s, p).unwrap();
    let r = s.serve(0, &Request::Readdir { fd });
    close(s, fd);
    match r {
        Reply::Entries(l) => l,
        _ => panic!("not a listing"),
    }
}

fn pat(i: usize) -> u8 {
    (i % 251) as u8
}

#[test]
fn fat_file_in_a_directory() {
    let mut s = start(image(1, 900));
    assert_eq!(mkdir(&mut s, "/D2"), Some(1));
    assert!(stat(&mut s, "/D2").unwrap().is_dir);
    let fd = creat(&mut s, "/D2/F2.TXT").unwrap();
    assert_eq!(write(&mut s, fd, 0, b"hello"), Some(5));
    assert_eq!(close(&mut s, fd), Some(1));
    assert_eq!(stat(&mut s, "/D2/F2.TXT").unwrap().size, 5);
    let fd = open(&mut s, "/d2/f2.txt").unwrap();
    assert_eq!(read(&mut s, fd, 0, 64).unwrap(), b"hello");
    close(&mut s, fd);
    let l = list(&mut s, "/D2");
    assert!(l.iter().any(|e| e.name == b"F2      TXT" && !e.is_dir && e.size == 5));
    assert!(list(&mut s, "/").iter().any(|e| e.name == b"D2         " && e.is_dir));
    assert_eq!(rmdir(&mut s, "/D2"), None);
    assert_eq!(unlink(&mut s, "/D2/F2.TXT"), Some(1));
    assert!(stat(&mut s, "/D2/F2.TXT").is_none());
    assert_eq!(rmdir(&mut s, "/D2"), Some(1));
    assert!(stat(&mut s, "/D2").is_none());
    assert!(list(&mut s, "/").is_empty());
}

fn hundred_thousand_bytes(spc: u8, clusters: u32) {
    let mut s = start(image(spc, clusters));
    let total = 100_000usize;
    let fd = creat(&mut s, "/FS18.BIN").unwrap();
    let mut off = 0;
    while off < total {
        let n = (total - off).min(4096);
        let data: Vec<u8> = (off..off + n).map(pat).collect();
        assert_eq!(write(&mut s, fd, off as u64, &data), Some(n as u64));
        off += n;
    }
    close(&mut s, fd);
    assert_eq!(stat(&mut s, "/FS18.BIN").unwrap().size, total as u64);
    let fd = open(&mut s, "/FS18.BIN").unwrap();
    let mut off = 0;
    while off < total {
        let n = (total - off).min(4096);
        let want: Vec<u8> = (off..off + n).map(pat).collect();
        assert_eq!(read(&mut s, fd, off as u64, n as u32).unwrap(), want);
        off += n;
    }
    close(&mut s, fd);
    assert_eq!(unlink(&mut s, "/FS18.BIN"), Some(1));
    assert!(stat(&mut s, "/FS18.BIN").is_none());
}

#[test]
fn fat_file_of_many_small_clusters() {
    hundred_thousand_bytes(1, 900);
}

#[test]
fn fat_file_of_large_clusters() {
    hundred_thousand_bytes(64, 40);
}

#[test]
fn fat_directory_grows_by_clusters() {
    let mut s = start(image(1, 300));
    for k in 0..40 {
        let fd = creat(&mut s, &format!("/F{:02}.TXT", k)).unwrap();
        assert_eq!(write(&mut s, fd, 0, &[k as u8; 3]), Some(3));
        close(&mut s, fd);
    }
    for k in 0..40 {
        assert_eq!(stat(&mut s, &format!("/f{:02}.txt", k)).unwrap().size, 3);
    }
    assert_eq!(unlink(&mut s, "/F20.TXT"), Some(1));
    assert!(stat(&mut s, "/F20.TXT").is_none());
    assert_eq!(mkdir(&mut s, "/D20"), Some(1));
    assert!(list(&mut s, "/D20").is_empty());
    for k in 0..40 {
        assert_eq!(stat(&mut s, &format!("/F{:02}.TXT", k)).is_some(), k != 20);
    }
}

#[test]
fn fat_requests_stay_on_their_volume() {
    let store = Store::new(vec![image(1, 60), image(1, 60)]).unwrap();
    let mut s = match FatSrv::start(store, 0) {
        Ok(s) => s,
        Err(_) => panic!("the service did not start"),
    };
    let first = s.fat.store.disks[0].data.clone();
    let fd = value(s.serve(2, &Request::Creat { path: b("/B.TXT") })).unwrap() as u32;
    assert_eq!(write(&mut s, fd, 0, b"second"), Some(6));
    assert_eq!(close(&mut s, fd), Some(1));
    assert!(s.fat.store.disks[0].data == first);
    assert!(stat(&mut s, "/B.TXT").is_none());
    let before = s.fat.store.disks[1].data.clone();
    let fd = value(s.serve(2, &Request::Open { path: b("/B.TXT") })).unwrap() as u32;
    assert_eq!(read(&mut s, fd, 0, 10).unwrap(), b"second");
    assert!(s.fat.store.disks[1].data == before);
}

#[test]
fn fat_clusters_are_given_back() {
    let mut s = start(image(1, 60));
    for _ in 0..8 {
        let fd = creat(&mut s, "/A.BIN").unwrap();
        assert_eq!(write(&mut s, fd, 0, &vec![7u8; 20 * 512]), Some(20 * 512));
        close(&mut s, fd);
        assert_eq!(unlink(&mut s, "/A.BIN"), Some(1));
    }
}

/// The image with `Long File Name.txt` in its root directory.
fn long_named() -> Disk {
    let mut disk = image(1, 900);
    let fat_size = 8;
    let data = (32 + 2 * fat_size) * 512usize;
    let sn = b"LONGFI~1TXT";
    let sum = sn.iter().fold(0u8, |s, &c| s.rotate_right(1).wrapping_add(c));
    let name: Vec<u16> = "Long File Name.txt".encode_utf16().collect();
    let at = [1usize, 3, 5, 7, 9, 14, 16, 18, 20, 22, 24, 28, 30];
    for k in 0..2usize {
        // The last piece comes first.
        let piece = 1 - k;
        let e = data + 32 * k;
        disk.data[e] = (piece as u8 + 1) | if k == 0 { 0x40 } else { 0 };
        disk.data[e + 11] = 0x0F;
        disk.data[e + 13] = sum;
        for (j, o) in at.iter().enumerate() {
            let i = piece * 13 + j;
            let u = if i < name.len() { name[i] } else if i == name.len() { 0 } else { 0xFFFF };
            disk.data[e + o..e + o + 2].copy_from_slice(&u.to_le_bytes());
        }
    }
    let text = b"long name read via VFAT LFN!\n";
    let e = data + 64;
    disk.data[e..e + 11].copy_from_slice(sn);
    disk.data[e + 26] = 3;
    disk.data[e + 28] = text.len() as u8;
    disk.data[data + 512..data + 512 + text.len()].copy_from_slice(text);
    for fat in 0..2 {
        fat_put(&mut disk.data, fat, fat_size as u32, 3, 0x0FFF_FFFF);
    }
    disk
}

#[test]
fn fat_long_name_is_found() {
    let mut s = start(long_named());
    for p in ["/Long File Name.txt", "/LONG FILE NAME.TXT", "/LONGFI~1.TXT"] {
        let fd = open(&mut s, p).unwrap();
        assert_eq!(read(&mut s, fd, 0, 64).unwrap(), b"long name read via VFAT LFN!\n");
        close(&mut s, fd);
    }
    assert_eq!(open(&mut s, "/Long File Nam.txt"), None);
    let l = list(&mut s, "/");
    assert_eq!(l.len(), 1);
    assert_eq!(l[0].long, b"Long File Name.txt");
    assert_eq!(l[0].name, b"LONGFI~1TXT");
}

#[test]
fn fat_requests_that_are_refused() {
    let mut s = start(image(1, 900));
    assert_eq!(creat(&mut s, "/NODIR/A"), None);
    assert_eq!(creat(&mut s, "/name too long for it"), None);
    assert_eq!(open(&mut s, "/A"), None);
    let fd = creat(&mut s, "/A").unwrap();
    assert_eq!(rmdir(&mut s, "/A"), None);
    assert_eq!(mkdir(&mut s, "/A"), None);
    let root = open(&mut s, "/").unwrap();
    assert!(read(&mut s, root, 0, 4).is_none());
    assert_eq!(write(&mut s, root, 0, b"x"), None);
    assert!(matches!(s.serve(0, &Request::Readdir { fd }), Reply::Fail));
    assert_eq!(value(s.serve(0, &Request::Truncate { fd, size: 0 })), None);
    assert_eq!(close(&mut s, 99), Some(0));
    // A volume that is not there.
    assert_eq!(value(s.serve(9, &Request::Open { path: b("/") })), None);
}

#[test]
fn fat_images_that_are_refused() {
    let err = |d: Disk| match FatSrv::start(Store::new(vec![d]).unwrap(), 0) {
        Ok(_) => None,
        Err(e) => Some(e),
    };
    assert!(err(Disk::blank(0)) == Some(FatStartError::Unreadable));
    assert!(err(Disk::blank(64)) == Some(FatStartError::NotBoot));
    let mut odd = image(1, 60);
    odd.data[13] = 0;
    assert!(err(odd) == Some(FatStartError::Geometry));
    let mut full = image(1, 60);
    for c in 0..62 {
        fat_put(&mut full.data, 0, 1, c, 0x0FFF_FFFF);
    }
    assert!(err(full) == Some(FatStartError::SelfTest(Fs1Fault::NoFreeCluster)));
    assert!(err(image(1, 60)).is_none());
}

#[test]
fn fat_geometry_and_entries() {
    let disk = image(4, 100);
    let g = Fat32Bpb::parse(&disk.data[..512]);
    assert_eq!(g.cluster_bytes(), 2048);
    assert_eq!(g.fat_start_sector(), 32);
    assert_eq!(g.data_start_sector(), 34);
    assert_eq!(g.cluster_to_sector(5), 34 + 3 * 4);
    assert_eq!(g.total_clusters(), 100);
    let mut f = Fat::new(Store::new(vec![disk]).unwrap(), 0);
    assert!(f.write_fat_entry(&g, 10, 0x0ABC_DEF0));
    assert_eq!(f.read_fat_entry(&g, 10), 0x0ABC_DEF0);
    // Both copies of the table are written.
    assert_eq!(f.store.disks[0].data[32 * 512 + 40..32 * 512 + 44], f.store.disks[0].data[33 * 512 + 40..33 * 512 + 44]);
    assert_eq!(f.find_free_cluster(&g), Some(3));
    assert_eq!(f.read_cluster(&g, 4).unwrap(), vec![0u8; 2048]);
    assert!(f.write_cluster(&g, 4, &vec![9u8; 2048]));
    assert_eq!(f.read_cluster(&g, 4).unwrap(), vec![9u8; 2048]);
}

#[test]
fn fat_short_names() {
    assert_eq!(short_name_from_query(b"hello.txt").unwrap(), b"HELLO   TXT");
    assert_eq!(short_name_from_query(b"A").unwrap(), b"A          ");
    assert!(short_name_from_query(b"toolongname.txt").is_none());
    let units: Vec<u16> = "h\u{e9}\u{4e2d}\u{1F600}".encode_utf16().collect();
    assert_eq!(utf16_to_utf8(&units), "h\u{e9}\u{4e2d}??".as_bytes());
    let units: Vec<u16> = "a\u{1}b\u{1f}\u{7f}c\u{80}\u{9f}\u{a0} d".encode_utf16().collect();
    assert_eq!(utf16_to_utf8(&units), "abc\u{a0} d".as_bytes());
}

#[test]
fn fat_descriptors_run_out() {
    let mut s = start(image(1, 60));
    let mut fds = vec![];
    while let Some(fd) = open(&mut s, "/") {
        fds.push(fd);
    }
    assert_eq!(fds.len(), 16);
    assert_eq!(close(&mut s, fds[5]), Some(1));
    assert_eq!(open(&mut s, "/"), Some(fds[5]));
}

#[test]
fn fat_directory_says_what_was_written() {
    let mut s = start(image(1, 900));
    let other = creat(&mut s, "/OTHER.TXT").unwrap();
    assert_eq!(write(&mut s, other, 0, b"other"), Some(5));
    let fd = creat(&mut s, "/F.TXT").unwrap();
    assert_eq!(stat(&mut s, "/F.TXT").unwrap().size, 0);
    // While the file is still open, its name leads to what was written.
    for (off, n) in [(0u64, 10usize), (600, 100), (4, 3)] {
        assert_eq!(write(&mut s, fd, off, &vec![7u8; n]), Some(n as u64));
    }
    assert_eq!(stat(&mut s, "/F.TXT").unwrap().size, 700);
    let again = open(&mut s, "/f.txt").unwrap();
    let mut want = vec![7u8; 10];
    want.resize(600, 0);
    want.resize(700, 7);
    assert_eq!(read(&mut s, again, 0, 1000).unwrap(), want);
    let l = list(&mut s, "/");
    assert!(l.iter().any(|e| e.name == b"F       TXT" && e.size == 700));
    assert!(l.iter().any(|e| e.name == b"OTHER   TXT" && e.size == 5));
}

#[test]
fn fat_sectors_that_fail_concern_their_files_only() {
    let mut disk = image(1, 900);
    let total = disk.ok.len();
    for i in total - 100..total {
        disk.ok[i] = false;
    }
    let mut s = start(disk);
    let a = creat(&mut s, "/A.BIN").unwrap();
    let data: Vec<u8> = (0..1536).map(pat).collect();
    assert_eq!(write(&mut s, a, 0, &data), Some(1536));
    assert_eq!(read(&mut s, a, 0, 2000).unwrap(), data);
    // The second of the file's three clusters.
    let disk = &mut s.fat.store.disks[0];
    let second = (0..total).find(|&i| disk.data[i * 512..][..512] == data[512..1024]).unwrap();
    disk.ok[second] = false;
    assert_eq!(read(&mut s, a, 0, 2000), None);
    assert_eq!(read(&mut s, a, 0, 512).unwrap(), data[..512]);
    assert_eq!(write(&mut s, a, 1024, &[9u8; 512]), Some(512));
    assert_eq!(read(&mut s, a, 1024, 2000).unwrap(), vec![9u8; 512]);
    let b = creat(&mut s, "/B.BIN").unwrap();
    assert_eq!(write(&mut s, b, 0, b"other"), Some(5));
    assert_eq!(read(&mut s, b, 0, 10).unwrap(), b"other");
}
