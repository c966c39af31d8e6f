//! The exFAT service, on a small image.
use morion::disk::{Disk, Store};
use morion::exfat::exfat_is_eoc;
use morion::exfat_dir::{
    exfat_encode_name, exfat_parse_file_set, exfat_set_checksum, exfat_utf16_to_utf8, step16,
    step32,
};
use morion::exfat_srv::{exfat_verify_boot_checksum, ExfatSrv};
use morion::vfs::{DirEntry, Reply, Request, Stat, RESULT_MAX_ENTRIES};

const NOW: u64 = 1_700_000_000;
const CLUSTERS: u32 = 200;
const HEAP: u32 = 32;
const CB: usize = 4096;

fn put32(d: &mut [u8], at: usize, v: u32) {
    d[at..at + 4].copy_from_slice(&v.to_le_bytes());
}

fn at_cluster(c: u32) -> usize {
    (HEAP + (c - 2) * 8) as usize * 512
}

/// The checksum of the boot region stored where it belongs.
fn seal(d: &mut [u8]) {
    let mut sum = 0u32;
    for i in 0..11 * 512 {
        if i != 106 && i != 107 && i != 112 {
            sum = sum.rotate_right(1).wrapping_add(d[i] as u32);
        }
    }
    put32(d, 11 * 512, sum);
}

/// An empty volume with clusters of 4 KiB: the bitmap in cluster 2, the upcase table in 3,
/// the root directory in 4.
fn image() -> Disk {
    let mut disk = Disk::blank(HEAP + CLUSTERS * 8);
    let d = &mut disk.data;
    d[3..11].copy_from_slice(b"EXFAT   ");
    put32(d, 80, 24);
    put32(d, 84, 2);
    put32(d, 88, HEAP);
    put32(d, 92, CLUSTERS);
    put32(d, 96, 4);
    d[108] = 9;
    d[109] = 3;
    d[110] = 1;
    d[510] = 0x55;
    d[511] = 0xAA;
    seal(d);
    for c in 2..5 {
        put32(d, 24 * 512 + 4 * c, 0xFFFF_FFFF);
    }
    d[at_cluster(2)] = 0x07;
    for u in 0..128u8 {
        d[at_cluster(3) + 2 * u as usize] = u.to_ascii_uppercase();
    }
    let root = at_cluster(4);
    d[root] = 0x81;
    put32(d, root + 20, 2);
    put32(d, root + 24, CLUSTERS / 8);
    d[root + 32] = 0x82;
    put32(d, root + 32 + 20, 3);
    put32(d, root + 32 + 24, 256);
    disk
}

fn service() -> ExfatSrv {
    match ExfatSrv::start(Store::new(vec![image()]).unwrap(), 0, NOW) {
        Ok(s) => s,
        Err(stage) => panic!("refused at stage {}", stage),
    }
}

fn b(s: &str) -> Vec<u8> {
    s.as_bytes().to_vec()
}

fn call(s: &mut ExfatSrv, req: Request) -> Reply {
    s.serve(0, &req, NOW)
}

fn value(r: Reply) -> Option<u64> {
    match r {
        Reply::Value(v) => Some(v),
        Reply::Fail => None,
        _ => panic!("unexpected reply"),
    }
}

fn creat(s: &mut ExfatSrv, p: &str) -> Option<u32> {
    value(call(s, Request::Creat { path: b(p) })).map(|v| v as u32)
}

fn open(s: &mut ExfatSrv, p: &str) -> Option<u32> {
    value(call(s, Request::Open { path: b(p) })).map(|v| v as u32)
}

fn close(s: &mut ExfatSrv, fd: u32) -> Option<u64> {
    value(call(s, Request::Close { fd }))
}

fn write(s: &mut ExfatSrv, fd: u32, offset: u64, data: &[u8]) -> Option<u64> {
    value(call(s, Request::Write { fd, offset, data: data.to_vec() }))
}

fn read(s: &mut ExfatSrv, fd: u32, offset: u64, count: u32) -> Option<Vec<u8>> {
    match call(s, Request::Read { fd, offset, count }) {
        Reply::Data(d) => Some(d),
        _ => None,
    }
}

fn stat(s: &mut ExfatSrv, p: &str) -> Option<Stat> {
    match call(s, Request::Stat { path: b(p) }) {
        Reply::StatOf(st) => Some(st),
        _ => None,
    }
}

fn unlink(s: &mut ExfatSrv, p: &str) -> Option<u64> {
    value(call(s, Request::Unlink { path: b(p) }))
}

fn rmdir(s: &mut ExfatSrv, p: &str) -> Option<u64> {
    value(call(s, Request::Rmdir { path: b(p) }))
}

fn list(s: &mut ExfatSrv, p: &str) -> Vec<DirEntry> {
    let fd = open(s, p).unwrap();
    let r = call(s, Request::Readdir { fd });
    close(s, fd);
    match r {
        Reply::Entries(l) => l,
        _ => panic!("not a listing"),
    }
}

fn pat(i: usize) -> u8 {
    (i % 251) as u8
}

#[test]
fn exfat_empty_volume() {
    let mut s = service();
    assert!(list(&mut s, "/").is_empty());
    assert_eq!(open(&mut s, "/NOPE.TXT"), None);
    assert!(stat(&mut s, "/").unwrap().is_dir);
}

#[test]
fn exfat_file_of_a_hundred_thousand_bytes() {
    let mut s = service();
    let total = 100_000usize;
    let fd = creat(&mut s, "/FS16.TXT").unwrap();
    let mut off = 0;
    while off < total {
        let n = (total - off).min(4096);
        let data: Vec<u8> = (off..off + n).map(pat).collect();
        assert_eq!(write(&mut s, fd, off as u64, &data), Some(n as u64));
        off += n;
    }
    close(&mut s, fd);
    assert_eq!(stat(&mut s, "/FS16.TXT").unwrap().size, total as u64);
    let fd = open(&mut s, "/fs16.txt").unwrap();
    let mut off = 0;
    while off < total {
        let n = (total - off).min(4096);
        let want: Vec<u8> = (off..off + n).map(pat).collect();
        assert_eq!(read(&mut s, fd, off as u64, n as u32).unwrap(), want);
        off += n;
    }
    assert!(value(call(&mut s, Request::Truncate { fd, size: 1000 })).is_some());
    let want: Vec<u8> = (900..1000).map(pat).collect();
    assert_eq!(read(&mut s, fd, 900, 200).unwrap(), want);
    assert!(value(call(&mut s, Request::Truncate { fd, size: 100_000 })).is_some());
    assert_eq!(read(&mut s, fd, 1000, 200).unwrap(), vec![0u8; 200]);
    assert_eq!(read(&mut s, fd, 99_999, 200).unwrap(), vec![0u8; 1]);
    close(&mut s, fd);
    assert_eq!(unlink(&mut s, "/FS16.TXT"), Some(1));
    assert!(list(&mut s, "/").is_empty());
}

#[test]
fn exfat_set_with_one_bit_flipped_is_refused() {
    let mut s = service();
    let fd = creat(&mut s, "/a name of two entries.txt").unwrap();
    assert_eq!(write(&mut s, fd, 0, b"x"), Some(1));
    close(&mut s, fd);
    let root = at_cluster(4);
    let mut c = s.fs.store.disks[0].data[root..root + CB].to_vec();
    let i = (0..CB / 32).find(|i| c[i * 32] == 0x85).unwrap();
    let sec = c[i * 32 + 1] as usize;
    assert_eq!(sec, 3);
    let e = exfat_parse_file_set(&c, i, CB / 32, sec).unwrap();
    assert_eq!(e.name, b"a name of two entries.txt");
    for k in i * 32..(i + 1 + sec) * 32 {
        for bit in 0..8 {
            c[k] ^= 1 << bit;
            assert!(exfat_parse_file_set(&c, i, CB / 32, sec).is_none());
            c[k] ^= 1 << bit;
        }
    }
    assert!(exfat_parse_file_set(&c, i, CB / 32, sec).is_some());
    assert!(exfat_parse_file_set(&c, i, CB / 32, 1).is_none());
    assert!(exfat_parse_file_set(&c, i, CB / 32, usize::MAX).is_none());
}

#[test]
fn exfat_write_behind_a_gap_shows_zeros() {
    let mut s = service();
    let fd = creat(&mut s, "/GAP.BIN").unwrap();
    assert_eq!(write(&mut s, fd, 0, &[0x5A; 12000]), Some(12000));
    for size in [1000u64, 12000] {
        assert!(value(call(&mut s, Request::Truncate { fd, size })).is_some());
    }
    assert_eq!(write(&mut s, fd, 11000, b"tail"), Some(4));
    let mut all = Vec::new();
    for k in 0..3 {
        all.extend(read(&mut s, fd, k * 4096, 4096).unwrap());
    }
    assert_eq!(all.len(), 12000);
    assert_eq!(all[..1000], [0x5A; 1000]);
    assert_eq!(all[1000..11000], [0; 10000]);
    assert_eq!(&all[11000..11004], b"tail");
    assert!(all[11004..].iter().all(|b| *b == 0));
}

#[test]
fn exfat_directories() {
    let mut s = service();
    assert!(value(call(&mut s, Request::Mkdir { path: b("/D16") })).is_some());
    assert!(list(&mut s, "/D16").is_empty());
    let fd = creat(&mut s, "/D16/A.TXT").unwrap();
    assert_eq!(write(&mut s, fd, 0, b"hi"), Some(2));
    close(&mut s, fd);
    let fd = open(&mut s, "/D16/A.TXT").unwrap();
    assert_eq!(read(&mut s, fd, 0, 16).unwrap(), b"hi");
    close(&mut s, fd);
    assert_eq!(rmdir(&mut s, "/D16"), None);
    assert_eq!(unlink(&mut s, "/D16"), None);
    // More entries than one cluster of the directory holds.
    for k in 0..45 {
        let fd = creat(&mut s, &format!("/X{:02}.TXT", k)).unwrap();
        close(&mut s, fd);
    }
    assert_eq!(list(&mut s, "/").len(), RESULT_MAX_ENTRIES);
    for k in 0..45 {
        assert!(open(&mut s, &format!("/x{:02}.txt", k)).map(|fd| close(&mut s, fd)).is_some());
    }
    assert_eq!(unlink(&mut s, "/D16/A.TXT"), Some(1));
    assert_eq!(rmdir(&mut s, "/D16"), Some(1));
    for k in 0..45 {
        assert_eq!(unlink(&mut s, &format!("/X{:02}.TXT", k)), Some(1));
    }
    assert!(list(&mut s, "/").is_empty());
}

#[test]
fn exfat_names_and_times() {
    let mut s = service();
    let name = "A rather long name with \u{e9}\u{4e2d}.text";
    let fd = creat(&mut s, &format!("/{}", name)).unwrap();
    close(&mut s, fd);
    let l = list(&mut s, "/");
    assert_eq!(l.len(), 1);
    assert_eq!(l[0].long, name.as_bytes());
    let st = stat(&mut s, &format!("/{}", name)).unwrap();
    assert_eq!((st.size, st.is_dir, st.mtime), (0, false, NOW));
    assert_eq!(creat(&mut s, &format!("/{}", name.to_uppercase())).map(|_| ()), Some(()));
}

#[test]
fn exfat_state_is_on_the_disk() {
    let mut s = service();
    let fd = creat(&mut s, "/A.TXT").unwrap();
    assert_eq!(write(&mut s, fd, 0, &[5u8; 9000]), Some(9000));
    let ExfatSrv { fs, .. } = s;
    match ExfatSrv::start(fs.store, 0, NOW) {
        Ok(mut t) => {
            let fd = open(&mut t, "/A.TXT").unwrap();
            assert_eq!(read(&mut t, fd, 0, 9100).unwrap(), vec![5u8; 9000]);
        }
        Err(stage) => panic!("refused at stage {}", stage),
    }
}

#[test]
fn exfat_requests_stay_on_their_volume() {
    let mut s = match ExfatSrv::start(Store::new(vec![image(), image()]).unwrap(), 0, NOW) {
        Ok(s) => s,
        Err(stage) => panic!("refused at stage {}", stage),
    };
    let first = s.fs.store.disks[0].data.clone();
    assert!(value(s.serve(2, &Request::Creat { path: b("/B.TXT") }, NOW)).is_some());
    assert!(s.fs.store.disks[0].data == first);
    let second = s.fs.store.disks[1].data.clone();
    assert!(stat(&mut s, "/B.TXT").is_none());
    assert!(matches!(s.serve(2, &Request::Stat { path: b("/B.TXT") }, NOW), Reply::StatOf(_)));
    assert!(s.fs.store.disks[1].data == second);
}

#[test]
fn exfat_space_runs_out() {
    let mut s = service();
    let fd = creat(&mut s, "/A.BIN").unwrap();
    let mut off = 0u64;
    while write(&mut s, fd, off, &[1u8; CB]).is_some() {
        off += CB as u64;
    }
    assert_eq!(off, (CLUSTERS as u64 - 3) * CB as u64);
    close(&mut s, fd);
    assert_eq!(unlink(&mut s, "/A.BIN"), Some(1));
    let fd = creat(&mut s, "/B.BIN").unwrap();
    assert_eq!(write(&mut s, fd, 0, &[2u8; CB]), Some(CB as u64));
}

#[test]
fn exfat_images_that_are_refused() {
    let stage = |change: &dyn Fn(&mut Vec<u8>)| {
        let mut d = image();
        change(&mut d.data);
        match ExfatSrv::start(Store::new(vec![d]).unwrap(), 0, NOW) {
            Ok(_) => 0,
            Err(e) => e,
        }
    };
    assert_eq!(stage(&|_| {}), 0);
    assert_eq!(stage(&|d| d[3] = 0), 2);
    assert_eq!(stage(&|d| d[510] = 0), 3);
    assert_eq!(stage(&|d| d[108] = 12), 4);
    assert_eq!(stage(&|d| d[109] = 10), 5);
    assert_eq!(stage(&|d| d[110] = 3), 6);
    assert_eq!(stage(&|d| d[96] = 1), 7);
    assert_eq!(stage(&|d| d[120] = 1), 8);
    assert_eq!(stage(&|d| d[at_cluster(4)] = 0x00), 9);
    assert_eq!(stage(&|d| d[at_cluster(2)] = 0x03), 12);
    // The volume flags do not count for the checksum.
    assert_eq!(stage(&|d| d[106] = 1), 0);
    let missing = ExfatSrv::start(Store::new(vec![image()]).unwrap(), 3, NOW);
    assert!(matches!(missing, Err(1)));
    assert!(exfat_verify_boot_checksum(&Store::new(vec![image()]).unwrap(), 0));
}

#[test]
fn exfat_checksums_and_names() {
    assert_eq!(step16(1, 0), 0x8000);
    assert_eq!(step16(2, 3), 4);
    assert_eq!(step32(1, 1), 0x8000_0001);
    let mut set = [0u8; 64];
    set[0] = 0x85;
    // Bytes 2 and 3 hold the checksum and do not count.
    let sum = exfat_set_checksum(&set);
    set[2] = 0x12;
    set[3] = 0x34;
    assert_eq!(exfat_set_checksum(&set), sum);
    set[4] = 1;
    assert_ne!(exfat_set_checksum(&set), sum);
    assert_eq!(exfat_encode_name(&b("Ab")), Some(vec![0x41, 0x62]));
    assert_eq!(exfat_utf16_to_utf8(0x4E2D), "\u{4e2d}".as_bytes());
    assert!(exfat_is_eoc(0xFFFF_FFFF) && !exfat_is_eoc(5));
}

#[test]
fn exfat_descriptors_run_out() {
    let mut s = service();
    let mut fds = vec![];
    while let Some(fd) = open(&mut s, "/") {
        fds.push(fd);
    }
    assert_eq!(fds.len(), 16);
    assert_eq!(close(&mut s, fds[0]), Some(1));
    assert_eq!(open(&mut s, "/"), Some(fds[0]));
    assert_eq!(value(call(&mut s, Request::Unknown)), None);
}

#[test]
fn exfat_sectors_that_fail_concern_their_files_only() {
    let mut disk = image();
    let total = disk.ok.len();
    for i in total - 80..total {
        disk.ok[i] = false;
    }
    let mut s = match ExfatSrv::start(Store::new(vec![disk]).unwrap(), 0, NOW) {
        Ok(s) => s,
        Err(stage) => panic!("refused at stage {}", stage),
    };
    let a = creat(&mut s, "/A.BIN").unwrap();
    let data: Vec<u8> = (0..3 * CB).map(pat).collect();
    assert_eq!(write(&mut s, a, 0, &data), Some(3 * CB as u64));
    assert_eq!(read(&mut s, a, 0, 4 * CB as u32).unwrap(), data);
    // The second of the file's three clusters, which follow the root's.
    s.fs.store.disks[0].ok[at_cluster(6) / 512] = false;
    assert_eq!(read(&mut s, a, 0, 4 * CB as u32), None);
    assert_eq!(read(&mut s, a, 0, CB as u32).unwrap(), data[..CB]);
    assert_eq!(write(&mut s, a, 2 * CB as u64, &[9u8; CB]), Some(CB as u64));
    assert_eq!(read(&mut s, a, 2 * CB as u64, 2 * CB as u32).unwrap(), vec![9u8; CB]);
    let other = creat(&mut s, "/B.BIN").unwrap();
    assert_eq!(write(&mut s, other, 0, b"other"), Some(5));
    assert_eq!(read(&mut s, other, 0, 10).unwrap(), b"other");
    // A write that would end above four gibibytes asks for more clusters than there are.
    assert_eq!(write(&mut s, other, 0xFFFF_FFFF, &[1u8; 9]), None);
    assert_eq!(read(&mut s, a, 0, 512).unwrap(), data[..512]);
}
