//! The ext2 service, on a small image.
use morion::disk::{Disk, Store};
use morion::ext2::{ext2_copy_long, ext2_short_name, Ext2Srv};
use morion::vfs::{DirEntry, Reply, Request, Stat};

const BLOCK: usize = 1024;

fn put32(d: &mut [u8], at: usize, v: u32) {
    d[at..at + 4].copy_from_slice(&v.to_le_bytes());
}

fn put16(d: &mut [u8], at: usize, v: u16) {
    d[at..at + 2].copy_from_slice(&v.to_le_bytes());
}

fn inode(d: &mut [u8], ino: usize, mode: u16, size: u32, blocks: &[u32]) {
    let o = 5 * BLOCK + (ino - 1) * 128;
    put16(d, o, mode);
    put32(d, o + 4, size);
    for (i, b) in blocks.iter().enumerate() {
        put32(d, o + 40 + 4 * i, *b);
    }
}

fn dir_block(d: &mut [u8], block: usize, entries: &[(u32, u8, &str)]) {
    let mut at = block * BLOCK;
    let end = at + BLOCK;
    for (i, (ino, ftype, name)) in entries.iter().enumerate() {
        let rec = if i + 1 == entries.len() { end - at } else { (8 + name.len() + 3) / 4 * 4 };
        put32(d, at, *ino);
        put16(d, at + 4, rec as u16);
        d[at + 6] = name.len() as u8;
        d[at + 7] = *ftype;
        d[at + 8..at + 8 + name.len()].copy_from_slice(name.as_bytes());
        at += rec;
    }
}

fn pat(i: usize) -> u8 {
    (i % 251) as u8
}

/// A file of thirteen blocks with a hole at block 3, two directories and a short file.
fn image() -> Disk {
    let mut disk = Disk::blank(256);
    let d = &mut disk.data;
    put32(d, 1024 + 4, 128);
    put32(d, 1024 + 0x14, 1);
    put32(d, 1024 + 0x20, 8192);
    put32(d, 1024 + 0x28, 32);
    put16(d, 1024 + 0x38, 0xEF53);
    put32(d, 2 * BLOCK + 8, 5);
    inode(d, 2, 0x41ED, 1024, &[10]);
    dir_block(
        d,
        10,
        &[(2, 2, "."), (2, 2, ".."), (12, 1, "hello.txt"), (13, 2, "sub"), (15, 1, "empty")],
    );
    let text = b"Hello from ext2!\n";
    inode(d, 12, 0x81A4, text.len() as u32, &[11]);
    d[11 * BLOCK..11 * BLOCK + text.len()].copy_from_slice(text);
    inode(d, 13, 0x41ED, 1024, &[12]);
    dir_block(d, 12, &[(13, 2, "."), (2, 2, ".."), (14, 1, "Big.bin")]);
    inode(d, 14, 0x81A4, 13 * 1024, &[20, 21, 22, 0, 24, 25, 26, 27, 28, 29, 30, 31, 32]);
    put32(d, 32 * BLOCK, 33);
    for i in 0..13 * BLOCK {
        let n = i / BLOCK;
        if n != 3 {
            let b = if n == 12 { 33 } else { 20 + n };
            d[b * BLOCK + i % BLOCK] = pat(i);
        }
    }
    inode(d, 15, 0x81A4, 0, &[]);
    disk
}

fn service() -> Ext2Srv {
    Ext2Srv::start(Store::new(vec![image()]).unwrap(), 0).unwrap()
}

fn b(s: &str) -> Vec<u8> {
    s.as_bytes().to_vec()
}

fn value(r: Reply) -> Option<u64> {
    match r {
        Reply::Value(v) => Some(v),
        Reply::Fail => None,
        _ => panic!("unexpected reply"),
    }
}

fn open(s: &mut Ext2Srv, p: &str) -> Option<u32> {
    value(s.serve(0, &Request::Open { path: b(p) })).map(|v| v as u32)
}

fn read(s: &mut Ext2Srv, fd: u32, offset: u64, count: u32) -> Option<Vec<u8>> {
    match s.serve(0, &Request::Read { fd, offset, count }) {
        Reply::Data(d) => Some(d),
        _ => None,
    }
}

fn stat(s: &mut Ext2Srv, p: &str) -> Option<Stat> {
    match s.serve(0, &Request::Stat { path: b(p) }) {
        Reply::StatOf(st) => Some(st),
        _ => None,
    }
}

fn list(s: &mut Ext2Srv, p: &str) -> Vec<DirEntry> {
    let fd = open(s, p).unwrap();
    match s.serve(0, &Request::Readdir { fd }) {
        Reply::Entries(l) => l,
        _ => panic!("not a listing"),
    }
}

#[test]
fn ext2_file_is_read() {
    let mut s = service();
    let fd = open(&mut s, "/hello.txt").unwrap();
    assert_eq!(read(&mut s, fd, 0, 64).unwrap(), b"Hello from ext2!\n");
    assert_eq!(read(&mut s, fd, 6, 4).unwrap(), b"from");
    assert_eq!(read(&mut s, fd, 17, 4).unwrap(), b"");
    assert_eq!(stat(&mut s, "/hello.txt").unwrap().size, 17);
    assert_eq!(value(s.serve(0, &Request::Close { fd })), Some(1));
    assert!(read(&mut s, fd, 0, 1).is_none());
    // Where no name is the same, the case of letters does not matter.
    assert!(open(&mut s, "/HELLO.TXT").is_some());
    assert_eq!(open(&mut s, "/nope.txt"), None);
    let e = open(&mut s, "/empty").unwrap();
    assert_eq!(read(&mut s, e, 0, 10).unwrap(), b"");
}

#[test]
fn ext2_blocks_through_the_indirect_block() {
    let mut s = service();
    let fd = open(&mut s, "/sub/Big.bin").unwrap();
    let mut off = 0;
    while off < 13 * BLOCK {
        let n = (13 * BLOCK - off).min(1000);
        let got = read(&mut s, fd, off as u64, n as u32).unwrap();
        assert_eq!(got.len(), n);
        for (k, x) in got.iter().enumerate() {
            let i = off + k;
            assert_eq!(*x, if i / BLOCK == 3 { 0 } else { pat(i) });
        }
        off += n;
    }
}

#[test]
fn ext2_directories_are_listed() {
    let mut s = service();
    let l = list(&mut s, "/");
    let seen: Vec<_> = l.iter().map(|e| (e.long.clone(), e.is_dir, e.size)).collect();
    assert_eq!(
        seen,
        vec![(b("hello.txt"), false, 17), (b("sub"), true, 0), (b("empty"), false, 0)]
    );
    assert_eq!(l[0].name, b"HELLO   TXT");
    assert!(stat(&mut s, "/sub").unwrap().is_dir);
    assert!(open(&mut s, "/sub/..").is_some());
    assert_eq!(list(&mut s, "/sub").len(), 1);
}

#[test]
fn ext2_is_read_only() {
    let mut s = service();
    let fd = open(&mut s, "/hello.txt").unwrap();
    for r in [
        Request::Creat { path: b("/new") },
        Request::Mkdir { path: b("/new") },
        Request::Unlink { path: b("/hello.txt") },
        Request::Rmdir { path: b("/sub") },
        Request::Write { fd, offset: 0, data: b("x") },
        Request::Truncate { fd, size: 0 },
    ] {
        assert_eq!(value(s.serve(0, &r)), None);
    }
    assert_eq!(read(&mut s, fd, 0, 5).unwrap(), b"Hello");
    assert!(s.e.store.log.is_empty());
}

#[test]
fn ext2_images_that_are_refused() {
    assert!(Ext2Srv::start(Store::new(vec![Disk::blank(256)]).unwrap(), 0).is_none());
    assert!(Ext2Srv::start(Store::new(vec![image()]).unwrap(), 7).is_none());
    let mut rootless = image();
    let o = 5 * BLOCK + 128;
    put16(&mut rootless.data, o, 0x81A4);
    assert!(Ext2Srv::start(Store::new(vec![rootless]).unwrap(), 0).is_none());
}

#[test]
fn ext2_names_of_a_record() {
    assert_eq!(ext2_short_name(&b("a.tar.gz")), b"A.TAR   GZ ");
    assert_eq!(ext2_short_name(&b("longfilename")), b"LONGFILE   ");
    assert_eq!(ext2_copy_long(&b("abc")), b"abc");
    // A character is not cut in half.
    let name = "a".repeat(63) + "\u{e9}z";
    assert_eq!(ext2_copy_long(&b(&name)), "a".repeat(63).as_bytes());
}
