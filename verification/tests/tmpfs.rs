//! The in-memory file service.
use morion::tmpfs::{
    tmp_name_83, tmp_norm_component, tmp_normalize, tmp_parent, Tmpfs, TMP_MAX_NODES,
};
use morion::vfs::{DirEntry, Reply, Request, Stat};

fn b(s: &str) -> Vec<u8> {
    s.as_bytes().to_vec()
}

fn value(r: Reply) -> Option<u64> {
    match r {
        Reply::Value(v) => Some(v),
        Reply::Fail => None,
        _ => panic!("unexpected reply"),
    }
}

fn creat(t: &mut Tmpfs, p: &str) -> Option<u32> {
    value(t.serve(&Request::Creat { path: b(p) })).map(|v| v as u32)
}

fn open(t: &mut Tmpfs, p: &str) -> Option<u32> {
    value(t.serve(&Request::Open { path: b(p) })).map(|v| v as u32)
}

fn mkdir(t: &mut Tmpfs, p: &str) -> Option<u64> {
    value(t.serve(&Request::Mkdir { path: b(p) }))
}

fn write(t: &mut Tmpfs, fd: u32, offset: u64, data: &[u8]) -> Option<u64> {
    value(t.serve(&Request::Write { fd, offset, data: data.to_vec() }))
}

fn read(t: &mut Tmpfs, fd: u32, offset: u64, count: u32) -> Option<Vec<u8>> {
    match t.serve(&Request::Read { fd, offset, count }) {
        Reply::Data(d) => Some(d),
        _ => None,
    }
}

fn stat(t: &mut Tmpfs, p: &str) -> Option<Stat> {
    match t.serve(&Request::Stat { path: b(p) }) {
        Reply::StatOf(s) => Some(s),
        _ => None,
    }
}

fn list(t: &mut Tmpfs, p: &str) -> Vec<DirEntry> {
    let fd = open(t, p).unwrap();
    let r = t.serve(&Request::Readdir { fd });
    value(t.serve(&Request::Close { fd })).unwrap();
    match r {
        Reply::Entries(l) => l,
        _ => panic!("not a listing"),
    }
}

#[test]
fn file_in_a_directory() {
    let mut t = Tmpfs::new();
    assert_eq!(mkdir(&mut t, "/D1"), Some(1));
    assert_eq!(mkdir(&mut t, "/D1"), None);
    let fd = creat(&mut t, "/D1/F1").unwrap();
    assert_eq!(write(&mut t, fd, 0, b"tmpfs!"), Some(6));
    assert_eq!(read(&mut t, fd, 0, 64).unwrap(), b"tmpfs!");
    assert_eq!(read(&mut t, fd, 3, 2).unwrap(), b"fs");
    assert_eq!(read(&mut t, fd, 6, 2).unwrap(), b"");
    assert_eq!(stat(&mut t, "/D1/F1").unwrap().size, 6);
    assert!(stat(&mut t, "/D1").unwrap().is_dir);
    let l = list(&mut t, "/D1");
    assert_eq!(l.len(), 1);
    assert_eq!(l[0].name, b"F1         ");
    assert_eq!(l[0].size, 6);
    assert_eq!(list(&mut t, "/").len(), 1);
    assert_eq!(value(t.serve(&Request::Rmdir { path: b("/D1") })), None);
    assert_eq!(value(t.serve(&Request::Unlink { path: b("/D1") })), None);
    assert_eq!(value(t.serve(&Request::Unlink { path: b("/D1/F1") })), Some(1));
    assert!(stat(&mut t, "/D1/F1").is_none());
    assert_eq!(value(t.serve(&Request::Rmdir { path: b("/D1") })), Some(1));
    assert_eq!(open(&mut t, "/D1"), None);
    assert!(list(&mut t, "/").is_empty());
}

#[test]
fn names_do_not_depend_on_case() {
    let mut t = Tmpfs::new();
    let fd = creat(&mut t, "/Hello.txt").unwrap();
    assert_eq!(write(&mut t, fd, 0, b"x"), Some(1));
    assert!(open(&mut t, "/HELLO.TXT").is_some());
    assert!(open(&mut t, "/./x/../hello.TXT").is_some());
    assert_eq!(list(&mut t, "/")[0].name, b"HELLO   TXT");
}

#[test]
fn write_past_the_end_leaves_zeros() {
    let mut t = Tmpfs::new();
    let fd = creat(&mut t, "/A").unwrap();
    assert_eq!(write(&mut t, fd, 0, b"ab"), Some(2));
    assert_eq!(write(&mut t, fd, 5, b"z"), Some(1));
    assert_eq!(read(&mut t, fd, 0, 16).unwrap(), b"ab\0\0\0z");
    assert_eq!(write(&mut t, fd, 1, b"B"), Some(1));
    assert_eq!(read(&mut t, fd, 0, 16).unwrap(), b"aB\0\0\0z");
}

#[test]
fn store_of_bytes_runs_out() {
    let mut t = Tmpfs::new();
    let fd = creat(&mut t, "/A").unwrap();
    assert_eq!(write(&mut t, fd, 0, &vec![1u8; 32768]), Some(32768));
    assert_eq!(write(&mut t, fd, 32768, b"x"), None);
    assert_eq!(write(&mut t, fd, 0, b"x"), Some(1));
    assert_eq!(read(&mut t, fd, 0, 2).unwrap(), [b'x', 1]);
    assert_eq!(write(&mut t, fd, 1 << 33, b"x"), None);
}

#[test]
fn nodes_and_descriptors_run_out() {
    let mut t = Tmpfs::new();
    let mut made = 0;
    for i in 0..TMP_MAX_NODES {
        if mkdir(&mut t, &format!("/D{}", i)).is_some() {
            made += 1;
        }
    }
    assert_eq!(made, TMP_MAX_NODES - 1);
    let mut fds = vec![];
    while let Some(fd) = open(&mut t, "/") {
        fds.push(fd);
    }
    assert_eq!(fds.len(), 16);
    assert_eq!(value(t.serve(&Request::Close { fd: fds[2] })), Some(1));
    assert_eq!(open(&mut t, "/"), Some(fds[2]));
    assert_eq!(value(t.serve(&Request::Close { fd: 77 })), Some(0));
}

#[test]
fn requests_that_are_refused() {
    let mut t = Tmpfs::new();
    assert_eq!(creat(&mut t, "/NO/F"), None);
    assert_eq!(open(&mut t, "/NO"), None);
    assert_eq!(creat(&mut t, "/toolongname.x"), None);
    let fd = open(&mut t, "/").unwrap();
    assert!(read(&mut t, fd, 0, 1).is_none());
    assert_eq!(write(&mut t, fd, 0, b"x"), None);
    assert_eq!(value(t.serve(&Request::Rmdir { path: b("/") })), None);
    assert_eq!(value(t.serve(&Request::Unknown)), None);
    assert_eq!(value(t.serve(&Request::Truncate { fd, size: 0 })), None);
}

#[test]
fn path_helpers() {
    assert_eq!(tmp_norm_component(b"ab.c").unwrap(), b"AB.C");
    assert!(tmp_norm_component(b"ninechars").is_none());
    assert!(tmp_norm_component(b"a.long").is_none());
    assert_eq!(tmp_normalize(b"/a//b/../c").unwrap(), b"/A/C");
    assert_eq!(tmp_normalize(b"/").unwrap(), b"/");
    assert_eq!(tmp_parent(b"/A/C"), b"/A");
    assert_eq!(tmp_parent(b"/A"), b"/");
    assert_eq!(tmp_name_83(b"/A/FILE.TX"), b"FILE    TX ");
}
