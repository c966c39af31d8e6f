//! The layout of messages.
use morion::domain::payload_of;
use morion::mount::MountReq;
use morion::nvme::{BLOCK_OP_LIST_VOLUMES, BLOCK_OP_WRITE};
use morion::vfs::{DirEntry, Reply, Request, Stat, RESULT_MAX_ENTRIES};
use morion::volume::VolumeDesc;
use morion::wire::{
    answer_of, block_request, block_request_of, desc_bytes, descs_of, entries_of, entry_bytes,
    entry_of, fd_request, fetch_of, joined, lower, mount_request_of, number_request, page_request,
    pair_request, request_of, result_at, stat_bytes, stat_of, upper, Fetch, CHMOD, CLOSE, CREAT,
    DESC_LEN, ENTRY_LEN, FAIL, GC, LINK, LOOKUP, LSTAT, MKDIR, MKFS, MOUNT, MOUNT_VOL, OPEN, PAGE,
    READ, READDIR, READLINK, RENAME, RMDIR, SNAP, SNAP_LIST, SNAP_RESTORE, STAT, STAT_LEN, SYMLINK,
    TRUNCATE, UMOUNT, UNLINK, USAGE, WRITE,
};

const BUF: u64 = 0x0000_0080_0030_0000;

fn entry(i: u32) -> DirEntry {
    DirEntry {
        name: b"NAME    TXT".to_vec(),
        long: format!("a longer name {}", i).into_bytes(),
        size: 0x1_0000_0001 + i as u64,
        is_dir: i % 2 == 1,
        mode: 0x81A4,
        owner: 7,
        nlink: i,
        mtime: 1_700_000_000,
    }
}

fn same(a: &DirEntry, b: &DirEntry) -> bool {
    a.name == b.name
        && a.long == b.long
        && a.size == b.size
        && a.is_dir == b.is_dir
        && a.mode == b.mode
        && a.owner == b.owner
        && a.nlink == b.nlink
        && a.mtime == b.mtime
}

#[test]
fn wire_words() {
    assert_eq!(joined(3, 0x0000_0007), 0x0000_0003_0000_0007);
    assert_eq!(upper(0x0000_0003_0000_0007), 3);
    assert_eq!(lower(0x0000_0003_0000_0007), 7);
    assert_eq!(joined(0x1_0000_0002, 0x1_0000_0005), 0x0000_0002_0000_0005);
}

#[test]
fn wire_entries() {
    let e = entry(5);
    let b = entry_bytes(&e);
    assert_eq!(b.len(), ENTRY_LEN);
    assert_eq!(&b[..13], b"NAME    TXT\x01\x0F");
    assert_eq!(&b[14..18], &[0xA4, 0x81, 7, 0]);
    assert_eq!(&b[20..32], &[5, 0, 0, 0, 6, 0, 0, 0, 1, 0, 0, 0]);
    assert_eq!(&b[40..55], b"a longer name 5");
    assert!(same(&entry_of(&b), &e));
    // Names that are too long are cut.
    let long = DirEntry { name: vec![0x41; 20], long: vec![0x62; 100], ..entry(0) };
    let r = entry_of(&entry_bytes(&long));
    assert_eq!(r.name, vec![0x41; 11]);
    assert_eq!(r.long, vec![0x62; 64]);
    let mut odd = entry_bytes(&e);
    odd[12] = 200;
    assert_eq!(entry_of(&odd).long.len(), 64);
}

#[test]
fn wire_stat() {
    let s = Stat {
        size: 0x1_0000_0002,
        is_dir: true,
        mode: 0x41ED,
        owner: 9,
        nlink: 3,
        mtime: 11,
        ctime: 12,
        atime: 13,
    };
    let b = stat_bytes(&s);
    assert_eq!(b.len(), STAT_LEN);
    assert_eq!(&b[..14], &[2, 0, 0, 0, 1, 0, 0, 0, 1, 0, 0xED, 0x41, 9, 0]);
    assert_eq!((b[16], b[24], b[32], b[40]), (3, 11, 12, 13));
    let t = stat_of(&b);
    assert_eq!((t.size, t.is_dir, t.mode, t.owner), (s.size, true, s.mode, 9));
    assert_eq!((t.nlink, t.mtime, t.ctime, t.atime), (3, 11, 12, 13));
}

#[test]
fn wire_answers() {
    assert_eq!(answer_of(Reply::Fail), (FAIL, Vec::new()));
    assert_eq!(answer_of(Reply::Value(42)), (42, Vec::new()));
    assert_eq!(answer_of(Reply::Data(b"abc".to_vec())), (3, b"abc".to_vec()));
    let (n, b) = answer_of(Reply::StatOf(Stat::plain(5, false)));
    assert_eq!((n, b.len()), (48, 48));
    let l: Vec<DirEntry> = (0..3).map(entry).collect();
    let (n, b) = answer_of(Reply::Entries(l));
    assert_eq!(n as usize, 3 * ENTRY_LEN);
    let back = entries_of(&b);
    assert_eq!(back.len(), 3);
    assert!((0..3).all(|i| same(&back[i as usize], &entry(i))));
    assert_eq!(entries_of(&b[..b.len() - 1]).len(), 2);
    // A page holds so many entries.
    let (n, _) = answer_of(Reply::Entries((0..50).map(entry).collect()));
    assert_eq!(n as usize, RESULT_MAX_ENTRIES * ENTRY_LEN);
    assert!(n as usize <= PAGE);
}

#[test]
fn wire_requests_on_open_files() {
    let p = payload_of(&fd_request(4, 100, 0x1_0000_0000, BUF));
    assert!(matches!(
        request_of(READ, &p, &[]),
        Request::Read { fd: 4, count: 100, offset: 0x1_0000_0000 }
    ));
    assert_eq!(result_at(READ, &p), BUF);
    assert_eq!(fetch_of(READ, &p), None);
    assert_eq!(fetch_of(WRITE, &p), Some(Fetch { addr: BUF, len: 100 }));
    match request_of(WRITE, &p, b"data") {
        Request::Write { fd, offset, data } => {
            assert_eq!((fd, offset, data), (4, 0x1_0000_0000, b"data".to_vec()))
        }
        _ => panic!("not a write"),
    }
    assert_eq!(result_at(WRITE, &p), 0);
    assert!(matches!(request_of(READDIR, &p, &[]), Request::Readdir { fd: 4 }));
    assert_eq!(result_at(READDIR, &p), BUF);
    assert!(matches!(request_of(CLOSE, &p, &[]), Request::Close { fd: 4 }));
    assert!(matches!(
        request_of(TRUNCATE, &p, &[]),
        Request::Truncate { fd: 4, size: 0x1_0000_0000 }
    ));
}

#[test]
fn wire_requests_with_a_path() {
    let p = payload_of(b"/A/B");
    for op in [OPEN, CREAT, MKDIR, UNLINK, RMDIR] {
        let path = match request_of(op, &p, &[]) {
            Request::Open { path } if op == OPEN => path,
            Request::Creat { path } if op == CREAT => path,
            Request::Mkdir { path } if op == MKDIR => path,
            Request::Unlink { path } if op == UNLINK => path,
            Request::Rmdir { path } if op == RMDIR => path,
            _ => panic!("another request"),
        };
        assert_eq!(path, b"/A/B");
        assert_eq!(fetch_of(op, &p), None);
    }
    let p = payload_of(&page_request(BUF, 0x1_81A4));
    let mut page = vec![0xAAu8; PAGE];
    page[..5].copy_from_slice(b"/A/B\0");
    for op in [STAT, LSTAT, READLINK, CHMOD] {
        assert_eq!(fetch_of(op, &p), Some(Fetch { addr: BUF, len: PAGE }));
        let path = match request_of(op, &p, &page) {
            Request::Stat { path } if op == STAT => path,
            Request::Lstat { path } if op == LSTAT => path,
            Request::Readlink { path } if op == READLINK => path,
            Request::Chmod { path, mode: 0x81A4 } if op == CHMOD => path,
            _ => panic!("another request"),
        };
        assert_eq!(path, b"/A/B");
    }
    assert_eq!(result_at(STAT, &p), BUF);
    assert_eq!(result_at(CHMOD, &p), 0);
}

#[test]
fn wire_requests_with_two_paths() {
    let (body, start) = pair_request(BUF, b"/A", b"/LONGER").unwrap();
    assert_eq!(start, b"/A\0/LONGER");
    let p = payload_of(&body);
    let mut page = vec![0xAAu8; PAGE];
    page[..start.len()].copy_from_slice(&start);
    for op in [RENAME, LINK, SYMLINK] {
        assert_eq!(fetch_of(op, &p), Some(Fetch { addr: BUF, len: PAGE }));
        let (a, b) = match request_of(op, &p, &page) {
            Request::Rename { from, to } if op == RENAME => (from, to),
            Request::Link { target, path } if op == LINK => (target, path),
            Request::Symlink { target, path } if op == SYMLINK => (target, path),
            _ => panic!("another request"),
        };
        assert_eq!((a, b), (b"/A".to_vec(), b"/LONGER".to_vec()));
    }
    assert!(pair_request(BUF, &[0x41; 48], &[0x42; 47]).is_some());
    assert!(pair_request(BUF, &[0x41; 48], &[0x42; 48]).is_none());
    assert!(pair_request(BUF, &[0x41; 200], b"").is_none());
    let mut far = p.clone();
    far[12] = 200;
    assert!(matches!(request_of(RENAME, &far, &page), Request::Unknown));
}

#[test]
fn wire_other_requests() {
    let p = payload_of(&number_request(3));
    assert!(matches!(request_of(MKFS, &p, &[]), Request::MakeFs { vol: 3 }));
    assert!(matches!(request_of(SNAP_RESTORE, &p, &[]), Request::SnapshotRestore { index: 3 }));
    assert!(matches!(request_of(SNAP, &p, &[]), Request::Snapshot));
    assert!(matches!(request_of(SNAP_LIST, &p, &[]), Request::SnapshotList));
    assert_eq!(result_at(SNAP_LIST, &p), 3);
    assert!(matches!(request_of(GC, &p, &[]), Request::CollectGarbage));
    assert!(matches!(request_of(USAGE, &p, &[]), Request::Usage));
    assert!(matches!(request_of(99, &p, &[]), Request::Unknown));
}

#[test]
fn wire_requests_to_the_mount_service() {
    let p = payload_of(b"/mfs");
    match mount_request_of(LOOKUP, &p) {
        MountReq::Lookup { path } => assert_eq!(path, b"/mfs"),
        _ => panic!("not a lookup"),
    }
    match mount_request_of(UMOUNT, &p) {
        MountReq::Unmount { prefix } => assert_eq!(prefix, b"/mfs"),
        _ => panic!("not an unmount"),
    }
    let v = payload_of(&page_request(6, 2));
    assert!(matches!(
        mount_request_of(MOUNT_VOL, &v),
        MountReq::MountVolume { domain: 6, vol: 2 }
    ));
    let mut m = number_request(6);
    m.extend_from_slice(b"/data");
    match mount_request_of(MOUNT, &payload_of(&m)) {
        MountReq::Mount { domain, prefix } => assert_eq!((domain, prefix), (6, b"/data".to_vec())),
        _ => panic!("not a mount"),
    }
    assert!(matches!(mount_request_of(0, &p), MountReq::Unknown));
}

#[test]
fn wire_block_service() {
    let (q, at) = block_request_of(&payload_of(&block_request(BLOCK_OP_WRITE, 3, 100, 8, BUF)));
    assert_eq!((q.op, q.lba, q.count, at), (0x301, 100, 8, BUF));
    let (q, _) = block_request_of(&payload_of(&block_request(BLOCK_OP_LIST_VOLUMES, 0, 0, 8, 0)));
    assert_eq!(q.op, 2);
    let l: Vec<VolumeDesc> = (0..3u32)
        .map(|i| VolumeDesc { id: i, nsid: i + 1, start_lba: 2048 * i, sectors: 5000, kind: 4 })
        .collect();
    let b = desc_bytes(&l);
    assert_eq!(b.len(), 3 * DESC_LEN);
    assert_eq!(&b[24..44], &[1, 0, 0, 0, 2, 0, 0, 0, 0, 8, 0, 0, 0x88, 0x13, 0, 0, 4, 0, 0, 0]);
    let r = descs_of(&b);
    assert_eq!(r.len(), 3);
    assert!((0..3).all(|i| r[i].start_lba == l[i].start_lba && r[i].id == l[i].id));
}
