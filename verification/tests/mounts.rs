//! The mount table.
use morion::client::{link_target, route_of, service_path, shown_target};
use morion::mount::{enc_of_vol, mount_prefix_match, MountReq, Mounts};
use morion::vfs::{vol_from_enc, Reply};

fn lookup(m: &mut Mounts, path: &str) -> Option<u64> {
    match m.serve(&MountReq::Lookup { path: path.as_bytes().to_vec() }) {
        Reply::Value(v) => Some(v),
        _ => None,
    }
}

#[test]
fn initial_mounts_route_by_longest_prefix() {
    let mut m = Mounts::mounts_init();
    assert_eq!(lookup(&mut m, "/"), Some((6 << 32) | 1));
    assert_eq!(lookup(&mut m, "/BOOT/KERNEL"), Some((6 << 32) | 1));
    assert_eq!(lookup(&mut m, "/tmp"), Some((10 << 32) | 4));
    assert_eq!(lookup(&mut m, "/tmp/A"), Some((10 << 32) | 4));
    assert_eq!(lookup(&mut m, "/tmpfoo"), Some((6 << 32) | 1));
    assert_eq!(lookup(&mut m, "/mfs/x"), Some((11 << 32) | 4));
    assert_eq!(lookup(&mut m, "/ext2"), Some((12 << 32) | 5));
    assert_eq!(lookup(&mut m, "/usb/a/b"), Some((13 << 32) | 4));
    assert_eq!(lookup(&mut m, "relative"), None);
    assert_eq!(lookup(&mut m, ""), None);
}

fn mount(m: &mut Mounts, domain: u64, prefix: &str) -> Option<u64> {
    match m.serve(&MountReq::Mount { domain, prefix: prefix.as_bytes().to_vec() }) {
        Reply::Value(v) => Some(v),
        _ => None,
    }
}

fn unmount(m: &mut Mounts, prefix: &str) -> bool {
    matches!(
        m.serve(&MountReq::Unmount { prefix: prefix.as_bytes().to_vec() }),
        Reply::Value(1)
    )
}

fn domain_of(m: &mut Mounts, path: &str) -> Option<u64> {
    lookup(m, path).map(|v| (v >> 32) & 0xFF)
}

#[test]
fn mount_points_come_and_go() {
    let mut m = Mounts::mounts_init();
    assert!(mount(&mut m, 10, "/scratch").is_some());
    assert_eq!(domain_of(&mut m, "/scratch/A"), Some(10));
    assert!(mount(&mut m, 11, "/scratch").is_none());
    assert!(unmount(&mut m, "/scratch"));
    assert!(!unmount(&mut m, "/scratch"));
    assert_eq!(domain_of(&mut m, "/scratch/A"), Some(6));
    assert!(!unmount(&mut m, "/"));
    assert_eq!(domain_of(&mut m, "/x"), Some(6));
}

#[test]
fn mount_points_that_are_refused() {
    let mut m = Mounts::mounts_init();
    assert!(mount(&mut m, 10, "nope").is_none());
    assert!(mount(&mut m, 10, "/a-prefix-that-is-too-long-for-it").is_none());
    assert!(matches!(m.serve(&MountReq::Unknown), Reply::Fail));
}

#[test]
fn mount_points_chosen_by_the_table() {
    let mut m = Mounts::mounts_init();
    assert_eq!(mount(&mut m, 10, ""), Some(6));
    assert_eq!(domain_of(&mut m, "/mnt0/F"), Some(10));
    assert_eq!(mount(&mut m, 11, ""), Some(7));
    assert_eq!(domain_of(&mut m, "/mnt1"), Some(11));
    assert!(unmount(&mut m, "/mnt0"));
    assert_eq!(mount(&mut m, 12, ""), Some(6));
    assert_eq!(domain_of(&mut m, "/mnt0"), Some(12));
    assert!(matches!(m.serve(&MountReq::MountVolume { domain: 11, vol: 12 }), Reply::Value(_)));
    assert_eq!(lookup(&mut m, "/usb12/NEW.TXT"), Some((13 << 40) | (11 << 32) | 6));
    let mut n = 0;
    while mount(&mut m, 10, "").is_some() {
        n += 1;
    }
    assert!(n > 0 && n < 16);
}

#[test]
fn prefixes_end_at_a_slash() {
    assert_eq!(mount_prefix_match(b"/tmp/a", b"/tmp"), Some(4));
    assert_eq!(mount_prefix_match(b"/tmp", b"/tmp"), Some(4));
    assert_eq!(mount_prefix_match(b"/tmpa", b"/tmp"), None);
    assert_eq!(mount_prefix_match(b"/a", b"/"), Some(1));
    assert_eq!(enc_of_vol(0), 1);
    assert_eq!(vol_from_enc(0, 9), 9);
    assert_eq!(vol_from_enc(4, 9), 3);
}

#[test]
fn paths_as_a_service_sees_them() {
    let mut m = Mounts::mounts_init();
    let mfs = route_of(lookup(&mut m, "/mfs/S20T.TXT").unwrap());
    assert_eq!((mfs.domain, mfs.vol_enc, mfs.len), (11, 0, 4));
    assert_eq!(service_path(b"/mfs/S20T.TXT", mfs.len), b"/S20T.TXT");
    assert_eq!(service_path(b"/mfs", mfs.len), b"/");
    assert_eq!(service_path(b"/A/B", 1), b"/A/B");
}

#[test]
fn link_targets_go_and_come_back() {
    let mut m = Mounts::mounts_init();
    let link = route_of(lookup(&mut m, "/mfs/L").unwrap());
    for t in ["/mfs/S20T.TXT", "S20T.TXT", "../S20T.TXT", "/mfs"] {
        let at = lookup(&mut m, t).map(route_of);
        let s = link_target(t.as_bytes(), link, at).unwrap();
        assert_eq!(shown_target(b"/mfs", &s), t.as_bytes());
    }
    assert_eq!(link_target(b"/mfs/S20T.TXT", link, Some(link)).unwrap(), b"/S20T.TXT");
    for t in ["/usb/ANY.TXT", "/tmp/ANY.TXT", "/nosuchmount/A.TXT"] {
        let at = lookup(&mut m, t).map(route_of);
        assert!(link_target(t.as_bytes(), link, at).is_none());
    }
    assert!(link_target(b"/x", link, None).is_none());
}
