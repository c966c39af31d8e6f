//! Printing, command-line text, times, paths and byte fields.
use morion::bytes::{
    ascii_upper, bytes_eq, copy_into, get_bit, name_eq, read_u16, read_u32, read_u64, set_bit,
    slice_copy, write_u16, write_u32, write_u64, zero_bytes, zero_vec,
};
use morion::calendar::{
    civil_from_days, cmos_bcd, days_from_civil, exfat_decode_time, exfat_encode_time, mfs_now,
    RtcRegs,
};
use morion::path::{leaf_start, normalize, page_path, payload_path, split, two_paths};
use morion::print::{
    dec_bytes, hex_bytes, print, print_hex, print_sanitized, print_u64, println_bytes,
    Printer, PRINT_BUF_LEN,
};
use morion::text::{
    entry_type_name, next_word, parse_dec, parse_octal, parse_radix, print_83_name, print_entry,
    print_list, print_long_name, print_mode, print_time, print_u64_pad, readdir_has,
    readdir_has_long, strip_switch, trim,
};
use morion::vfs::{DirEntry, Stat, MODE_FTYPE_DIR, MODE_FTYPE_FILE, MODE_FTYPE_LINK};

fn all(p: &Printer) -> String {
    let mut v: Vec<u8> = p.lines.concat();
    v.extend(&p.pending);
    String::from_utf8(v).unwrap()
}

fn shown(f: impl Fn(&mut Printer)) -> String {
    let mut p = Printer::new();
    f(&mut p);
    all(&p)
}

#[test]
fn line_is_handed_over_whole() {
    let mut p = Printer::new();
    print(&mut p, "ab");
    assert_eq!(p.lines.len(), 0);
    print_u64(&mut p, 12);
    morion::print::println(&mut p, " c");
    assert_eq!(p.take_lines(), vec![b"ab12 c\n".to_vec()]);
    assert_eq!(p.lines.len(), 0);
    println_bytes(&mut p, &[b'x'; 300]);
    let lines = p.take_lines();
    assert_eq!(lines.len(), 2);
    assert_eq!(lines[0].len(), PRINT_BUF_LEN);
    assert_eq!(lines[1].len(), 301 - PRINT_BUF_LEN);
    p.print_push(b"tail");
    p.print_flush();
    assert_eq!(p.take_lines(), vec![b"tail".to_vec()]);
}

#[test]
fn numbers_as_text() {
    assert_eq!(dec_bytes(0), b"0");
    assert_eq!(dec_bytes(u64::MAX), b"18446744073709551615");
    assert_eq!(String::from_utf8(hex_bytes(0xBEEF)).unwrap(), "beef");
    assert_eq!(shown(|p| print_hex(p, 0xCA)), "ca");
    assert_eq!(shown(|p| print_sanitized(p, b"a\x01b\n")), "a.b\n");
    assert_eq!(shown(|p| print_u64_pad(p, 7, 3)), "007");
    assert_eq!(shown(|p| print_u64_pad(p, 1234, 3)), "1234");
}

#[test]
fn numbers_from_text() {
    assert_eq!(parse_dec(b"0"), Some(0));
    assert_eq!(parse_dec(b"18446744073709551615"), Some(u64::MAX));
    assert_eq!(parse_dec(b"18446744073709551616"), None);
    assert_eq!(parse_dec(b""), None);
    assert_eq!(parse_dec(b"12a"), None);
    assert_eq!(parse_octal(b"644"), Some(0o644));
    assert_eq!(parse_octal(b"8"), None);
    assert_eq!(parse_octal(b"77777777777"), None);
    assert_eq!(parse_radix(b"101", 2), Some(5));
    for v in [0u64, 9, 10, 12345, u64::MAX] {
        assert_eq!(parse_dec(&dec_bytes(v)), Some(v));
    }
}

#[test]
fn words_of_a_command() {
    assert_eq!(trim(b"  a b\t\n"), b"a b");
    assert_eq!(trim(b" \t"), b"");
    assert_eq!(next_word(b"mv  a b"), Some((b"mv".to_vec(), b"a b".to_vec())));
    assert_eq!(next_word(b"pwd"), None);
    assert_eq!(strip_switch(b"-l /x", b'-', b'l'), Some(b"/x".to_vec()));
    assert_eq!(strip_switch(b"-l", b'-', b'l'), Some(vec![]));
    assert_eq!(strip_switch(b"l x", b'-', b'l'), None);
}

#[test]
fn modes_and_times_are_shown() {
    assert_eq!(shown(|p| print_mode(p, MODE_FTYPE_FILE | 0o644, false)), "-rw-r--r--");
    assert_eq!(shown(|p| print_mode(p, MODE_FTYPE_DIR | 0o755, true)), "drwxr-xr-x");
    assert_eq!(shown(|p| print_mode(p, MODE_FTYPE_LINK | 0o777, false)), "lrwxrwxrwx");
    assert_eq!(shown(|p| print_time(p, 0)), "(unknown)");
    assert_eq!(shown(|p| print_time(p, 1_577_836_800)), "2020-01-01 00:00");
    assert_eq!(shown(|p| print_time(p, 1_709_210_096)), "2024-02-29 12:34");
    assert_eq!(shown(|p| entry_type_name(p, MODE_FTYPE_LINK, false)), "symbolic link\n");
    assert_eq!(shown(|p| entry_type_name(p, 0, true)), "directory\n");
    assert_eq!(shown(|p| entry_type_name(p, 0, false)), "regular file\n");
}

#[test]
fn names_are_shown() {
    assert_eq!(shown(|p| print_83_name(p, b"HELLO   TXT")), "HELLO.TXT");
    assert_eq!(shown(|p| print_83_name(p, b"DIR        ")), "DIR");
    assert_eq!(shown(|p| print_long_name(p, "a\u{e9}\u{4e2d}b".as_bytes())), "a??b");
    let f = DirEntry::plain(b"A       TXT".to_vec(), vec![], 5, false);
    let d = DirEntry::plain(b"LONGNA~1   ".to_vec(), b"Long Name".to_vec(), 0, true);
    assert_eq!(shown(|p| print_entry(p, &f, false)), "[FILE] A.TXT  size=5\n");
    assert_eq!(shown(|p| print_entry(p, &d, false)), "[DIR]  Long Name\n");
    let l = vec![f, d];
    assert_eq!(
        shown(|p| print_list(p, &l, false)),
        "[FILE] A.TXT  size=5\n[DIR]  Long Name\n"
    );
    assert!(readdir_has(&l, b"a.txt", false));
    assert!(!readdir_has(&l, b"a.txt", true));
    assert!(readdir_has_long(&l, b"Long Name", true));
    assert!(!readdir_has_long(&l, b"Long", true));
}

#[test]
fn long_listing_of_an_entry() {
    let mut e = DirEntry::plain(b"A          ".to_vec(), b"A".to_vec(), 42, false);
    e.mode = MODE_FTYPE_FILE | 0o600;
    e.owner = 7;
    e.nlink = 2;
    e.mtime = 1_577_836_800;
    assert_eq!(
        shown(|p| print_entry(p, &e, true)),
        "-rw------- owner=7 links=2 size=00000042  2020-01-01 00:00  A\n"
    );
    let s = Stat::plain(9, true);
    assert_eq!((s.size, s.is_dir, s.mtime), (9, true, 0));
}

#[test]
fn days_and_dates() {
    assert_eq!(days_from_civil(1970, 1, 1), 0);
    assert_eq!(days_from_civil(2000, 3, 1), 11017);
    assert_eq!(days_from_civil(2020, 1, 1) * 86400, 1_577_836_800);
    assert_eq!(civil_from_days(0), (1970, 1, 1));
    assert_eq!(days_from_civil(2000, 15, 1), 11384);
    assert_eq!(days_from_civil(2001, -12, 1), 10926);
    assert_eq!(days_from_civil(4_000_000_000, 3, 1), 1_460_969_280_532);
    assert_eq!(civil_from_days(1_460_969_280_532), (4_000_000_000, 3, 1));
    assert_eq!(civil_from_days(19782), (2024, 2, 29));
    assert_eq!(civil_from_days(-719469), (0, 2, 29));
    assert_eq!(civil_from_days(i64::MAX - 719468), (25_252_734_927_766_554, 9, 25));
    assert_eq!(civil_from_days(i64::MIN), (-25_252_734_927_764_585, 6, 7));
    for n in [0i64, 58, 59, 365, 11016, 20000, 47540] {
        let (y, m, d) = civil_from_days(n);
        assert_eq!(days_from_civil(y, m, d), n);
    }
}

#[test]
fn clock_registers() {
    assert_eq!(cmos_bcd(0x59), 59);
    let bcd = RtcRegs { stat_b: 0x02, sec: 0x56, min: 0x34, hour: 0x12, day: 0x29, mon: 0x02, year: 0x24 };
    assert_eq!(bcd.cmos_rtc_snapshot(), Some(1_709_210_096));
    let bin = RtcRegs { stat_b: 0x06, sec: 56, min: 34, hour: 12, day: 29, mon: 2, year: 24 };
    assert_eq!(bin.cmos_rtc_snapshot(), Some(1_709_210_096));
    let afternoon = RtcRegs { stat_b: 0x04, sec: 0, min: 0, hour: 0x80 | 1, day: 1, mon: 1, year: 20 };
    assert_eq!(afternoon.cmos_rtc_snapshot(), Some(1_577_836_800 + 13 * 3600));
    let bad = RtcRegs { stat_b: 0x06, sec: 0, min: 0, hour: 0, day: 1, mon: 13, year: 20 };
    assert_eq!(bad.cmos_rtc_snapshot(), None);
    assert_eq!(mfs_now(0, Some(5), Some(5)), Some(5));
    assert_eq!(mfs_now(0, Some(5), Some(6)), None);
}

#[test]
fn stamps_of_exfat() {
    let (ts, h) = exfat_encode_time(1_709_210_097);
    assert_eq!(exfat_decode_time(ts, h), 1_709_210_097);
    assert_eq!(ts, ((2024 - 1980) << 25) | (2 << 21) | (29 << 16) | (12 << 11) | (34 << 5) | 28);
    assert_eq!(h, 100);
    assert_eq!(exfat_decode_time(0, 0), 0);
}

#[test]
fn paths_are_split_and_normalized() {
    assert_eq!(split(b"/a//b/"), vec![b"a".to_vec(), b"b".to_vec()]);
    assert_eq!(leaf_start(b"/a/bc"), 3);
    assert_eq!(normalize(b"/a/./b/../c", 16, 64), Some(b"/a/c".to_vec()));
    assert_eq!(normalize(b"/..", 16, 64), Some(b"/".to_vec()));
    assert_eq!(normalize(b"/abc", 2, 64), None);
    assert_eq!(payload_path(b"/x\0y"), b"/x");
    assert_eq!(page_path(b"/x\0y"), b"/x");
    assert_eq!(two_paths(b"/a\0/bc", 2, 3), Some((b"/a".to_vec(), b"/bc".to_vec())));
    assert_eq!(two_paths(b"/a\0/bc", 2, 4), None);
}

#[test]
fn fields_of_a_buffer() {
    let mut v = zero_vec(16);
    write_u16(&mut v, 1, 0x1234);
    write_u32(&mut v, 3, 0x89AB_CDEF);
    write_u64(&mut v, 8, u64::MAX - 1);
    assert_eq!((v[1], v[2], v[3]), (0x34, 0x12, 0xEF));
    assert_eq!(read_u16(&v, 1), 0x1234);
    assert_eq!(read_u32(&v, 3), 0x89AB_CDEF);
    assert_eq!(read_u64(&v, 8), u64::MAX - 1);
    zero_bytes(&mut v, 1, 6);
    assert_eq!(&v[..8], &[0u8; 8]);
    copy_into(&mut v, 0, b"abcdef", 2, 3);
    assert_eq!(slice_copy(&v, 0, 4), b"cde\0");
    assert!(bytes_eq(b"ab", b"ab") && !bytes_eq(b"ab", b"a"));
    assert_eq!(ascii_upper(b'z'), b'Z');
    assert!(name_eq(b"Ab", b"aB", true) && !name_eq(b"Ab", b"aB", false));
    assert_eq!(set_bit(0, 3, true), 8);
    assert!(get_bit(8, 3) && !get_bit(8, 2));
    assert_eq!(set_bit(0xFF, 0, false), 0xFE);
}
