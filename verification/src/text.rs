//! What the shell reads and shows: words, numbers, modes, times, names.
use vstd::prelude::*;

use crate::bytes;
use crate::calendar;
use crate::fat_name;
use crate::print;
use crate::print::{PrintView, Printer};
use crate::vfs;
use crate::vfs::{DirEntry, DirEntryView, DIR_LONG_MAX};

verus! {

/// White space of one byte.
pub open spec fn ws1(a: u8) -> bool {
    a == 0x20 || 9 <= a <= 13
}

/// White space of two bytes.
pub open spec fn ws2(a: u8, b: u8) -> bool {
    a == 0xC2 && (b == 0x85 || b == 0xA0)
}

/// White space of three bytes.
pub open spec fn ws3(a: u8, b: u8, c: u8) -> bool {
    ||| a == 0xE1 && b == 0x9A && c == 0x80
    ||| a == 0xE2 && b == 0x80 && (0x80 <= c <= 0x8A || c == 0xA8 || c == 0xA9 || c == 0xAF)
    ||| a == 0xE2 && b == 0x81 && c == 0x9F
    ||| a == 0xE3 && b == 0x80 && c == 0x80
}

/// Where the text from `i` on starts, white space skipped.
pub open spec fn text_start(s: Seq<u8>, i: int) -> int
    decreases s.len() - i,
{
    if i >= s.len() {
        i
    } else if ws1(s[i]) {
        text_start(s, i + 1)
    } else if i + 2 <= s.len() && ws2(s[i], s[i + 1]) {
        text_start(s, i + 2)
    } else if i + 3 <= s.len() && ws3(s[i], s[i + 1], s[i + 2]) {
        text_start(s, i + 3)
    } else {
        i
    }
}

/// Where the text between `from` and `n` ends, white space dropped.
pub open spec fn text_end(s: Seq<u8>, from: int, n: int) -> int
    decreases n,
{
    if n <= from || n <= 0 {
        n
    } else if ws1(s[n - 1]) {
        text_end(s, from, n - 1)
    } else if n - 2 >= from && n >= 2 && ws2(s[n - 2], s[n - 1]) {
        text_end(s, from, n - 2)
    } else if n - 3 >= from && n >= 3 && ws3(s[n - 3], s[n - 2], s[n - 1]) {
        text_end(s, from, n - 3)
    } else {
        n
    }
}

/// A text without the white space around it.
pub open spec fn trimmed(s: Seq<u8>) -> Seq<u8> {
    let a = text_start(s, 0);
    s.subrange(a, text_end(s, a, s.len() as int))
}

/// Where the first space from `i` on is; the length where there is none.
pub open spec fn space_at(s: Seq<u8>, i: int) -> int
    decreases s.len() - i,
{
    if i >= s.len() || s[i] == 0x20 {
        i
    } else {
        space_at(s, i + 1)
    }
}

/// The word before the first space, and the text after it; `None` where there is no space.
pub open spec fn split_word(s: Seq<u8>) -> Option<(Seq<u8>, Seq<u8>)> {
    let k = space_at(s, 0);
    if k < s.len() {
        Some((s.subrange(0, k), trimmed(s.subrange(k + 1, s.len() as int))))
    } else {
        None
    }
}

/// The rest of a text that starts with two given bytes.
pub open spec fn after_switch(s: Seq<u8>, a: u8, b: u8) -> Option<Seq<u8>> {
    if s.len() >= 2 && s[0] == a && s[1] == b {
        Some(trimmed(s.subrange(2, s.len() as int)))
    } else {
        None
    }
}

/// The value of a digit; letters are lower case.
pub open spec fn digit(c: u8) -> Option<int> {
    if 0x30 <= c <= 0x39 {
        Some(c - 0x30)
    } else if 0x61 <= c <= 0x66 {
        Some(c - 0x61 + 10)
    } else {
        None
    }
}

/// The number that the digits from `i` on give after `v`; `None` for what is no digit, and
/// for numbers above 2^64 - 1.
pub open spec fn number_from(s: Seq<u8>, i: int, v: int, radix: int) -> Option<int>
    decreases s.len() - i,
{
    if i >= s.len() {
        Some(v)
    } else {
        match digit(s[i]) {
            None => None,
            Some(d) => if d >= radix || v * radix + d > u64::MAX {
                None
            } else {
                number_from(s, i + 1, v * radix + d, radix)
            },
        }
    }
}

/// The number that digits give.
pub open spec fn number(s: Seq<u8>, radix: int) -> Option<int> {
    if s.len() == 0 {
        None
    } else {
        number_from(s, 0, 0, radix)
    }
}

/// What digits give fits 64 bits.
pub proof fn lemma_number_range(s: Seq<u8>, i: int, v: int, radix: int)
    requires
        0 <= v <= u64::MAX,
        radix > 0,
    ensures
        number_from(s, i, v, radix) matches Some(n) ==> 0 <= n <= u64::MAX,
    decreases s.len() - i,
{
    if i < s.len() && digit(s[i]) is Some {
        let d = digit(s[i])->Some_0;
        assert(0 <= v * radix) by (nonlinear_arith)
            requires
                0 <= v,
                radix > 0,
        ;
        if d < radix && v * radix + d <= u64::MAX {
            lemma_number_range(s, i + 1, v * radix + d, radix);
        }
    }
}

/// The digits printed for `v`, read from the `i`th on, complete it.
proof fn lemma_digits(s: Seq<u8>, i: int, v: int)
    requires
        0 <= i <= s.len(),
        forall|k: int| 0 <= k < s.len() ==> 0x30 <= #[trigger] s[k] <= 0x39,
        v == print::value_of_digits(s, i),
        print::value_of_digits(s, s.len() as int) <= u64::MAX,
    ensures
        number_from(s, i, v, 10) == Some(print::value_of_digits(s, s.len() as int)),
    decreases s.len() - i,
{
    if i < s.len() {
        lemma_grows(s, i + 1);
        assert(0x30 <= s[i] <= 0x39);
        lemma_digits(s, i + 1, v * 10 + (s[i] - 0x30));
    }
}

/// More digits make a number no smaller.
proof fn lemma_grows(s: Seq<u8>, n: int)
    requires
        0 <= n <= s.len(),
        forall|k: int| 0 <= k < s.len() ==> 0x30 <= #[trigger] s[k] <= 0x39,
    ensures
        0 <= print::value_of_digits(s, n) <= print::value_of_digits(s, s.len() as int),
    decreases s.len() - n,
{
    if n < s.len() {
        lemma_grows(s, n + 1);
        assert(0x30 <= s[n] <= 0x39);
        assert(print::value_of_digits(s, n + 1) == print::value_of_digits(s, n) * 10 + (s[n]
            - 0x30));
    }
    lemma_not_negative(s, n);
}

/// Digits never give a negative number.
proof fn lemma_not_negative(s: Seq<u8>, n: int)
    requires
        0 <= n <= s.len(),
        forall|k: int| 0 <= k < s.len() ==> 0x30 <= #[trigger] s[k] <= 0x39,
    ensures
        0 <= print::value_of_digits(s, n),
        n < s.len() ==> print::value_of_digits(s, n) <= print::value_of_digits(s, n + 1),
    decreases n,
{
    if n > 0 {
        lemma_not_negative(s, n - 1);
        assert(0x30 <= s[n - 1] <= 0x39);
    }
    if n < s.len() {
        assert(0x30 <= s[n] <= 0x39);
    }
}

/// Law: a number printed in decimal is read back.
pub proof fn law_decimal_reads_back(v: u64)
    ensures
        number(print::dec(v as int), 10) == Some(v as int),
{
    let s = print::dec(v as int);
    print::law_dec_value(v as int);
    lemma_digits(s, 0, 0);
}

/// The ten characters that show type and permissions.
pub open spec fn mode_text(mode: u16, is_dir: bool) -> Seq<u8> {
    let weight = seq![1int, 256, 128, 64, 32, 16, 8, 4, 2, 1];
    let letter = seq![0x2Du8, 0x72, 0x77, 0x78, 0x72, 0x77, 0x78, 0x72, 0x77, 0x78];
    Seq::new(
        10,
        |i: int|
            if i == 0 {
                type_letter(mode, is_dir)
            } else if mode as int / weight[i] % 2 == 1 {
                letter[i]
            } else {
                0x2Du8
            },
    )
}

/// The character that shows a type: that of the mode, where it has one.
pub open spec fn type_letter(mode: u16, is_dir: bool) -> u8 {
    if mode / 4096 == 4 {
        0x64
    } else if mode / 4096 == 10 {
        0x6C
    } else if mode / 4096 == 8 {
        0x2D
    } else if is_dir {
        0x64
    } else {
        0x2D
    }
}

/// A number in decimal, filled up with zeros on the left to `width` digits.
pub open spec fn padded(v: int, width: int) -> Seq<u8> {
    let d = print::dec(v);
    if d.len() >= width {
        d
    } else {
        Seq::new((width - d.len()) as nat, |i: int| 0x30u8) + d
    }
}

/// A time as year, month, day, hour and minute; 0 is no time.
pub open spec fn shown_time(out: PrintView, secs: u64) -> PrintView {
    if secs == 0 {
        out.say("(unknown)")
    } else {
        let (y, m, d) = calendar::date_of(secs as int / 86400);
        let rem = secs as int % 86400;
        out.text(padded(y, 4)).say("-").text(padded(m, 2)).say("-").text(padded(d, 2)).say(
            " ",
        ).text(padded(rem / 3600, 2)).say(":").text(padded(rem % 3600 / 60, 2))
    }
}

/// Where the character that starts at `i` ends: bytes that only continue one are skipped.
pub open spec fn char_end(s: Seq<u8>, i: int) -> int
    decreases s.len() - i,
{
    if i < s.len() && s[i] / 64 == 2 {
        char_end(s, i + 1)
    } else {
        i
    }
}

/// Continuing bytes lie inside the text.
pub proof fn lemma_char_end(s: Seq<u8>, i: int)
    requires
        0 <= i <= s.len(),
    ensures
        i <= char_end(s, i) <= s.len(),
    decreases s.len() - i,
{
    if i < s.len() && s[i] / 64 == 2 {
        lemma_char_end(s, i + 1);
    }
}

/// A long name from `i` on as the console can show it: one question mark for each character
/// that it has no shape for, at most as many characters as a listing holds.
pub open spec fn long_text(s: Seq<u8>, i: int, room: int) -> Seq<u8>
    decreases room,
{
    if i < 0 || i >= s.len() || room <= 0 {
        Seq::empty()
    } else if s[i] < 0x80 {
        seq![
            if 0x20 <= s[i] < 0x7F {
                s[i]
            } else {
                0x3Fu8
            },
        ] + long_text(s, i + 1, room - 1)
    } else {
        seq![0x3Fu8] + long_text(s, char_end(s, i + 1), room - 1)
    }
}

/// Length of a field without the spaces at its end, of its first `n` bytes.
pub open spec fn field_len(s: Seq<u8>, n: int) -> int
    decreases n,
{
    if n > 0 && s[n - 1] == 0x20 {
        field_len(s, n - 1)
    } else {
        n
    }
}

/// An eleven-byte name as base and extension.
pub open spec fn short_text(name: Seq<u8>) -> Seq<u8> {
    let base = name.subrange(0, 8);
    let ext = name.subrange(8, 11);
    let b = base.subrange(0, field_len(base, 8));
    if ext[0] != 0x20 {
        b + seq![0x2Eu8] + ext.subrange(0, field_len(ext, 3))
    } else {
        b
    }
}

/// The name shown for an entry: its long name where it has one.
pub open spec fn name_text(e: DirEntryView) -> Seq<u8> {
    if e.long.len() > 0 {
        long_text(e.long, 0, DIR_LONG_MAX as int)
    } else {
        short_text(e.name)
    }
}

/// An entry in a listing.
#[verifier::opaque]
pub open spec fn shown_entry(out: PrintView, e: DirEntryView, long: bool) -> PrintView {
    if long {
        shown_time(
            out.text(mode_text(e.mode, e.is_dir)).say(" owner=").text(
                print::dec(e.owner as int),
            ).say(" links=").text(print::dec(e.nlink as int)).say(" size=").text(
                padded(e.size as int, 8),
            ).say("  "),
            e.mtime,
        ).say("  ").text(name_text(e)).line("")
    } else {
        let o = kind_label(out, e).text(name_text(e));
        if e.is_dir {
            o.line("")
        } else {
            o.say("  size=").text(print::dec(e.size as int)).line("")
        }
    }
}

/// The label of an entry's type.
pub open spec fn kind_label(out: PrintView, e: DirEntryView) -> PrintView {
    if e.mode / 4096 == 4 {
        out.say("[DIR]  ")
    } else if e.mode / 4096 == 10 {
        out.say("[LINK] ")
    } else if e.is_dir {
        out.say("[DIR]  ")
    } else {
        out.say("[FILE] ")
    }
}

/// The entries of a listing from `i` on.
pub open spec fn shown_list(out: PrintView, l: Seq<DirEntryView>, i: int, long: bool) -> PrintView
    decreases l.len() - i,
{
    if i >= l.len() {
        out
    } else {
        shown_list(shown_entry(out, l[i], long), l, i + 1, long)
    }
}

/// The line that names a type.
pub open spec fn type_line(out: PrintView, mode: u16, is_dir: bool) -> PrintView {
    if mode / 4096 == 4 {
        out.line("directory")
    } else if mode / 4096 == 10 {
        out.line("symbolic link")
    } else if mode / 4096 == 8 {
        out.line("regular file")
    } else if is_dir {
        out.line("directory")
    } else {
        out.line("regular file")
    }
}

/// A text without the white space around it.
pub fn trim(s: &[u8]) -> (r: Vec<u8>)
    ensures
        r@ == trimmed(s@),
        r.len() <= s.len(),
{
    let mut a: usize = 0;
    let mut more: bool = true;
    while more
        invariant
            a <= s.len(),
            text_start(s@, a as int) == text_start(s@, 0),
            !more ==> a == text_start(s@, 0),
        decreases
            s.len() - a + if more {
                1int
            } else {
                0int
            },
    {
        if a < s.len() && (s[a] == 0x20 || (9 <= s[a] && s[a] <= 13)) {
            a = a + 1;
        } else if s.len() - a >= 2 && is_ws2(s[a], s[a + 1]) {
            a = a + 2;
        } else if s.len() - a >= 3 && is_ws3(s[a], s[a + 1], s[a + 2]) {
            a = a + 3;
        } else {
            more = false;
        }
    }
    let mut n: usize = s.len();
    more = true;
    while more
        invariant
            a <= n <= s.len(),
            text_end(s@, a as int, n as int) == text_end(s@, a as int, s@.len() as int),
            !more ==> n == text_end(s@, a as int, s@.len() as int),
        decreases
            n + if more {
                1int
            } else {
                0int
            },
    {
        if n > a && (s[n - 1] == 0x20 || (9 <= s[n - 1] && s[n - 1] <= 13)) {
            n = n - 1;
        } else if n - a >= 2 && is_ws2(s[n - 2], s[n - 1]) {
            n = n - 2;
        } else if n - a >= 3 && is_ws3(s[n - 3], s[n - 2], s[n - 1]) {
            n = n - 3;
        } else {
            more = false;
        }
    }
    bytes::slice_copy(s, a, n)
}

/// White space of two bytes.
fn is_ws2(a: u8, b: u8) -> (r: bool)
    ensures
        r == ws2(a, b),
{
    a == 0xC2 && (b == 0x85 || b == 0xA0)
}

/// White space of three bytes.
fn is_ws3(a: u8, b: u8, c: u8) -> (r: bool)
    ensures
        r == ws3(a, b, c),
{
    (a == 0xE1 && b == 0x9A && c == 0x80) || (a == 0xE2 && b == 0x80 && ((0x80 <= c && c <= 0x8A)
        || c == 0xA8 || c == 0xA9 || c == 0xAF)) || (a == 0xE2 && b == 0x81 && c == 0x9F) || (a
        == 0xE3 && b == 0x80 && c == 0x80)
}

/// The word before the first space, and the text after it.
pub fn next_word(s: &[u8]) -> (r: Option<(Vec<u8>, Vec<u8>)>)
    ensures
        match (r, split_word(s@)) {
            (Some((a, b)), Some((a2, b2))) => a@ == a2 && b@ == b2 && a.len() <= s.len() && b.len()
                <= s.len(),
            (None, None) => true,
            _ => false,
        },
{
    let mut k: usize = 0;
    while k < s.len() && s[k] != 0x20
        invariant
            k <= s.len(),
            space_at(s@, k as int) == space_at(s@, 0),
        decreases s.len() - k,
    {
        k = k + 1;
    }
    if k >= s.len() {
        return None;
    }
    let word: Vec<u8> = bytes::slice_copy(s, 0, k);
    let rest: Vec<u8> = bytes::slice_copy(s, k + 1, s.len());
    Some((word, trim(&rest)))
}

/// The rest of a text that starts with two given bytes.
pub fn strip_switch(s: &[u8], a: u8, b: u8) -> (r: Option<Vec<u8>>)
    ensures
        bytes::opt(r) == after_switch(s@, a, b),
        r matches Some(v) ==> v.len() <= s.len(),
{
    if s.len() >= 2 && s[0] == a && s[1] == b {
        let rest: Vec<u8> = bytes::slice_copy(s, 2, s.len());
        Some(trim(&rest))
    } else {
        None
    }
}

/// The number that digits give.
pub fn parse_radix(s: &[u8], radix: u64) -> (r: Option<u64>)
    requires
        2 <= radix <= 16,
    ensures
        match r {
            Some(v) => number(s@, radix as int) == Some(v as int),
            None => number(s@, radix as int) is None,
        },
{
    if s.len() == 0 {
        return None;
    }
    let mut v: u64 = 0;
    let mut i: usize = 0;
    while i < s.len()
        invariant
            2 <= radix <= 16,
            i <= s.len(),
            number_from(s@, i as int, v as int, radix as int) == number_from(
                s@,
                0,
                0,
                radix as int,
            ),
            s.len() > 0,
            number(s@, radix as int) == number_from(s@, 0, 0, radix as int),
        decreases s.len() - i,
    {
        let c: u8 = s[i];
        let d: u64 = if 0x30 <= c && c <= 0x39 {
            (c - 0x30) as u64
        } else if 0x61 <= c && c <= 0x66 {
            (c - 0x61) as u64 + 10
        } else {
            return None;
        };
        if d >= radix {
            return None;
        }
        assert(v * radix <= 0xFFFF_FFFF_FFFF_FFFF * 16) by (nonlinear_arith)
            requires
                v <= 0xFFFF_FFFF_FFFF_FFFF,
                radix <= 16,
        ;
        let w: u128 = v as u128 * radix as u128 + d as u128;
        if w > 0xFFFF_FFFF_FFFF_FFFF {
            return None;
        }
        v = w as u64;
        i = i + 1;
    }
    Some(v)
}

/// The number that octal digits give, where it fits 32 bits.
pub fn parse_octal(s: &[u8]) -> (r: Option<u32>)
    ensures
        match (r, number(s@, 8)) {
            (Some(v), Some(n)) => v == n,
            (None, Some(n)) => n > u32::MAX,
            (None, None) => true,
            _ => false,
        },
{
    match parse_radix(s, 8) {
        Some(v) => {
            if v <= 0xFFFF_FFFF {
                Some(v as u32)
            } else {
                None
            }
        },
        None => None,
    }
}

/// The number that decimal digits give.
pub fn parse_dec(s: &[u8]) -> (r: Option<u64>)
    ensures
        match r {
            Some(v) => number(s@, 10) == Some(v as int),
            None => number(s@, 10) is None,
        },
{
    parse_radix(s, 10)
}

/// Prints type and permissions.
pub fn print_mode(p: &mut Printer, mode: u16, is_dir: bool)
    ensures
        final(p)@ == old(p)@.text(mode_text(mode, is_dir)),
{
    let weight: [u16; 10] = [1, 256, 128, 64, 32, 16, 8, 4, 2, 1];
    let letter: [u8; 10] = [0x2D, 0x72, 0x77, 0x78, 0x72, 0x77, 0x78, 0x72, 0x77, 0x78];
    let kind: u16 = mode / 4096;
    let first: u8 = if kind == 4 {
        0x64
    } else if kind == 10 {
        0x6C
    } else if kind == 8 {
        0x2D
    } else if is_dir {
        0x64
    } else {
        0x2D
    };
    let ghost goal = mode_text(mode, is_dir);
    let mut out: Vec<u8> = vec![first];
    let mut i: usize = 1;
    while i < 10
        invariant
            1 <= i <= 10,
            out@.len() == i,
            goal == mode_text(mode, is_dir),
            forall|k: int| 0 <= k < i ==> out@[k] == goal[k],
            weight@ =~= seq![1u16, 256, 128, 64, 32, 16, 8, 4, 2, 1],
            letter@ =~= seq![0x2Du8, 0x72, 0x77, 0x78, 0x72, 0x77, 0x78, 0x72, 0x77, 0x78],
        decreases 10 - i,
    {
        let w: u16 = weight[i];
        assert(w == seq![1int, 256, 128, 64, 32, 16, 8, 4, 2, 1][i as int]);
        assert(letter@[i as int] == seq![
            0x2Du8,
            0x72,
            0x77,
            0x78,
            0x72,
            0x77,
            0x78,
            0x72,
            0x77,
            0x78,
        ][i as int]);
        assert(w > 0);
        out.push(
            if mode / w % 2 == 1 {
                letter[i]
            } else {
                0x2D
            },
        );
        i = i + 1;
    }
    assert(out@ =~= goal);
    p.print_push(&out);
}

/// Prints a number with at least `width` digits.
pub fn print_u64_pad(p: &mut Printer, v: u64, width: usize)
    requires
        width <= 24,
    ensures
        final(p)@ == old(p)@.text(padded(v as int, width as int)),
{
    let mut digits: Vec<u8> = print::dec_bytes(v);
    let ghost d = digits@;
    let mut out: Vec<u8> = Vec::new();
    let n: usize = digits.len();
    while out.len() + n < width
        invariant
            n == d.len(),
            n < width ==> out.len() <= width - n,
            n >= width ==> out.len() == 0,
            width <= 24,
            forall|k: int| 0 <= k < out@.len() ==> out@[k] == 0x30,
        decreases width - out.len(),
    {
        out.push(0x30);
    }
    out.append(&mut digits);
    assert(out@ =~= padded(v as int, width as int));
    p.print_push(&out);
}

/// Prints a time.
pub fn print_time(p: &mut Printer, secs: u64)
    ensures
        final(p)@ == shown_time(old(p)@, secs),
{
    if secs == 0 {
        print::print(p, "(unknown)");
        return;
    }
    let days: u64 = secs / 86400;
    let rem: u64 = secs % 86400;
    let (y, m, d): (i64, i64, i64) = calendar::civil_from_days(days as i64);
    proof {
        lemma_date_positive(days as int);
    }
    print_u64_pad(p, y as u64, 4);
    print::print(p, "-");
    print_u64_pad(p, m as u64, 2);
    print::print(p, "-");
    print_u64_pad(p, d as u64, 2);
    print::print(p, " ");
    print_u64_pad(p, rem / 3600, 2);
    print::print(p, ":");
    print_u64_pad(p, rem % 3600 / 60, 2);
}

/// Dates from 1970 on have no negative parts.
proof fn lemma_date_positive(n: int)
    requires
        n >= 0,
    ensures
        calendar::date_of(n).0 >= 0,
        calendar::date_of(n).1 >= 0,
        calendar::date_of(n).2 >= 0,
{
    calendar::law_number_of_date(n);
    calendar::lemma_doy((n + 719468) % 146097);
}

/// Prints a long name.
#[verifier::loop_isolation(false)]
pub fn print_long_name(p: &mut Printer, name: &[u8])
    ensures
        final(p)@ == old(p)@.text(long_text(name@, 0, DIR_LONG_MAX as int)),
{
    let ghost goal = long_text(name@, 0, DIR_LONG_MAX as int);
    let mut out: Vec<u8> = Vec::new();
    let mut i: usize = 0;
    assert(out@ + goal =~= goal);
    while i < name.len() && out.len() < DIR_LONG_MAX
        invariant
            i <= name.len(),
            out.len() <= DIR_LONG_MAX,
            out@ + long_text(name@, i as int, DIR_LONG_MAX - out.len()) == goal,
        decreases DIR_LONG_MAX - out.len(),
    {
        let b: u8 = name[i];
        let ghost before = out@;
        let ghost room = DIR_LONG_MAX - out.len();
        if b < 0x80 {
            out.push(
                if 0x20 <= b && b < 0x7F {
                    b
                } else {
                    0x3F
                },
            );
            i = i + 1;
        } else {
            out.push(0x3F);
            i = i + 1;
            let ghost from = i as int;
            while i < name.len() && name[i] / 64 == 2
                invariant
                    from <= i <= name.len(),
                    char_end(name@, i as int) == char_end(name@, from),
                decreases name.len() - i,
            {
                i = i + 1;
            }
        }
        assert(out@ + long_text(name@, i as int, room - 1) =~= before + (seq![out@[before.len() as int]]
            + long_text(name@, i as int, room - 1)));
    }
    assert(out@ + Seq::empty() =~= out@);
    p.print_push(&out);
}

/// Prints an eleven-byte name.
pub fn print_83_name(p: &mut Printer, name: &[u8])
    requires
        name@.len() == 11,
    ensures
        final(p)@ == old(p)@.text(short_text(name@)),
{
    let base: Vec<u8> = bytes::slice_copy(name, 0, 8);
    let ext: Vec<u8> = bytes::slice_copy(name, 8, 11);
    let mut end: usize = 8;
    while end > 0 && base[end - 1] == 0x20
        invariant
            end <= 8,
            base.len() == 8,
            field_len(base@, end as int) == field_len(base@, 8),
        decreases end,
    {
        end = end - 1;
    }
    let mut out: Vec<u8> = bytes::slice_copy(&base, 0, end);
    if ext[0] != 0x20 {
        out.push(0x2E);
        let mut n: usize = 3;
        while n > 0 && ext[n - 1] == 0x20
            invariant
                n <= 3,
                ext.len() == 3,
                field_len(ext@, n as int) == field_len(ext@, 3),
            decreases n,
        {
            n = n - 1;
        }
        let mut e: Vec<u8> = bytes::slice_copy(&ext, 0, n);
        out.append(&mut e);
    }
    assert(out@ =~= short_text(name@));
    p.print_push(&out);
}

/// Prints the name of an entry.
pub fn print_entry_name(p: &mut Printer, e: &DirEntry)
    requires
        e.long@.len() > 0 || e.name@.len() == 11,
    ensures
        final(p)@ == old(p)@.text(name_text(e@)),
{
    if e.long.len() > 0 {
        print_long_name(p, &e.long);
    } else {
        print_83_name(p, &e.name);
    }
}

/// Prints the label of an entry's type.
pub fn entry_kind_label(p: &mut Printer, e: &DirEntry)
    ensures
        final(p)@ == kind_label(old(p)@, e@),
{
    let kind: u16 = e.mode / 4096;
    if kind == 4 {
        print::print(p, "[DIR]  ");
    } else if kind == 10 {
        print::print(p, "[LINK] ");
    } else if e.is_dir {
        print::print(p, "[DIR]  ");
    } else {
        print::print(p, "[FILE] ");
    }
}

/// Prints the line that names a type.
pub fn entry_type_name(p: &mut Printer, mode: u16, is_dir: bool)
    ensures
        final(p)@ == type_line(old(p)@, mode, is_dir),
{
    let kind: u16 = mode / 4096;
    if kind == 4 {
        print::println(p, "directory");
    } else if kind == 10 {
        print::println(p, "symbolic link");
    } else if kind == 8 {
        print::println(p, "regular file");
    } else if is_dir {
        print::println(p, "directory");
    } else {
        print::println(p, "regular file");
    }
}

/// Whether every entry has a name to show.
pub open spec fn named(l: Seq<DirEntry>) -> bool {
    forall|i: int|
        0 <= i < l.len() ==> (#[trigger] l[i]).long@.len() > 0 || l[i].name@.len() == 11
}

/// Prints an entry of a listing.
pub fn print_entry(p: &mut Printer, e: &DirEntry, long: bool)
    requires
        e.long@.len() > 0 || e.name@.len() == 11,
    ensures
        final(p)@ == shown_entry(old(p)@, e@, long),
{
    proof {
        reveal(shown_entry);
    }
    if long {
        print_mode(p, e.mode, e.is_dir);
        print::print(p, " owner=");
        print::print_u64(p, e.owner as u64);
        print::print(p, " links=");
        print::print_u64(p, e.nlink as u64);
        print::print(p, " size=");
        print_u64_pad(p, e.size, 8);
        print::print(p, "  ");
        print_time(p, e.mtime);
        print::print(p, "  ");
        print_entry_name(p, e);
        print::println(p, "");
    } else {
        entry_kind_label(p, e);
        print_entry_name(p, e);
        if !e.is_dir {
            print::print(p, "  size=");
            print::print_u64(p, e.size);
        }
        print::println(p, "");
    }
}

/// Prints a listing.
pub fn print_list(p: &mut Printer, l: &Vec<DirEntry>, long: bool)
    requires
        named(l@),
    ensures
        final(p)@ == shown_list(old(p)@, vfs::entries_view(l@), 0, long),
{
    let ghost v = vfs::entries_view(l@);
    let mut i: usize = 0;
    while i < l.len()
        invariant
            i <= l.len(),
            named(l@),
            v == vfs::entries_view(l@),
            shown_list(p@, v, i as int, long) == shown_list(old(p)@, v, 0, long),
        decreases l.len() - i,
    {
        assert(v[i as int] == l@[i as int]@);
        print_entry(p, &l[i], long);
        i = i + 1;
    }
}

/// Whether a listing holds a file (or directory) with an eleven-byte name.
pub open spec fn has_short(l: Seq<DirEntryView>, name: Seq<u8>, is_dir: bool) -> bool {
    exists|i: int| 0 <= i < l.len() && (#[trigger] l[i]).name == name && l[i].is_dir == is_dir
}

/// Whether a listing holds a file (or directory) with a long name.
pub open spec fn has_long(l: Seq<DirEntryView>, name: Seq<u8>, is_dir: bool) -> bool {
    exists|i: int| 0 <= i < l.len() && (#[trigger] l[i]).long == name && l[i].is_dir == is_dir
}

/// Whether a listing holds a name that is one of eight characters and an extension of three.
pub fn readdir_has(l: &Vec<DirEntry>, name: &[u8], want_dir: bool) -> (r: bool)
    ensures
        r == match fat_name::short_name(name@) {
            None => false,
            Some(sn) => has_short(vfs::entries_view(l@), sn, want_dir),
        },
{
    let sn: Vec<u8> = match fat_name::short_name_from_query(name) {
        Some(s) => s,
        None => {
            return false;
        },
    };
    let ghost v = vfs::entries_view(l@);
    let mut i: usize = 0;
    while i < l.len()
        invariant
            i <= l.len(),
            v == vfs::entries_view(l@),
            fat_name::short_name(name@) == Some(sn@),
            forall|k: int| 0 <= k < i ==> !((#[trigger] v[k]).name == sn@ && v[k].is_dir == want_dir),
        decreases l.len() - i,
    {
        assert(v[i as int] == l@[i as int]@);
        if bytes::bytes_eq(&l[i].name, &sn) && l[i].is_dir == want_dir {
            assert(v[i as int].name == sn@ && has_short(v, sn@, want_dir));
            return true;
        }
        i = i + 1;
    }
    false
}

/// Whether a listing holds a long name.
pub fn readdir_has_long(l: &Vec<DirEntry>, name: &[u8], want_dir: bool) -> (r: bool)
    ensures
        r == has_long(vfs::entries_view(l@), name@, want_dir),
{
    let ghost v = vfs::entries_view(l@);
    let mut i: usize = 0;
    while i < l.len()
        invariant
            i <= l.len(),
            v == vfs::entries_view(l@),
            forall|k: int| 0 <= k < i ==> !((#[trigger] v[k]).long == name@ && v[k].is_dir == want_dir),
        decreases l.len() - i,
    {
        assert(v[i as int] == l@[i as int]@);
        if bytes::bytes_eq(&l[i].long, name) && l[i].is_dir == want_dir {
            return true;
        }
        i = i + 1;
    }
    false
}

} // verus!
