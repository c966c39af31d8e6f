//! What holds of numbers, times, names and modes as they are typed and shown.
use vstd::prelude::*;

use crate::calendar;
use crate::print;
use crate::print::PrintView;
use crate::text;
use crate::vfs::DirEntryView;

verus! {

/// The value of a digit: the ten digits, then the letters from `a` to `f`.
pub open spec fn worth(c: u8) -> int {
    if 0x30 <= c <= 0x39 {
        c - 48
    } else if 0x61 <= c <= 0x66 {
        c - 87
    } else {
        99
    }
}

/// Digits with one more, from position `i` on.
proof fn lemma_more(s: Seq<u8>, c: u8, i: int, v: int, radix: int)
    requires
        0 <= i <= s.len(),
        radix == 8 || radix == 10 || radix == 16,
    ensures
        text::number_from(s.push(c), i, v, radix) == match text::number_from(s, i, v, radix) {
            Some(n) => if worth(c) < radix && n * radix + worth(c) <= u64::MAX {
                Some(n * radix + worth(c))
            } else {
                None
            },
            None => None,
        },
    decreases s.len() - i,
{
    let t = s.push(c);
    if i == s.len() {
        reveal_with_fuel(text::number_from, 2);
        assert(t[i] == c);
    } else {
        assert(t[i] == s[i]);
        if text::digit(s[i]) is Some {
            let d = text::digit(s[i])->Some_0;
            if d < radix && v * radix + d <= u64::MAX {
                lemma_more(s, c, i + 1, v * radix + d, radix);
            }
        }
    }
}

/// Law: a number is read digit by digit. One digit is its value; one more makes the number before
/// it as many times larger as there are digits, and adds its value. What is no digit, and what gets
/// too large for 64 bits, is no number.
pub proof fn law_digit_by_digit(s: Seq<u8>, c: u8, radix: int)
    requires
        radix == 8 || radix == 10 || radix == 16,
    ensures
        text::number(Seq::empty(), radix) is None,
        text::number(seq![c], radix) == if worth(c) < radix {
            Some(worth(c))
        } else {
            None
        },
        s.len() > 0 ==> text::number(s.push(c), radix) == match text::number(s, radix) {
            Some(n) => if worth(c) < radix && n * radix + worth(c) <= u64::MAX {
                Some(n * radix + worth(c))
            } else {
                None
            },
            None => None,
        },
{
    lemma_more(s, c, 0, 0, radix);
    lemma_more(Seq::empty(), c, 0, 0, radix);
    assert(Seq::<u8>::empty().push(c) =~= seq![c]);
    assert(0 * radix == 0) by (nonlinear_arith);
}

/// Law: the ten characters of a mode are its type, then reading, writing and running for the owner,
/// the group and the others, each as its letter where the bit is set and as `-` where it is not,
/// from the highest of the nine bits down.
pub proof fn law_mode_text(mode: u16, is_dir: bool)
    ensures
        ({
            let t = text::mode_text(mode, is_dir);
            &&& t.len() == 10
            &&& t[0] == if mode >> 12u16 == 4 || (mode >> 12u16 != 8 && mode >> 12u16 != 10
                && is_dir) {
                0x64u8
            } else if mode >> 12u16 == 10 {
                0x6Cu8
            } else {
                0x2Du8
            }
            &&& t[1] == if mode & 0o400 != 0 { 0x72u8 } else { 0x2D }
            &&& t[2] == if mode & 0o200 != 0 { 0x77u8 } else { 0x2D }
            &&& t[3] == if mode & 0o100 != 0 { 0x78u8 } else { 0x2D }
            &&& t[4] == if mode & 0o40 != 0 { 0x72u8 } else { 0x2D }
            &&& t[5] == if mode & 0o20 != 0 { 0x77u8 } else { 0x2D }
            &&& t[6] == if mode & 0o10 != 0 { 0x78u8 } else { 0x2D }
            &&& t[7] == if mode & 4 != 0 { 0x72u8 } else { 0x2D }
            &&& t[8] == if mode & 2 != 0 { 0x77u8 } else { 0x2D }
            &&& t[9] == if mode & 1 != 0 { 0x78u8 } else { 0x2D }
        }),
{
    assert({
        &&& (mode & 256 != 0) == (mode / 256 % 2 == 1)
        &&& (mode & 128 != 0) == (mode / 128 % 2 == 1)
        &&& (mode & 64 != 0) == (mode / 64 % 2 == 1)
        &&& (mode & 32 != 0) == (mode / 32 % 2 == 1)
        &&& (mode & 16 != 0) == (mode / 16 % 2 == 1)
        &&& (mode & 8 != 0) == (mode / 8 % 2 == 1)
        &&& (mode & 4 != 0) == (mode / 4 % 2 == 1)
        &&& (mode & 2 != 0) == (mode / 2 % 2 == 1)
        &&& (mode & 1 != 0) == (mode % 2 == 1)
        &&& mode >> 12u16 == mode / 4096
    }) by (bit_vector);
}

/// Two digits.
pub open spec fn two(v: int) -> Seq<u8> {
    seq![(0x30 + v / 10) as u8, (0x30 + v % 10) as u8]
}

/// Small numbers with zeros in front.
proof fn lemma_padded(v: int)
    requires
        0 <= v <= 9999,
    ensures
        v <= 99 ==> text::padded(v, 2) == two(v),
        v >= 1000 ==> text::padded(v, 4) == two(v / 100) + two(v % 100),
{
    reveal_with_fuel(print::dec, 4);
    if v <= 9 {
        assert(text::padded(v, 2) =~= two(v));
    } else if v <= 99 {
        assert(text::padded(v, 2) =~= two(v));
    }
    if v >= 1000 {
        assert(v / 10 / 10 == v / 100);
        assert(v / 10 / 10 / 10 == v / 1000);
        assert(print::dec(v) =~= two(v / 100) + two(v % 100));
    }
}

/// Law: a time is shown as its date and its hour and minute, and no time as unknown.
pub proof fn law_time_shown(
    out: PrintView,
    y: int,
    m: int,
    d: int,
    h: int,
    mi: int,
    s: int,
    secs: u64,
)
    requires
        calendar::is_date(y, m, d),
        1000 <= y <= 9999,
        0 <= h < 24,
        0 <= mi < 60,
        0 <= s < 60,
        secs == calendar::day_number(y, m, d) * 86400 + h * 3600 + mi * 60 + s,
        secs > 0,
    ensures
        text::shown_time(out, secs) == out.text(two(y / 100) + two(y % 100)).say("-").text(
            two(m),
        ).say("-").text(two(d)).say(" ").text(two(h)).say(":").text(two(mi)),
        text::shown_time(out, 0) == out.say("(unknown)"),
{
    let n = calendar::day_number(y, m, d);
    let rem = h * 3600 + mi * 60 + s;
    assert(secs as int / 86400 == n && secs as int % 86400 == rem);
    calendar::law_date_of_number(y, m, d);
    assert(rem / 3600 == h);
    assert(rem % 3600 / 60 == mi);
    lemma_padded(y);
    lemma_padded(m);
    lemma_padded(d);
    lemma_padded(h);
    lemma_padded(mi);
}

/// Law: a stamp holds the year since 1980, the month, the day, the hour, the minute and half the
/// second, in 7, 4, 5, 5, 6 and 5 bits, and a second that is odd in hundredths.
pub proof fn law_stamp(y: int, m: int, d: int, h: int, mi: int, s: int, secs: u64)
    requires
        calendar::is_date(y, m, d),
        1980 <= y <= 2107,
        0 <= h < 24,
        0 <= mi < 60,
        0 <= s < 60,
        secs == calendar::day_number(y, m, d) * 86400 + h * 3600 + mi * 60 + s,
        secs > 0,
    ensures
        calendar::stamp_of(secs).0 == (y - 1980) * 0x200_0000 + m * 0x20_0000 + d * 0x1_0000 + h
            * 0x800 + mi * 0x20 + s / 2,
        calendar::stamp_of(secs).1 == s % 2 * 100,
        calendar::stamp_of(0) == (0u32, 0u8),
{
    let n = calendar::day_number(y, m, d);
    let rem = h * 3600 + mi * 60 + s;
    assert(secs as int / 86400 == n && secs as int % 86400 == rem);
    calendar::law_date_of_number(y, m, d);
    assert(rem / 3600 == h);
    assert(rem % 3600 / 60 == mi);
    assert(rem % 60 == s);
}

/// Law: every year has twelve months of 31 days but for April, June, September and November with
/// 30, and February with 28, or 29 where the year can be divided by 4 and, if by 100, then by 400.
pub proof fn law_months(y: int, m: int)
    requires
        1 <= m <= 12,
    ensures
        calendar::month_len(y, m) == seq![
            31int,
            if y % 400 == 0 || (y % 4 == 0 && y % 100 != 0) {
                29
            } else {
                28
            },
            31,
            30,
            31,
            30,
            31,
            31,
            30,
            31,
            30,
            31,
        ][m - 1],
{
}

/// Law: a name of characters that can be shown is shown as it is, up to 64 of them.
pub proof fn law_name_shown(s: Seq<u8>, i: int, room: int)
    requires
        0 <= i <= s.len(),
        forall|k: int| 0 <= k < s.len() ==> 0x20 <= #[trigger] s[k] < 0x7F,
        0 <= room,
    ensures
        text::long_text(s, i, room) == if s.len() - i <= room {
            s.subrange(i, s.len() as int)
        } else {
            s.subrange(i, i + room)
        },
    decreases room,
{
    let want = if s.len() - i <= room {
        s.subrange(i, s.len() as int)
    } else {
        s.subrange(i, i + room)
    };
    if i < s.len() && room > 0 {
        law_name_shown(s, i + 1, room - 1);
        assert(0x20 <= s[i] < 0x7F);
        assert(text::long_text(s, i, room) =~= want);
    } else {
        assert(text::long_text(s, i, room) =~= want);
    }
}

/// A field without the spaces at its end.
proof fn lemma_field(s: Seq<u8>, k: int, n: int)
    requires
        0 <= k <= n,
        k > 0 ==> s[k - 1] != 0x20,
        forall|i: int| k <= i < n ==> #[trigger] s[i] == 0x20,
    ensures
        text::field_len(s, n) == k,
    decreases n,
{
    if k < n {
        assert(s[n - 1] == 0x20);
        lemma_field(s, k, n - 1);
    }
}

/// Law: the eleven bytes of a short name are shown as what they hold of the name, and, behind a
/// dot, of the extension, where there is one.
pub proof fn law_short_shown(name: Seq<u8>, a: Seq<u8>, x: Seq<u8>)
    requires
        name.len() == 11,
        a.len() <= 8,
        x.len() <= 3,
        a.len() > 0 ==> a.last() != 0x20,
        x.len() > 0 ==> x.last() != 0x20 && x[0] != 0x20,
        forall|i: int|
            0 <= i < 8 ==> #[trigger] name[i] == if i < a.len() {
                a[i]
            } else {
                0x20
            },
        forall|i: int|
            8 <= i < 11 ==> #[trigger] name[i] == if i - 8 < x.len() {
                x[i - 8]
            } else {
                0x20
            },
    ensures
        text::short_text(name) == if x.len() > 0 {
            a + seq![0x2Eu8] + x
        } else {
            a
        },
{
    let base = name.subrange(0, 8);
    let ext = name.subrange(8, 11);
    assert forall|i: int| 0 <= i < 3 implies #[trigger] ext[i] == if i < x.len() {
        x[i]
    } else {
        0x20
    } by {
        assert(ext[i] == name[i + 8]);
    }
    assert forall|i: int| 0 <= i < 8 implies #[trigger] base[i] == if i < a.len() {
        a[i]
    } else {
        0x20
    } by {
        assert(base[i] == name[i]);
    }
    lemma_field(base, a.len() as int, 8);
    lemma_field(ext, x.len() as int, 3);
    assert(base.subrange(0, a.len() as int) =~= a);
    assert(ext.subrange(0, x.len() as int) =~= x);
    assert(ext[0] == name[8]);
}

/// Law: a listing shows the entries one after the other. The short form says whether an entry is a
/// directory, a link or a file, its name, and of all but directories the size. The long form says
/// the mode, the owner, how many names there are, the size in at least eight digits, when it was
/// changed, and the name.
pub proof fn law_listing_shown(out: PrintView, l: Seq<DirEntryView>, e: DirEntryView, long: bool)
    ensures
        text::shown_list(out, Seq::empty(), 0, long) == out,
        text::shown_list(out, l.push(e), 0, long) == text::shown_entry(
            text::shown_list(out, l, 0, long),
            e,
            long,
        ),
        ({
            let n = if e.long.len() > 0 {
                text::long_text(e.long, 0, 64)
            } else {
                text::short_text(e.name)
            };
            let link = e.mode >> 12u16 == 10;
            let dir = e.mode >> 12u16 == 4 || (e.is_dir && !link);
            let head = out.say(
                if dir {
                    "[DIR]  "
                } else if link {
                    "[LINK] "
                } else {
                    "[FILE] "
                },
            ).text(n);
            &&& text::shown_entry(out, e, false) == if e.is_dir {
                head.line("")
            } else {
                head.say("  size=").text(print::dec(e.size as int)).line("")
            }
            &&& text::shown_entry(out, e, true) == text::shown_time(
                out.text(text::mode_text(e.mode, e.is_dir)).say(" owner=").text(
                    print::dec(e.owner as int),
                ).say(" links=").text(print::dec(e.nlink as int)).say(" size=").text(
                    text::padded(e.size as int, 8),
                ).say("  "),
                e.mtime,
            ).say("  ").text(n).line("")
        }),
{
    reveal(text::shown_entry);
    let mode = e.mode;
    assert(mode >> 12u16 == mode / 4096) by (bit_vector);
    lemma_list_more(out, l, e, 0, long);
}

/// One entry more in a listing.
proof fn lemma_list_more(
    out: PrintView,
    l: Seq<DirEntryView>,
    e: DirEntryView,
    i: int,
    long: bool,
)
    requires
        0 <= i <= l.len(),
    ensures
        text::shown_list(out, l.push(e), i, long) == text::shown_entry(
            text::shown_list(out, l, i, long),
            e,
            long,
        ),
    decreases l.len() - i,
{
    let m = l.push(e);
    if i < l.len() {
        assert(m[i] == l[i]);
        lemma_list_more(text::shown_entry(out, l[i], long), l, e, i + 1, long);
    } else {
        reveal_with_fuel(text::shown_list, 2);
        assert(m[i] == e);
    }
}

/// Law: a number in hexadecimal is written digit by digit, the sixteen digits in their order, in
/// lower case.
pub proof fn law_hex(v: int, d: int)
    requires
        0 <= v,
        0 <= d < 16,
    ensures
        print::hex(d) == seq![
            seq![
                0x30u8,
                0x31,
                0x32,
                0x33,
                0x34,
                0x35,
                0x36,
                0x37,
                0x38,
                0x39,
                0x61,
                0x62,
                0x63,
                0x64,
                0x65,
                0x66,
            ][d],
        ],
        v > 0 ==> print::hex(16 * v + d) == print::hex(v) + print::hex(d),
{
    if v > 0 {
        assert((16 * v + d) / 16 == v && (16 * v + d) % 16 == d);
        assert(print::hex(16 * v + d) =~= print::hex(v) + print::hex(d));
    }
}

} // verus!
