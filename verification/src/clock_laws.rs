//! What holds of the time that the clock chip tells, and of the roles of the domains.
use vstd::prelude::*;

use crate::calendar;
use crate::calendar::RtcRegs;
use crate::domain;

verus! {

/// The registers are binary.
pub open spec fn is_binary(r: RtcRegs) -> bool {
    r.stat_b & 4u8 != 0
}

/// The hours run to 24.
pub open spec fn is_h24(r: RtcRegs) -> bool {
    r.stat_b & 2u8 != 0
}

/// A register holds `v`: as it is where the registers are binary, else its tens in the upper half
/// and its ones in the lower half.
pub open spec fn digits(r: RtcRegs, reg: int, v: int) -> bool {
    if is_binary(r) {
        reg == v
    } else {
        reg == v / 10 * 16 + v % 10
    }
}

/// The register of the hour holds `hour`. Where hours run to 12 those of the afternoon have the top
/// bit; 12 is the hour 12, but 0 in binary with the top bit.
pub open spec fn holds_hour(r: RtcRegs, hour: int) -> bool {
    if is_h24(r) {
        digits(r, r.hour as int, hour)
    } else if hour > 12 {
        digits(r, r.hour - 128, hour - 12)
    } else if hour == 0 {
        is_binary(r) && r.hour == 128 + 12
    } else {
        digits(r, r.hour as int, hour)
    }
}

/// The two bits.
proof fn lemma_bits(r: RtcRegs)
    ensures
        is_binary(r) == r.binary(),
        is_h24(r) == r.h24(),
{
    let b = r.stat_b;
    assert((b & 4u8 != 0) == (b / 4 % 2 == 1)) by (bit_vector);
    assert((b & 2u8 != 0) == (b / 2 % 2 == 1)) by (bit_vector);
}

/// A register is read.
proof fn lemma_number(r: RtcRegs, reg: u8, v: int)
    requires
        0 <= v <= 99,
        digits(r, reg as int, v),
    ensures
        r.number(reg) == v,
{
    lemma_bits(r);
}

/// The hour is read.
proof fn lemma_hour(r: RtcRegs, hour: int)
    requires
        0 <= hour <= 23,
        holds_hour(r, hour),
    ensures
        r.hour24() == hour,
{
    lemma_bits(r);
}

/// The year is read.
proof fn lemma_year(r: RtcRegs, year: int)
    requires
        1970 <= year <= 2069,
        digits(r, r.year as int, year % 100),
    ensures
        r.full_year() == year,
{
    lemma_number(r, r.year, year % 100);
}

/// The number of a day in this and the last century.
proof fn lemma_range(year: int, mon: int, day: int)
    requires
        1970 <= year <= 2069,
        1 <= mon <= 12,
        1 <= day <= 31,
    ensures
        0 <= calendar::day_number(year, mon, day) <= 100_000,
{
}

/// The seconds.
proof fn lemma_unix(r: RtcRegs, d: int)
    requires
        1970 <= r.full_year() <= 2069,
        1 <= r.number(r.mon) <= 12,
        1 <= r.number(r.day) <= 31,
        0 <= r.hour24() <= 23,
        0 <= r.number(r.min) <= 59,
        0 <= r.number(r.sec) <= 60,
        d == calendar::day_number(
            r.full_year(),
            r.number(r.mon) as int,
            r.number(r.day) as int,
        ),
    ensures
        r.unix() matches Some(t) && t == d * 86400 + r.hour24() * 3600 + r.number(r.min) * 60
            + r.number(r.sec),
{
    lemma_range(r.full_year(), r.number(r.mon) as int, r.number(r.day) as int);
}

/// Law: the time that the clock chip tells is the number of seconds since 1970: the days up to the
/// date, where a year of two digits is of this century below 70, and the seconds of the day.
pub proof fn law_clock(r: RtcRegs, year: int, mon: int, day: int, hour: int, min: int, sec: int)
    requires
        1970 <= year <= 2069,
        1 <= mon <= 12,
        1 <= day <= 31,
        0 <= hour <= 23,
        0 <= min <= 59,
        0 <= sec <= 60,
        digits(r, r.year as int, year % 100),
        digits(r, r.mon as int, mon),
        digits(r, r.day as int, day),
        holds_hour(r, hour),
        digits(r, r.min as int, min),
        digits(r, r.sec as int, sec),
    ensures
        r.unix() matches Some(t) && t == calendar::day_number(year, mon, day) * 86400 + hour * 3600
            + min * 60 + sec,
{
    assert(r.number(r.mon) == mon) by {
        lemma_number(r, r.mon, mon);
    }
    assert(r.number(r.day) == day) by {
        lemma_number(r, r.day, day);
    }
    assert(r.number(r.min) == min) by {
        lemma_number(r, r.min, min);
    }
    assert(r.number(r.sec) == sec) by {
        lemma_number(r, r.sec, sec);
    }
    assert(r.hour24() == hour) by {
        lemma_hour(r, hour);
    }
    assert(r.full_year() == year) by {
        lemma_year(r, year);
    }
    lemma_unix(r, calendar::day_number(year, mon, day));
}

/// Law: a date or a time that cannot be is not told.
pub proof fn law_clock_refused(r: RtcRegs, v: int)
    requires
        0 <= v <= 99,
    ensures
        digits(r, r.mon as int, v) && (v == 0 || v > 12) ==> r.unix() is None,
        digits(r, r.day as int, v) && (v == 0 || v > 31) ==> r.unix() is None,
        digits(r, r.min as int, v) && v > 59 ==> r.unix() is None,
        digits(r, r.sec as int, v) && v > 60 ==> r.unix() is None,
        is_h24(r) && digits(r, r.hour as int, v) && 23 < v < 80 ==> r.unix() is None,
{
    lemma_bits(r);
}

/// Law: two readings of the clock that agree are believed. Where they differ it is read again, up
/// to the fourth time; a time that is not known is 0.
pub proof fn law_settled(attempt: u32, x: u64, y: u64)
    ensures
        calendar::settled(attempt, Some(x), Some(x)) == Some(x),
        x != y && attempt < 4 ==> calendar::settled(attempt, Some(x), Some(y)) is None,
        x != y && attempt >= 4 ==> calendar::settled(attempt, Some(x), Some(y)) == Some(0u64),
        calendar::settled(attempt, None, Some(x)) == Some(0u64),
        calendar::settled(attempt, Some(x), None) == Some(0u64),
        calendar::settled(attempt, None, None) == Some(0u64),
{
}

/// Law: each role but idling is that of exactly one domain, and the file services are those of the
/// domains 6 and 10 to 13.
pub proof fn law_roles(d: u64, e: u64)
    ensures
        domain::role_spec(d) == domain::role_spec(e) && d != e ==> domain::role_spec(d) is Idle,
        domain::role_spec(d) is Idle <==> d >= 14,
        domain::role_spec(d) is Sender <==> d == 0,
        domain::role_spec(d) is Receiver <==> d == 1,
        domain::role_spec(d) is Pager <==> d == 2,
        domain::role_spec(d) is Echo <==> d == 3,
        domain::role_spec(d) is Keyboard <==> d == 4,
        domain::role_spec(d) is Block <==> d == 5,
        domain::role_spec(d) is Fat32 <==> d == 6,
        domain::role_spec(d) is App <==> d == 7,
        domain::role_spec(d) is Shell <==> d == 8,
        domain::role_spec(d) is Mount <==> d == 9,
        domain::role_spec(d) is Tmpfs <==> d == 10,
        domain::role_spec(d) is Mfs <==> d == 11,
        domain::role_spec(d) is Ext2 <==> d == 12,
        domain::role_spec(d) is Exfat <==> d == 13,
{
}

} // verus!
