//! Dates and times: the calendar, the clock chip, packed time stamps.
use vstd::prelude::*;

verus! {

/// Whether a year has a 29th of February.
pub open spec fn is_leap(y: int) -> bool {
    y % 4 == 0 && (y % 100 != 0 || y % 400 == 0)
}

/// Days of month `m`.
pub open spec fn month_len(y: int, m: int) -> int {
    if m == 2 {
        if is_leap(y) {
            29
        } else {
            28
        }
    } else if m == 4 || m == 6 || m == 9 || m == 11 {
        30
    } else {
        31
    }
}

/// Whether there is such a day.
pub open spec fn is_date(y: int, m: int, d: int) -> bool {
    1 <= m <= 12 && 1 <= d <= month_len(y, m)
}

/// The day after.
pub open spec fn next_date(y: int, m: int, d: int) -> (int, int, int) {
    if d < month_len(y, m) {
        (y, m, d + 1)
    } else if m < 12 {
        (y, m + 1, 1)
    } else {
        (y + 1, 1, 1)
    }
}

/// Months since March.
pub open spec fn months_of(m: int) -> int {
    if m > 2 {
        m - 3
    } else {
        m + 9
    }
}

/// A fifth, cut towards 0.
pub open spec fn fifth(v: int) -> int {
    if v >= 0 {
        v / 5
    } else {
        -((-v) / 5)
    }
}

/// Days before day `d` of month `m` in a year that starts in March.
pub open spec fn day_of_year(m: int, d: int) -> int {
    fifth(153 * months_of(m) + 2) + d - 1
}

/// Days before year `yoe` of a cycle of 400 years.
pub open spec fn days_before(yoe: int) -> int {
    yoe * 365 + yoe / 4 - yoe / 100
}

/// Number of a day, counted from 1970-01-01; the year is taken to start in March.
pub open spec fn day_number(y: int, m: int, d: int) -> int {
    let yy = if m <= 2 {
        y - 1
    } else {
        y
    };
    yy / 400 * 146097 + days_before(yy % 400) + day_of_year(m, d) - 719468
}

/// A number that an `i64` holds.
pub open spec fn fits(v: int) -> bool {
    i64::MIN <= v <= i64::MAX
}

/// The number of a day can be computed: every number on the way fits.
pub open spec fn number_fits(y: int, m: int, d: int) -> bool {
    let yy = if m <= 2 {
        y - 1
    } else {
        y
    };
    let part = fifth(153 * months_of(m) + 2);
    let doe = days_before(yy % 400) + day_of_year(m, d);
    &&& fits(yy)
    &&& fits(153 * months_of(m))
    &&& fits(153 * months_of(m) + 2)
    &&& fits(part + d)
    &&& fits(part + d - 1)
    &&& fits(doe)
    &&& fits(yy / 400 * 146097)
    &&& fits(yy / 400 * 146097 + doe)
    &&& fits(day_number(y, m, d))
}

/// The year, month and day of a day number.
pub open spec fn date_of(n: int) -> (int, int, int) {
    let z = n + 719468;
    let doe = z % 146097;
    let yoe = (doe - doe / 1460 + doe / 36524 - doe / 146096) / 365;
    let doy = doe - days_before(yoe);
    let mp = (5 * doy + 2) / 153;
    let m = if mp < 10 {
        mp + 3
    } else {
        mp - 9
    };
    let y = yoe + z / 146097 * 400;
    (
        if m <= 2 {
            y + 1
        } else {
            y
        },
        m,
        doy - (153 * mp + 2) / 5 + 1,
    )
}

/// Law: day 0 is the first of January 1970.
pub proof fn law_epoch()
    ensures
        day_number(1970, 1, 1) == 0,
{
}

/// Law: the day after a day has the next number. With the number of day 0 this says what
/// every number is.
pub proof fn law_next_day(y: int, m: int, d: int)
    requires
        is_date(y, m, d),
    ensures
        ({
            let (y2, m2, d2) = next_date(y, m, d);
            day_number(y2, m2, d2) == day_number(y, m, d) + 1 && is_date(y2, m2, d2)
        }),
{
    if m == 2 && d == month_len(y, m) {
        lemma_march(y);
    }
}

/// Where year `y` stands in its cycle, and the year before it.
proof fn lemma_cycle(y: int)
    ensures
        y == 400 * (y / 400) + y % 400,
        0 <= y % 400 < 400,
        y % 400 == 0 ==> (y - 1) / 400 == y / 400 - 1 && (y - 1) % 400 == 399,
        y % 400 != 0 ==> (y - 1) / 400 == y / 400 && (y - 1) % 400 == y % 400 - 1,
{
}

/// Leap years within the cycle.
proof fn lemma_leap(y: int)
    ensures
        is_leap(y) == (y % 400 == 0 || (y % 400 % 4 == 0 && y % 400 % 100 != 0)),
{
    let c = y / 400;
    let r = y % 400;
    assert(y == 4 * (100 * c) + r);
    assert(y % 4 == r % 4);
    assert(y == 100 * (4 * c) + r);
    assert(y % 100 == r % 100);
}

/// The days of year `r` of the cycle.
proof fn lemma_year_days(r: int)
    requires
        0 < r < 400,
    ensures
        days_before(r) == days_before(r - 1) + (if r % 4 == 0 && r % 100 != 0 {
            366int
        } else {
            365int
        }),
{
    assert(r / 4 == (r - 1) / 4 + (if r % 4 == 0 {
        1int
    } else {
        0int
    }));
    assert(r / 100 == (r - 1) / 100 + (if r % 100 == 0 {
        1int
    } else {
        0int
    }));
    if r % 100 == 0 {
        assert(r % 4 == 0);
    }
}

/// The first of March follows the last of February.
proof fn lemma_march(y: int)
    ensures
        day_number(y, 3, 1) == day_number(y, 2, month_len(y, 2)) + 1,
{
    let c = y / 400;
    let r = y % 400;
    let len = month_len(y, 2);
    lemma_cycle(y);
    lemma_leap(y);
    assert(day_of_year(3, 1) == 0);
    assert(day_of_year(2, len) == 336 + len);
    assert(day_number(y, 3, 1) == c * 146097 + days_before(r) - 719468);
    if r == 0 {
        assert(days_before(399) == 145731);
        assert(days_before(0) == 0);
        assert(day_number(y, 2, len) == (c - 1) * 146097 + 145731 + 336 + len - 719468);
    } else {
        lemma_year_days(r);
        assert(day_number(y, 2, len) == c * 146097 + days_before(r - 1) + 336 + len - 719468);
    }
}

/// Year `yoe` of the cycle is found from a day of it.
proof fn lemma_year(yoe: int, doy: int)
    requires
        0 <= yoe < 400,
        0 <= doy < 365 || (doy == 365 && days_before(yoe + 1) == days_before(yoe) + 366) || (doy
            == 365 && yoe == 399),
    ensures
        ({
            let doe = days_before(yoe) + doy;
            0 <= doe < 146097 && (doe - doe / 1460 + doe / 36524 - doe / 146096) / 365 == yoe
        }),
{
    let doe = days_before(yoe) + doy;
    let a = yoe / 100;
    let b = yoe % 100;
    let e = b / 4;
    let f = b % 4;
    assert(yoe == 100 * a + 4 * e + f && 0 <= a <= 3 && 0 <= e <= 24 && 0 <= f <= 3);
    assert(yoe / 4 == 25 * a + e);
    assert(doe == 36524 * a + 1461 * e + 365 * f + doy);
    if doe == 146096 {
    } else {
        assert(doe / 36524 == a) by {
            assert(0 <= 1461 * e + 365 * f + doy < 36524) by {
                if doy == 365 && yoe != 399 {
                    assert((yoe + 1) / 4 == yoe / 4 + 1);
                    assert(f == 3);
                    assert((yoe + 1) / 100 == yoe / 100);
                    assert(e <= 23);
                }
            }
        }
        let v = doe - doe / 1460 + doe / 36524;
        let q = doe / 1460;
        assert(q * 1460 <= doe < q * 1460 + 1460);
        let base = 25 * a + e;
        assert(doe == 1460 * base + 24 * a + e + 365 * f + doy);
        if f == 3 && doy == 365 {
            assert(q == base || q == base + 1);
        }
        assert(q >= base);
        assert(q <= base + 1);
        assert(365 * yoe <= v < 365 * yoe + 365);
    }
}

/// The month and day are found from the day of the year that starts in March.
proof fn lemma_month(m: int, d: int)
    requires
        1 <= m <= 12,
        1 <= d <= (if m == 2 {
            29int
        } else if m == 4 || m == 6 || m == 9 || m == 11 {
            30int
        } else {
            31int
        }),
    ensures
        ({
            let doy = day_of_year(m, d);
            let mp = (5 * doy + 2) / 153;
            &&& 0 <= doy <= 365
            &&& doy == 365 ==> m == 2 && d == 29
            &&& m == (if mp < 10 {
                mp + 3
            } else {
                mp - 9
            })
            &&& d == doy - (153 * mp + 2) / 5 + 1
        }),
{
}

/// Law: the date of a day's number is that day.
pub proof fn law_date_of_number(y: int, m: int, d: int)
    requires
        is_date(y, m, d),
    ensures
        date_of(day_number(y, m, d)) == (y, m, d),
{
    let yy = if m <= 2 {
        y - 1
    } else {
        y
    };
    let yoe = yy % 400;
    let c = yy / 400;
    let doy = day_of_year(m, d);
    lemma_cycle(yy);
    lemma_month(m, d);
    if doy == 365 {
        lemma_cycle(y);
        lemma_leap(y);
        if yoe != 399 {
            lemma_year_days(yoe + 1);
        }
    }
    lemma_year(yoe, doy);
    let doe = days_before(yoe) + doy;
    let z = day_number(y, m, d) + 719468;
    assert(z == 146097 * c + doe);
    assert(z / 146097 == c && z % 146097 == doe) by {
        assert(0 <= doe < 146097);
    }
    let yoe2 = (doe - doe / 1460 + doe / 36524 - doe / 146096) / 365;
    assert(yoe2 == yoe);
}

/// Law: the number of a number's date is that number, and the date is one that there is.
pub proof fn law_number_of_date(n: int)
    ensures
        ({
            let (y, m, d) = date_of(n);
            is_date(y, m, d) && day_number(y, m, d) == n
        }),
{
    if n >= 0 {
        lemma_number_up(n);
    } else {
        lemma_number_down(-n);
    }
}

/// The law for numbers from 0 on.
proof fn lemma_number_up(n: int)
    requires
        n >= 0,
    ensures
        ({
            let (y, m, d) = date_of(n);
            is_date(y, m, d) && day_number(y, m, d) == n
        }),
    decreases n,
{
    if n == 0 {
        law_epoch();
        law_date_of_number(1970, 1, 1);
    } else {
        lemma_number_up(n - 1);
        let (y, m, d) = date_of(n - 1);
        law_next_day(y, m, d);
        let (y2, m2, d2) = next_date(y, m, d);
        law_date_of_number(y2, m2, d2);
    }
}

/// The day before.
spec fn prev_date(y: int, m: int, d: int) -> (int, int, int) {
    if d > 1 {
        (y, m, d - 1)
    } else if m > 1 {
        (y, m - 1, month_len(y, m - 1))
    } else {
        (y - 1, 12, 31)
    }
}

/// The law for numbers up to 0.
proof fn lemma_number_down(k: int)
    requires
        k >= 0,
    ensures
        ({
            let (y, m, d) = date_of(-k);
            is_date(y, m, d) && day_number(y, m, d) == -k
        }),
    decreases k,
{
    if k == 0 {
        law_epoch();
        law_date_of_number(1970, 1, 1);
    } else {
        lemma_number_down(k - 1);
        let (y, m, d) = date_of(-(k - 1));
        let (y0, m0, d0) = prev_date(y, m, d);
        law_next_day(y0, m0, d0);
        law_date_of_number(y0, m0, d0);
    }
}

/// Number of a day, counted from 1970-01-01.
pub fn days_from_civil(y: i64, m: i64, d: i64) -> (r: i64)
    requires
        number_fits(y as int, m as int, d as int),
    ensures
        r == day_number(y as int, m as int, d as int),
{
    let yy: i64 = if m <= 2 {
        y - 1
    } else {
        y
    };
    let era: i64 = if yy >= 0 {
        yy / 400
    } else {
        -((-(yy + 1)) / 400) - 1
    };
    assert(era == yy as int / 400);
    let yoe: i64 = yy - era * 400;
    let mp: i64 = if m > 2 {
        m - 3
    } else {
        m + 9
    };
    let days: i64 = 153 * mp + 2;
    let part: i64 = if days >= 0 {
        days / 5
    } else {
        -((-days) / 5)
    };
    let doy: i64 = part + d - 1;
    let doe: i64 = yoe * 365 + yoe / 4 - yoe / 100 + doy;
    era * 146097 + doe - 719468
}

/// The year, month and day of a day number.
pub fn civil_from_days(days: i64) -> (r: (i64, i64, i64))
    requires
        days <= i64::MAX - 719468,
    ensures
        (r.0 as int, r.1 as int, r.2 as int) == date_of(days as int),
{
    let z: i64 = days + 719468;
    let era: i64 = if z >= 0 {
        z / 146097
    } else {
        -((-(z + 1)) / 146097) - 1
    };
    assert(era == z as int / 146097);
    let doe: i64 = z - era * 146097;
    let yoe: i64 = (doe - doe / 1460 + doe / 36524 - doe / 146096) / 365;
    let y: i64 = yoe + era * 400;
    let doy: i64 = doe - (365 * yoe + yoe / 4 - yoe / 100);
    proof {
        law_number_of_date(days as int);
        lemma_doy(doe as int);
    }
    let mp: i64 = (5 * doy + 2) / 153;
    let d: i64 = doy - (153 * mp + 2) / 5 + 1;
    let m: i64 = if mp < 10 {
        mp + 3
    } else {
        mp - 9
    };
    (
        if m <= 2 {
            y + 1
        } else {
            y
        },
        m,
        d,
    )
}

/// A day of the cycle lies in the year that is computed for it.
pub proof fn lemma_doy(doe: int)
    requires
        0 <= doe < 146097,
    ensures
        ({
            let yoe = (doe - doe / 1460 + doe / 36524 - doe / 146096) / 365;
            0 <= yoe < 400 && 0 <= doe - days_before(yoe) <= 365
        }),
{
    let n = doe - 719468;
    law_number_of_date(n);
    let (y, m, d) = date_of(n);
}

/// A number in binary-coded decimal.
pub open spec fn bcd(v: u8) -> u8 {
    (v % 16 + v / 16 * 10) as u8
}

/// A number in binary-coded decimal.
pub fn cmos_bcd(v: u8) -> (r: u8)
    ensures
        r == bcd(v),
{
    v % 16 + v / 16 * 10
}

/// The registers of the clock chip.
#[derive(Clone, Copy)]
pub struct RtcRegs {
    pub stat_b: u8,
    pub sec: u8,
    pub min: u8,
    pub hour: u8,
    pub day: u8,
    pub mon: u8,
    pub year: u8,
}

impl RtcRegs {
    /// Whether the numbers are binary (else binary-coded decimal).
    pub open spec fn binary(self) -> bool {
        self.stat_b / 4 % 2 == 1
    }

    /// Whether hours run to 24.
    pub open spec fn h24(self) -> bool {
        self.stat_b / 2 % 2 == 1
    }

    /// A register as a number.
    pub open spec fn number(self, v: u8) -> u8 {
        if self.binary() {
            v
        } else {
            bcd(v)
        }
    }

    /// The hour from 0 to 23; with hours that run to 12, the top bit says afternoon.
    pub open spec fn hour24(self) -> int {
        let pm = !self.h24() && self.hour >= 128;
        if !self.binary() {
            let h = bcd((self.hour % 128) as u8);
            if pm && h < 12 {
                h + 12
            } else {
                h as int
            }
        } else if pm {
            (self.hour % 128 + 12) % 24
        } else {
            self.hour as int
        }
    }

    /// The full year: two digits from 70 on are of the last century.
    pub open spec fn full_year(self) -> int {
        let y = self.number(self.year);
        if y >= 70 {
            1900 + y
        } else {
            2000 + y
        }
    }

    /// Seconds since 1970; `None` where a register is out of range.
    pub open spec fn unix(self) -> Option<u64> {
        let mon = self.number(self.mon);
        let day = self.number(self.day);
        let min = self.number(self.min);
        let sec = self.number(self.sec);
        if !(1 <= mon <= 12) || !(1 <= day <= 31) || self.hour24() > 23 || min > 59 || sec > 60 {
            None
        } else {
            Some(
                (day_number(self.full_year(), mon as int, day as int) * 86400 + self.hour24() * 3600
                    + min * 60 + sec) as u64,
            )
        }
    }

    /// A register as a number.
    fn read(&self, v: u8) -> (r: u8)
        ensures
            r == self.number(v),
    {
        if self.stat_b / 4 % 2 == 1 {
            v
        } else {
            cmos_bcd(v)
        }
    }

    /// Seconds since 1970.
    pub fn cmos_rtc_snapshot(&self) -> (r: Option<u64>)
        ensures
            r == self.unix(),
    {
        let binary: bool = self.stat_b / 4 % 2 == 1;
        let h24: bool = self.stat_b / 2 % 2 == 1;
        let pm: bool = !h24 && self.hour >= 128;
        let hour: u8 = if !binary {
            let h: u8 = cmos_bcd(self.hour % 128);
            if pm && h < 12 {
                h + 12
            } else {
                h
            }
        } else if pm {
            (self.hour % 128 + 12) % 24
        } else {
            self.hour
        };
        let sec: u8 = self.read(self.sec);
        let min: u8 = self.read(self.min);
        let day: u8 = self.read(self.day);
        let mon: u8 = self.read(self.mon);
        let year: u8 = self.read(self.year);
        let full: i64 = if year >= 70 {
            1900 + year as i64
        } else {
            2000 + year as i64
        };
        if mon < 1 || mon > 12 || day < 1 || day > 31 || hour > 23 || min > 59 || sec > 60 {
            return None;
        }
        let days: i64 = days_from_civil(full, mon as i64, day as i64);
        assert(0 <= days <= 100_000);
        let secs: i64 = days * 86400 + hour as i64 * 3600 + min as i64 * 60 + sec as i64;
        Some(secs as u64)
    }
}

/// What two readings of the clock say in attempt `attempt` (from 1 on): the time where they
/// agree; 0, for unknown, where one failed or the fourth attempt did not agree; `None` to
/// try again.
pub open spec fn settled(attempt: u32, a: Option<u64>, b: Option<u64>) -> Option<u64> {
    match (a, b) {
        (Some(x), Some(y)) => if x == y {
            Some(x)
        } else if attempt >= 4 {
            Some(0)
        } else {
            None
        },
        _ => Some(0),
    }
}

/// What two readings of the clock say.
pub fn mfs_now(attempt: u32, a: Option<u64>, b: Option<u64>) -> (r: Option<u64>)
    ensures
        r == settled(attempt, a, b),
{
    match (a, b) {
        (Some(x), Some(y)) => {
            if x == y {
                Some(x)
            } else if attempt >= 4 {
                Some(0)
            } else {
                None
            }
        },
        _ => Some(0),
    }
}

/// A time as an exFAT time stamp and hundredths of a second; (0, 0) for no time and for
/// years that a stamp cannot hold.
pub open spec fn stamp_of(unix: u64) -> (u32, u8) {
    let (y, m, d) = date_of(unix as int / 86400);
    let rem = unix as int % 86400;
    if unix == 0 || !(1980 <= y <= 2107) {
        (0, 0)
    } else {
        (
            ((y - 1980) * 0x200_0000 + m * 0x20_0000 + d * 0x1_0000 + rem / 3600 * 0x800 + rem
                % 3600 / 60 * 0x20 + rem % 60 / 2) as u32,
            (rem % 60 % 2 * 100) as u8,
        )
    }
}

/// The time of an exFAT time stamp, 0 for none.
pub open spec fn time_of(ts: u32, hundredths: u8) -> u64 {
    let day = ts / 0x1_0000 % 32;
    let mon = ts / 0x20_0000 % 16;
    if ts == 0 || day == 0 || mon == 0 {
        0
    } else {
        (day_number(1980 + ts / 0x200_0000, mon as int, day as int) * 86400 + ts / 0x800 % 32 * 3600
            + ts / 0x20 % 64 * 60 + ts % 32 * 2 + hundredths / 100) as u64
    }
}

/// The fields of a stamp are found by division.
proof fn lemma_stamp(yy: int, m: int, d: int, h: int, mi: int, s2: int)
    requires
        0 <= yy <= 127,
        0 <= m <= 15,
        0 <= d <= 31,
        0 <= h <= 31,
        0 <= mi <= 63,
        0 <= s2 <= 31,
    ensures
        ({
            let ts = yy * 0x200_0000 + m * 0x20_0000 + d * 0x1_0000 + h * 0x800 + mi * 0x20 + s2;
            &&& 0 <= ts <= u32::MAX
            &&& ts / 0x200_0000 == yy
            &&& ts / 0x20_0000 % 16 == m
            &&& ts / 0x1_0000 % 32 == d
            &&& ts / 0x800 % 32 == h
            &&& ts / 0x20 % 64 == mi
            &&& ts % 32 == s2
        }),
{
    let ts = yy * 0x200_0000 + m * 0x20_0000 + d * 0x1_0000 + h * 0x800 + mi * 0x20 + s2;
    let a = yy * 16 + m;
    let b = a * 32 + d;
    let c = b * 32 + h;
    let e = c * 64 + mi;
    assert(ts == 32 * e + s2);
    assert(ts == 0x800 * c + (mi * 0x20 + s2));
    assert(ts == 0x1_0000 * b + (h * 0x800 + mi * 0x20 + s2));
    assert(ts == 0x20_0000 * a + (d * 0x1_0000 + h * 0x800 + mi * 0x20 + s2));
    assert(ts / 0x20 == e);
    assert(ts / 0x800 == c);
    assert(ts / 0x1_0000 == b);
    assert(ts / 0x20_0000 == a);
}

/// The parts of a time of day.
proof fn lemma_day_parts(rem: int)
    requires
        0 <= rem < 86400,
    ensures
        0 <= rem / 3600 <= 23,
        0 <= rem % 3600 / 60 <= 59,
        0 <= rem % 60 / 2 <= 29,
        rem == rem / 3600 * 3600 + rem % 3600 / 60 * 60 + rem % 60 / 2 * 2 + rem % 60 % 2,
{
    assert(rem % 3600 % 60 == rem % 60);
}

/// Law: a time that a stamp can hold comes back from its stamp.
pub proof fn law_stamp_reads_back(unix: u64)
    requires
        stamp_of(unix).0 != 0,
    ensures
        time_of(stamp_of(unix).0, stamp_of(unix).1) == unix,
{
    let n = unix as int / 86400;
    let (y, m, d) = date_of(n);
    law_number_of_date(n);
    let rem = unix as int % 86400;
    lemma_day_parts(rem);
    lemma_stamp(y - 1980, m, d, rem / 3600, rem % 3600 / 60, rem % 60 / 2);
    assert(rem % 60 % 2 * 100 / 100 == rem % 60 % 2);
    assert(unix == n * 86400 + rem);
}

/// A time as an exFAT time stamp and hundredths of a second.
pub fn exfat_encode_time(unix: u64) -> (r: (u32, u8))
    ensures
        r == stamp_of(unix),
{
    if unix == 0 {
        return (0, 0);
    }
    let (y, m, d): (i64, i64, i64) = civil_from_days((unix / 86400) as i64);
    proof {
        law_number_of_date(unix as int / 86400);
    }
    if y < 1980 || y > 2107 {
        return (0, 0);
    }
    let rem: u32 = (unix % 86400) as u32;
    let ts: u32 = (y - 1980) as u32 * 0x200_0000 + m as u32 * 0x20_0000 + d as u32 * 0x1_0000 + rem
        / 3600 * 0x800 + rem % 3600 / 60 * 0x20 + rem % 60 / 2;
    (ts, (rem % 60 % 2 * 100) as u8)
}

/// The time of an exFAT time stamp.
pub fn exfat_decode_time(ts: u32, hundredths: u8) -> (r: u64)
    ensures
        r == time_of(ts, hundredths),
{
    let day: i64 = (ts / 0x1_0000 % 32) as i64;
    let mon: i64 = (ts / 0x20_0000 % 16) as i64;
    if ts == 0 || day == 0 || mon == 0 {
        return 0;
    }
    let year: i64 = 1980 + (ts / 0x200_0000) as i64;
    let days: i64 = days_from_civil(year, mon, day);
    assert(0 <= days <= 100_000);
    let secs: i64 = days * 86400 + (ts / 0x800 % 32) as i64 * 3600 + (ts / 0x20 % 64) as i64 * 60
        + (ts % 32) as i64 * 2 + (hundredths / 100) as i64;
    secs as u64
}

} // verus!
