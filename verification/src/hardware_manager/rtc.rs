//! The real-time clock, and the wall clock that is derived from it.

use vstd::arithmetic::div_mod::{
    lemma_fundamental_div_mod, lemma_fundamental_div_mod_converse,
    lemma_mod_division_less_than_divisor,
};
use vstd::arithmetic::mul::{
    lemma_mul_is_commutative, lemma_mul_is_distributive_add, lemma_mul_is_distributive_sub,
};
use vstd::prelude::*;

use super::acpi::{acpi_table, find_acpi_table, locate, readable, table_len};
use super::hpet::{ticks_between, HpetInfo};
use crate::bytes::{from_le32, u32_from_le};

verus! {

pub const REG_SECONDS: u8 = 0x00;

pub const REG_MINUTES: u8 = 0x02;

pub const REG_HOURS: u8 = 0x04;

pub const REG_DAY: u8 = 0x07;

pub const REG_MONTH: u8 = 0x08;

pub const REG_YEAR: u8 = 0x09;

pub const REG_STATUS_A: u8 = 0x0A;

pub const REG_STATUS_B: u8 = 0x0B;

/// The clock is being updated.
pub const STATUS_A_UIP: u8 = 0x80;

/// The registers are binary, not decimal.
pub const STATUS_B_BINARY_MODE: u8 = 0x04;

/// The hours run to 24, not to 12.
pub const STATUS_B_24HOUR_MODE: u8 = 0x02;

/// The signature of the fixed description table, `FACP`.
pub const FADT_SIGNATURE: [u8; 4] = [0x46, 0x41, 0x43, 0x50];

/// Where that table tells the register of the century.
pub const FADT_CENTURY_OFFSET: u64 = 108;

/// The register that holds the century; `None` if the table is missing or too
/// short, or tells of no register.
pub open spec fn century_register(memory: Seq<u8>, rsdp: int) -> Option<u8> {
    match acpi_table(memory, rsdp, FADT_SIGNATURE@) {
        None => None,
        Some(table) => if table_len(memory, table as int) <= FADT_CENTURY_OFFSET || !readable(
            memory,
            table as int,
            FADT_CENTURY_OFFSET + 1,
        ) || memory[table + FADT_CENTURY_OFFSET] == 0 {
            None
        } else {
            Some(memory[table + FADT_CENTURY_OFFSET])
        },
    }
}

/// Finds the register that holds the century.
pub fn find_century_register(memory: &[u8], rsdp: u64) -> (r: Option<u8>)
    ensures
        r == century_register(memory@, rsdp as int),
{
    let signature: [u8; 4] = FADT_SIGNATURE;
    let table: u64 = match find_acpi_table(memory, rsdp, &signature) {
        Some(table) => table,
        None => {
            return None;
        },
    };
    let place: usize = match locate(memory, table as u128, FADT_CENTURY_OFFSET as u128 + 1) {
        Some(place) => place,
        None => {
            return None;
        },
    };
    if (u32_from_le(memory, place + 4) as u64) < FADT_CENTURY_OFFSET + 1 {
        return None;
    }
    let register: u8 = memory[place + 108];
    if register == 0 {
        None
    } else {
        Some(register)
    }
}

/// The registers of the clock, as they were read.
#[derive(Debug, Clone, Copy, PartialEq, Eq, Structural)]
pub struct RtcReading {
    pub second: u8,
    pub minute: u8,
    pub hour: u8,
    pub day: u8,
    pub month: u8,
    pub year: u8,
    pub century: Option<u8>,
}

/// The number that a byte with two decimal digits stands for.
pub open spec fn bcd_value(value: u8) -> int {
    (value & 0x0F) + (value >> 4) * 10
}

/// The number that a register stands for.
pub open spec fn register_value(value: u8, is_binary: bool) -> int {
    if is_binary {
        value as int
    } else {
        bcd_value(value)
    }
}

/// Converts two decimal digits to a number.
pub fn bcd_to_binary(value: u8) -> (r: u8)
    ensures
        r == bcd_value(value),
{
    proof {
        lemma_register_bits(value);
    }
    (value & 0x0F) + ((value >> 4) * 10)
}

/// Two decimal digits stand for the number that they write.
pub proof fn bcd_digits(tens: u8, ones: u8)
    requires
        tens < 10,
        ones < 10,
    ensures
        bcd_value(tens << 4 | ones) == tens * 10 + ones,
{
    assert((tens << 4 | ones) & 0x0F == ones && (tens << 4 | ones) >> 4 == tens) by (bit_vector)
        requires
            tens < 10,
            ones < 10,
    ;
}

/// Checks if the clock may be read.
pub fn update_not_in_progress(status_a: u8) -> (r: bool)
    ensures
        r == (status_a & STATUS_A_UIP == 0),
{
    status_a & STATUS_A_UIP == 0
}

/// Two readings in a row count if they agree.
pub fn stable_reading(first: RtcReading, second: RtcReading) -> (r: Option<RtcReading>)
    ensures
        r == if first == second {
            Some(second)
        } else {
            None
        },
{
    if first == second {
        Some(second)
    } else {
        None
    }
}

/// A date and a time of day.
#[derive(Debug, Clone, Copy, PartialEq, Eq, Structural)]
pub struct NormalizedRtc {
    pub second: u32,
    pub minute: u32,
    pub hour: u32,
    pub day: u32,
    pub month: u32,
    pub year: u32,
}

/// The hour of the day. With 12-hour clocks the highest bit tells the
/// afternoon, and twelve comes before one.
pub open spec fn hour_value(hour: u8, is_binary: bool, is_24hour: bool) -> int {
    let h = register_value(hour & 0x7F, is_binary);
    let pm = hour & 0x80 != 0;
    if is_24hour {
        h
    } else if pm && h != 12 {
        h + 12
    } else if !pm && h == 12 {
        0
    } else {
        h
    }
}

impl RtcReading {
    /// What the registers stand for, given the second status register. The
    /// century is the twenty-first, if there is no register for it.
    pub open spec fn normalized(self, status_b: u8) -> NormalizedRtc {
        let is_binary = status_b & STATUS_B_BINARY_MODE != 0;
        let is_24hour = status_b & STATUS_B_24HOUR_MODE != 0;
        NormalizedRtc {
            second: register_value(self.second, is_binary) as u32,
            minute: register_value(self.minute, is_binary) as u32,
            hour: hour_value(self.hour, is_binary, is_24hour) as u32,
            day: register_value(self.day, is_binary) as u32,
            month: register_value(self.month, is_binary) as u32,
            year: (register_value(self.year, is_binary) + match self.century {
                Some(century) => register_value(century, is_binary) * 100,
                None => 2000,
            }) as u32,
        }
    }

    /// Works out what the registers stand for.
    pub fn normalize(&self, status_b: u8) -> (r: NormalizedRtc)
        ensures
            r == self.normalized(status_b),
    {
        let is_binary = status_b & STATUS_B_BINARY_MODE != 0;
        let is_24hour = status_b & STATUS_B_24HOUR_MODE != 0;
        let hour_pm = !is_24hour && (self.hour & 0x80) != 0;
        let hour_raw: u8 = self.hour & 0x7F;
        let (second, minute, mut hour, day, month, year): (u32, u32, u32, u32, u32, u32) =
            if is_binary {
            (
                self.second as u32,
                self.minute as u32,
                hour_raw as u32,
                self.day as u32,
                self.month as u32,
                self.year as u32,
            )
        } else {
            (
                bcd_to_binary(self.second) as u32,
                bcd_to_binary(self.minute) as u32,
                bcd_to_binary(hour_raw) as u32,
                bcd_to_binary(self.day) as u32,
                bcd_to_binary(self.month) as u32,
                bcd_to_binary(self.year) as u32,
            )
        };
        if !is_24hour {
            if hour_pm && hour != 12 {
                hour = hour + 12;
            } else if !hour_pm && hour == 12 {
                hour = 0;
            }
        }
        let full_year: u32 = match self.century {
            Some(raw_century) => {
                let century: u32 = if is_binary {
                    raw_century as u32
                } else {
                    bcd_to_binary(raw_century) as u32
                };
                century * 100 + year
            },
            None => 2000 + year,
        };
        NormalizedRtc { second, minute, hour, day, month, year: full_year }
    }
}

pub open spec fn is_leap(year: int) -> bool {
    year % 4 == 0 && (year % 100 != 0 || year % 400 == 0)
}

pub open spec fn days_in_month(year: int, month: int) -> int {
    if month == 2 {
        if is_leap(year) {
            29
        } else {
            28
        }
    } else if month == 4 || month == 6 || month == 9 || month == 11 {
        30
    } else {
        31
    }
}

/// The days of a year before its month.
pub open spec fn days_before_month(year: int, month: int) -> int
    decreases month,
{
    if month <= 1 {
        0
    } else {
        days_before_month(year, month - 1) + days_in_month(year, month - 1)
    }
}

/// The days from the beginning of year zero to the beginning of a year: 365
/// for each year, and one for each leap year.
pub open spec fn days_before_year(year: int) -> int {
    365 * year + (year + 3) / 4 - (year + 99) / 100 + (year + 399) / 400
}

/// The days from the beginning of 1970 to a date of the Gregorian calendar.
pub open spec fn civil_days(year: int, month: int, day: int) -> int {
    days_before_year(year) - days_before_year(1970) + days_before_month(year, month) + day - 1
}

/// How a quotient changes from one number to the next.
proof fn lemma_quotients(x: int, n: int)
    requires
        n > 0,
    ensures
        (x + n - 1) / n == x / n + (if x % n == 0 {
            0int
        } else {
            1int
        }),
        (x + n) / n == x / n + 1,
        (x - 1) / n == (x + n - 1) / n - 1,
{
    let q = x / n;
    let r = x % n;
    lemma_fundamental_div_mod(x, n);
    lemma_mod_division_less_than_divisor(x, n);
    lemma_mul_is_distributive_add(n, q, 1);
    lemma_mul_is_distributive_sub(n, q, 1);
    lemma_mul_is_commutative(n, q);
    lemma_mul_is_commutative(n, q + 1);
    lemma_mul_is_commutative(n, q - 1);
    lemma_fundamental_div_mod_converse(x + n, n, q + 1, r);
    if r == 0 {
        lemma_fundamental_div_mod_converse(x + n - 1, n, q, n - 1);
        lemma_fundamental_div_mod_converse(x - 1, n, q - 1, n - 1);
    } else {
        lemma_fundamental_div_mod_converse(x + n - 1, n, q + 1, r - 1);
        lemma_fundamental_div_mod_converse(x - 1, n, q, r - 1);
    }
}

/// A multiple of 400 is one of 100, and a multiple of 100 is one of 4.
proof fn lemma_multiples(year: int)
    ensures
        year % 400 == 0 ==> year % 100 == 0,
        year % 100 == 0 ==> year % 4 == 0,
{
    lemma_fundamental_div_mod(year, 400);
    lemma_fundamental_div_mod(year, 100);
    if year % 400 == 0 {
        lemma_fundamental_div_mod_converse(year, 100, 4 * (year / 400), 0);
    }
    if year % 100 == 0 {
        lemma_fundamental_div_mod_converse(year, 4, 25 * (year / 100), 0);
    }
}

/// One in a leap year, and else zero.
pub open spec fn leap_days(year: int) -> int {
    if is_leap(year) {
        1
    } else {
        0
    }
}

/// The calendar: a year has 366 days if it is a leap year, and else 365, and
/// the days are counted from the first of January 1970.
pub proof fn calendar_years(year: int)
    ensures
        days_before_year(year + 1) - days_before_year(year) == 365 + leap_days(year),
        days_before_year(year + 1) - days_before_year(year) == days_before_month(year, 13),
        civil_days(1970, 1, 1) == 0,
{
    lemma_quotients(year, 4);
    lemma_quotients(year, 100);
    lemma_quotients(year, 400);
    lemma_multiples(year);
    lemma_months(year, 12);
}

/// The day after a date has the next number, also over the end of a month and
/// of a year.
pub proof fn next_day_follows(year: int, month: int, day: int)
    requires
        1 <= month <= 12,
    ensures
        civil_days(year, month, day + 1) == civil_days(year, month, day) + 1,
        month < 12 ==> civil_days(year, month + 1, 1) == civil_days(
            year,
            month,
            days_in_month(year, month),
        ) + 1,
        civil_days(year + 1, 1, 1) == civil_days(year, 12, 31) + 1,
{
    calendar_years(year);
    lemma_months(year, 12);
}

/// The days from the beginning of 1970 to a date, counted in years that begin
/// with March, so that the leap day is the last. A month that is not one of
/// the twelve counts on in the same way.
pub open spec fn day_number(year: int, month: int, day: int) -> int {
    let y = if month <= 2 {
        year - 1
    } else {
        year
    };
    let m = if month > 2 {
        month - 3
    } else {
        month + 9
    };
    365 * y + y / 4 - y / 100 + y / 400 + (153 * m + 2) / 5 + day - 1 - 719468
}

/// The days before each month.
proof fn lemma_months(year: int, month: int)
    requires
        1 <= month <= 12,
    ensures
        days_before_month(year, month) == if month == 1 {
            0
        } else if month == 2 {
            31
        } else {
            (153 * (month - 3) + 2) / 5 + 59 + leap_days(year)
        },
    decreases month,
{
    if month > 1 {
        lemma_months(year, month - 1);
        if month == 3 || month == 4 || month == 5 || month == 6 || month == 7 || month == 8 || month
            == 9 || month == 10 || month == 11 || month == 12 {
        }
    }
}

/// The leap years before a year, in two ways.
proof fn lemma_leap_years(year: int)
    ensures
        (year - 1) / 4 == (year + 3) / 4 - 1,
        (year - 1) / 100 == (year + 99) / 100 - 1,
        (year - 1) / 400 == (year + 399) / 400 - 1,
        year / 4 - year / 100 + year / 400 == (year + 3) / 4 - (year + 99) / 100 + (year + 399)
            / 400 + leap_days(year) - 1,
{
    lemma_quotients(year, 4);
    lemma_quotients(year, 100);
    lemma_quotients(year, 400);
    lemma_multiples(year);
}

/// Years that begin with March come to the same dates.
pub proof fn day_number_is_civil(year: int, month: int, day: int)
    requires
        1 <= month <= 12,
    ensures
        day_number(year, month, day) == civil_days(year, month, day),
{
    lemma_months(year, month);
    lemma_leap_years(year);
    assert(days_before_year(1970) == 719528);
}

/// The largest year, month or day whose days can be counted here.
pub const MAX_DATE_PART: i64 = 1_000_000_000_000_000;

/// Counts the days from the beginning of 1970 to a date.
pub fn days_from_civil(year: i64, month: i64, day: i64) -> (r: i64)
    requires
        -MAX_DATE_PART <= year <= MAX_DATE_PART,
        0 <= month <= MAX_DATE_PART,
        0 <= day <= MAX_DATE_PART,
    ensures
        r == day_number(year as int, month as int, day as int),
        1 <= month <= 12 ==> r == civil_days(year as int, month as int, day as int),
{
    let y: i64 = if month <= 2 {
        year - 1
    } else {
        year
    };
    let era: i64 = if y >= 0 {
        y / 400
    } else {
        -((399 - y) / 400)
    };
    let yoe: i64 = y - era * 400;
    let m: i64 = if month > 2 {
        month - 3
    } else {
        month + 9
    };
    let doy: i64 = (153 * m + 2) / 5 + day - 1;
    assert(0 <= yoe < 400);
    let doe: i64 = yoe * 365 + yoe / 4 - yoe / 100 + doy;
    proof {
        assert(y == 400 * era + yoe);
        assert(y as int / 4 == 100 * era + yoe as int / 4);
        assert(y as int / 100 == 4 * era + yoe as int / 100);
        assert(y as int / 400 == era);
        if 1 <= month <= 12 {
            day_number_is_civil(year as int, month as int, day as int);
        }
    }
    era * 146097 + doe - 719468
}

impl NormalizedRtc {
    /// The seconds from the beginning of 1970 to the date and time.
    pub open spec fn epoch_seconds(self) -> int {
        day_number(self.year as int, self.month as int, self.day as int) * 86400 + self.hour * 3600
            + self.minute * 60 + self.second
    }

    /// Counts the seconds from the beginning of 1970. A time before that is
    /// counted back from 2^64.
    pub fn to_epoch_seconds(&self) -> (r: u64)
        ensures
            r == if self.epoch_seconds() >= 0 {
                self.epoch_seconds()
            } else {
                self.epoch_seconds() + 0x1_0000_0000_0000_0000
            },
    {
        let days: i64 = days_from_civil(self.year as i64, self.month as i64, self.day as i64);
        let seconds_in_day: i64 = self.hour as i64 * 3600 + self.minute as i64 * 60
            + self.second as i64;
        let total: i64 = days * 86400 + seconds_in_day;
        if total >= 0 {
            total as u64
        } else {
            (total as i128 + 0x1_0000_0000_0000_0000) as u64
        }
    }
}

/// A time of the clock, and the value of the timer at that time.
#[derive(Debug, Clone, Copy, PartialEq, Eq, Structural)]
pub struct WallClock {
    pub epoch_seconds_at_anchor: u64,
    pub hpet_ticks_at_anchor: u64,
}

impl WallClock {
    /// The milliseconds from the beginning of 1970 to the time at which the
    /// timer shows `ticks_now`.
    pub open spec fn millis(self, hpet: HpetInfo, ticks_now: u64) -> int {
        self.epoch_seconds_at_anchor * 1000 + ticks_between(
            self.hpet_ticks_at_anchor,
            ticks_now,
            hpet.counter_64bit,
        ) * hpet.period_fs / 1_000_000_000_000
    }

    /// Tells the time in milliseconds, given the value of the timer.
    pub fn now(&self, hpet: &HpetInfo, ticks_now: u64) -> (r: u64)
        requires
            self.millis(*hpet, ticks_now) <= u64::MAX,
        ensures
            r == self.millis(*hpet, ticks_now),
    {
        let elapsed_ticks: u64 = hpet.ticks_since(self.hpet_ticks_at_anchor, ticks_now);
        proof {
            assert(elapsed_ticks * hpet.period_fs <= u64::MAX * u32::MAX) by (nonlinear_arith)
                requires
                    elapsed_ticks <= u64::MAX,
                    hpet.period_fs <= u32::MAX,
            ;
        }
        let elapsed_ms: u128 = elapsed_ticks as u128 * hpet.period_fs as u128 / 1_000_000
            / 1_000_000;
        (self.epoch_seconds_at_anchor as u128 * 1000 + elapsed_ms) as u64
    }
}

/// At the anchor the wall clock shows the anchor's time.
pub proof fn clock_starts_at_anchor(clock: WallClock, hpet: HpetInfo)
    ensures
        clock.millis(hpet, clock.hpet_ticks_at_anchor) == clock.epoch_seconds_at_anchor * 1000,
{
    let start = clock.hpet_ticks_at_anchor;
    let ticks = ticks_between(start, start, hpet.counter_64bit);
    let period_fs = hpet.period_fs;
    assert(ticks * period_fs == 0) by (nonlinear_arith)
        requires
            ticks == 0,
    ;
}

/// The wall clock does not go back while the timer has not gone round once.
pub proof fn clock_is_monotonic(clock: WallClock, hpet: HpetInfo, earlier: u64, later: u64)
    requires
        ticks_between(clock.hpet_ticks_at_anchor, earlier, hpet.counter_64bit) <= ticks_between(
            clock.hpet_ticks_at_anchor,
            later,
            hpet.counter_64bit,
        ),
    ensures
        clock.millis(hpet, earlier) <= clock.millis(hpet, later),
{
    let a = ticks_between(clock.hpet_ticks_at_anchor, earlier, hpet.counter_64bit);
    let b = ticks_between(clock.hpet_ticks_at_anchor, later, hpet.counter_64bit);
    let period_fs = hpet.period_fs;
    assert(a * period_fs <= b * period_fs) by (nonlinear_arith)
        requires
            a <= b,
    ;
    vstd::arithmetic::div_mod::lemma_div_is_ordered(
        a * period_fs,
        b * period_fs,
        1_000_000_000_000,
    );
}

/// Pairs a reading of the clock with the value of the timer.
pub fn rtc_epoch_anchor(reading: RtcReading, status_b: u8, ticks: u64) -> (r: WallClock)
    ensures
        r.hpet_ticks_at_anchor == ticks,
        r.epoch_seconds_at_anchor == if reading.normalized(status_b).epoch_seconds() >= 0 {
            reading.normalized(status_b).epoch_seconds()
        } else {
            reading.normalized(status_b).epoch_seconds() + 0x1_0000_0000_0000_0000
        },
{
    WallClock {
        epoch_seconds_at_anchor: reading.normalize(status_b).to_epoch_seconds(),
        hpet_ticks_at_anchor: ticks,
    }
}

/// A byte holds two digits to the base sixteen, and a register's highest bit
/// stands apart.
proof fn lemma_register_bits(value: u8)
    ensures
        value & 0x0F == value % 16,
        value >> 4 == value / 16,
        value & 0x7F == value % 128,
        value & 0x80 != 0 <==> value >= 128,
        value & 4 != 0 <==> (value / 4) % 2 == 1,
        value & 2 != 0 <==> (value / 2) % 2 == 1,
{
    assert(value & 0x0F == value % 16 && value >> 4 == value / 16 && value & 0x7F == value % 128 && (
    value & 0x80 != 0) == (value >= 128) && (value & 4 != 0) == ((value / 4) % 2 == 1) && (value & 2
        != 0) == ((value / 2) % 2 == 1)) by (bit_vector);
}

/// A register holds its number, or, if the registers are decimal, two digits of
/// it: the high half counts tens.
pub proof fn registers_hold_numbers(value: u8)
    ensures
        register_value(value, true) == value,
        register_value(value, false) == 10 * (value / 16) + value % 16,
{
    lemma_register_bits(value);
}

/// Hours of the 24-hour kind are what they are. Of the 12-hour kind, the hours
/// from twelve to eleven before noon are 0 to 11, and those after noon, which the
/// highest bit marks, are 12 to 23.
pub proof fn hours_of_the_day(hour: u8, is_binary: bool)
    ensures
        ({
            let h = register_value((hour % 128) as u8, is_binary);
            &&& hour_value(hour, is_binary, true) == h
            &&& 1 <= h <= 12 && hour < 128 ==> hour_value(hour, is_binary, false) == h % 12
            &&& 1 <= h <= 12 && hour >= 128 ==> hour_value(hour, is_binary, false) == h % 12 + 12
        }),
{
    lemma_register_bits(hour);
}

/// What a reading stands for. The bit that counts 4 in the second status register
/// tells that the registers are not decimal, and the bit that counts 2 that the
/// hours run to 24. Years are counted from the century's beginning, and without
/// a register for the century from 2000 on.
pub proof fn readings_stand_for_dates(reading: RtcReading, status_b: u8)
    ensures
        ({
            let b = (status_b / 4) % 2 == 1;
            let h24 = (status_b / 2) % 2 == 1;
            let n = reading.normalized(status_b);
            &&& n.second == register_value(reading.second, b)
            &&& n.minute == register_value(reading.minute, b)
            &&& n.day == register_value(reading.day, b)
            &&& n.month == register_value(reading.month, b)
            &&& n.hour == hour_value(reading.hour, b, h24)
            &&& reading.century is None ==> n.year == 2000 + register_value(reading.year, b)
            &&& reading.century matches Some(c) ==> n.year == 100 * register_value(c, b)
                + register_value(reading.year, b)
        }),
{
    lemma_register_bits(status_b);
    lemma_register_bits(reading.second);
    lemma_register_bits(reading.minute);
    lemma_register_bits(reading.hour);
    lemma_register_bits((reading.hour % 128) as u8);
    lemma_register_bits(reading.day);
    lemma_register_bits(reading.month);
    lemma_register_bits(reading.year);
    if let Some(c) = reading.century {
        lemma_register_bits(c);
    }
}

/// The time in seconds: 86400 for each day since the beginning of 1970 in the
/// calendar, 3600 for each hour, 60 for each minute.
pub proof fn seconds_since_1970(t: NormalizedRtc)
    requires
        1 <= t.month <= 12,
    ensures
        t.epoch_seconds() == 86400 * civil_days(t.year as int, t.month as int, t.day as int) + 3600
            * t.hour + 60 * t.minute + t.second,
{
    day_number_is_civil(t.year as int, t.month as int, t.day as int);
}

/// The lengths of the months and years, and the first day.
pub proof fn calendar_rules(year: int)
    ensures
        is_leap(year) <==> year % 400 == 0 || (year % 4 == 0 && year % 100 != 0),
        days_in_month(year, 1) == 31,
        days_in_month(year, 2) == if is_leap(year) {
            29int
        } else {
            28
        },
        days_in_month(year, 3) == 31,
        days_in_month(year, 4) == 30,
        days_in_month(year, 5) == 31,
        days_in_month(year, 6) == 30,
        days_in_month(year, 7) == 31,
        days_in_month(year, 8) == 31,
        days_in_month(year, 9) == 30,
        days_in_month(year, 10) == 31,
        days_in_month(year, 11) == 30,
        days_in_month(year, 12) == 31,
        civil_days(1970, 1, 1) == 0,
{
    lemma_multiples(year);
}

/// The clock goes with the timer: after so many ticks it shows the anchor's time
/// and the time that the ticks take, rounded down to milliseconds.
pub proof fn clock_goes_with_the_timer(clock: WallClock, hpet: HpetInfo, elapsed: u64)
    requires
        hpet.counter_64bit,
    ensures
        clock.millis(hpet, clock.hpet_ticks_at_anchor.wrapping_add(elapsed)) == 1000
            * clock.epoch_seconds_at_anchor + elapsed * hpet.period_fs / 1_000_000_000_000,
{
}

/// The clock may be read when the bit that counts 128 of the first status
/// register is clear, and two readings count if all their registers agree.
pub proof fn readings_are_taken(
    status_a: u8,
    r: bool,
    first: RtcReading,
    second: RtcReading,
    s: Option<RtcReading>,
)
    requires
        call_ensures(update_not_in_progress, (status_a,), r),
        call_ensures(stable_reading, (first, second), s),
    ensures
        r <==> status_a < 128,
        s is Some <==> first.second == second.second && first.minute == second.minute && first.hour
            == second.hour && first.day == second.day && first.month == second.month && first.year
            == second.year && first.century == second.century,
        s is Some ==> s == Some(first),
{
    lemma_register_bits(status_a);
}

/// The register of the century stands 108 bytes into the table `FACP`, if that
/// is longer; zero is none.
pub proof fn century_is_in_the_table(memory: Seq<u8>, rsdp: int, table: u64)
    requires
        acpi_table(memory, rsdp, seq![0x46u8, 0x41, 0x43, 0x50]) == Some(table),
    ensures
        century_register(memory, rsdp) == if table + 109 <= memory.len() && from_le32(
            memory,
            table + 4,
        ) >= 109 && memory[table + 108] != 0 {
            Some(memory[table + 108])
        } else {
            None
        },
{
    assert(FADT_SIGNATURE@ =~= seq![0x46u8, 0x41, 0x43, 0x50]);
}

/// Where the registers of the clock are.
pub proof fn clock_registers()
    ensures
        REG_SECONDS == 0,
        REG_MINUTES == 2,
        REG_HOURS == 4,
        REG_DAY == 7,
        REG_MONTH == 8,
        REG_YEAR == 9,
        REG_STATUS_A == 10,
        REG_STATUS_B == 11,
{
}

} // verus!
