//! The high precision event timer.

use vstd::prelude::*;

use super::acpi::{acpi_table, find_acpi_table, locate, readable};
use crate::bytes::{digits_are_read, from_le16, from_le64, u16_from_le, u64_from_le};
use crate::globals::{phys_to_virt, virt_of};

verus! {

/// The signature of the timer's table, `HPET`.
pub const HPET_SIGNATURE: [u8; 4] = [0x48, 0x50, 0x45, 0x54];

/// The length of the timer's table.
pub const HPET_TABLE_LEN: u64 = 56;

/// The longest period that a timer may have, in femtoseconds.
pub const MAX_PERIOD_FS: u32 = 100_000_000;

pub const HPET_REG_CAPABILITIES: u64 = 0x000;

pub const HPET_REG_CONFIG: u64 = 0x010;

pub const HPET_REG_MAIN_COUNTER: u64 = 0x0F0;

/// The bit that lets the main counter run.
pub const HPET_CONFIG_ENABLE: u64 = 1;

/// What is known of the timer.
#[derive(Debug, Clone, Copy, PartialEq, Eq, Structural)]
pub struct HpetInfo {
    /// The virtual address of the registers.
    pub base_virt: u64,
    /// The period of the main counter, in femtoseconds.
    pub period_fs: u32,
    pub num_timers: u8,
    /// The main counter is 64 bits wide, not 32.
    pub counter_64bit: bool,
    pub minimum_tick: u16,
}

/// How many ticks have passed on a counter that may have wrapped, at 64 bits
/// or at 32.
pub open spec fn ticks_between(start: u64, now: u64, counter_64bit: bool) -> u64 {
    if counter_64bit {
        now.wrapping_sub(start)
    } else {
        (now.wrapping_sub(start) % 0x1_0000_0000) as u64
    }
}

impl HpetInfo {
    /// Converts femtoseconds to whole ticks.
    pub fn fs_to_ticks(&self, fs: u64) -> (r: u64)
        requires
            self.period_fs > 0,
        ensures
            r == fs as int / self.period_fs as int,
    {
        fs / self.period_fs as u64
    }

    /// Converts ticks to femtoseconds.
    pub fn ticks_to_fs(&self, ticks: u64) -> (r: u64)
        requires
            ticks * self.period_fs <= u64::MAX,
        ensures
            r == ticks * self.period_fs,
    {
        ticks * self.period_fs as u64
    }

    /// Converts ticks to nanoseconds, rounded down.
    pub fn ticks_to_ns(&self, ticks: u64) -> (r: u64)
        requires
            ticks * self.period_fs / 1_000_000 <= u64::MAX,
        ensures
            r == ticks * self.period_fs / 1_000_000,
    {
        proof {
            assert(ticks * self.period_fs <= u64::MAX * u32::MAX) by (nonlinear_arith)
                requires
                    ticks <= u64::MAX,
                    self.period_fs <= u32::MAX,
            ;
        }
        (ticks as u128 * self.period_fs as u128 / 1_000_000) as u64
    }

    /// The number of ticks that a wait of so many nanoseconds takes.
    pub fn ticks_to_wait(&self, ns: u64) -> (r: u64)
        requires
            self.period_fs > 0,
            ns * 1_000_000 <= u64::MAX,
        ensures
            r == (ns * 1_000_000) / (self.period_fs as int),
    {
        self.fs_to_ticks(ns * 1_000_000)
    }

    /// How many ticks have passed since the counter was at `start`.
    pub fn ticks_since(&self, start: u64, now: u64) -> (r: u64)
        ensures
            r == ticks_between(start, now, self.counter_64bit),
    {
        if self.counter_64bit {
            now.wrapping_sub(start)
        } else {
            now.wrapping_sub(start) % 0x1_0000_0000
        }
    }

    /// Decides if a wait that began at `start` is over: if so, it tells how
    /// many ticks have passed.
    pub fn spin_wait_done(&self, start: u64, now: u64, ticks_to_wait: u64) -> (r: Option<u64>)
        ensures
            r == if ticks_between(start, now, self.counter_64bit) >= ticks_to_wait {
                Some(ticks_between(start, now, self.counter_64bit))
            } else {
                None
            },
    {
        let elapsed: u64 = self.ticks_since(start, now);
        if elapsed >= ticks_to_wait {
            Some(elapsed)
        } else {
            None
        }
    }

    /// Adds the ticks that have passed since the last look at the counter to
    /// those that had passed before. In steps of less than a revolution, a wait
    /// can be longer than one.
    pub fn spin_wait_step(&self, elapsed: u64, last: u64, now: u64) -> (r: u64)
        requires
            elapsed + ticks_between(last, now, self.counter_64bit) <= u64::MAX,
        ensures
            r == elapsed + ticks_between(last, now, self.counter_64bit),
    {
        elapsed + self.ticks_since(last, now)
    }
}

/// The elapsed ticks are right though the counter has wrapped: they lead from
/// the start to the present value, on a counter of 64 bits and on one of 32.
pub proof fn elapsed_ticks_survive_wrapping(start: u64, elapsed: u64)
    ensures
        ticks_between(start, start.wrapping_add(elapsed), true) == elapsed,
        start <= u32::MAX && elapsed <= u32::MAX ==> ticks_between(
            start,
            ((start + elapsed) % 0x1_0000_0000) as u64,
            false,
        ) == elapsed,
{
}

/// Whole ticks convert to femtoseconds and back.
pub proof fn ticks_round_trip(ticks: u64, period_fs: u32)
    requires
        period_fs > 0,
    ensures
        (ticks * period_fs) / (period_fs as int) == ticks,
{
    assert(ticks * period_fs == period_fs * ticks) by (nonlinear_arith);
    vstd::arithmetic::div_mod::lemma_div_multiples_vanish(ticks as int, period_fs as int);
}

/// The address of the timer's registers: zero is no address, and only memory
/// is supported.
pub open spec fn hpet_base(memory: Seq<u8>, rsdp: int) -> Option<u64> {
    match acpi_table(memory, rsdp, HPET_SIGNATURE@) {
        None => None,
        Some(table) => if !readable(memory, table as int, HPET_TABLE_LEN as int) || memory[table
            + 40] != 0 || from_le64(memory, table + 44) == 0 {
            None
        } else {
            Some(from_le64(memory, table + 44))
        },
    }
}

/// The timer that the table and the capabilities register describe. Its
/// period must be allowed.
pub open spec fn hpet_of(memory: Seq<u8>, rsdp: int, capabilities: u64) -> Option<HpetInfo> {
    let period = (capabilities >> 32) as u32;
    match hpet_base(memory, rsdp) {
        Some(base) if 0 < period <= MAX_PERIOD_FS => {
            let table = acpi_table(memory, rsdp, HPET_SIGNATURE@)->0 as int;
            let comparators = memory[table + 37];
            Some(
                HpetInfo {
                    base_virt: virt_of(base),
                    period_fs: period,
                    num_timers: ((comparators & 0x1F) + 1) as u8,
                    counter_64bit: comparators & 0x20 != 0,
                    minimum_tick: from_le16(memory, table + 53),
                },
            )
        },
        _ => None,
    }
}

/// Finds the timer's table, if it describes registers in memory.
fn find_hpet(memory: &[u8], rsdp: u64) -> (r: Option<usize>)
    ensures
        match r {
            Some(place) => {
                &&& acpi_table(memory@, rsdp as int, HPET_SIGNATURE@) == Some(place as u64)
                &&& readable(memory@, place as int, HPET_TABLE_LEN as int)
                &&& hpet_base(memory@, rsdp as int) == Some(from_le64(memory@, place + 44))
                &&& memory@.len() <= usize::MAX
            },
            None => hpet_base(memory@, rsdp as int) is None,
        },
{
    let signature: [u8; 4] = HPET_SIGNATURE;
    let table: u64 = match find_acpi_table(memory, rsdp, &signature) {
        Some(table) => table,
        None => {
            return None;
        },
    };
    let place: usize = match locate(memory, table as u128, HPET_TABLE_LEN as u128) {
        Some(place) => place,
        None => {
            return None;
        },
    };
    if memory[place + 40] != 0 {
        return None;
    }
    if u64_from_le(memory, place + 44) == 0 {
        return None;
    }
    Some(place)
}

/// Finds the physical address of the timer's registers.
pub fn find_hpet_base(memory: &[u8], rsdp: u64) -> (r: Option<u64>)
    ensures
        r == hpet_base(memory@, rsdp as int),
{
    match find_hpet(memory, rsdp) {
        Some(place) => Some(u64_from_le(memory, place + 44)),
        None => None,
    }
}

/// Describes the timer, given its capabilities register.
pub fn parse_hpet(memory: &[u8], rsdp: u64, capabilities: u64) -> (r: Option<HpetInfo>)
    ensures
        r == hpet_of(memory@, rsdp as int, capabilities),
{
    let place: usize = match find_hpet(memory, rsdp) {
        Some(place) => place,
        None => {
            return None;
        },
    };
    let base_phys: u64 = u64_from_le(memory, place + 44);
    let minimum_tick: u16 = u16_from_le(memory, place + 53);
    let comparator_info: u8 = memory[place + 37];
    assert(comparator_info & 0x1F <= 31) by (bit_vector);
    let num_timers: u8 = (comparator_info & 0x1F) + 1;
    let counter_64bit = comparator_info & 0x20 != 0;
    let base_virt: u64 = phys_to_virt(base_phys);
    let period_fs: u32 = (capabilities >> 32) as u32;
    if period_fs == 0 || period_fs > MAX_PERIOD_FS {
        return None;
    }
    Some(HpetInfo { base_virt, period_fs, num_timers, counter_64bit, minimum_tick })
}

/// The value to write to the configuration register so that the main counter
/// runs, if it does not.
pub fn enable_counter(config: u64) -> (r: Option<u64>)
    ensures
        r == if config & HPET_CONFIG_ENABLE == 0 {
            Some(config | HPET_CONFIG_ENABLE)
        } else {
            None
        },
{
    if config & HPET_CONFIG_ENABLE == 0 {
        Some(config | HPET_CONFIG_ENABLE)
    } else {
        None
    }
}

/// Once the configuration register has what it should have, the main counter
/// runs, and nothing else has changed.
pub proof fn enabled_counter_runs(config: u64)
    ensures
        (config | HPET_CONFIG_ENABLE) & HPET_CONFIG_ENABLE != 0,
        (config | HPET_CONFIG_ENABLE) >> 1 == config >> 1,
{
    assert((config | 1) & 1 != 0 && (config | 1) >> 1 == config >> 1) by (bit_vector);
}

/// A timer that is reported has a period within the limits, so that it can be
/// divided by.
pub proof fn reported_period_is_allowed(memory: Seq<u8>, rsdp: int, capabilities: u64)
    ensures
        hpet_of(memory, rsdp, capabilities) matches Some(hpet) ==> 0 < hpet.period_fs
            <= MAX_PERIOD_FS,
{
}

/// What the timer's table and its capabilities say: the table has the signature
/// `HPET` and 56 bytes; byte 40 tells that the registers are in memory, and eight
/// bytes from 44 on where; the five lowest bits of byte 37 are the number of
/// timers less one, and the next one tells of a wide counter; the smallest tick
/// is at 53. The high half of the capabilities is the period, which is at most
/// 10^8.
pub proof fn timer_description(memory: Seq<u8>, rsdp: int, capabilities: u64, table: int, base: u64)
    requires
        acpi_table(memory, rsdp, seq![0x48u8, 0x50, 0x45, 0x54]) == Some(table as u64),
        0 <= table <= u64::MAX,
        base == from_le64(memory, table + 44),
    ensures
        hpet_base(memory, rsdp) == if table + 56 <= memory.len() && memory[table + 40] == 0 && base
            != 0 {
            Some(base)
        } else {
            None
        },
        hpet_of(memory, rsdp, capabilities) is Some <==> hpet_base(memory, rsdp) is Some && 0
            < capabilities / 0x1_0000_0000 <= 100_000_000,
        hpet_of(memory, rsdp, capabilities) matches Some(hpet) ==> {
            &&& hpet.base_virt == virt_of(base)
            &&& hpet.period_fs == capabilities / 0x1_0000_0000
            &&& hpet.num_timers == memory[table + 37] % 32 + 1
            &&& hpet.counter_64bit <==> (memory[table + 37] / 32) % 2 == 1
            &&& hpet.minimum_tick == memory[table + 53] + 0x100 * memory[table + 54]
        },
{
    assert(HPET_SIGNATURE@ =~= seq![0x48u8, 0x50, 0x45, 0x54]);
    let c = memory[table + 37];
    digits_are_read(memory, table + 53);
    assert((capabilities >> 32) as u32 == capabilities / 0x1_0000_0000 && c & 0x1F == c % 32 && (c
        & 0x20 != 0) == ((c / 32) % 2 == 1)) by (bit_vector);
}

/// Without its table there is no timer.
pub proof fn no_table_no_timer(memory: Seq<u8>, rsdp: int, capabilities: u64)
    requires
        acpi_table(memory, rsdp, seq![0x48u8, 0x50, 0x45, 0x54]) is None,
    ensures
        hpet_base(memory, rsdp) is None,
        hpet_of(memory, rsdp, capabilities) is None,
{
    assert(HPET_SIGNATURE@ =~= seq![0x48u8, 0x50, 0x45, 0x54]);
}

/// Times and ticks convert by the period: whole ticks that fit in the time, and
/// the time that ticks take, rounded down to nanoseconds.
pub proof fn ticks_and_times_convert(
    hpet: &HpetInfo,
    fs: u64,
    ticks: u64,
    a: u64,
    b: u64,
    c: u64,
    ns: u64,
    d: u64,
)
    requires
        hpet.period_fs > 0,
        ticks * hpet.period_fs <= u64::MAX,
        ns * 1_000_000 <= u64::MAX,
        call_ensures(HpetInfo::fs_to_ticks, (hpet, fs), a),
        call_ensures(HpetInfo::ticks_to_fs, (hpet, ticks), b),
        call_ensures(HpetInfo::ticks_to_ns, (hpet, ticks), c),
        call_ensures(HpetInfo::ticks_to_wait, (hpet, ns), d),
    ensures
        a * hpet.period_fs <= fs < (a + 1) * hpet.period_fs,
        b == ticks * hpet.period_fs,
        1_000_000 * c <= ticks * hpet.period_fs < 1_000_000 * c + 1_000_000,
        d * hpet.period_fs <= ns * 1_000_000 < (d + 1) * hpet.period_fs,
{
    let p = hpet.period_fs as int;
    vstd::arithmetic::div_mod::lemma_fundamental_div_mod(fs as int, p);
    vstd::arithmetic::div_mod::lemma_mod_bound(fs as int, p);
    vstd::arithmetic::div_mod::lemma_fundamental_div_mod(ns * 1_000_000, p);
    vstd::arithmetic::div_mod::lemma_mod_bound(ns * 1_000_000, p);
    assert(p * a == a * p && (a + 1) * p == a * p + p) by (nonlinear_arith);
    assert(p * d == d * p && (d + 1) * p == d * p + p) by (nonlinear_arith);
}

/// A wait is over when as many ticks have passed, and not before; it tells how
/// many. The counter that does not run is set going by its lowest bit.
pub proof fn waits_end(
    hpet: &HpetInfo,
    start: u64,
    now: u64,
    ticks: u64,
    r: Option<u64>,
    config: u64,
    e: Option<u64>,
)
    requires
        call_ensures(HpetInfo::spin_wait_done, (hpet, start, now, ticks), r),
        call_ensures(enable_counter, (config,), e),
    ensures
        r is Some <==> ticks_between(start, now, hpet.counter_64bit) >= ticks,
        r is Some ==> r == Some(ticks_between(start, now, hpet.counter_64bit)),
        e is Some <==> config % 2 == 0,
        e is Some ==> e == Some((config + 1) as u64),
{
    assert((config & 1 == 0) == (config % 2 == 0) && (config % 2 == 0 ==> config | 1 == config + 1))
        by (bit_vector);
}

/// Where the timer's registers are.
pub proof fn timer_registers()
    ensures
        HPET_REG_CAPABILITIES == 0,
        HPET_REG_CONFIG == 0x10,
        HPET_REG_MAIN_COUNTER == 0xF0,
        HPET_CONFIG_ENABLE == 1,
{
}

} // verus!
