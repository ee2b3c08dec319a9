//! The local and the I/O interrupt controllers: which registers get which
//! values.

use vstd::prelude::*;

use crate::globals::{phys_to_virt, virt_of};

verus! {

/// The vector of the timer.
pub const VECTOR_TIMER: u8 = 0x20;

/// The vector of the keyboard.
pub const VECTOR_KEYBOARD: u8 = 0x21;

/// The vector of interrupts that have no cause.
pub const VECTOR_SPURIOUS: u8 = 0xFF;

pub const LAPIC_TPR: u32 = 0x080;

pub const LAPIC_EOI: u32 = 0x0B0;

pub const LAPIC_SPURIOUS: u32 = 0x0F0;

pub const LAPIC_LVT_TIMER: u32 = 0x320;

pub const LAPIC_TIMER_INITIAL_COUNT: u32 = 0x380;

pub const LAPIC_TIMER_CURRENT_COUNT: u32 = 0x390;

pub const LAPIC_TIMER_DCR: u32 = 0x3E0;

/// The bit that enables a local controller.
pub const LAPIC_SPURIOUS_ENABLE: u32 = 0x100;

/// The bit that makes the timer start again by itself.
pub const LVT_TIMER_PERIODIC: u32 = 0x2_0000;

/// The bit that keeps an interrupt of a local controller back.
pub const LVT_MASKED: u32 = 0x1_0000;

pub const TIMER_DIVIDE_BY_16: u32 = 0x3;

/// How long the timer is watched to find its rate, in milliseconds.
pub const CALIBRATION_MS: u64 = 10;

pub const IOAPIC_REG_VER: u32 = 0x01;

/// The register of the first entry of the redirection table.
pub const IOAPIC_REG_REDIRECT_TABLE: u32 = 0x10;

/// The bit that keeps an interrupt of an I/O controller back.
pub const IOAPIC_MASKED: u32 = 0x1_0000;

pub const DEFAULT_LAPIC_PHYS: u64 = 0xFEE0_0000;

pub const DEFAULT_IOAPIC_PHYS: u64 = 0xFEC0_0000;

/// A value for a register.
#[derive(Debug, Clone, Copy, PartialEq, Eq, Structural)]
pub struct RegisterWrite {
    pub register: u32,
    pub value: u32,
}

/// A byte for a port.
#[derive(Debug, Clone, Copy, PartialEq, Eq, Structural)]
pub struct PortWrite {
    pub port: u16,
    pub value: u8,
}

/// The bytes that set up the old pair of interrupt controllers, with their
/// interrupts moved to the vectors 0x20 to 0x2F, and then silence them.
pub fn disable_pic_8259() -> (r: [PortWrite; 10])
    ensures
        r@ == seq![
            PortWrite { port: 0x20, value: 0x11 },
            PortWrite { port: 0xA0, value: 0x11 },
            PortWrite { port: 0x21, value: 0x20 },
            PortWrite { port: 0xA1, value: 0x28 },
            PortWrite { port: 0x21, value: 0x04 },
            PortWrite { port: 0xA1, value: 0x02 },
            PortWrite { port: 0x21, value: 0x01 },
            PortWrite { port: 0xA1, value: 0x01 },
            PortWrite { port: 0x21, value: 0xFF },
            PortWrite { port: 0xA1, value: 0xFF },
        ],
{
    let r: [PortWrite; 10] = [
        PortWrite { port: 0x20, value: 0x11 },
        PortWrite { port: 0xA0, value: 0x11 },
        PortWrite { port: 0x21, value: 0x20 },
        PortWrite { port: 0xA1, value: 0x28 },
        PortWrite { port: 0x21, value: 0x04 },
        PortWrite { port: 0xA1, value: 0x02 },
        PortWrite { port: 0x21, value: 0x01 },
        PortWrite { port: 0xA1, value: 0x01 },
        PortWrite { port: 0x21, value: 0xFF },
        PortWrite { port: 0xA1, value: 0xFF },
    ];
    assert(r@ =~= seq![
        PortWrite { port: 0x20, value: 0x11 },
        PortWrite { port: 0xA0, value: 0x11 },
        PortWrite { port: 0x21, value: 0x20 },
        PortWrite { port: 0xA1, value: 0x28 },
        PortWrite { port: 0x21, value: 0x04 },
        PortWrite { port: 0xA1, value: 0x02 },
        PortWrite { port: 0x21, value: 0x01 },
        PortWrite { port: 0xA1, value: 0x01 },
        PortWrite { port: 0x21, value: 0xFF },
        PortWrite { port: 0xA1, value: 0xFF },
    ]);
    r
}

/// The values that bring the local controller up: all priorities are accepted,
/// it is enabled, and its timer is silent.
pub fn init_local_apic() -> (r: [RegisterWrite; 3])
    ensures
        r@ == seq![
            RegisterWrite { register: LAPIC_TPR, value: 0 },
            RegisterWrite { register: LAPIC_SPURIOUS, value: 0x1FF },
            RegisterWrite { register: LAPIC_LVT_TIMER, value: LVT_MASKED },
        ],
{
    assert(0xFFu32 | 0x100u32 == 0x1FFu32) by (bit_vector);
    let r: [RegisterWrite; 3] = [
        RegisterWrite { register: LAPIC_TPR, value: 0 },
        RegisterWrite {
            register: LAPIC_SPURIOUS,
            value: VECTOR_SPURIOUS as u32 | LAPIC_SPURIOUS_ENABLE,
        },
        RegisterWrite { register: LAPIC_LVT_TIMER, value: LVT_MASKED },
    ];
    assert(r@ =~= seq![
        RegisterWrite { register: LAPIC_TPR, value: 0 },
        RegisterWrite { register: LAPIC_SPURIOUS, value: 0x1FF },
        RegisterWrite { register: LAPIC_LVT_TIMER, value: LVT_MASKED },
    ]);
    r
}

/// The register of the low word of an interrupt's redirection entry. The high
/// word is in the next register.
pub open spec fn redirect_register(irq: int) -> int {
    IOAPIC_REG_REDIRECT_TABLE + 2 * irq
}

/// The number of redirection entries that the version register tells.
pub open spec fn entry_count(version: u32) -> int {
    ((version >> 16) & 0xFF) + 1
}

/// Tells the number of redirection entries.
pub fn io_apic_entry_count(version: u32) -> (r: u32)
    ensures
        r == entry_count(version),
        1 <= r <= 256,
{
    proof {
        lemma_entry_count(version);
    }
    ((version >> 16) & 0xFF) + 1
}

/// The two values of a redirection entry: the high word first, so that the
/// entry is complete before it can take effect.
pub fn ioapic_write_redirect(irq: u8, value: u64) -> (r: [RegisterWrite; 2])
    ensures
        r@.len() == 2,
        r@[0].register == redirect_register(irq as int) + 1,
        r@[0].value == (value >> 32) as u32,
        r@[1].register == redirect_register(irq as int),
        r@[1].value == value as u32,
{
    let low: u32 = IOAPIC_REG_REDIRECT_TABLE + 2 * irq as u32;
    [
        RegisterWrite { register: low + 1, value: (value >> 32) as u32 },
        RegisterWrite { register: low, value: value as u32 },
    ]
}

/// The keyboard's redirection entry: its vector, to the first processor, kept
/// back for now.
pub const KEYBOARD_REDIRECTION: u64 = 0x1_0021;

/// The values that bring the I/O controller up, given its version and the low
/// words of its redirection entries: every entry is kept back, and the
/// keyboard's entry is filled in.
pub fn init_io_apic(version: u32, low_words: &[u32]) -> (r: Vec<RegisterWrite>)
    requires
        low_words@.len() == entry_count(version),
    ensures
        r@.len() == entry_count(version) + 2,
        forall|irq: int|
            0 <= irq < entry_count(version) ==> (#[trigger] r@[irq]).register == redirect_register(
                irq,
            ) && r@[irq].value == low_words@[irq] | IOAPIC_MASKED,
        r@[entry_count(version)] == (RegisterWrite { register: 0x13, value: 0 }),
        r@[entry_count(version) + 1] == (RegisterWrite { register: 0x12, value: 0x1_0021 }),
{
    let count: u32 = io_apic_entry_count(version);
    let mut writes: Vec<RegisterWrite> = Vec::new();
    let mut irq: u32 = 0;
    while irq < count
        invariant
            irq <= count <= 256,
            count == entry_count(version),
            low_words@.len() == count,
            writes@.len() == irq,
            forall|i: int|
                0 <= i < irq ==> (#[trigger] writes@[i]).register == redirect_register(i)
                    && writes@[i].value == low_words@[i] | IOAPIC_MASKED,
        decreases count - irq,
    {
        writes.push(
            RegisterWrite {
                register: IOAPIC_REG_REDIRECT_TABLE + 2 * irq,
                value: low_words[irq as usize] | IOAPIC_MASKED,
            },
        );
        irq = irq + 1;
    }
    let keyboard: [RegisterWrite; 2] = ioapic_write_redirect(1, KEYBOARD_REDIRECTION);
    assert((0x1_0021u64 >> 32) as u32 == 0 && 0x1_0021u64 as u32 == 0x1_0021u32) by (bit_vector);
    writes.push(keyboard[0]);
    writes.push(keyboard[1]);
    writes
}

/// The virtual address of a controller's registers: the one that was found, or
/// else the usual one.
pub fn apic_base(phys: u64, default_phys: u64) -> (r: u64)
    ensures
        r == virt_of(
            if phys != 0 {
                phys
            } else {
                default_phys
            },
        ),
{
    if phys != 0 {
        phys_to_virt(phys)
    } else {
        phys_to_virt(default_phys)
    }
}

/// The addresses of the registers of both controllers.
pub fn init_apic(local_apic_phys: u64, io_apic_phys: u64) -> (r: (u64, u64))
    ensures
        r.0 == virt_of(
            if local_apic_phys != 0 {
                local_apic_phys
            } else {
                DEFAULT_LAPIC_PHYS
            },
        ),
        r.1 == virt_of(
            if io_apic_phys != 0 {
                io_apic_phys
            } else {
                DEFAULT_IOAPIC_PHYS
            },
        ),
{
    (
        apic_base(local_apic_phys, DEFAULT_LAPIC_PHYS),
        apic_base(io_apic_phys, DEFAULT_IOAPIC_PHYS),
    )
}

/// The values that start the timer, which fires again and again.
pub fn configure_timer(initial_count: u32) -> (r: [RegisterWrite; 3])
    ensures
        r@ == seq![
            RegisterWrite { register: LAPIC_TIMER_DCR, value: TIMER_DIVIDE_BY_16 },
            RegisterWrite { register: LAPIC_LVT_TIMER, value: 0x2_0020 },
            RegisterWrite { register: LAPIC_TIMER_INITIAL_COUNT, value: initial_count },
        ],
{
    assert(0x20u32 | 0x2_0000u32 == 0x2_0020u32) by (bit_vector);
    let r: [RegisterWrite; 3] = [
        RegisterWrite { register: LAPIC_TIMER_DCR, value: TIMER_DIVIDE_BY_16 },
        RegisterWrite {
            register: LAPIC_LVT_TIMER,
            value: VECTOR_TIMER as u32 | LVT_TIMER_PERIODIC,
        },
        RegisterWrite { register: LAPIC_TIMER_INITIAL_COUNT, value: initial_count },
    ];
    assert(r@ =~= seq![
        RegisterWrite { register: LAPIC_TIMER_DCR, value: TIMER_DIVIDE_BY_16 },
        RegisterWrite { register: LAPIC_LVT_TIMER, value: 0x2_0020 },
        RegisterWrite { register: LAPIC_TIMER_INITIAL_COUNT, value: initial_count },
    ]);
    r
}

/// The values that let the timer run down once, silently, from the highest
/// count there is.
pub fn start_calibration() -> (r: [RegisterWrite; 3])
    ensures
        r@ == seq![
            RegisterWrite { register: LAPIC_TIMER_DCR, value: TIMER_DIVIDE_BY_16 },
            RegisterWrite { register: LAPIC_LVT_TIMER, value: 0x1_0020 },
            RegisterWrite { register: LAPIC_TIMER_INITIAL_COUNT, value: 0xFFFF_FFFF },
        ],
{
    assert(0x20u32 | 0x1_0000u32 == 0x1_0020u32) by (bit_vector);
    let r: [RegisterWrite; 3] = [
        RegisterWrite { register: LAPIC_TIMER_DCR, value: TIMER_DIVIDE_BY_16 },
        RegisterWrite { register: LAPIC_LVT_TIMER, value: VECTOR_TIMER as u32 | LVT_MASKED },
        RegisterWrite { register: LAPIC_TIMER_INITIAL_COUNT, value: 0xFFFF_FFFF },
    ];
    assert(r@ =~= seq![
        RegisterWrite { register: LAPIC_TIMER_DCR, value: TIMER_DIVIDE_BY_16 },
        RegisterWrite { register: LAPIC_LVT_TIMER, value: 0x1_0020 },
        RegisterWrite { register: LAPIC_TIMER_INITIAL_COUNT, value: 0xFFFF_FFFF },
    ]);
    r
}

/// The number of ticks of the reference timer in the calibration window.
pub fn calibration_window(period_fs: u32) -> (r: u64)
    requires
        period_fs > 0,
    ensures
        r == 10_000_000_000_000int / (period_fs as int),
{
    (CALIBRATION_MS * 1_000_000_000_000) / period_fs as u64
}

/// The ticks per millisecond of a timer that stood at `apic_end` when the
/// calibration window was over.
pub fn calibrate_timer(apic_end: u32) -> (r: u32)
    ensures
        r == (0xFFFF_FFFF - apic_end) / 10,
{
    let elapsed: u32 = 0xFFFF_FFFFu32.wrapping_sub(apic_end);
    elapsed / CALIBRATION_MS as u32
}

/// The value that stops the timer.
pub fn stop_calibration() -> (r: RegisterWrite)
    ensures
        r == (RegisterWrite { register: LAPIC_TIMER_INITIAL_COUNT, value: 0 }),
{
    RegisterWrite { register: LAPIC_TIMER_INITIAL_COUNT, value: 0 }
}

/// The value that ends an interrupt.
pub fn eoi() -> (r: RegisterWrite)
    ensures
        r == (RegisterWrite { register: LAPIC_EOI, value: 0 }),
{
    RegisterWrite { register: LAPIC_EOI, value: 0 }
}

/// The value that keeps an interrupt back, given the low word of its entry.
pub fn ioapic_mask_irq(irq: u8, low_word: u32) -> (r: RegisterWrite)
    ensures
        r.register == redirect_register(irq as int),
        r.value == low_word | IOAPIC_MASKED,
{
    RegisterWrite {
        register: IOAPIC_REG_REDIRECT_TABLE + 2 * irq as u32,
        value: low_word | IOAPIC_MASKED,
    }
}

/// The value that lets an interrupt through, given the low word of its entry.
pub fn ioapic_unmask_irq(irq: u8, low_word: u32) -> (r: RegisterWrite)
    ensures
        r.register == redirect_register(irq as int),
        r.value == low_word & !IOAPIC_MASKED,
{
    RegisterWrite {
        register: IOAPIC_REG_REDIRECT_TABLE + 2 * irq as u32,
        value: low_word & !IOAPIC_MASKED,
    }
}

/// Masking sets the mask bit, unmasking clears it, neither touches another
/// bit, and each undoes the other.
pub proof fn masking_touches_one_bit(low_word: u32)
    ensures
        (low_word | IOAPIC_MASKED) & IOAPIC_MASKED != 0,
        (low_word & !IOAPIC_MASKED) & IOAPIC_MASKED == 0,
        (low_word | IOAPIC_MASKED) & !IOAPIC_MASKED == low_word & !IOAPIC_MASKED,
        (low_word & !IOAPIC_MASKED) & !IOAPIC_MASKED == low_word & !IOAPIC_MASKED,
        low_word & IOAPIC_MASKED == 0 ==> (low_word | IOAPIC_MASKED) & !IOAPIC_MASKED == low_word,
        low_word & IOAPIC_MASKED != 0 ==> (low_word & !IOAPIC_MASKED) | IOAPIC_MASKED == low_word,
{
    let m = IOAPIC_MASKED;
    assert((low_word | m) & m != 0 && (low_word & !m) & m == 0 && (low_word | m) & !m == low_word
        & !m && (low_word & !m) & !m == low_word & !m && (low_word & m == 0 ==> (low_word | m) & !m
        == low_word) && (low_word & m != 0 ==> (low_word & !m) | m == low_word)) by (bit_vector)
        requires
            m == 0x1_0000u32,
    ;
}

proof fn lemma_entry_count(version: u32)
    ensures
        entry_count(version) == (version / 0x1_0000) % 0x100 + 1,
{
    assert((version >> 16) & 0xFF == (version / 0x1_0000) % 0x100) by (bit_vector);
}

/// The redirection entries have two registers each, from 0x10 on; their number
/// less one is the third byte of the version register.
pub proof fn redirection_entries(version: u32, irq: int)
    ensures
        entry_count(version) == (version / 0x1_0000) % 0x100 + 1,
        redirect_register(irq) == 0x10 + 2 * irq,
{
    lemma_entry_count(version);
}

/// The two words that are written for a redirection entry make up its value; the
/// high word comes first, and goes to the register behind that of the low word.
pub proof fn redirection_is_written_in_halves(irq: u8, value: u64, r: [RegisterWrite; 2])
    requires
        call_ensures(ioapic_write_redirect, (irq, value), r),
    ensures
        r@[0].register == 0x11 + 2 * irq,
        r@[1].register == 0x10 + 2 * irq,
        0x1_0000_0000 * r@[0].value + r@[1].value == value,
{
    assert(0x1_0000_0000 * ((value >> 32) as u32 as u64) + (value as u32 as u64) == value)
        by (bit_vector);
}

/// Masking and unmasking write the low word of the interrupt's entry, with the
/// bit that counts 2^16 set or cleared, and all others as they were.
pub proof fn masks_are_one_bit(irq: u8, low_word: u32, on: RegisterWrite, off: RegisterWrite)
    requires
        call_ensures(ioapic_mask_irq, (irq, low_word), on),
        call_ensures(ioapic_unmask_irq, (irq, low_word), off),
    ensures
        on.register == 0x10 + 2 * irq,
        off.register == 0x10 + 2 * irq,
        on.value == off.value + 0x1_0000,
        on.value == low_word || off.value == low_word,
        (off.value / 0x1_0000) % 2 == 0,
{
    assert((low_word | 0x1_0000) == (low_word & !0x1_0000u32) + 0x1_0000 && (low_word | 0x1_0000
        == low_word || low_word & !0x1_0000u32 == low_word) && ((low_word & !0x1_0000u32)
        / 0x1_0000) % 2 == 0) by (bit_vector);
}

/// Every entry is masked, in the order of the interrupts; then the keyboard's
/// interrupt, the second, is led to vector 0x21 of the first processor, masked.
pub proof fn controller_is_set_up(version: u32, low_words: &[u32], r: Vec<RegisterWrite>, irq: int)
    requires
        call_ensures(init_io_apic, (version, low_words), r),
        low_words@.len() == entry_count(version),
        0 <= irq < entry_count(version),
    ensures
        r@.len() == low_words@.len() + 2,
        r@[irq].register == 0x10 + 2 * irq,
        r@[irq].value == low_words@[irq] | 0x1_0000,
        r@[low_words@.len() as int] == (RegisterWrite { register: 0x13, value: 0 }),
        r@[low_words@.len() as int + 1] == (RegisterWrite { register: 0x12, value: 0x1_0021 }),
{
}

/// A controller is at the address that was found, and without one at the usual
/// address; both are seen through the direct map.
pub proof fn controllers_have_usual_places(phys: u64, usual: u64, r: u64, both: (u64, u64))
    requires
        call_ensures(apic_base, (phys, usual), r),
        call_ensures(init_apic, (phys, 0), both),
    ensures
        phys != 0 ==> r == virt_of(phys) && both.0 == virt_of(phys),
        phys == 0 ==> r == virt_of(usual) && both.0 == virt_of(0xFEE0_0000),
        both.1 == virt_of(0xFEC0_0000),
{
}

/// The timer counts every sixteenth cycle, fires again and again at vector 0x20,
/// and runs down from the count.
pub proof fn timer_is_configured(count: u32, r: [RegisterWrite; 3])
    requires
        call_ensures(configure_timer, (count,), r),
    ensures
        r@[0] == (RegisterWrite { register: 0x3E0, value: 3 }),
        r@[1] == (RegisterWrite { register: 0x320, value: 0x2_0020 }),
        r@[2] == (RegisterWrite { register: 0x380, value: count }),
{
}

/// For calibration the timer runs down once, at the same rate, without firing,
/// from the highest count; then it is stopped. The ticks that have passed in ten
/// milliseconds, by ten, are the rate.
pub proof fn timer_is_calibrated(
    period_fs: u32,
    end: u32,
    r: [RegisterWrite; 3],
    stop: RegisterWrite,
    window: u64,
    rate: u32,
)
    requires
        period_fs > 0,
        call_ensures(start_calibration, (), r),
        call_ensures(stop_calibration, (), stop),
        call_ensures(calibration_window, (period_fs,), window),
        call_ensures(calibrate_timer, (end,), rate),
    ensures
        r@[0] == (RegisterWrite { register: 0x3E0, value: 3 }),
        r@[1] == (RegisterWrite { register: 0x320, value: 0x1_0020 }),
        r@[2] == (RegisterWrite { register: 0x380, value: 0xFFFF_FFFF }),
        stop == (RegisterWrite { register: 0x380, value: 0 }),
        window * period_fs <= 10_000_000_000_000 < (window + 1) * period_fs,
        10 * rate <= 0xFFFF_FFFF - end < 10 * rate + 10,
{
    let p = period_fs as int;
    vstd::arithmetic::div_mod::lemma_fundamental_div_mod(10_000_000_000_000, p);
    vstd::arithmetic::div_mod::lemma_mod_bound(10_000_000_000_000, p);
    assert(p * window == window * p && (window + 1) * p == window * p + p) by (nonlinear_arith);
}

/// The local controller takes interrupts of all priorities; it is enabled, with
/// 0xFF as the vector for interrupts without a cause, and its timer is masked.
/// An interrupt is ended by a zero.
pub proof fn local_controller_is_set_up(r: [RegisterWrite; 3], end: RegisterWrite)
    requires
        call_ensures(init_local_apic, (), r),
        call_ensures(eoi, (), end),
    ensures
        r@[0] == (RegisterWrite { register: 0x80, value: 0 }),
        r@[1] == (RegisterWrite { register: 0xF0, value: 0x1FF }),
        r@[2] == (RegisterWrite { register: 0x320, value: 0x1_0000 }),
        end == (RegisterWrite { register: 0xB0, value: 0 }),
{
}

/// Both old controllers are told in turn: to begin, which vectors to use, eight
/// of them each, how they are connected, the mode; and then to keep everything
/// back.
pub proof fn old_controllers_are_silenced(r: [PortWrite; 10], k: int)
    requires
        call_ensures(disable_pic_8259, (), r),
        0 <= k < 5,
    ensures
        r@.len() == 10,
        r@[2 * k].port == if k == 0 {
            0x20u16
        } else {
            0x21
        },
        r@[2 * k + 1].port == r@[2 * k].port + 0x80,
        r@[0].value == 0x11 && r@[1].value == 0x11,
        r@[2].value == 0x20 && r@[3].value == 0x28,
        r@[4].value == 4 && r@[5].value == 2,
        r@[6].value == 1 && r@[7].value == 1,
        r@[8].value == 0xFF && r@[9].value == 0xFF,
{
    assert(k == 0 || k == 1 || k == 2 || k == 3 || k == 4);
}

} // verus!
