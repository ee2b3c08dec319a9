use crap_os::boot::{probe, BootFailure};
use crap_os::globals::{COM1_PORT, KERNEL_PHYSICAL_MAP_BASE};
use crap_os::hardware_manager::acpi::{
    find_acpi_table, find_table_in_rsdt, find_table_in_xsdt, parse_acpi, ApicInfo, CpuInfo,
    CpuTopology,
};
use crap_os::hardware_manager::apic::{
    apic_base, calibrate_timer, calibration_window, configure_timer, disable_pic_8259, eoi,
    init_apic, init_io_apic, init_local_apic, io_apic_entry_count, ioapic_mask_irq,
    ioapic_unmask_irq, ioapic_write_redirect, start_calibration, stop_calibration, PortWrite,
    RegisterWrite,
};
use crap_os::hardware_manager::hpet::{enable_counter, find_hpet_base, parse_hpet, HpetInfo};
use crap_os::hardware_manager::keyboard::{
    keyboard_drain, keyboard_pop_scancode, keyboard_push_scancode, keyboard_set_task_id,
    process_scancode, KeyOutput, Keyboard, Modifiers, ScancodeBuffer,
};
use crap_os::hardware_manager::rtc::{
    bcd_to_binary, days_from_civil, find_century_register, rtc_epoch_anchor, stable_reading,
    update_not_in_progress, NormalizedRtc, RtcReading, WallClock,
};
use crap_os::hardware_manager::serial;
use crap_os::hardware_manager::serial::SerialWriter;
use crap_os::helper_functions::TaskId;
use crap_os::system::DebugLevel;

fn put(memory: &mut [u8], at: usize, bytes: &[u8]) {
    memory[at..at + bytes.len()].copy_from_slice(bytes);
}

/// A root pointer at 0x100, root tables at 0x200 and 0x300, an interrupt
/// controller table at 0x400, a timer at 0x500, a fixed table at 0x600.
fn firmware(revision: u8) -> Vec<u8> {
    let mut m = vec![0u8; 0x1000];
    put(&mut m, 0x100, b"RSD PTR ");
    m[0x10F] = revision;
    put(&mut m, 0x110, &0x200u32.to_le_bytes());
    put(&mut m, 0x118, &0x300u64.to_le_bytes());
    put(&mut m, 0x200, b"RSDT");
    put(&mut m, 0x204, &(36u32 + 12).to_le_bytes());
    for (i, a) in [0x400u32, 0x500, 0x600].iter().enumerate() {
        put(&mut m, 0x224 + 4 * i, &a.to_le_bytes());
    }
    put(&mut m, 0x300, b"XSDT");
    put(&mut m, 0x304, &(36u32 + 24).to_le_bytes());
    for (i, a) in [0x400u64, 0x500, 0x600].iter().enumerate() {
        put(&mut m, 0x324 + 8 * i, &a.to_le_bytes());
    }
    put(&mut m, 0x400, b"APIC");
    put(&mut m, 0x424, &0xFEE0_0000u32.to_le_bytes());
    let mut at = 0x42C;
    for (uid, id, flags) in [(0u8, 0u8, 1u32), (1, 1, 0), (2, 2, 2), (3, 3, 1)] {
        put(&mut m, at, &[0, 8, uid, id]);
        put(&mut m, at + 4, &flags.to_le_bytes());
        at += 8;
    }
    put(&mut m, at, &[1, 12, 9, 0]);
    put(&mut m, at + 4, &0xFEC0_0000u32.to_le_bytes());
    put(&mut m, at + 8, &0u32.to_le_bytes());
    at += 12;
    put(&mut m, at, &[1, 12, 10, 0]);
    put(&mut m, at + 4, &0xFEC1_0000u32.to_le_bytes());
    put(&mut m, at + 8, &24u32.to_le_bytes());
    at += 12;
    put(&mut m, 0x404, &((at - 0x400) as u32).to_le_bytes());
    put(&mut m, 0x500, b"HPET");
    put(&mut m, 0x504, &56u32.to_le_bytes());
    m[0x525] = 0x22;
    put(&mut m, 0x52C, &0xFED0_0000u64.to_le_bytes());
    put(&mut m, 0x535, &100u16.to_le_bytes());
    put(&mut m, 0x600, b"FACP");
    put(&mut m, 0x604, &116u32.to_le_bytes());
    m[0x66C] = 0x32;
    m
}

#[test]
fn tables_are_found() {
    for revision in [0, 2] {
        let m = firmware(revision);
        assert_eq!(find_acpi_table(&m, 0x100, b"APIC"), Some(0x400));
        assert_eq!(find_acpi_table(&m, 0x100, b"FACP"), Some(0x600));
        assert_eq!(find_acpi_table(&m, 0x100, b"NONE"), None);
        assert_eq!(find_acpi_table(&m, 0x101, b"APIC"), None);
        assert_eq!(find_acpi_table(&m, 0xFFFF_FFFF_FFFF_FFF0, b"APIC"), None);
    }
    let m = firmware(2);
    assert_eq!(find_table_in_xsdt(&m, 0x300, b"HPET"), Some(0x500));
    assert_eq!(find_table_in_rsdt(&m, 0x200, b"HPET"), Some(0x500));
}

#[test]
fn processors_and_controllers_are_listed() {
    let (apic, topology) = parse_acpi(&firmware(2), 0x100, 2).unwrap();
    assert_eq!(
        apic,
        ApicInfo { local_apic_phys: 0xFEE0_0000, io_apic_phys: 0xFEC0_0000, io_apic_gsi_base: 0 }
    );
    assert_eq!(topology.bsp_apic_id, 2);
    assert_eq!(topology.cpus.iter().map(|c| c.apic_id).collect::<Vec<_>>(), vec![0, 2, 3]);
    assert_eq!(
        topology.cpus[1],
        CpuInfo { apic_id: 2, acpi_uid: 2, enabled: false, online_capable: true }
    );
    assert!(topology.has_bsp());
    assert_eq!(topology.get_usable_cpu_count(), 3);
    let mut none = CpuTopology::new();
    assert!(!none.has_bsp());
    none.push(topology.cpus[0]);
    assert!(none.has_bsp());
}

#[test]
fn tables_without_controllers_are_refused() {
    let mut m = firmware(2);
    put(&mut m, 0x404, &(44u32 + 32).to_le_bytes());
    assert!(parse_acpi(&m, 0x100, 0).is_none());
    m[0x400] = 0;
    assert!(parse_acpi(&m, 0x100, 0).is_none());
}

#[test]
fn the_machine_is_probed() {
    let capabilities = 69_841_279u64 << 32;
    let m = firmware(2);
    let machine = probe(&m, 0x100, 3, capabilities).unwrap();
    assert_eq!(machine.hpet.period_fs, 69_841_279);
    assert_eq!(machine.apic.io_apic_phys, 0xFEC0_0000);
    assert!(matches!(probe(&m, 0x100, 1, capabilities), Err(BootFailure::NoBootProcessor)));
    assert!(matches!(probe(&m, 0x100, 3, 0), Err(BootFailure::NoTimer)));
    assert!(matches!(probe(&m, 0x101, 3, capabilities), Err(BootFailure::NoInterruptControllers)));
}

#[test]
fn the_timer_is_described() {
    let m = firmware(2);
    assert_eq!(find_hpet_base(&m, 0x100), Some(0xFED0_0000));
    assert_eq!(
        parse_hpet(&m, 0x100, 10_000_000u64 << 32),
        Some(HpetInfo {
            base_virt: KERNEL_PHYSICAL_MAP_BASE + 0xFED0_0000,
            period_fs: 10_000_000,
            num_timers: 3,
            counter_64bit: true,
            minimum_tick: 100,
        })
    );
    assert_eq!(parse_hpet(&m, 0x100, 0), None);
    assert_eq!(parse_hpet(&m, 0x100, 100_000_001u64 << 32), None);
    assert_eq!(enable_counter(2), Some(3));
    assert_eq!(enable_counter(3), None);
}

fn timer() -> HpetInfo {
    HpetInfo { base_virt: 0, period_fs: 10_000_000, num_timers: 1, counter_64bit: true, minimum_tick: 1 }
}

#[test]
fn ticks_and_times() {
    let hpet = timer();
    assert_eq!(hpet.fs_to_ticks(25_000_000), 2);
    assert_eq!(hpet.ticks_to_fs(3), 30_000_000);
    assert_eq!(hpet.ticks_to_ns(7), 70);
    assert_eq!(hpet.ticks_to_ns(1 << 58), (1 << 58) * 10);
    assert_eq!(hpet.ticks_to_wait(1_000), 100);
    assert_eq!(hpet.spin_wait_done(10, 109, 100), None);
    assert_eq!(hpet.spin_wait_done(10, 110, 100), Some(100));
    assert_eq!(hpet.spin_wait_done(u64::MAX - 4, 5, 10), Some(10));
    let narrow = HpetInfo { counter_64bit: false, ..hpet };
    assert_eq!(narrow.spin_wait_done(0xFFFF_FFF0, 0x10, 0x1_0000), None);
    assert_eq!(narrow.spin_wait_done(0xFFFF_FFF0, 0x10, 0x20), Some(0x20));
    assert_eq!(narrow.ticks_since(0xFFFF_FFFF, 0), 1);
    assert_eq!(narrow.spin_wait_step(0x1_0000_0000, 0xFFFF_FFF0, 0x10), 0x1_0000_0020);
    assert_eq!(hpet.spin_wait_step(7, u64::MAX, 2), 10);
}

#[test]
fn the_clock_is_read() {
    assert_eq!(find_century_register(&firmware(2), 0x100), Some(0x32));
    assert_eq!(bcd_to_binary(0x59), 59);
    assert!(update_not_in_progress(0x26) && !update_not_in_progress(0xA6));
    let reading = RtcReading {
        second: 0x30,
        minute: 0x59,
        hour: 0x92,
        day: 0x29,
        month: 0x02,
        year: 0x24,
        century: Some(0x20),
    };
    assert_eq!(stable_reading(reading, reading), Some(reading));
    assert_eq!(stable_reading(reading, RtcReading { second: 0x31, ..reading }), None);
    let noon = NormalizedRtc { second: 30, minute: 59, hour: 12, day: 29, month: 2, year: 2024 };
    assert_eq!(reading.normalize(0), noon);
    assert_eq!(RtcReading { hour: 0x12, ..reading }.normalize(0).hour, 0);
    assert_eq!(RtcReading { hour: 0x81, ..reading }.normalize(0).hour, 13);
    assert_eq!(RtcReading { hour: 0x23, century: None, ..reading }.normalize(2).hour, 23);
    assert_eq!(RtcReading { hour: 23, year: 24, century: None, ..reading }.normalize(6).year, 2024);
    assert_eq!(noon.to_epoch_seconds(), 1_709_211_570);
    let clock = rtc_epoch_anchor(reading, 0, 1000);
    assert_eq!(clock.epoch_seconds_at_anchor, 1_709_211_570);
    assert_eq!(clock.now(&timer(), 1000), 1_709_211_570_000);
    assert_eq!(clock.now(&timer(), 1000 + 250_000), 1_709_211_570_002);
    let wrapping = WallClock { epoch_seconds_at_anchor: 1, hpet_ticks_at_anchor: u64::MAX };
    assert_eq!(wrapping.now(&timer(), 99_999), 1001);
    let narrow = HpetInfo { counter_64bit: false, ..timer() };
    let anchored = WallClock { epoch_seconds_at_anchor: 1, hpet_ticks_at_anchor: 0xFFFF_FFFF };
    assert_eq!(anchored.now(&narrow, 99_999), 1001);
}

#[test]
fn days_are_counted() {
    assert_eq!(days_from_civil(1970, 1, 1), 0);
    assert_eq!(days_from_civil(1969, 12, 31), -1);
    assert_eq!(days_from_civil(2000, 2, 29), 11016);
    assert_eq!(days_from_civil(2000, 3, 1), 11017);
    assert_eq!(days_from_civil(2100, 3, 1) - days_from_civil(2100, 2, 28), 1);
    assert_eq!(days_from_civil(2024, 2, 29), 19782);
}

#[test]
fn controllers_are_set_up() {
    let pic = disable_pic_8259();
    assert_eq!(pic[0], PortWrite { port: 0x20, value: 0x11 });
    assert_eq!(pic[9].value, 0xFF);
    assert_eq!(init_local_apic()[1], RegisterWrite { register: 0xF0, value: 0x1FF });
    assert_eq!(io_apic_entry_count(0x0017_0020), 24);
    let writes = init_io_apic(0x0002_0011, &[0x20, 0x0001_0021, 0x22]);
    assert_eq!(writes.len(), 5);
    assert_eq!(writes[0], RegisterWrite { register: 0x10, value: 0x1_0020 });
    assert_eq!(writes[1], RegisterWrite { register: 0x12, value: 0x1_0021 });
    assert_eq!(writes[2], RegisterWrite { register: 0x14, value: 0x1_0022 });
    let redirect = ioapic_write_redirect(4, 0x1122_3344_5566_7788);
    assert_eq!(redirect[0], RegisterWrite { register: 0x19, value: 0x1122_3344 });
    assert_eq!(redirect[1], RegisterWrite { register: 0x18, value: 0x5566_7788 });
    assert_eq!(ioapic_mask_irq(1, 0x21), RegisterWrite { register: 0x12, value: 0x1_0021 });
    assert_eq!(ioapic_unmask_irq(1, 0x1_0021), RegisterWrite { register: 0x12, value: 0x21 });
    assert_eq!(apic_base(0, 0xFEE0_0000), KERNEL_PHYSICAL_MAP_BASE + 0xFEE0_0000);
    assert_eq!(
        init_apic(0x1000, 0),
        (KERNEL_PHYSICAL_MAP_BASE + 0x1000, KERNEL_PHYSICAL_MAP_BASE + 0xFEC0_0000)
    );
    assert_eq!(eoi(), RegisterWrite { register: 0xB0, value: 0 });
}

#[test]
fn the_local_timer_is_calibrated() {
    assert_eq!(start_calibration()[2], RegisterWrite { register: 0x380, value: 0xFFFF_FFFF });
    assert_eq!(calibration_window(10_000_000), 1_000_000);
    assert_eq!(calibrate_timer(0xFFFF_FFFF - 1_000_000), 100_000);
    assert_eq!(stop_calibration(), RegisterWrite { register: 0x380, value: 0 });
    assert_eq!(configure_timer(100_000)[1], RegisterWrite { register: 0x320, value: 0x2_0020 });
    assert_eq!(configure_timer(100_000)[2], RegisterWrite { register: 0x380, value: 100_000 });
}

#[test]
fn serial_lines() {
    let writes = serial::init(COM1_PORT);
    assert_eq!(writes[0], PortWrite { port: 0x3F9, value: 0 });
    assert_eq!(writes[2], PortWrite { port: 0x3F8, value: 3 });
    assert!(serial::can_transmit(0x20) && !serial::can_transmit(0xDF));
    assert_eq!(serial::print("a\u{e9}"), vec![0x61, 0xC3, 0xA9]);
    let writer = SerialWriter::new(COM1_PORT);
    assert_eq!(writer.print_debug(DebugLevel::DEBUG, "x"), Vec::<u8>::new());
    assert_eq!(writer.print_debug(DebugLevel::INFO, "x"), b"x\n".to_vec());
}

fn type_keys(modifiers: &mut Modifiers, codes: &[u8]) -> Vec<u8> {
    codes.iter().filter_map(|c| process_scancode(modifiers, *c)).collect()
}

#[test]
fn keys_are_decoded() {
    let mut m = Modifiers::new();
    assert_eq!(type_keys(&mut m, &[0x1E, 0x9E, 0x02]), b"a1".to_vec());
    assert_eq!(type_keys(&mut m, &[0x2A, 0x1E, 0x02, 0xAA, 0x1E]), b"A!a".to_vec());
    assert_eq!(type_keys(&mut m, &[0x3A, 0x1E, 0x02, 0x36, 0x1E, 0xB6, 0x3A, 0x1E]), b"A1aa".to_vec());
    assert_eq!(type_keys(&mut m, &[0xE0, 0x1D, 0xE0, 0x48, 0x1E]), b"a".to_vec());
    assert_eq!(type_keys(&mut m, &[0x01]), vec![0x1B]);
    assert_eq!(type_keys(&mut m, &[0x1D, 0x38, 0x01]), vec![0xFF]);
    assert_eq!(type_keys(&mut m, &[0x9D, 0x01, 0xB8]), vec![0x1B]);
    assert_eq!(type_keys(&mut m, &[0x54, 0x3B, 0x7F]), Vec::<u8>::new());
    assert_eq!(m, Modifiers::new());
}

#[test]
fn scancodes_wait_in_order() {
    let mut ring = ScancodeBuffer::new();
    assert_eq!(ring.pop(), None);
    for round in 0..3 {
        for i in 0..256u32 {
            ring.push((i + round) as u8);
        }
        ring.push(0x77);
        for i in 0..256u32 {
            assert_eq!(ring.pop(), Some((i + round) as u8));
        }
        assert_eq!(ring.pop(), None);
    }
}

#[test]
fn the_keyboard_task_is_woken_and_drains() {
    let mut keyboard = Keyboard::new();
    let task = TaskId { slot_index: 3, slot_generation: 1 };
    assert_eq!(keyboard_push_scancode(&mut keyboard, 0x1E), None);
    keyboard_set_task_id(&mut keyboard, task);
    assert_eq!(keyboard_push_scancode(&mut keyboard, 0x1D), Some(task));
    for code in [0x38, 0x01, 0xB8, 0x30] {
        keyboard_push_scancode(&mut keyboard, code);
    }
    let mut m = Modifiers::new();
    assert_eq!(
        keyboard_drain(&mut keyboard, &mut m),
        vec![KeyOutput::Character(b'a'), KeyOutput::Shutdown, KeyOutput::Character(b'b')]
    );
    assert_eq!(keyboard_drain(&mut keyboard, &mut m), vec![]);
    keyboard_push_scancode(&mut keyboard, 0x9D);
    assert_eq!(keyboard_pop_scancode(&mut keyboard), Some(0x9D));
    assert_eq!(keyboard_pop_scancode(&mut keyboard), None);
}
