use crap_os::boot::{check_boot_info, BootFailure};
use crap_os::globals::{phys_to_virt, KERNEL_PHYSICAL_MAP_BASE};
use crap_os::helper_functions::{
    ascii_str, bytes_to_hex, compress_task_id, expand_task_id, get_timer_ticks, hex_nibble,
    hex_to_bytes, u32_to_dec_str, u32_to_hex_bytes, u64_field, u64_to_dec_str, u64_to_hex_bytes,
    TaskId, TimerTicks,
};
use crap_os::idt::{
    count_tick, exception_action, exception_text, handler_general_protection, handler_page_fault,
    init_idt, print_frame, should_reschedule, try_kill_current_task, ExceptionAction, Handlers,
    IdtEntry, InterruptFrame,
};
use crap_os::system::{BootInfo, DebugLevel, ErrorCode, BOOT_MAGIC};
use crap_os::virtual_fs::path::{split_parent_and_name, split_path};
use crap_os::virtual_fs::types::{AccessMode, FileSystemError};

#[test]
fn hexadecimal_numbers() {
    assert_eq!(&u64_to_hex_bytes(0), b"0x0000000000000000");
    assert_eq!(&u64_to_hex_bytes(0xDEAD_BEEF_0123_4567), b"0xDEADBEEF01234567");
    assert_eq!(&u32_to_hex_bytes(0x89AB_CDEF), b"0x89ABCDEF");
    assert_eq!(u64_field("  RIP    = ", 255), "  RIP    = 0x00000000000000FF\n");
}

#[test]
fn decimal_numbers() {
    let mut small = [0u8; 10];
    let mut large = [0u8; 20];
    assert_eq!(u32_to_dec_str(0, &mut small), "0");
    assert_eq!(u32_to_dec_str(4294967295, &mut small), "4294967295");
    let mut marked = [7u8; 10];
    assert_eq!(u32_to_dec_str(70, &mut marked), "70");
    assert_eq!(&marked, &[7, 7, 7, 7, 7, 7, 7, 7, b'7', b'0']);
    let mut wide = [9u8; 20];
    assert_eq!(u64_to_dec_str(0, &mut wide), "0");
    assert_eq!((wide[18], wide[19]), (9, b'0'));
    assert_eq!(u64_to_dec_str(18446744073709551615, &mut large), "18446744073709551615");
    assert_eq!(u64_to_dec_str(10, &mut large), "10");
}

#[test]
fn ascii_bytes_are_viewed_as_text() {
    assert_eq!(ascii_str(b"kernel"), "kernel");
    assert_eq!(ascii_str(b""), "");
}

#[test]
fn hexadecimal_bytes() {
    assert_eq!(bytes_to_hex(&[0x0F, 0xA0]), "0x0FA0");
    assert_eq!(bytes_to_hex(&[]), "0x");
    assert_eq!(hex_to_bytes("0x0fA0"), Some(vec![0x0F, 0xA0]));
    assert_eq!(hex_to_bytes("0Xabc"), Some(vec![0x0A, 0xBC]));
    assert_eq!(hex_to_bytes("abc"), Some(vec![0x0A, 0xBC]));
    assert_eq!(hex_to_bytes("0x"), None);
    assert_eq!(hex_to_bytes(""), None);
    assert_eq!(hex_to_bytes("0xG0"), None);
    assert_eq!(hex_to_bytes("\u{e9}"), None);
    for data in [vec![1u8], vec![0, 255, 16], vec![7; 9]] {
        assert_eq!(hex_to_bytes(&bytes_to_hex(&data)), Some(data));
    }
    assert_eq!(hex_nibble(b'f'), Some(15));
    assert_eq!(hex_nibble(b'F'), Some(15));
    assert_eq!(hex_nibble(b'9'), Some(9));
    assert_eq!(hex_nibble(b'g'), None);
}

#[test]
fn task_identifiers() {
    let id = TaskId { slot_index: 0x00AB_CDEF_0123_4567, slot_generation: 0x9C };
    assert_eq!(compress_task_id(id), 0x9CAB_CDEF_0123_4567);
    assert_eq!(expand_task_id(0x9CAB_CDEF_0123_4567), id);
}

#[test]
fn ticks() {
    let mut ticks = TimerTicks { count: 41 };
    count_tick(&mut ticks);
    assert_eq!(get_timer_ticks(&ticks), 42);
    ticks.count = u64::MAX;
    count_tick(&mut ticks);
    assert_eq!(get_timer_ticks(&ticks), 0);
    let mut force = true;
    assert!(should_reschedule(false, &mut force));
    assert!(!force);
    assert!(!should_reschedule(false, &mut force));
    assert!(should_reschedule(true, &mut force));
}

#[test]
fn codes_and_levels() {
    assert_eq!(ErrorCode::StatusOK.code(), 0);
    assert_eq!(ErrorCode::BufferTooSmall.code(), 1);
    assert_eq!(DebugLevel::CRITICAL.level(), 5);
    assert!(DebugLevel::DEBUG.below(DebugLevel::INFO));
    assert!(!DebugLevel::ERROR.below(DebugLevel::ERROR));
    assert_eq!(phys_to_virt(0x1000), KERNEL_PHYSICAL_MAP_BASE + 0x1000);
}

#[test]
fn boot_structures() {
    let good = BootInfo { magic: BOOT_MAGIC, framebuffer_info: 1, memory_map_info: 2 };
    let bad = BootInfo { magic: 1, ..good };
    assert!(good.is_valid() && !bad.is_valid());
    assert_eq!(check_boot_info(Some(good), 0x8000_0000), Ok(good));
    assert_eq!(check_boot_info(Some(good), 0), Err(BootFailure::InvalidBootInfo));
    assert_eq!(check_boot_info(Some(bad), 0x8000_0000), Err(BootFailure::InvalidBootInfo));
    assert_eq!(check_boot_info(None, 0x8000_0000), Err(BootFailure::InvalidBootInfo));
}

#[test]
fn gates() {
    let entry = IdtEntry::interrupt_gate(0x1122_3344_5566_7788, 9);
    assert_eq!(entry.offset_low, 0x7788);
    assert_eq!(entry.offset_mid, 0x5566);
    assert_eq!(entry.offset_high, 0x1122_3344);
    assert_eq!((entry.selector, entry.ist_and_rsv, entry.type_attr), (8, 1, 0x8E));
    assert_eq!(IdtEntry::trap_gate(0, 0).type_attr, 0x8F);
    assert_eq!(IdtEntry::missing().type_attr, 0);
    let mut exceptions = [0u64; 32];
    for (i, e) in exceptions.iter_mut().enumerate() {
        *e = 0x1000 + i as u64;
    }
    let handlers = Handlers { exceptions, generic: 0x9000, timer: 0x9001, keyboard: 0x9002, spurious: 0x9003 };
    let idt = init_idt(&handlers);
    assert_eq!(idt.entries[0], IdtEntry::interrupt_gate(0x1000, 0));
    assert_eq!(idt.entries[1], IdtEntry::trap_gate(0x1001, 0));
    assert_eq!(idt.entries[3], IdtEntry::trap_gate(0x1003, 0));
    assert_eq!(idt.entries[8], IdtEntry::interrupt_gate(0x1008, 1));
    assert_eq!(idt.entries[0x20], IdtEntry::interrupt_gate(0x9001, 0));
    assert_eq!(idt.entries[0x21], IdtEntry::interrupt_gate(0x9002, 0));
    assert_eq!(idt.entries[0x22], IdtEntry::interrupt_gate(0x9000, 0));
    assert_eq!(idt.entries[0xFF], IdtEntry::interrupt_gate(0x9003, 0));
}

fn frame(error_code: u64) -> InterruptFrame {
    InterruptFrame {
        rax: 1,
        rbx: 2,
        rcx: 3,
        rdx: 4,
        rsi: 5,
        rdi: 6,
        rbp: 7,
        r8: 8,
        r9: 9,
        r10: 10,
        r11: 11,
        r12: 12,
        r13: 13,
        r14: 14,
        r15: 15,
        error_code,
        rip: 0x10,
        cs: 0x11,
        rflags: 0x12,
        rsp: 0x13,
        ss: 0x14,
    }
}

const IDLE: TaskId = TaskId { slot_index: 0, slot_generation: 0 };
const TASK: TaskId = TaskId { slot_index: 5, slot_generation: 1 };

#[test]
fn register_dumps() {
    let text = print_frame(&frame(0x15));
    let lines: Vec<&str> = text.lines().collect();
    assert_eq!(lines.len(), 23);
    assert_eq!(lines[0], "----- Register Dump -----");
    assert_eq!(lines[1], "  RIP    = 0x0000000000000010");
    assert_eq!(lines[6], "  ERR    = 0x0000000000000015");
    assert_eq!(lines[7], "  RAX    = 0x0000000000000001");
    assert_eq!(lines[21], "  R15    = 0x000000000000000F");
    assert_eq!(lines[22], "----- End Dump -----");
}

#[test]
fn exceptions_are_reported() {
    let dump = print_frame(&frame(0));
    let killed = format!("\n[TASK FAULT] Task 0x0000000000000005\n killed due to: #DE Divide Error\n{}", dump);
    assert_eq!(try_kill_current_task(TASK, IDLE, "#DE Divide Error", &frame(0)), killed);
    assert_eq!(exception_text(0, 0, &frame(0), TASK, IDLE), killed);
    assert_eq!(
        exception_text(6, 0, &frame(0), IDLE, IDLE),
        format!("\n[KERNEL FAULT] #UD Invalid Opcode in kernel context. Halting...\n{}", dump)
    );
    assert_eq!(
        exception_text(1, 0, &frame(0), TASK, IDLE),
        format!("\n[EXCEPTION] #DB Debug Exception\n{}", dump)
    );
    assert_eq!(exception_text(3, 0, &frame(0), TASK, IDLE), format!("\n[BREAKPOINT] INT3 hit\n{}", dump));
    assert_eq!(
        exception_text(18, 0, &frame(0), TASK, IDLE),
        "\n[EXCEPTION] #MC Machine Check - halting.\n"
    );
    assert_eq!(
        exception_text(25, 0, &frame(0), TASK, IDLE),
        format!("\n[EXCEPTION] Reserved / Unimplemented Exception\n{}", dump)
    );
    assert_eq!(
        exception_text(10, 0, &frame(16), TASK, IDLE),
        format!(
            "\n[EXCEPTION] #TS Invalid TSS\n  Selector causing fault = 0x0000000000000010\n{}",
            print_frame(&frame(16))
        )
    );
    assert!(exception_text(14, 0x2000, &frame(2), TASK, IDLE).starts_with(&handler_page_fault(0x2000, 2)));
    assert!(exception_text(13, 0, &frame(8), TASK, IDLE).starts_with(&handler_general_protection(8)));
}

#[test]
fn page_faults_are_explained() {
    assert_eq!(
        handler_page_fault(0xABC, 0b10110),
        "\n[EXCEPTION] #PF Page Fault\n  Faulting address: 0x0000000000000ABC\n  Error code:       0x0000000000000016\n  Reason: non-present page\n  Access: write\n  Mode:   user\n  Note:   instruction fetch\n"
    );
    assert_eq!(
        handler_page_fault(0, 0b01001),
        "\n[EXCEPTION] #PF Page Fault\n  Faulting address: 0x0000000000000000\n  Error code:       0x0000000000000009\n  Reason: protection violation\n  Access: read\n  Mode:   supervisor\n  Note:   reserved PTE bit set\n"
    );
    assert_eq!(
        handler_general_protection(0),
        "\n[EXCEPTION] #GP General Protection Fault\n  (no specific segment involved)\n"
    );
    assert_eq!(
        handler_general_protection(0x18),
        "\n[EXCEPTION] #GP General Protection Fault\n  Error code (selector info): 0x0000000000000018\n"
    );
}

#[test]
fn exceptions_are_acted_on() {
    assert_eq!(exception_action(3, TASK, IDLE), ExceptionAction::Resume);
    assert_eq!(exception_action(14, TASK, IDLE), ExceptionAction::KillTask);
    assert_eq!(exception_action(14, IDLE, IDLE), ExceptionAction::Halt);
    assert_eq!(exception_action(8, TASK, IDLE), ExceptionAction::Halt);
    let kills: Vec<u8> = (0..32).filter(|v| exception_action(*v, TASK, IDLE) == ExceptionAction::KillTask).collect();
    assert_eq!(kills, vec![0, 4, 5, 6, 7, 12, 13, 14, 16, 17, 19]);
}

#[test]
fn paths_are_split() {
    assert_eq!(split_path("/usr//bin/./ls/"), vec!["usr", "bin", ".", "ls"]);
    assert_eq!(split_path("///"), Vec::<String>::new());
    assert_eq!(split_path("a"), vec!["a"]);
    assert_eq!(split_parent_and_name("/a/b"), Ok(("/a", "b")));
    assert_eq!(split_parent_and_name("/b"), Ok(("/", "b")));
    assert_eq!(split_parent_and_name("a/b"), Ok(("a", "b")));
    assert_eq!(split_parent_and_name("/a/"), Err(FileSystemError::InvalidPath));
    assert_eq!(split_parent_and_name("/"), Err(FileSystemError::InvalidPath));
    assert_eq!(split_parent_and_name(""), Err(FileSystemError::InvalidPath));
}

#[test]
fn access_modes() {
    assert!(AccessMode::ReadOnly.can_read() && !AccessMode::ReadOnly.can_write());
    assert!(!AccessMode::WriteOnly.can_read() && AccessMode::WriteOnly.can_write());
    assert!(AccessMode::ReadWrite.can_read() && AccessMode::ReadWrite.can_write());
}
