//! The interrupt descriptor table, and what is done and said about exceptions.

use vstd::prelude::*;
use vstd::string::StringExecFns;

use crate::helper_functions::{ascii_text, hex_form, u64_field, TaskId, TimerTicks};

verus! {

/// The selector of the kernel's code segment.
pub const KERNEL_CS: u16 = 0x08;

/// The type of a gate that holds interrupts off.
pub const INTERRUPT_GATE: u8 = 0x8E;

/// The type of a gate that leaves interrupts on.
pub const TRAP_GATE: u8 = 0x8F;

/// The registers at the time of an interrupt, in the order of the stack.
#[derive(Debug, Clone, Copy, PartialEq, Eq, Structural)]
pub struct InterruptFrame {
    pub rax: u64,
    pub rbx: u64,
    pub rcx: u64,
    pub rdx: u64,
    pub rsi: u64,
    pub rdi: u64,
    pub rbp: u64,
    pub r8: u64,
    pub r9: u64,
    pub r10: u64,
    pub r11: u64,
    pub r12: u64,
    pub r13: u64,
    pub r14: u64,
    pub r15: u64,
    pub error_code: u64,
    pub rip: u64,
    pub cs: u64,
    pub rflags: u64,
    pub rsp: u64,
    pub ss: u64,
}

/// A gate of the table.
#[derive(Debug, Clone, Copy, PartialEq, Eq, Structural)]
pub struct IdtEntry {
    pub offset_low: u16,
    pub selector: u16,
    /// The number of the stack to switch to, or zero.
    pub ist_and_rsv: u8,
    pub type_attr: u8,
    pub offset_mid: u16,
    pub offset_high: u32,
    pub reserved: u32,
}

/// A gate of a type that leads to a handler, on another stack if `ist` is not
/// zero.
pub open spec fn gate(handler: u64, ist: u8, type_attr: u8) -> IdtEntry {
    IdtEntry {
        offset_low: (handler & 0xFFFF) as u16,
        selector: KERNEL_CS,
        ist_and_rsv: ist & 0x7,
        type_attr,
        offset_mid: ((handler >> 16) & 0xFFFF) as u16,
        offset_high: (handler >> 32) as u32,
        reserved: 0,
    }
}

impl IdtEntry {
    /// A gate that is not there.
    pub fn missing() -> (r: Self)
        ensures
            r == (IdtEntry {
                offset_low: 0,
                selector: 0,
                ist_and_rsv: 0,
                type_attr: 0,
                offset_mid: 0,
                offset_high: 0,
                reserved: 0,
            }),
    {
        IdtEntry {
            offset_low: 0,
            selector: 0,
            ist_and_rsv: 0,
            type_attr: 0,
            offset_mid: 0,
            offset_high: 0,
            reserved: 0,
        }
    }

    /// A gate that holds interrupts off while the handler runs.
    pub fn interrupt_gate(handler: u64, ist: u8) -> (r: Self)
        ensures
            r == gate(handler, ist, INTERRUPT_GATE),
    {
        IdtEntry {
            offset_low: (handler & 0xFFFF) as u16,
            selector: KERNEL_CS,
            ist_and_rsv: ist & 0x7,
            type_attr: INTERRUPT_GATE,
            offset_mid: ((handler >> 16) & 0xFFFF) as u16,
            offset_high: (handler >> 32) as u32,
            reserved: 0,
        }
    }

    /// A gate that leaves interrupts on while the handler runs.
    pub fn trap_gate(handler: u64, ist: u8) -> (r: Self)
        ensures
            r == gate(handler, ist, TRAP_GATE),
    {
        IdtEntry {
            offset_low: (handler & 0xFFFF) as u16,
            selector: KERNEL_CS,
            ist_and_rsv: ist & 0x7,
            type_attr: TRAP_GATE,
            offset_mid: ((handler >> 16) & 0xFFFF) as u16,
            offset_high: (handler >> 32) as u32,
            reserved: 0,
        }
    }
}

/// The address that the three parts of a gate make up.
pub open spec fn gate_handler(entry: IdtEntry) -> u64 {
    entry.offset_low as u64 | (entry.offset_mid as u64) << 16 | (entry.offset_high as u64) << 32
}

/// A gate leads to the handler it was made for, and names one of the stacks
/// that there are.
pub proof fn gate_leads_to_handler(handler: u64, ist: u8, type_attr: u8)
    ensures
        gate_handler(gate(handler, ist, type_attr)) == handler,
        gate(handler, ist, type_attr).ist_and_rsv < 8,
        ist < 8 ==> gate(handler, ist, type_attr).ist_and_rsv == ist,
{
    assert(((handler & 0xFFFF) as u16) as u64 | (((handler >> 16) & 0xFFFF) as u16 as u64) << 16 | (
    (handler >> 32) as u32 as u64) << 32 == handler) by (bit_vector);
    assert(ist & 0x7 < 8 && (ist < 8 ==> ist & 0x7 == ist)) by (bit_vector);
}

/// The whole table.
pub struct Idt {
    pub entries: [IdtEntry; 256],
}

/// The length of the table in bytes, less one.
pub const IDT_LIMIT: u16 = 4095;

/// The addresses of the handlers.
pub struct Handlers {
    /// The handlers of the processor's exceptions.
    pub exceptions: [u64; 32],
    /// The handler of all interrupts without one of their own.
    pub generic: u64,
    pub timer: u64,
    pub keyboard: u64,
    pub spurious: u64,
}

/// The entry for a vector. Debugging exceptions leave interrupts on, and a double
/// fault has a stack of its own.
pub open spec fn vector_gate(handlers: &Handlers, vector: int) -> IdtEntry {
    if vector == 1 || vector == 3 {
        gate(handlers.exceptions@[vector], 0, TRAP_GATE)
    } else if vector == 8 {
        gate(handlers.exceptions@[vector], 1, INTERRUPT_GATE)
    } else if vector < 32 {
        gate(handlers.exceptions@[vector], 0, INTERRUPT_GATE)
    } else if vector == 0x20 {
        gate(handlers.timer, 0, INTERRUPT_GATE)
    } else if vector == 0x21 {
        gate(handlers.keyboard, 0, INTERRUPT_GATE)
    } else if vector == 0xFF {
        gate(handlers.spurious, 0, INTERRUPT_GATE)
    } else {
        gate(handlers.generic, 0, INTERRUPT_GATE)
    }
}

/// Fills the table in.
pub fn init_idt(handlers: &Handlers) -> (r: Idt)
    ensures
        forall|v: int| 0 <= v < 256 ==> #[trigger] r.entries@[v] == vector_gate(handlers, v),
{
    let empty = IdtEntry::missing();
    let mut idt = Idt { entries: [empty;256] };
    let mut i: usize = 0;
    while i < 32
        invariant
            i <= 32,
            forall|v: int|
                0 <= v < i ==> #[trigger] idt.entries@[v] == vector_gate(handlers, v),
        decreases 32 - i,
    {
        idt.entries[i] = if i == 1 || i == 3 {
            IdtEntry::trap_gate(handlers.exceptions[i], 0)
        } else if i == 8 {
            IdtEntry::interrupt_gate(handlers.exceptions[i], 1)
        } else {
            IdtEntry::interrupt_gate(handlers.exceptions[i], 0)
        };
        i = i + 1;
    }
    while i < 256
        invariant
            32 <= i <= 256,
            forall|v: int|
                0 <= v < 32 ==> #[trigger] idt.entries@[v] == vector_gate(handlers, v),
            forall|v: int|
                32 <= v < i ==> #[trigger] idt.entries@[v] == gate(
                    handlers.generic,
                    0,
                    INTERRUPT_GATE,
                ),
        decreases 256 - i,
    {
        idt.entries[i] = IdtEntry::interrupt_gate(handlers.generic, 0);
        i = i + 1;
    }
    idt.entries[0x20] = IdtEntry::interrupt_gate(handlers.timer, 0);
    idt.entries[0x21] = IdtEntry::interrupt_gate(handlers.keyboard, 0);
    idt.entries[0xFF] = IdtEntry::interrupt_gate(handlers.spurious, 0);
    idt
}

/// One line of a dump.
pub open spec fn field_text(label: Seq<char>, value: u64) -> Seq<char> {
    label + ascii_text(hex_form(value, 16)) + seq!['\n']
}

/// The dump of the registers.
pub open spec fn frame_text(frame: InterruptFrame) -> Seq<char> {
    "----- Register Dump -----\n"@ + field_text("  RIP    = "@, frame.rip) + field_text(
        "  CS     = "@,
        frame.cs,
    ) + field_text("  RFLAGS = "@, frame.rflags) + field_text("  RSP    = "@, frame.rsp)
        + field_text("  SS     = "@, frame.ss) + field_text("  ERR    = "@, frame.error_code)
        + field_text("  RAX    = "@, frame.rax) + field_text("  RBX    = "@, frame.rbx)
        + field_text("  RCX    = "@, frame.rcx) + field_text("  RDX    = "@, frame.rdx)
        + field_text("  RSI    = "@, frame.rsi) + field_text("  RDI    = "@, frame.rdi)
        + field_text("  RBP    = "@, frame.rbp) + field_text("  R8     = "@, frame.r8)
        + field_text("  R9     = "@, frame.r9) + field_text("  R10    = "@, frame.r10)
        + field_text("  R11    = "@, frame.r11) + field_text("  R12    = "@, frame.r12)
        + field_text("  R13    = "@, frame.r13) + field_text("  R14    = "@, frame.r14)
        + field_text("  R15    = "@, frame.r15) + "----- End Dump -----\n"@
}

/// Adds a line to a dump.
fn add_field(text: &mut String, label: &str, value: u64)
    ensures
        final(text)@ == old(text)@ + field_text(label@, value),
{
    let line: String = u64_field(label, value);
    text.append(line.as_str());
}

/// Writes the registers out.
pub fn print_frame(frame: &InterruptFrame) -> (r: String)
    ensures
        r@ == frame_text(*frame),
{
    let mut text: String = "----- Register Dump -----\n".to_owned();
    add_field(&mut text, "  RIP    = ", frame.rip);
    add_field(&mut text, "  CS     = ", frame.cs);
    add_field(&mut text, "  RFLAGS = ", frame.rflags);
    add_field(&mut text, "  RSP    = ", frame.rsp);
    add_field(&mut text, "  SS     = ", frame.ss);
    add_field(&mut text, "  ERR    = ", frame.error_code);
    add_field(&mut text, "  RAX    = ", frame.rax);
    add_field(&mut text, "  RBX    = ", frame.rbx);
    add_field(&mut text, "  RCX    = ", frame.rcx);
    add_field(&mut text, "  RDX    = ", frame.rdx);
    add_field(&mut text, "  RSI    = ", frame.rsi);
    add_field(&mut text, "  RDI    = ", frame.rdi);
    add_field(&mut text, "  RBP    = ", frame.rbp);
    add_field(&mut text, "  R8     = ", frame.r8);
    add_field(&mut text, "  R9     = ", frame.r9);
    add_field(&mut text, "  R10    = ", frame.r10);
    add_field(&mut text, "  R11    = ", frame.r11);
    add_field(&mut text, "  R12    = ", frame.r12);
    add_field(&mut text, "  R13    = ", frame.r13);
    add_field(&mut text, "  R14    = ", frame.r14);
    add_field(&mut text, "  R15    = ", frame.r15);
    text.append("----- End Dump -----\n");
    text
}

/// What is done about an exception.
#[derive(Debug, Clone, Copy, PartialEq, Eq, Structural)]
pub enum ExceptionAction {
    /// The interrupted code goes on.
    Resume,
    /// The task at fault is killed.
    KillTask,
    /// The processor is stopped.
    Halt,
}

/// The exceptions that are put down to the task that was running.
pub open spec fn is_task_fault(vector: u8) -> bool {
    vector == 0 || 4 <= vector <= 7 || 12 <= vector <= 14 || vector == 16 || vector == 17 || vector
        == 19
}

/// What is done about the exception with a vector, if `current` is running and
/// `idle` is the task that runs when no other does. A fault of the idle task
/// is one of the kernel.
pub open spec fn action_on(vector: u8, current: TaskId, idle: TaskId) -> ExceptionAction {
    if vector == 3 {
        ExceptionAction::Resume
    } else if is_task_fault(vector) && current != idle {
        ExceptionAction::KillTask
    } else {
        ExceptionAction::Halt
    }
}

/// Decides what is done about an exception.
pub fn exception_action(vector: u8, current: TaskId, idle: TaskId) -> (r: ExceptionAction)
    ensures
        r == action_on(vector, current, idle),
{
    if vector == 3 {
        return ExceptionAction::Resume;
    }
    let task_fault = vector == 0 || (4 <= vector && vector <= 7) || (12 <= vector && vector <= 14)
        || vector == 16 || vector == 17 || vector == 19;
    if task_fault && current != idle {
        ExceptionAction::KillTask
    } else {
        ExceptionAction::Halt
    }
}

/// What is said of a fault before the task is killed or the processor stopped.
pub open spec fn fault_text(
    current: TaskId,
    idle: TaskId,
    reason: Seq<char>,
    frame: InterruptFrame,
) -> Seq<char> {
    if current != idle {
        field_text("\n[TASK FAULT] Task "@, current.slot_index) + " killed due to: "@ + reason
            + "\n"@ + frame_text(frame)
    } else {
        "\n[KERNEL FAULT] "@ + reason + " in kernel context. Halting...\n"@ + frame_text(frame)
    }
}

/// Writes out what is said of a fault.
pub fn try_kill_current_task(
    current: TaskId,
    idle: TaskId,
    reason: &str,
    frame: &InterruptFrame,
) -> (r: String)
    ensures
        r@ == fault_text(current, idle, reason@, *frame),
{
    if current != idle {
        let mut text: String = u64_field("\n[TASK FAULT] Task ", current.slot_index);
        text.append(" killed due to: ");
        text.append(reason);
        text.append("\n");
        text.append(print_frame(frame).as_str());
        text
    } else {
        let mut text: String = "\n[KERNEL FAULT] ".to_owned();
        text.append(reason);
        text.append(" in kernel context. Halting...\n");
        text.append(print_frame(frame).as_str());
        text
    }
}

/// What is said of a page fault: the address, the error code, and what the
/// bits of the error code mean.
pub open spec fn page_fault_text(address: u64, error_code: u64) -> Seq<char> {
    "\n[EXCEPTION] #PF Page Fault\n"@ + "  Faulting address: "@ + field_text(""@, address)
        + "  Error code:       "@ + field_text(""@, error_code) + (if error_code & 1 == 0 {
        "  Reason: non-present page\n"@
    } else {
        "  Reason: protection violation\n"@
    }) + (if error_code & 2 != 0 {
        "  Access: write\n"@
    } else {
        "  Access: read\n"@
    }) + (if error_code & 4 != 0 {
        "  Mode:   user\n"@
    } else {
        "  Mode:   supervisor\n"@
    }) + (if error_code & 8 != 0 {
        "  Note:   reserved PTE bit set\n"@
    } else {
        seq![]
    }) + (if error_code & 16 != 0 {
        "  Note:   instruction fetch\n"@
    } else {
        seq![]
    })
}

/// Writes out what is said of a page fault.
pub fn handler_page_fault(address: u64, error_code: u64) -> (r: String)
    ensures
        r@ == page_fault_text(address, error_code),
{
    let mut text: String = "\n[EXCEPTION] #PF Page Fault\n".to_owned();
    text.append("  Faulting address: ");
    add_field(&mut text, "", address);
    text.append("  Error code:       ");
    add_field(&mut text, "", error_code);
    if error_code & 1 == 0 {
        text.append("  Reason: non-present page\n");
    } else {
        text.append("  Reason: protection violation\n");
    }
    if error_code & 2 != 0 {
        text.append("  Access: write\n");
    } else {
        text.append("  Access: read\n");
    }
    if error_code & 4 != 0 {
        text.append("  Mode:   user\n");
    } else {
        text.append("  Mode:   supervisor\n");
    }
    let ghost before = text@;
    if error_code & 8 != 0 {
        text.append("  Note:   reserved PTE bit set\n");
    } else {
        assert(before + Seq::<char>::empty() =~= before);
    }
    let ghost middle = text@;
    if error_code & 16 != 0 {
        text.append("  Note:   instruction fetch\n");
    } else {
        assert(middle + Seq::<char>::empty() =~= middle);
    }
    text
}

/// What is said of a general protection fault.
pub open spec fn general_protection_text(error_code: u64) -> Seq<char> {
    "\n[EXCEPTION] #GP General Protection Fault\n"@ + if error_code == 0 {
        "  (no specific segment involved)\n"@
    } else {
        field_text("  Error code (selector info): "@, error_code)
    }
}

/// Writes out what is said of a general protection fault.
pub fn handler_general_protection(error_code: u64) -> (r: String)
    ensures
        r@ == general_protection_text(error_code),
{
    let mut text: String = "\n[EXCEPTION] #GP General Protection Fault\n".to_owned();
    if error_code == 0 {
        text.append("  (no specific segment involved)\n");
    } else {
        add_field(&mut text, "  Error code (selector info): ", error_code);
    }
    text
}

/// Why a task is killed.
pub open spec fn reason_text(vector: u8) -> Seq<char> {
    if vector == 0 {
        "#DE Divide Error"@
    } else if vector == 4 {
        "#OF Overflow"@
    } else if vector == 5 {
        "#BR BOUND Range Exceeded"@
    } else if vector == 6 {
        "#UD Invalid Opcode"@
    } else if vector == 7 {
        "#NM Device Not Available (FPU)"@
    } else if vector == 12 {
        "#SS Stack-Segment Fault"@
    } else if vector == 13 {
        "#GP General Protection Fault"@
    } else if vector == 14 {
        "#PF Page Fault"@
    } else if vector == 16 {
        "#MF x87 FPU Floating-Point Error"@
    } else if vector == 17 {
        "#AC Alignment Check"@
    } else {
        "#XM SIMD Floating-Point Exception"@
    }
}

fn reason_of(vector: u8) -> (r: &'static str)
    ensures
        r@ == reason_text(vector),
{
    if vector == 0 {
        "#DE Divide Error"
    } else if vector == 4 {
        "#OF Overflow"
    } else if vector == 5 {
        "#BR BOUND Range Exceeded"
    } else if vector == 6 {
        "#UD Invalid Opcode"
    } else if vector == 7 {
        "#NM Device Not Available (FPU)"
    } else if vector == 12 {
        "#SS Stack-Segment Fault"
    } else if vector == 13 {
        "#GP General Protection Fault"
    } else if vector == 14 {
        "#PF Page Fault"
    } else if vector == 16 {
        "#MF x87 FPU Floating-Point Error"
    } else if vector == 17 {
        "#AC Alignment Check"
    } else {
        "#XM SIMD Floating-Point Exception"
    }
}

/// What is said of an exception before the registers, with the address of a
/// page fault.
pub open spec fn headline_text(vector: u8, address: u64, error_code: u64) -> Seq<char> {
    if vector == 1 {
        "\n[EXCEPTION] #DB Debug Exception\n"@
    } else if vector == 2 {
        "\n[EXCEPTION] NMI Non-Maskable Interrupt\n"@
    } else if vector == 3 {
        "\n[BREAKPOINT] INT3 hit\n"@
    } else if vector == 8 {
        "\n\n[DOUBLE FAULT] Kernel double fault - halting.\n"@ + "Error code (always 0): 0\n"@
    } else if vector == 9 {
        "\n[EXCEPTION] Coprocessor Segment Overrun (legacy)\n"@
    } else if vector == 10 {
        "\n[EXCEPTION] #TS Invalid TSS\n"@ + "  Selector causing fault = "@ + field_text(""@, error_code)
    } else if vector == 11 {
        "\n[EXCEPTION] #NP Segment Not Present\n"@ + "  Selector = "@ + field_text(""@, error_code)
    } else if vector == 12 {
        "\n[EXCEPTION] #SS Stack-Segment Fault\n"@ + field_text("  Selector = "@, error_code)
    } else if vector == 13 {
        general_protection_text(error_code)
    } else if vector == 14 {
        page_fault_text(address, error_code)
    } else if vector == 17 {
        "\n[EXCEPTION] #AC Alignment Check\n"@ + field_text("  Error code: "@, error_code)
    } else if vector == 18 {
        "\n[EXCEPTION] #MC Machine Check - halting.\n"@
    } else if vector == 20 {
        "\n[EXCEPTION] #VE Virtualization Exception\n"@
    } else if vector == 21 {
        "\n[EXCEPTION] #CP Control Protection Exception\n"@
    } else if vector == 28 {
        "\n[EXCEPTION] #HV Hypervisor Injection Exception\n"@
    } else if vector == 29 {
        "\n[EXCEPTION] #VC VMM Communication Exception\n"@
    } else if vector == 30 {
        "\n[EXCEPTION] #SX Security Exception\n"@ + field_text("  Error code: "@, error_code)
    } else if is_task_fault(vector) {
        ""@
    } else {
        "\n[EXCEPTION] Reserved / Unimplemented Exception\n"@
    }
}

fn headline(vector: u8, address: u64, error_code: u64) -> (r: String)
    ensures
        r@ == headline_text(vector, address, error_code),
{
    if vector == 1 {
        let text: String = "\n[EXCEPTION] #DB Debug Exception\n".to_owned();
        text
    } else if vector == 2 {
        let text: String = "\n[EXCEPTION] NMI Non-Maskable Interrupt\n".to_owned();
        text
    } else if vector == 3 {
        let text: String = "\n[BREAKPOINT] INT3 hit\n".to_owned();
        text
    } else if vector == 8 {
        let mut text: String = "\n\n[DOUBLE FAULT] Kernel double fault - halting.\n".to_owned();
        text.append("Error code (always 0): 0\n");
        text
    } else if vector == 9 {
        let text: String = "\n[EXCEPTION] Coprocessor Segment Overrun (legacy)\n".to_owned();
        text
    } else if vector == 10 {
        let mut text: String = "\n[EXCEPTION] #TS Invalid TSS\n".to_owned();
        text.append("  Selector causing fault = ");
        add_field(&mut text, "", error_code);
        text
    } else if vector == 11 {
        let mut text: String = "\n[EXCEPTION] #NP Segment Not Present\n".to_owned();
        text.append("  Selector = ");
        add_field(&mut text, "", error_code);
        text
    } else if vector == 12 {
        let mut text: String = "\n[EXCEPTION] #SS Stack-Segment Fault\n".to_owned();
        add_field(&mut text, "  Selector = ", error_code);
        text
    } else if vector == 13 {
        let text: String = handler_general_protection(error_code);
        text
    } else if vector == 14 {
        let text: String = handler_page_fault(address, error_code);
        text
    } else if vector == 17 {
        let mut text: String = "\n[EXCEPTION] #AC Alignment Check\n".to_owned();
        add_field(&mut text, "  Error code: ", error_code);
        text
    } else if vector == 18 {
        let text: String = "\n[EXCEPTION] #MC Machine Check - halting.\n".to_owned();
        text
    } else if vector == 20 {
        let text: String = "\n[EXCEPTION] #VE Virtualization Exception\n".to_owned();
        text
    } else if vector == 21 {
        let text: String = "\n[EXCEPTION] #CP Control Protection Exception\n".to_owned();
        text
    } else if vector == 28 {
        let text: String = "\n[EXCEPTION] #HV Hypervisor Injection Exception\n".to_owned();
        text
    } else if vector == 29 {
        let text: String = "\n[EXCEPTION] #VC VMM Communication Exception\n".to_owned();
        text
    } else if vector == 30 {
        let mut text: String = "\n[EXCEPTION] #SX Security Exception\n".to_owned();
        add_field(&mut text, "  Error code: ", error_code);
        text
    } else if vector == 0 || (4 <= vector && vector <= 7) || vector == 16 || vector == 19 {
        "".to_owned()
    } else {
        "\n[EXCEPTION] Reserved / Unimplemented Exception\n".to_owned()
    }
}

/// All that is said of an exception. After a machine check the registers are
/// not trusted, and not shown.
pub open spec fn exception_report(
    vector: u8,
    address: u64,
    frame: InterruptFrame,
    current: TaskId,
    idle: TaskId,
) -> Seq<char> {
    headline_text(vector, address, frame.error_code) + if is_task_fault(vector) {
        fault_text(current, idle, reason_text(vector), frame)
    } else if vector == 18 {
        seq![]
    } else {
        frame_text(frame)
    }
}

/// Writes out all that is said of an exception.
pub fn exception_text(
    vector: u8,
    address: u64,
    frame: &InterruptFrame,
    current: TaskId,
    idle: TaskId,
) -> (r: String)
    ensures
        r@ == exception_report(vector, address, *frame, current, idle),
{
    let mut text: String = headline(vector, address, frame.error_code);
    let task_fault = vector == 0 || (4 <= vector && vector <= 7) || (12 <= vector && vector <= 14)
        || vector == 16 || vector == 17 || vector == 19;
    if task_fault {
        text.append(try_kill_current_task(current, idle, reason_of(vector), frame).as_str());
    } else if vector != 18 {
        text.append(print_frame(frame).as_str());
    } else {
        assert(text@ + Seq::<char>::empty() =~= text@);
    }
    text
}

/// Counts a tick of the timer.
pub fn count_tick(ticks: &mut TimerTicks)
    ensures
        final(ticks).count == old(ticks).count.wrapping_add(1),
{
    ticks.count = ticks.count.wrapping_add(1);
}

/// Decides after a tick if another task gets the processor: it does if the
/// task's time is over, or if that was requested. A request counts once.
pub fn should_reschedule(quantum_over: bool, force_reschedule: &mut bool) -> (r: bool)
    ensures
        r == (quantum_over || *old(force_reschedule)),
        *final(force_reschedule) == false,
{
    let mut schedule = quantum_over;
    if *force_reschedule {
        schedule = true;
        *force_reschedule = false;
    }
    schedule
}

/// The parts of a gate: the handler's address in two halves of a half and a half,
/// the code segment, one of the stacks, and the type.
pub proof fn gate_parts(handler: u64, ist: u8, r: IdtEntry, t: IdtEntry)
    requires
        ist < 8,
        call_ensures(IdtEntry::interrupt_gate, (handler, ist), r),
        call_ensures(IdtEntry::trap_gate, (handler, ist), t),
    ensures
        r.offset_low + 0x1_0000 * r.offset_mid + 0x1_0000_0000 * r.offset_high == handler,
        r.selector == 8,
        r.ist_and_rsv == ist,
        r.type_attr == 0x8E,
        r.reserved == 0,
        t == (IdtEntry { type_attr: 0x8F, ..r }),
{
    assert(((handler & 0xFFFF) as u16) as u64 + 0x1_0000 * (((handler >> 16) & 0xFFFF) as u16 as u64)
        + 0x1_0000_0000 * ((handler >> 32) as u32 as u64) == handler && (ist < 8 ==> ist & 0x7
        == ist)) by (bit_vector);
}

/// Every vector has a gate: those below 32 lead to the handler of the exception,
/// 0x20 to the timer's, 0x21 to the keyboard's, 0xFF to the one without a cause,
/// and all others to the common one. Interrupts stay on for vectors 1 and 3
/// alone, and vector 8 alone has a stack of its own.
pub proof fn vectors_have_gates(handlers: &Handlers, idt: Idt, v: int)
    requires
        call_ensures(init_idt, (handlers,), idt),
        0 <= v < 256,
    ensures
        gate_handler(idt.entries@[v]) == if v < 32 {
            handlers.exceptions@[v]
        } else if v == 0x20 {
            handlers.timer
        } else if v == 0x21 {
            handlers.keyboard
        } else if v == 0xFF {
            handlers.spurious
        } else {
            handlers.generic
        },
        idt.entries@[v].type_attr == if v == 1 || v == 3 {
            0x8Fu8
        } else {
            0x8E
        },
        idt.entries@[v].ist_and_rsv == if v == 8 {
            1u8
        } else {
            0
        },
        idt.entries@[v].selector == 8,
{
    let e = idt.entries@[v];
    assert(e == vector_gate(handlers, v));
    gate_leads_to_handler(handlers.exceptions@[v], 0, TRAP_GATE);
    gate_leads_to_handler(handlers.exceptions@[v], 0, INTERRUPT_GATE);
    gate_leads_to_handler(handlers.exceptions@[v], 1, INTERRUPT_GATE);
    gate_leads_to_handler(handlers.timer, 0, INTERRUPT_GATE);
    gate_leads_to_handler(handlers.keyboard, 0, INTERRUPT_GATE);
    gate_leads_to_handler(handlers.spurious, 0, INTERRUPT_GATE);
    gate_leads_to_handler(handlers.generic, 0, INTERRUPT_GATE);
}

/// A breakpoint is resumed from, and nothing else is. A fault that a task can
/// make kills it: vectors 0, 4 to 7, 12 to 14, 16, 17 and 19. It does not kill
/// the idle task. All else halts the processor.
pub proof fn exceptions_are_dealt_with(v: u8, current: TaskId, idle: TaskId, r: ExceptionAction)
    requires
        call_ensures(exception_action, (v, current, idle), r),
    ensures
        r == ExceptionAction::Resume <==> v == 3,
        r == ExceptionAction::KillTask <==> current != idle && (v == 0 || v == 4 || v == 5 || v == 6
            || v == 7 || v == 12 || v == 13 || v == 14 || v == 16 || v == 17 || v == 19),
        v != 3 && current == idle ==> r == ExceptionAction::Halt,
{
}

/// The values of a dump, in order.
pub open spec fn dumped_values(f: InterruptFrame) -> Seq<u64> {
    seq![
        f.rip,
        f.cs,
        f.rflags,
        f.rsp,
        f.ss,
        f.error_code,
        f.rax,
        f.rbx,
        f.rcx,
        f.rdx,
        f.rsi,
        f.rdi,
        f.rbp,
        f.r8,
        f.r9,
        f.r10,
        f.r11,
        f.r12,
        f.r13,
        f.r14,
        f.r15,
    ]
}

/// The labels of a dump, in order.
pub open spec fn dumped_labels() -> Seq<Seq<char>> {
    seq![
        "  RIP    = "@,
        "  CS     = "@,
        "  RFLAGS = "@,
        "  RSP    = "@,
        "  SS     = "@,
        "  ERR    = "@,
        "  RAX    = "@,
        "  RBX    = "@,
        "  RCX    = "@,
        "  RDX    = "@,
        "  RSI    = "@,
        "  RDI    = "@,
        "  RBP    = "@,
        "  R8     = "@,
        "  R9     = "@,
        "  R10    = "@,
        "  R11    = "@,
        "  R12    = "@,
        "  R13    = "@,
        "  R14    = "@,
        "  R15    = "@,
    ]
}

/// The first `n` lines of a dump.
pub open spec fn dumped_lines(f: InterruptFrame, n: nat) -> Seq<char>
    decreases n,
{
    if n == 0 {
        "----- Register Dump -----\n"@
    } else {
        dumped_lines(f, (n - 1) as nat) + field_text(dumped_labels()[n - 1], dumped_values(f)[n - 1])
    }
}

/// A dump has a line for each of the twenty-one registers, with its name and its
/// value, between two lines that mark it.
pub proof fn dump_lines(f: InterruptFrame)
    ensures
        frame_text(f) == dumped_lines(f, 21) + "----- End Dump -----\n"@,
{
    reveal_with_fuel(dumped_lines, 22);
}

/// A line of a dump is the label, `0x`, sixteen digits, and the end of the line.
pub proof fn dump_line(label: &str, value: u64, r: String)
    requires
        call_ensures(u64_field, (label, value), r),
    ensures
        r@ == label@ + ascii_text(hex_form(value, 16)) + seq!['\n'],
        r@ == field_text(label@, value),
{
}

/// What a fault is called.
pub proof fn faults_have_names()
    ensures
        reason_text(0) == "#DE Divide Error"@,
        reason_text(4) == "#OF Overflow"@,
        reason_text(5) == "#BR BOUND Range Exceeded"@,
        reason_text(6) == "#UD Invalid Opcode"@,
        reason_text(7) == "#NM Device Not Available (FPU)"@,
        reason_text(12) == "#SS Stack-Segment Fault"@,
        reason_text(13) == "#GP General Protection Fault"@,
        reason_text(14) == "#PF Page Fault"@,
        reason_text(16) == "#MF x87 FPU Floating-Point Error"@,
        reason_text(17) == "#AC Alignment Check"@,
        reason_text(19) == "#XM SIMD Floating-Point Exception"@,
{
}

/// What is said of an exception that is no fault of a task: a headline, with the
/// selector or the error code where the processor gives one, and the registers,
/// but for a machine check.
pub proof fn exceptions_are_announced(v: u8, address: u64, f: InterruptFrame, a: TaskId, b: TaskId)
    ensures
        ({
            let code = f.error_code;
            let head = |v: u8| headline_text(v, address, code);
            &&& head(1) == "\n[EXCEPTION] #DB Debug Exception\n"@
            &&& head(2) == "\n[EXCEPTION] NMI Non-Maskable Interrupt\n"@
            &&& head(3) == "\n[BREAKPOINT] INT3 hit\n"@
            &&& head(8) == "\n\n[DOUBLE FAULT] Kernel double fault - halting.\n"@
                + "Error code (always 0): 0\n"@
            &&& head(9) == "\n[EXCEPTION] Coprocessor Segment Overrun (legacy)\n"@
            &&& head(10) == "\n[EXCEPTION] #TS Invalid TSS\n"@ + "  Selector causing fault = "@
                + field_text(""@, code)
            &&& head(11) == "\n[EXCEPTION] #NP Segment Not Present\n"@ + "  Selector = "@
                + field_text(""@, code)
            &&& head(12) == "\n[EXCEPTION] #SS Stack-Segment Fault\n"@ + field_text(
                "  Selector = "@,
                code,
            )
            &&& head(13) == general_protection_text(code)
            &&& head(14) == page_fault_text(address, code)
            &&& head(17) == "\n[EXCEPTION] #AC Alignment Check\n"@ + field_text(
                "  Error code: "@,
                code,
            )
            &&& head(18) == "\n[EXCEPTION] #MC Machine Check - halting.\n"@
            &&& head(20) == "\n[EXCEPTION] #VE Virtualization Exception\n"@
            &&& head(21) == "\n[EXCEPTION] #CP Control Protection Exception\n"@
            &&& head(28) == "\n[EXCEPTION] #HV Hypervisor Injection Exception\n"@
            &&& head(29) == "\n[EXCEPTION] #VC VMM Communication Exception\n"@
            &&& head(30) == "\n[EXCEPTION] #SX Security Exception\n"@ + field_text(
                "  Error code: "@,
                code,
            )
            &&& exception_report(18, address, f, a, b) == head(18) + Seq::<char>::empty()
            &&& (v == 1 || v == 2 || v == 3 || 8 <= v <= 11 || v == 15 || v == 18 || v >= 20) && v
                != 18 ==> exception_report(v, address, f, a, b) == head(v) + frame_text(f)
            &&& (v == 15 || 22 <= v <= 27 || v >= 31) ==> head(v)
                == "\n[EXCEPTION] Reserved / Unimplemented Exception\n"@
        }),
{
}

/// A fault of a task other than the idle one names the task's slot and the
/// fault; one of the idle task is one of the kernel. The registers follow.
pub proof fn faults_are_announced(v: u8, address: u64, f: InterruptFrame, a: TaskId, b: TaskId)
    requires
        v == 0 || 4 <= v <= 7 || 12 <= v <= 14 || v == 16 || v == 17 || v == 19,
    ensures
        ({
            let text = exception_report(v, address, f, a, b);
            let head = headline_text(v, address, f.error_code);
            &&& a != b ==> text == head + (field_text("\n[TASK FAULT] Task "@, a.slot_index)
                + " killed due to: "@ + reason_text(v) + "\n"@ + frame_text(f))
            &&& a == b ==> text == head + ("\n[KERNEL FAULT] "@ + reason_text(v)
                + " in kernel context. Halting...\n"@ + frame_text(f))
        }),
{
}

/// Ticks are counted one by one, round and round; a request to reschedule counts
/// once.
pub proof fn ticks_are_counted(over: bool)
    ensures
        forall|t: &mut TimerTicks| #[trigger]
            call_ensures(count_tick, (t,), ()) ==> final(t).count == (t.count + 1)
                % 0x1_0000_0000_0000_0000,
        forall|force: &mut bool, r: bool| #[trigger]
            call_ensures(should_reschedule, (over, force), r) ==> !*final(force) && r == (over
                || *force),
{
}

} // verus!
