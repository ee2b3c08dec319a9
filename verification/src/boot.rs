//! What is settled before the devices are set up.

use vstd::prelude::*;

use crate::hardware_manager::acpi::{
    described_apic, described_cpus, parse_acpi, ApicInfo, CpuInfo, CpuTopology,
};
use crate::hardware_manager::hpet::{hpet_of, parse_hpet, HpetInfo};
use crate::system::{BootInfo, BOOT_MAGIC};

verus! {

/// Why the system is not started.
#[derive(Debug, Clone, Copy, PartialEq, Eq, Structural)]
pub enum BootFailure {
    /// There is no boot structure, or it has not the mark, or there is no
    /// framebuffer.
    InvalidBootInfo,
    /// The tables do not describe the interrupt controllers.
    NoInterruptControllers,
    /// The tables do not describe the timer, or it is not fit to calibrate by.
    NoTimer,
    /// The processor that the machine was started on is not listed.
    NoBootProcessor,
}

/// What is known of the machine.
pub struct Machine {
    pub apic: ApicInfo,
    pub topology: CpuTopology,
    pub hpet: HpetInfo,
}

/// A processor is listed.
pub open spec fn lists(cpus: Seq<CpuInfo>, apic_id: u32) -> bool {
    exists|i: int| 0 <= i < cpus.len() && (#[trigger] cpus[i]).apic_id == apic_id
}

/// Checks what the boot loader has handed over.
pub fn check_boot_info(boot_info: Option<BootInfo>, framebuffer_addr: u64) -> (r: Result<
    BootInfo,
    BootFailure,
>)
    ensures
        match r {
            Ok(info) => boot_info == Some(info) && info.magic == BOOT_MAGIC && framebuffer_addr != 0,
            Err(e) => e == BootFailure::InvalidBootInfo && (boot_info matches Some(info)
                ==> info.magic != BOOT_MAGIC || framebuffer_addr == 0),
        },
{
    match boot_info {
        Some(info) => {
            if info.is_valid() && framebuffer_addr != 0 {
                Ok(info)
            } else {
                Err(BootFailure::InvalidBootInfo)
            }
        },
        None => Err(BootFailure::InvalidBootInfo),
    }
}

/// Finds out about the machine: from the tables in memory, and the timer's
/// capabilities register.
pub fn probe(memory: &[u8], rsdp: u64, bsp_apic_id: u32, capabilities: u64) -> (r: Result<
    Machine,
    BootFailure,
>)
    ensures
        ({
            let apic = described_apic(memory@, rsdp as int);
            let cpus = described_cpus(memory@, rsdp as int);
            let hpet = hpet_of(memory@, rsdp as int, capabilities);
            match r {
                Ok(machine) => {
                    &&& apic == Some(machine.apic)
                    &&& hpet == Some(machine.hpet)
                    &&& machine.topology.bsp_apic_id == bsp_apic_id
                    &&& machine.topology.cpus@ == cpus
                    &&& lists(cpus, bsp_apic_id)
                },
                Err(e) => if apic is None {
                    e == BootFailure::NoInterruptControllers
                } else if hpet is None {
                    e == BootFailure::NoTimer
                } else {
                    e == BootFailure::NoBootProcessor && !lists(cpus, bsp_apic_id)
                },
            }
        }),
{
    let (apic, topology) = match parse_acpi(memory, rsdp, bsp_apic_id) {
        Some(found) => found,
        None => {
            return Err(BootFailure::NoInterruptControllers);
        },
    };
    let hpet: HpetInfo = match parse_hpet(memory, rsdp, capabilities) {
        Some(found) => found,
        None => {
            return Err(BootFailure::NoTimer);
        },
    };
    if !topology.has_bsp() {
        return Err(BootFailure::NoBootProcessor);
    }
    Ok(Machine { apic, topology, hpet })
}

/// The system starts from a marked boot structure with a framebuffer, and from
/// nothing else.
pub proof fn boot_structures_are_checked(
    info: Option<BootInfo>,
    framebuffer: u64,
    r: Result<BootInfo, BootFailure>,
)
    requires
        call_ensures(check_boot_info, (info, framebuffer), r),
    ensures
        r is Ok <==> framebuffer != 0 && (info matches Some(b) && b.magic == 0xDEAD_BEEF_B007_CAFE),
        r is Ok ==> info == Some(r->Ok_0),
        r is Err ==> r == Err::<BootInfo, BootFailure>(BootFailure::InvalidBootInfo),
{
}

/// The machine is known if the tables describe interrupt controllers and a timer,
/// and list the processor that it was started on. What is missing first, in this
/// order, is the failure.
pub proof fn machines_are_probed(
    memory: &[u8],
    rsdp: u64,
    bsp: u32,
    capabilities: u64,
    r: Result<Machine, BootFailure>,
)
    requires
        call_ensures(probe, (memory, rsdp, bsp, capabilities), r),
    ensures
        ({
            let apic = described_apic(memory@, rsdp as int);
            let cpus = described_cpus(memory@, rsdp as int);
            let hpet = hpet_of(memory@, rsdp as int, capabilities);
            let listed = exists|i: int| 0 <= i < cpus.len() && (#[trigger] cpus[i]).apic_id == bsp;
            &&& r is Ok <==> apic is Some && hpet is Some && listed
            &&& apic is None ==> (r matches Err(e) && e == BootFailure::NoInterruptControllers)
            &&& apic is Some && hpet is None ==> (r matches Err(e) && e == BootFailure::NoTimer)
            &&& apic is Some && hpet is Some && !listed ==> (r matches Err(e) && e
                == BootFailure::NoBootProcessor)
            &&& (r matches Ok(machine) ==> apic == Some(machine.apic) && hpet == Some(machine.hpet)
                && machine.topology.cpus@ == cpus && machine.topology.bsp_apic_id == bsp)
        }),
{
}

} // verus!
