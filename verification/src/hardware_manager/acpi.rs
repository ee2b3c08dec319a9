//! ACPI tables: the list of tables, and the description of the interrupt
//! controllers.
//!
//! The tables are read out of `memory`, the physical memory of the machine
//! from address zero on. What lies outside of it is taken not to be there.

use vstd::prelude::*;

use crate::bytes::{
    bytes_are_digits_32, digits_are_read, from_le32, from_le64, le32, u32_from_le, u64_from_le,
};

verus! {

/// The signature of the root pointer, `RSD PTR ` with the space.
pub const RSDP_SIGNATURE: [u8; 8] = [0x52, 0x53, 0x44, 0x20, 0x50, 0x54, 0x52, 0x20];

/// The length of the root pointer.
pub const RSDP_LEN: u64 = 36;

/// The length of the header that begins every table.
pub const SDT_HEADER_LEN: u64 = 36;

/// Where the entries of the interrupt controller table begin.
pub const MADT_ENTRIES: u64 = 44;

/// The signature of the interrupt controller table, `APIC`.
pub const MADT_SIGNATURE: [u8; 4] = [0x41, 0x50, 0x49, 0x43];

/// `n` bytes at an address are in memory.
pub open spec fn readable(memory: Seq<u8>, address: int, n: int) -> bool {
    0 <= address && address + n <= memory.len()
}

/// The signature of the table at an address.
pub open spec fn has_signature(memory: Seq<u8>, address: int, signature: Seq<u8>) -> bool {
    readable(memory, address, SDT_HEADER_LEN as int) && memory.subrange(address, address + 4)
        == signature
}

/// The length that the header of the table at an address gives.
pub open spec fn table_len(memory: Seq<u8>, address: int) -> int {
    from_le32(memory, address + 4) as int
}

/// The addresses that the table at `address` lists from place `at` on, up to
/// `end`, each `width` bytes wide: eight, or four.
pub open spec fn listed_addresses(memory: Seq<u8>, at: int, end: int, width: int) -> Seq<u64>
    decreases end - at,
{
    if width > 0 && at + width <= end && readable(memory, at, width) {
        seq![
            if width == 8 {
                from_le64(memory, at)
            } else {
                from_le32(memory, at) as u64
            },
        ] + listed_addresses(memory, at + width, end, width)
    } else {
        seq![]
    }
}

/// The first address in a list at which a table with the signature stands.
/// Zero is no address.
pub open spec fn first_table(memory: Seq<u8>, list: Seq<u64>, signature: Seq<u8>) -> Option<u64>
    decreases list.len(),
{
    if list.len() == 0 {
        None
    } else if list[0] != 0 && has_signature(memory, list[0] as int, signature) {
        Some(list[0])
    } else {
        first_table(memory, list.skip(1), signature)
    }
}

/// The first table with the signature that the root table at `root` lists.
pub open spec fn table_in_root(
    memory: Seq<u8>,
    root: int,
    width: int,
    signature: Seq<u8>,
) -> Option<u64> {
    if readable(memory, root, SDT_HEADER_LEN as int) {
        first_table(
            memory,
            listed_addresses(
                memory,
                root + SDT_HEADER_LEN,
                root + table_len(memory, root),
                width,
            ),
            signature,
        )
    } else {
        None
    }
}

/// The first table with the signature. The root pointer at `rsdp` leads to a
/// root table with wide addresses, if its revision has one and it is given,
/// and else to one with narrow addresses.
pub open spec fn acpi_table(memory: Seq<u8>, rsdp: int, signature: Seq<u8>) -> Option<u64> {
    if !readable(memory, rsdp, RSDP_LEN as int) || memory.subrange(rsdp, rsdp + 8)
        != RSDP_SIGNATURE@ {
        None
    } else if memory[rsdp + 15] >= 2 && from_le64(memory, rsdp + 24) != 0 {
        table_in_root(memory, from_le64(memory, rsdp + 24) as int, 8, signature)
    } else {
        table_in_root(memory, from_le32(memory, rsdp + 16) as int, 4, signature)
    }
}

/// Gives the place of `n` bytes at an address, if they are in memory.
pub fn locate(memory: &[u8], address: u128, n: u128) -> (r: Option<usize>)
    ensures
        match r {
            Some(place) => readable(memory@, address as int, n as int) && place == address,
            None => !readable(memory@, address as int, n as int),
        },
        memory@.len() <= usize::MAX,
{
    let len: u128 = memory.len() as u128;
    if n <= len && address <= len - n {
        Some(address as usize)
    } else {
        None
    }
}

/// Checks if the bytes at a place are these.
fn bytes_at(memory: &[u8], place: usize, bytes: &[u8]) -> (r: bool)
    requires
        readable(memory@, place as int, bytes@.len() as int),
    ensures
        r == (memory@.subrange(place as int, place + bytes@.len()) == bytes@),
{
    let _ = locate(memory, 0, 0);
    let mut i: usize = 0;
    while i < bytes.len()
        invariant
            i <= bytes@.len(),
            memory@.len() <= usize::MAX,
            readable(memory@, place as int, bytes@.len() as int),
            forall|j: int| 0 <= j < i ==> memory@[place + j] == bytes@[j],
        decreases bytes@.len() - i,
    {
        if memory[place + i] != bytes[i] {
            assert(memory@.subrange(place as int, place + bytes@.len())[i as int]
                != bytes@[i as int]);
            return false;
        }
        i = i + 1;
    }
    assert(memory@.subrange(place as int, place + bytes@.len()) =~= bytes@);
    true
}

/// Checks if a table with the signature stands at an address.
fn is_table(memory: &[u8], address: u64, signature: &[u8; 4]) -> (r: bool)
    ensures
        r == has_signature(memory@, address as int, signature@),
{
    match locate(memory, address as u128, SDT_HEADER_LEN as u128) {
        Some(place) => bytes_at(memory, place, signature.as_slice()),
        None => false,
    }
}

/// Searches the list of a root table for a table with the signature. The
/// addresses in the list are `width` bytes wide.
fn find_table_in_list(memory: &[u8], root: u64, width: u128, signature: &[u8; 4]) -> (r: Option<
    u64,
>)
    requires
        width == 8 || width == 4,
    ensures
        r == table_in_root(memory@, root as int, width as int, signature@),
{
    let place: usize = match locate(memory, root as u128, SDT_HEADER_LEN as u128) {
        Some(place) => place,
        None => {
            return None;
        },
    };
    let length: u32 = u32_from_le(memory, place + 4);
    let end: u128 = root as u128 + length as u128;
    let mut at: u128 = root as u128 + SDT_HEADER_LEN as u128;
    let ghost list = listed_addresses(memory@, at as int, end as int, width as int);
    let ghost mut done: int = 0;
    assert(list.skip(0) =~= list);
    assert(table_in_root(memory@, root as int, width as int, signature@) == first_table(
        memory@,
        list,
        signature@,
    ));
    while at + width <= end
        invariant
            width == 8 || width == 4,
            end <= u64::MAX + u32::MAX,
            at <= end || at == root + SDT_HEADER_LEN,
            0 <= done <= list.len(),
            list.skip(done) == listed_addresses(memory@, at as int, end as int, width as int),
            table_in_root(memory@, root as int, width as int, signature@) == first_table(
                memory@,
                list.skip(done),
                signature@,
            ),
        decreases end + 36 - at,
    {
        let here: usize = match locate(memory, at, width) {
            Some(here) => here,
            None => {
                return None;
            },
        };
        let address: u64 = if width == 8 {
            u64_from_le(memory, here)
        } else {
            u32_from_le(memory, here) as u64
        };
        let ghost rest = list.skip(done);
        proof {
            let next = listed_addresses(memory@, at + width, end as int, width as int);
            assert(rest =~= seq![address] + next);
            assert(rest[0] == address);
            assert(rest.skip(1) =~= next);
            assert(list.skip(done + 1) =~= rest.skip(1));
            done = done + 1;
        }
        at = at + width;
        if address != 0 && is_table(memory, address, signature) {
            return Some(address);
        }
    }
    assert(list.skip(done).len() == 0);
    None
}

/// Searches a root table with 64-bit addresses.
pub fn find_table_in_xsdt(memory: &[u8], xsdt: u64, sig: &[u8; 4]) -> (r: Option<u64>)
    ensures
        r == table_in_root(memory@, xsdt as int, 8, sig@),
{
    find_table_in_list(memory, xsdt, 8, sig)
}

/// Searches a root table with 32-bit addresses.
pub fn find_table_in_rsdt(memory: &[u8], rsdt: u64, sig: &[u8; 4]) -> (r: Option<u64>)
    ensures
        r == table_in_root(memory@, rsdt as int, 4, sig@),
{
    find_table_in_list(memory, rsdt, 4, sig)
}

/// Finds a table by its signature, beginning at the root pointer.
pub fn find_acpi_table(memory: &[u8], rsdp: u64, sig: &[u8; 4]) -> (r: Option<u64>)
    ensures
        r == acpi_table(memory@, rsdp as int, sig@),
{
    let place: usize = match locate(memory, rsdp as u128, RSDP_LEN as u128) {
        Some(place) => place,
        None => {
            return None;
        },
    };
    let root: [u8; 8] = RSDP_SIGNATURE;
    if !bytes_at(memory, place, root.as_slice()) {
        return None;
    }
    let xsdt: u64 = u64_from_le(memory, place + 24);
    if memory[place + 15] >= 2 && xsdt != 0 {
        find_table_in_xsdt(memory, xsdt, sig)
    } else {
        find_table_in_rsdt(memory, u32_from_le(memory, place + 16) as u64, sig)
    }
}

/// One processor, as its local interrupt controller is described.
#[derive(Debug, Clone, Copy, PartialEq, Eq, Structural)]
pub struct CpuInfo {
    pub apic_id: u32,
    pub acpi_uid: u8,
    /// The firmware has enabled the processor.
    pub enabled: bool,
    /// The processor can be brought online later.
    pub online_capable: bool,
}

/// How many of the processors are enabled, or can be brought online.
pub open spec fn usable_count(cpus: Seq<CpuInfo>) -> nat
    decreases cpus.len(),
{
    if cpus.len() == 0 {
        0
    } else {
        usable_count(cpus.drop_last()) + (if cpus.last().enabled || cpus.last().online_capable {
            1nat
        } else {
            0nat
        })
    }
}

/// The processors of the machine.
pub struct CpuTopology {
    /// The processor that the machine was started on.
    pub bsp_apic_id: u32,
    pub cpus: Vec<CpuInfo>,
}

impl CpuTopology {
    /// No processors.
    pub fn new() -> (r: Self)
        ensures
            r.bsp_apic_id == 0,
            r.cpus@ == Seq::<CpuInfo>::empty(),
    {
        CpuTopology { bsp_apic_id: 0, cpus: Vec::new() }
    }

    /// Adds a processor.
    pub fn push(&mut self, cpu: CpuInfo)
        ensures
            final(self).cpus@ == old(self).cpus@.push(cpu),
            final(self).bsp_apic_id == old(self).bsp_apic_id,
    {
        self.cpus.push(cpu);
    }

    /// Counts the processors that are enabled, or can be brought online.
    pub fn get_usable_cpu_count(&self) -> (r: usize)
        ensures
            r == usable_count(self.cpus@),
    {
        let mut count: usize = 0;
        let mut i: usize = 0;
        assert(self.cpus@.take(0) =~= seq![]);
        while i < self.cpus.len()
            invariant
                i <= self.cpus@.len(),
                count <= i,
                count == usable_count(self.cpus@.take(i as int)),
            decreases self.cpus@.len() - i,
        {
            assert(self.cpus@.take(i + 1).drop_last() =~= self.cpus@.take(i as int));
            if self.cpus[i].enabled || self.cpus[i].online_capable {
                count = count + 1;
            }
            i = i + 1;
        }
        assert(self.cpus@.take(i as int) =~= self.cpus@);
        count
    }

    /// Checks if the processor that the machine was started on is listed.
    pub fn has_bsp(&self) -> (r: bool)
        ensures
            r == exists|i: int|
                0 <= i < self.cpus@.len() && (#[trigger] self.cpus@[i]).apic_id
                    == self.bsp_apic_id,
    {
        let mut i: usize = 0;
        while i < self.cpus.len()
            invariant
                i <= self.cpus@.len(),
                forall|j: int|
                    0 <= j < i ==> (#[trigger] self.cpus@[j]).apic_id != self.bsp_apic_id,
            decreases self.cpus@.len() - i,
        {
            if self.cpus[i].apic_id == self.bsp_apic_id {
                return true;
            }
            i = i + 1;
        }
        false
    }
}

/// Where the interrupt controllers are.
#[derive(Debug, Clone, Copy, PartialEq, Eq, Structural)]
pub struct ApicInfo {
    /// The physical address of the local controllers.
    pub local_apic_phys: u64,
    /// The physical address of the first I/O controller.
    pub io_apic_phys: u64,
    /// The first interrupt of that I/O controller.
    pub io_apic_gsi_base: u32,
}

/// The places of the entries of an interrupt controller table, from `at` on. A
/// length below two ends the list.
pub open spec fn madt_entries(memory: Seq<u8>, at: int, end: int) -> Seq<int>
    decreases
            if at <= end {
                end - at
            } else {
                0
            },
{
    if at + 2 <= end && readable(memory, at, 2) && memory[at + 1] >= 2 {
        seq![at] + madt_entries(memory, at + memory[at + 1], end)
    } else {
        seq![]
    }
}

/// The entry describes a processor.
pub open spec fn is_cpu_entry(memory: Seq<u8>, at: int) -> bool {
    memory[at] == 0 && memory[at + 1] >= 8 && readable(memory, at, 8)
}

/// The processor that an entry describes.
pub open spec fn cpu_of(memory: Seq<u8>, at: int) -> CpuInfo {
    let flags = from_le32(memory, at + 4);
    CpuInfo {
        apic_id: memory[at + 3] as u32,
        acpi_uid: memory[at + 2],
        enabled: flags & 1 != 0,
        online_capable: flags & 2 != 0,
    }
}

/// The processors that entries describe and that can be used: they are
/// enabled, or can be brought online.
pub open spec fn cpus_of(memory: Seq<u8>, entries: Seq<int>) -> Seq<CpuInfo>
    decreases entries.len(),
{
    if entries.len() == 0 {
        seq![]
    } else {
        let cpu = cpu_of(memory, entries[0]);
        (if is_cpu_entry(memory, entries[0]) && (cpu.enabled || cpu.online_capable) {
            seq![cpu]
        } else {
            seq![]
        }) + cpus_of(memory, entries.skip(1))
    }
}

/// The entry describes an I/O controller, and gives its address.
pub open spec fn is_io_apic_entry(memory: Seq<u8>, at: int) -> bool {
    memory[at] == 1 && memory[at + 1] >= 12 && readable(memory, at, 12) && from_le32(
        memory,
        at + 4,
    ) != 0
}

/// The first of the entries that describes an I/O controller.
pub open spec fn first_io_apic(memory: Seq<u8>, entries: Seq<int>) -> Option<int>
    decreases entries.len(),
{
    if entries.len() == 0 {
        None
    } else if is_io_apic_entry(memory, entries[0]) {
        Some(entries[0])
    } else {
        first_io_apic(memory, entries.skip(1))
    }
}

/// The entries of the interrupt controller table at an address.
pub open spec fn madt_entries_of(memory: Seq<u8>, madt: int) -> Seq<int> {
    madt_entries(memory, madt + MADT_ENTRIES, madt + table_len(memory, madt))
}

/// Where the interrupt controller table at an address says that the
/// controllers are. It has to name an I/O controller.
pub open spec fn madt_apic(memory: Seq<u8>, madt: int) -> Option<ApicInfo> {
    match first_io_apic(memory, madt_entries_of(memory, madt)) {
        Some(io_apic) => if readable(memory, madt, MADT_ENTRIES as int) {
            Some(
                ApicInfo {
                    local_apic_phys: from_le32(memory, madt + 36) as u64,
                    io_apic_phys: from_le32(memory, io_apic + 4) as u64,
                    io_apic_gsi_base: from_le32(memory, io_apic + 8),
                },
            )
        } else {
            None
        },
        None => None,
    }
}

/// Where the tables say that the interrupt controllers are.
pub open spec fn described_apic(memory: Seq<u8>, rsdp: int) -> Option<ApicInfo> {
    match acpi_table(memory, rsdp, MADT_SIGNATURE@) {
        Some(madt) => madt_apic(memory, madt as int),
        None => None,
    }
}

/// The processors that the tables list.
pub open spec fn described_cpus(memory: Seq<u8>, rsdp: int) -> Seq<CpuInfo> {
    match acpi_table(memory, rsdp, MADT_SIGNATURE@) {
        Some(madt) => cpus_of(memory, madt_entries_of(memory, madt as int)),
        None => seq![],
    }
}

/// Reads the interrupt controller table at an address: the processors, and the
/// first I/O controller, without which there is nothing to be had.
pub fn parse_madt(memory: &[u8], madt: u64, bsp_apic_id: u32) -> (r: Option<
    (ApicInfo, CpuTopology),
>)
    ensures
        match r {
            Some((apic, topology)) => {
                &&& madt_apic(memory@, madt as int) == Some(apic)
                &&& topology.bsp_apic_id == bsp_apic_id
                &&& topology.cpus@ == cpus_of(memory@, madt_entries_of(memory@, madt as int))
            },
            None => madt_apic(memory@, madt as int) is None,
        },
{
    let place: usize = match locate(memory, madt as u128, MADT_ENTRIES as u128) {
        Some(place) => place,
        None => {
            return None;
        },
    };
    let length: u32 = u32_from_le(memory, place + 4);
    let local_apic_addr: u64 = u32_from_le(memory, place + 36) as u64;
    let end: u128 = madt as u128 + length as u128;
    let mut at: u128 = madt as u128 + MADT_ENTRIES as u128;
    let mut io_apic_phys: u64 = 0;
    let mut io_apic_gsi_base: u32 = 0;
    let mut topology = CpuTopology::new();
    topology.bsp_apic_id = bsp_apic_id;
    let ghost entries = madt_entries(memory@, at as int, end as int);
    let ghost mut done: int = 0;
    proof {
        assert(entries == madt_entries_of(memory@, madt as int));
        assert(entries.skip(0) =~= entries);
        assert(topology.cpus@ + cpus_of(memory@, entries) =~= cpus_of(memory@, entries));
    }
    while at + 2 <= end
        invariant_except_break
            entries.skip(done) == madt_entries(memory@, at as int, end as int),
        invariant
            end <= u64::MAX + u32::MAX,
            at <= end + 300,
            0 <= done <= entries.len(),
            topology.bsp_apic_id == bsp_apic_id,
            cpus_of(memory@, entries) == topology.cpus@ + cpus_of(memory@, entries.skip(done)),
            if io_apic_phys == 0 {
                first_io_apic(memory@, entries) == first_io_apic(memory@, entries.skip(done))
            } else {
                first_io_apic(memory@, entries) matches Some(at) && io_apic_phys == from_le32(
                    memory@,
                    at + 4,
                ) && io_apic_gsi_base == from_le32(memory@, at + 8)
            },
        ensures
            entries.skip(done).len() == 0,
        decreases end + 300 - at,
    {
        let here: usize = match locate(memory, at, 2) {
            Some(here) => here,
            None => {
                break;
            },
        };
        let entry_type: u8 = memory[here];
        let entry_len: u8 = memory[here + 1];
        if entry_len < 2 {
            break;
        }
        let ghost rest = entries.skip(done);
        let ghost before = topology.cpus@;
        proof {
            let next = madt_entries(memory@, at + entry_len, end as int);
            assert(rest =~= seq![at as int] + next);
            assert(rest[0] == at);
            assert(rest.skip(1) =~= next);
            assert(entries.skip(done + 1) =~= rest.skip(1));
        }
        if entry_type == 0 && entry_len >= 8 && locate(memory, at, 8).is_some() {
            let acpi_uid: u8 = memory[here + 2];
            let apic_id: u8 = memory[here + 3];
            let flags: u32 = u32_from_le(memory, here + 4);
            let enabled = flags & 0x1 != 0;
            let online_capable = flags & 0x2 != 0;
            if enabled || online_capable {
                topology.push(
                    CpuInfo { apic_id: apic_id as u32, acpi_uid, enabled, online_capable },
                );
            }
        }
        if entry_type == 1 && entry_len >= 12 && locate(memory, at, 12).is_some() {
            if io_apic_phys == 0 {
                io_apic_phys = u32_from_le(memory, here + 4) as u64;
                io_apic_gsi_base = u32_from_le(memory, here + 8);
            }
        }
        proof {
            done = done + 1;
            assert(topology.cpus@ + cpus_of(memory@, entries.skip(done)) =~= before + cpus_of(
                memory@,
                rest,
            ));
        }
        at = at + entry_len as u128;
    }
    proof {
        assert(cpus_of(memory@, entries.skip(done)) =~= seq![]);
        assert(topology.cpus@ =~= cpus_of(memory@, entries));
    }
    if io_apic_phys == 0 {
        return None;
    }
    let apic_info = ApicInfo {
        local_apic_phys: local_apic_addr,
        io_apic_phys,
        io_apic_gsi_base,
    };
    Some((apic_info, topology))
}

/// Finds and reads the interrupt controller table.
pub fn parse_acpi(memory: &[u8], rsdp: u64, bsp_apic_id: u32) -> (r: Option<
    (ApicInfo, CpuTopology),
>)
    ensures
        match r {
            Some((apic, topology)) => {
                &&& described_apic(memory@, rsdp as int) == Some(apic)
                &&& topology.bsp_apic_id == bsp_apic_id
                &&& topology.cpus@ == described_cpus(memory@, rsdp as int)
            },
            None => described_apic(memory@, rsdp as int) is None,
        },
{
    let signature: [u8; 4] = MADT_SIGNATURE;
    match find_acpi_table(memory, rsdp, &signature) {
        Some(madt) => parse_madt(memory, madt, bsp_apic_id),
        None => None,
    }
}

/// Processors that can all be used are all counted.
proof fn lemma_all_usable(cpus: Seq<CpuInfo>)
    requires
        forall|i: int|
            0 <= i < cpus.len() ==> (#[trigger] cpus[i]).enabled || cpus[i].online_capable,
    ensures
        usable_count(cpus) == cpus.len(),
    decreases cpus.len(),
{
    if cpus.len() > 0 {
        assert forall|i: int| 0 <= i < cpus.drop_last().len() implies (
        #[trigger] cpus.drop_last()[i]).enabled || cpus.drop_last()[i].online_capable by {
            assert(cpus.drop_last()[i] == cpus[i]);
        }
        lemma_all_usable(cpus.drop_last());
    }
}

/// Every processor that is reported can be used.
pub proof fn reported_cpus_are_usable(memory: Seq<u8>, entries: Seq<int>)
    ensures
        forall|i: int|
            0 <= i < cpus_of(memory, entries).len() ==> (#[trigger] cpus_of(
                memory,
                entries,
            )[i]).enabled || cpus_of(memory, entries)[i].online_capable,
        usable_count(cpus_of(memory, entries)) == cpus_of(memory, entries).len(),
    decreases entries.len(),
{
    if entries.len() > 0 {
        reported_cpus_are_usable(memory, entries.skip(1));
        let rest = cpus_of(memory, entries.skip(1));
        let all = cpus_of(memory, entries);
        assert forall|i: int| 0 <= i < all.len() implies (#[trigger] all[i]).enabled
            || all[i].online_capable by {
            let cpu = cpu_of(memory, entries[0]);
            if is_cpu_entry(memory, entries[0]) && (cpu.enabled || cpu.online_capable) {
                if i > 0 {
                    assert(all[i] == rest[i - 1]);
                }
            } else {
                assert(all =~= rest);
            }
        }
    }
    lemma_all_usable(cpus_of(memory, entries));
}

/// An entry that describes a processor is made of the bytes 0 and 8, the
/// identifier that the firmware gives it, that of its interrupt controller, and
/// the flags, least significant byte first. The first flag tells that it is
/// enabled, the second that it can be brought online.
pub proof fn processor_entries(
    memory: Seq<u8>,
    at: int,
    uid: u8,
    id: u8,
    f0: u8,
    f1: u8,
    f2: u8,
    f3: u8,
)
    requires
        0 <= at,
        at + 8 <= memory.len(),
        memory.subrange(at, at + 8) == seq![0u8, 8u8, uid, id, f0, f1, f2, f3],
    ensures
        cpus_of(memory, seq![at]) == if f0 % 4 != 0 {
            seq![
                CpuInfo {
                    apic_id: id as u32,
                    acpi_uid: uid,
                    enabled: f0 % 2 == 1,
                    online_capable: (f0 / 2) % 2 == 1,
                },
            ]
        } else {
            seq![]
        },
{
    let entry = memory.subrange(at, at + 8);
    assert(memory[at] == entry[0] && memory[at + 1] == entry[1] && memory[at + 2] == entry[2]);
    assert(memory[at + 3] == entry[3] && memory[at + 4] == entry[4] && memory[at + 5] == entry[5]);
    assert(memory[at + 6] == entry[6] && memory[at + 7] == entry[7]);
    let flags = from_le32(memory, at + 4);
    assert(((f0 as u32 | (f1 as u32) << 8 | (f2 as u32) << 16 | (f3 as u32) << 24) & 1 != 0) == (f0
        % 2 == 1) && ((f0 as u32 | (f1 as u32) << 8 | (f2 as u32) << 16 | (f3 as u32) << 24) & 2
        != 0) == ((f0 / 2) % 2 == 1)) by (bit_vector);
    reveal_with_fuel(cpus_of, 2);
    assert(seq![at].skip(1) =~= seq![]);
    assert(f0 % 4 != 0 <==> f0 % 2 == 1 || (f0 / 2) % 2 == 1);
    let cpu = cpu_of(memory, at);
    assert(cpus_of(memory, seq![at]) =~= if f0 % 4 != 0 {
        seq![cpu]
    } else {
        seq![]
    });
}

/// Entries are read one after the other: what two lists of entries describe is
/// what the one describes and then what the other describes. The first I/O
/// controller is that of the first list, if it has one.
pub proof fn entries_are_read_in_turn(memory: Seq<u8>, first: Seq<int>, second: Seq<int>)
    ensures
        cpus_of(memory, first + second) == cpus_of(memory, first) + cpus_of(memory, second),
        first_io_apic(memory, first + second) == match first_io_apic(memory, first) {
            Some(at) => Some(at),
            None => first_io_apic(memory, second),
        },
    decreases first.len(),
{
    if first.len() == 0 {
        assert(first + second =~= second);
        assert(cpus_of(memory, first) + cpus_of(memory, second) =~= cpus_of(memory, second));
    } else {
        entries_are_read_in_turn(memory, first.skip(1), second);
        assert((first + second).skip(1) =~= first.skip(1) + second);
        assert(cpus_of(memory, first + second) =~= cpus_of(memory, first) + cpus_of(
            memory,
            second,
        ));
    }
}

/// An entry is followed by the next one as many bytes on as its second byte
/// says. The list ends where that is below two, or where less than two bytes are
/// left.
pub proof fn entries_follow_one_another(memory: Seq<u8>, at: int, end: int)
    requires
        0 <= at,
        end <= memory.len(),
    ensures
        end < at + 2 ==> madt_entries(memory, at, end) == Seq::<int>::empty(),
        at + 2 <= end && memory[at + 1] < 2 ==> madt_entries(memory, at, end) == Seq::<
            int,
        >::empty(),
        at + 2 <= end && memory[at + 1] >= 2 ==> {
            let entries = madt_entries(memory, at, end);
            &&& entries.len() > 0
            &&& entries[0] == at
            &&& entries.skip(1) == madt_entries(memory, at + memory[at + 1], end)
        },
{
    if at + 2 <= end && memory[at + 1] >= 2 {
        let rest = madt_entries(memory, at + memory[at + 1], end);
        assert((seq![at] + rest).skip(1) =~= rest);
    }
}

/// The entries of a table begin 44 bytes into it and end where the table ends,
/// by the length in its header, least significant byte first.
pub proof fn entries_fill_the_table(memory: Seq<u8>, madt: int)
    ensures
        madt_entries_of(memory, madt) == madt_entries(
            memory,
            madt + 44,
            madt + (memory[madt + 4] + 0x100 * memory[madt + 5] + 0x10000 * memory[madt + 6]
                + 0x1000000 * memory[madt + 7]),
        ),
{
    digits_are_read(memory, madt + 4);
}

/// An entry that describes an I/O controller is made of the bytes 1 and 12, its
/// identifier, a byte of no meaning, its address and its first interrupt, least
/// significant byte first. One without an address does not count.
pub proof fn controller_entries(memory: Seq<u8>, at: int, address: u32, base: u32, x: u8, y: u8)
    requires
        0 <= at,
        at + 12 <= memory.len(),
        memory.subrange(at, at + 12) == seq![1u8, 12u8, x, y] + le32(address) + le32(base),
    ensures
        first_io_apic(memory, seq![at]) == if address != 0 {
            Some(at)
        } else {
            None
        },
        from_le32(memory, at + 4) == address,
        from_le32(memory, at + 8) == base,
{
    let entry = memory.subrange(at, at + 12);
    assert(memory[at] == entry[0] && memory[at + 1] == entry[1]);
    assert forall|i: int| 0 <= i < 4 implies #[trigger] memory[at + 4 + i] == le32(address)[i] by {
        assert(memory[at + 4 + i] == entry[4 + i]);
    }
    assert forall|i: int| 0 <= i < 4 implies #[trigger] memory[at + 8 + i] == le32(base)[i] by {
        assert(memory[at + 8 + i] == entry[8 + i]);
    }
    assert(memory[at + 4 + 0] == le32(address)[0] && memory[at + 4 + 1] == le32(address)[1]);
    assert(memory[at + 4 + 2] == le32(address)[2] && memory[at + 4 + 3] == le32(address)[3]);
    assert(memory[at + 8 + 0] == le32(base)[0] && memory[at + 8 + 1] == le32(base)[1]);
    assert(memory[at + 8 + 2] == le32(base)[2] && memory[at + 8 + 3] == le32(base)[3]);
    digits_are_read(memory, at + 4);
    digits_are_read(memory, at + 8);
    bytes_are_digits_32(address);
    bytes_are_digits_32(base);
    reveal_with_fuel(first_io_apic, 2);
    assert(seq![at].skip(1) =~= seq![]);
}

/// The local controllers are where the table says, 36 bytes into it; the I/O
/// controller is the first one that is described.
pub proof fn controllers_are_located(memory: Seq<u8>, madt: int, at: int)
    requires
        0 <= madt,
        madt + 44 <= memory.len(),
    ensures
        first_io_apic(memory, madt_entries_of(memory, madt)) is None ==> madt_apic(memory, madt)
            is None,
        first_io_apic(memory, madt_entries_of(memory, madt)) == Some(at) ==> madt_apic(memory, madt)
            == Some(
            ApicInfo {
                local_apic_phys: (memory[madt + 36] + 0x100 * memory[madt + 37] + 0x10000
                    * memory[madt + 38] + 0x1000000 * memory[madt + 39]) as u64,
                io_apic_phys: (memory[at + 4] + 0x100 * memory[at + 5] + 0x10000 * memory[at + 6]
                    + 0x1000000 * memory[at + 7]) as u64,
                io_apic_gsi_base: (memory[at + 8] + 0x100 * memory[at + 9] + 0x10000 * memory[at
                    + 10] + 0x1000000 * memory[at + 11]) as u32,
            },
        ),
{
    digits_are_read(memory, madt + 36);
    digits_are_read(memory, at + 4);
    digits_are_read(memory, at + 8);
}

/// The addresses in a root table are read one after the other, as long as whole
/// ones are left.
pub proof fn addresses_are_listed(memory: Seq<u8>, at: int, end: int)
    requires
        0 <= at,
        end <= memory.len(),
    ensures
        end < at + 8 ==> listed_addresses(memory, at, end, 8) == Seq::<u64>::empty(),
        end < at + 4 ==> listed_addresses(memory, at, end, 4) == Seq::<u64>::empty(),
        at + 8 <= end ==> {
            let list = listed_addresses(memory, at, end, 8);
            &&& list.len() > 0
            &&& list[0] == memory[at] + 0x100 * memory[at + 1] + 0x10000 * memory[at + 2]
                + 0x1000000 * memory[at + 3] + 0x100000000 * memory[at + 4] + 0x10000000000
                * memory[at + 5] + 0x1000000000000 * memory[at + 6] + 0x100000000000000 * memory[at
                + 7]
            &&& list.skip(1) == listed_addresses(memory, at + 8, end, 8)
        },
        at + 4 <= end ==> {
            let list = listed_addresses(memory, at, end, 4);
            &&& list.len() > 0
            &&& list[0] == memory[at] + 0x100 * memory[at + 1] + 0x10000 * memory[at + 2]
                + 0x1000000 * memory[at + 3]
            &&& list.skip(1) == listed_addresses(memory, at + 4, end, 4)
        },
{
    digits_are_read(memory, at);
    if at + 8 <= end {
        assert(listed_addresses(memory, at, end, 8).skip(1) =~= listed_addresses(
            memory,
            at + 8,
            end,
            8,
        ));
    }
    if at + 4 <= end {
        assert(listed_addresses(memory, at, end, 4).skip(1) =~= listed_addresses(
            memory,
            at + 4,
            end,
            4,
        ));
    }
}

/// The table that is found in a list is the first one with the signature: its
/// address is listed, it begins with the signature, and no table that is listed
/// before does. If none is found, none that is listed does.
pub proof fn first_table_is_found(memory: Seq<u8>, list: Seq<u64>, signature: Seq<u8>)
    ensures
        match first_table(memory, list, signature) {
            Some(address) => address != 0 && has_signature(memory, address as int, signature)
                && exists|i: int|
                {
                    &&& 0 <= i < list.len()
                    &&& #[trigger] list[i] == address
                    &&& forall|j: int|
                        0 <= j < i ==> (#[trigger] list[j] == 0 || !has_signature(
                            memory,
                            list[j] as int,
                            signature,
                        ))
                },
            None => forall|i: int|
                0 <= i < list.len() ==> (#[trigger] list[i] == 0 || !has_signature(
                    memory,
                    list[i] as int,
                    signature,
                )),
        },
    decreases list.len(),
{
    if list.len() > 0 {
        if list[0] != 0 && has_signature(memory, list[0] as int, signature) {
            assert(list[0] == list[0]);
        } else {
            let rest = list.skip(1);
            first_table_is_found(memory, rest, signature);
            match first_table(memory, rest, signature) {
                Some(address) => {
                    let i = choose|i: int|
                        {
                            &&& 0 <= i < rest.len()
                            &&& #[trigger] rest[i] == address
                            &&& forall|j: int|
                                0 <= j < i ==> (#[trigger] rest[j] == 0 || !has_signature(
                                    memory,
                                    rest[j] as int,
                                    signature,
                                ))
                        };
                    assert(list[i + 1] == address);
                    assert forall|j: int| 0 <= j < i + 1 implies (#[trigger] list[j] == 0
                        || !has_signature(memory, list[j] as int, signature)) by {
                        if j > 0 {
                            assert(rest[j - 1] == list[j]);
                        }
                    }
                },
                None => {
                    assert forall|j: int| 0 <= j < list.len() implies (#[trigger] list[j] == 0
                        || !has_signature(memory, list[j] as int, signature)) by {
                        if j > 0 {
                            assert(rest[j - 1] == list[j]);
                        }
                    }
                },
            }
        }
    }
}

/// The root pointer begins with `RSD PTR ` and holds the address of the table of
/// narrow addresses 16 bytes on; from revision 2 on that of the table of wide
/// addresses, 24 bytes on, counts if it is not zero. A root table's list begins
/// behind its header of 36 bytes and ends where the table ends.
pub proof fn root_pointer_leads_to_the_list(memory: Seq<u8>, rsdp: int, signature: Seq<u8>)
    requires
        0 <= rsdp,
        rsdp + 36 <= memory.len(),
    ensures
        ({
            let head = memory.subrange(rsdp, rsdp + 8);
            let narrow = from_le32(memory, rsdp + 16) as int;
            let wide = from_le64(memory, rsdp + 24) as int;
            let marked = head == seq![0x52u8, 0x53, 0x44, 0x20, 0x50, 0x54, 0x52, 0x20];
            let root = if memory[rsdp + 15] >= 2 && wide != 0 {
                wide
            } else {
                narrow
            };
            let width: int = if root == wide && memory[rsdp + 15] >= 2 && wide != 0 {
                8
            } else {
                4
            };
            &&& !marked ==> acpi_table(memory, rsdp, signature) is None
            &&& marked && root + 36 > memory.len() ==> acpi_table(memory, rsdp, signature) is None
            &&& marked && root + 36 <= memory.len() ==> acpi_table(memory, rsdp, signature)
                == first_table(
                memory,
                listed_addresses(
                    memory,
                    root + 36,
                    root + from_le32(memory, root + 4),
                    width,
                ),
                signature,
            )
        }),
{
    assert(RSDP_SIGNATURE@ =~= seq![0x52u8, 0x53, 0x44, 0x20, 0x50, 0x54, 0x52, 0x20]);
}

/// A table has a signature if its first four bytes are the signature, and its
/// header of 36 bytes is there.
pub proof fn signatures_are_compared(memory: Seq<u8>, at: int, signature: Seq<u8>)
    requires
        signature.len() == 4,
    ensures
        has_signature(memory, at, signature) <==> 0 <= at && at + 36 <= memory.len() && memory[at]
            == signature[0] && memory[at + 1] == signature[1] && memory[at + 2] == signature[2]
            && memory[at + 3] == signature[3],
{
    if 0 <= at && at + 36 <= memory.len() {
        let head = memory.subrange(at, at + 4);
        assert(head[0] == memory[at] && head[1] == memory[at + 1] && head[2] == memory[at + 2]
            && head[3] == memory[at + 3]);
        if memory[at] == signature[0] && memory[at + 1] == signature[1] && memory[at + 2]
            == signature[2] && memory[at + 3] == signature[3] {
            assert(head =~= signature);
        }
    }
}

/// The processors and controllers are those of the table with the signature
/// `APIC`.
pub proof fn tables_describe_the_machine(memory: Seq<u8>, rsdp: int)
    ensures
        match acpi_table(memory, rsdp, seq![0x41u8, 0x50, 0x49, 0x43]) {
            Some(madt) => described_apic(memory, rsdp) == madt_apic(memory, madt as int)
                && described_cpus(memory, rsdp) == cpus_of(
                memory,
                madt_entries_of(memory, madt as int),
            ),
            None => described_apic(memory, rsdp) is None && described_cpus(memory, rsdp).len() == 0,
        },
{
    assert(MADT_SIGNATURE@ =~= seq![0x41u8, 0x50, 0x49, 0x43]);
}

/// Processors are counted one by one, if they are enabled or can be brought
/// online.
pub proof fn processors_are_counted(cpus: Seq<CpuInfo>, cpu: CpuInfo)
    ensures
        usable_count(Seq::empty()) == 0,
        cpu.enabled || cpu.online_capable ==> usable_count(cpus.push(cpu)) == usable_count(cpus) + 1,
        !cpu.enabled && !cpu.online_capable ==> usable_count(cpus.push(cpu)) == usable_count(cpus),
{
    assert(cpus.push(cpu).drop_last() =~= cpus);
}

/// Each processor that is reported stands for an entry: it has the identifiers
/// that are written there. The one that the system was started on is kept with
/// them.
pub proof fn processors_are_reported(
    memory: &[u8],
    madt: u64,
    bsp: u32,
    r: Option<(ApicInfo, CpuTopology)>,
    i: int,
)
    requires
        call_ensures(parse_madt, (memory, madt, bsp), r),
    ensures
        r is Some <==> madt_apic(memory@, madt as int) is Some,
        r matches Some((apic, topology)) ==> {
            let entries = madt_entries_of(memory@, madt as int);
            &&& madt_apic(memory@, madt as int) == Some(apic)
            &&& topology.bsp_apic_id == bsp
            &&& topology.cpus@ == cpus_of(memory@, entries)
            &&& 0 <= i < topology.cpus@.len() ==> exists|k: int|
                0 <= k < entries.len() && memory@[#[trigger] entries[k]] == 0
                    && topology.cpus@[i].acpi_uid == memory@[entries[k] + 2]
                    && topology.cpus@[i].apic_id == memory@[entries[k] + 3]
        },
{
    if let Some((_, topology)) = r {
        if 0 <= i < topology.cpus@.len() {
            lemma_entry_of(memory@, madt_entries_of(memory@, madt as int), i);
        }
    }
}

/// Where a reported processor comes from.
proof fn lemma_entry_of(memory: Seq<u8>, entries: Seq<int>, i: int) -> (k: int)
    requires
        0 <= i < cpus_of(memory, entries).len(),
    ensures
        0 <= k < entries.len(),
        memory[entries[k]] == 0,
        cpus_of(memory, entries)[i].acpi_uid == memory[entries[k] + 2],
        cpus_of(memory, entries)[i].apic_id == memory[entries[k] + 3],
    decreases entries.len(),
{
    let cpu = cpu_of(memory, entries[0]);
    let rest = cpus_of(memory, entries.skip(1));
    if is_cpu_entry(memory, entries[0]) && (cpu.enabled || cpu.online_capable) {
        if i == 0 {
            0
        } else {
            assert(cpus_of(memory, entries)[i] == rest[i - 1]);
            lemma_entry_of(memory, entries.skip(1), i - 1) + 1
        }
    } else {
        assert(cpus_of(memory, entries) =~= rest);
        lemma_entry_of(memory, entries.skip(1), i) + 1
    }
}

} // verus!
