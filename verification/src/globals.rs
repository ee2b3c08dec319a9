//! System-wide constants.

use vstd::prelude::*;

verus! {

/// The base port of the first serial line.
pub const COM1_PORT: u16 = 0x3F8;

/// Where the kernel maps all physical memory.
pub const KERNEL_PHYSICAL_MAP_BASE: u64 = 0xFFFF_8000_0000_0000;

/// The virtual address at which a physical address is mapped.
pub open spec fn virt_of(phys: u64) -> u64 {
    phys.wrapping_add(KERNEL_PHYSICAL_MAP_BASE)
}

/// Translates a physical address.
pub fn phys_to_virt(phys: u64) -> (r: u64)
    ensures
        r == virt_of(phys),
{
    phys.wrapping_add(KERNEL_PHYSICAL_MAP_BASE)
}

pub const ASCII_0: u8 = 0x30;

pub const ASCII_9: u8 = 0x39;

pub const ASCII_UPPER_A: u8 = 0x41;

pub const ASCII_UPPER_F: u8 = 0x46;

pub const ASCII_UPPER_X: u8 = 0x58;

pub const ASCII_LOWER_A: u8 = 0x61;

pub const ASCII_LOWER_F: u8 = 0x66;

pub const ASCII_LOWER_X: u8 = 0x78;

/// The digits of hexadecimal numbers.
pub const HEX_CHARS_UPPER: [u8; 16] = [
    0x30,
    0x31,
    0x32,
    0x33,
    0x34,
    0x35,
    0x36,
    0x37,
    0x38,
    0x39,
    0x41,
    0x42,
    0x43,
    0x44,
    0x45,
    0x46,
];

/// Physical memory is mapped in one piece, from the middle of the address space
/// on: addresses keep their distances, and an address of 47 bits does not wrap.
pub proof fn memory_is_mapped_in_one_piece(phys: u64, more: u64)
    requires
        phys + more < 0x8000_0000_0000,
    ensures
        virt_of(phys) == 0xFFFF_8000_0000_0000 + phys,
        virt_of((phys + more) as u64) == virt_of(phys) + more,
{
}

} // verus!
