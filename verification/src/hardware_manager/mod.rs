//! Devices of the machine: what their drivers decide and compute. Ports and
//! device memory are read and written by the caller.

pub mod keyboard;
pub mod acpi;
pub mod hpet;
pub mod rtc;
pub mod apic;
pub mod serial;
