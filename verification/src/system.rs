//! Codes and structures of the system as a whole.

use vstd::prelude::*;

verus! {

/// System-wide error codes.
#[derive(Debug, Clone, Copy, PartialEq, Eq, Structural)]
pub enum ErrorCode {
    StatusOK,
    BufferTooSmall,
}

impl ErrorCode {
    /// The number of the code.
    pub open spec fn number(self) -> u32 {
        match self {
            ErrorCode::StatusOK => 0,
            ErrorCode::BufferTooSmall => 1,
        }
    }

    /// Gives the number of the code.
    pub fn code(self) -> (r: u32)
        ensures
            r == self.number(),
    {
        match self {
            ErrorCode::StatusOK => 0,
            ErrorCode::BufferTooSmall => 1,
        }
    }
}

/// How important a message is.
#[derive(Debug, Clone, Copy, PartialEq, Eq, Structural)]
pub enum DebugLevel {
    DEBUG,
    INFO,
    WARNING,
    ERROR,
    CRITICAL,
}

/// Messages below this level are not printed.
pub const DEBUG_LEVEL: DebugLevel = DebugLevel::INFO;

impl DebugLevel {
    /// The levels in order, from one to five.
    pub open spec fn rank(self) -> int {
        match self {
            DebugLevel::DEBUG => 1,
            DebugLevel::INFO => 2,
            DebugLevel::WARNING => 3,
            DebugLevel::ERROR => 4,
            DebugLevel::CRITICAL => 5,
        }
    }

    /// Gives the number of the level.
    pub fn level(self) -> (r: i32)
        ensures
            r == self.rank(),
    {
        match self {
            DebugLevel::DEBUG => 1,
            DebugLevel::INFO => 2,
            DebugLevel::WARNING => 3,
            DebugLevel::ERROR => 4,
            DebugLevel::CRITICAL => 5,
        }
    }

    /// Checks if this level comes before another.
    pub fn below(self, other: DebugLevel) -> (r: bool)
        ensures
            r == (self.rank() < other.rank()),
    {
        self.level() < other.level()
    }
}

/// The mark of a boot structure.
pub const BOOT_MAGIC: u64 = 0xDEAD_BEEF_B007_CAFE;

/// What the boot loader hands over. The two addresses are physical.
#[derive(Debug, Clone, Copy, PartialEq, Eq, Structural)]
pub struct BootInfo {
    pub magic: u64,
    pub framebuffer_info: u64,
    pub memory_map_info: u64,
}

impl BootInfo {
    /// Checks the mark.
    pub fn is_valid(&self) -> (r: bool)
        ensures
            r == (self.magic == BOOT_MAGIC),
    {
        self.magic == BOOT_MAGIC
    }
}

/// The levels are in the order of their importance, and codes have their
/// numbers. A boot structure is marked by one number.
pub proof fn levels_are_ordered(info: &BootInfo, valid: bool)
    requires
        call_ensures(BootInfo::is_valid, (info,), valid),
    ensures
        1 == DebugLevel::DEBUG.rank() < DebugLevel::INFO.rank() < DebugLevel::WARNING.rank()
            < DebugLevel::ERROR.rank() < DebugLevel::CRITICAL.rank() == 5,
        ErrorCode::StatusOK.number() == 0,
        ErrorCode::BufferTooSmall.number() == 1,
        valid <==> info.magic == 0xDEAD_BEEF_B007_CAFE,
{
}

} // verus!
