//! The serial line: what is sent, and when.

use vstd::prelude::*;
use vstd::string::StringSliceAdditionalSpecFns;

use super::apic::PortWrite;
use crate::bytes::copy_range;
use crate::system::{DebugLevel, DEBUG_LEVEL};

verus! {

/// The bit of the line status that tells that a byte can be sent.
pub const TRANSMIT_READY: u8 = 0x20;

/// The offset of the line status register.
pub const LINE_STATUS: u16 = 5;

/// A serial line.
#[derive(Debug, Clone, Copy, PartialEq, Eq, Structural)]
pub struct SerialWriter {
    pub port: u16,
}

/// The bytes that set a line up: no interrupts, 38400 baud, eight bits, no
/// parity, one stop bit, buffers on.
pub fn init(port: u16) -> (r: [PortWrite; 7])
    requires
        port <= 0xFFFB,
    ensures
        r@ == seq![
            PortWrite { port: (port + 1) as u16, value: 0x00 },
            PortWrite { port: (port + 3) as u16, value: 0x80 },
            PortWrite { port, value: 0x03 },
            PortWrite { port: (port + 1) as u16, value: 0x00 },
            PortWrite { port: (port + 3) as u16, value: 0x03 },
            PortWrite { port: (port + 2) as u16, value: 0xC7 },
            PortWrite { port: (port + 4) as u16, value: 0x0B },
        ],
{
    let r: [PortWrite; 7] = [
        PortWrite { port: port + 1, value: 0x00 },
        PortWrite { port: port + 3, value: 0x80 },
        PortWrite { port, value: 0x03 },
        PortWrite { port: port + 1, value: 0x00 },
        PortWrite { port: port + 3, value: 0x03 },
        PortWrite { port: port + 2, value: 0xC7 },
        PortWrite { port: port + 4, value: 0x0B },
    ];
    assert(r@ =~= seq![
        PortWrite { port: (port + 1) as u16, value: 0x00 },
        PortWrite { port: (port + 3) as u16, value: 0x80 },
        PortWrite { port, value: 0x03 },
        PortWrite { port: (port + 1) as u16, value: 0x00 },
        PortWrite { port: (port + 3) as u16, value: 0x03 },
        PortWrite { port: (port + 2) as u16, value: 0xC7 },
        PortWrite { port: (port + 4) as u16, value: 0x0B },
    ]);
    r
}

/// Decides if the line can take a byte, given its status.
pub fn can_transmit(line_status: u8) -> (r: bool)
    ensures
        r == (line_status & TRANSMIT_READY != 0),
{
    line_status & TRANSMIT_READY != 0
}

/// The bytes of a message, as they are sent.
pub fn print(msg: &str) -> (r: Vec<u8>)
    ensures
        r@ == msg.spec_bytes(),
{
    let bytes = msg.as_bytes();
    let r = copy_range(bytes, 0, bytes.len());
    assert(bytes@.subrange(0, bytes@.len() as int) =~= bytes@);
    r
}

impl SerialWriter {
    pub fn new(port: u16) -> (r: Self)
        ensures
            r.port == port,
    {
        SerialWriter { port }
    }

    /// The bytes of a message and the end of the line, or nothing if the
    /// message is not important enough.
    pub fn print_debug(&self, debug_level: DebugLevel, msg: &str) -> (r: Vec<u8>)
        ensures
            r@ == if debug_level.rank() < DEBUG_LEVEL.rank() {
                Seq::<u8>::empty()
            } else {
                msg.spec_bytes().push(0x0A)
            },
    {
        if debug_level.below(DEBUG_LEVEL) {
            return Vec::new();
        }
        let mut bytes: Vec<u8> = print(msg);
        bytes.push(0x0A);
        bytes
    }
}

/// Messages for debugging are not printed; all others are, as their bytes and the
/// end of the line. A line takes a byte when the bit that counts 32 is set in
/// its status.
pub proof fn messages_are_printed(
    writer: &SerialWriter,
    level: DebugLevel,
    msg: &str,
    r: Vec<u8>,
    bytes: Vec<u8>,
    status: u8,
    ready: bool,
)
    requires
        call_ensures(SerialWriter::print_debug, (writer, level, msg), r),
        call_ensures(print, (msg,), bytes),
        call_ensures(can_transmit, (status,), ready),
    ensures
        bytes@ == msg.spec_bytes(),
        level == DebugLevel::DEBUG ==> r@.len() == 0,
        level != DebugLevel::DEBUG ==> r@ == bytes@.push(0x0A),
        ready <==> (status / 32) % 2 == 1,
{
    assert((status & 0x20 != 0) == ((status / 32) % 2 == 1)) by (bit_vector);
}

/// A line is set up by seven bytes: interrupts off; the divisor 3, in two bytes,
/// while the divisor is selected; eight bits, no parity, one stop bit; buffers
/// on and cleared; ready to send.
pub proof fn line_is_set_up(port: u16, r: [PortWrite; 7])
    requires
        port <= 0xFFFB,
        call_ensures(init, (port,), r),
    ensures
        r@[0].port == port + 1 && r@[0].value == 0,
        r@[1].port == port + 3 && r@[1].value == 0x80,
        r@[2].port == port && r@[2].value == 3,
        r@[3].port == port + 1 && r@[3].value == 0,
        r@[4].port == port + 3 && r@[4].value == 3,
        r@[5].port == port + 2 && r@[5].value == 0xC7,
        r@[6].port == port + 4 && r@[6].value == 0x0B,
{
}

} // verus!
