//! The PS/2 keyboard: scancode set 1 to ASCII, and the ring of scancodes that
//! wait to be processed.

use vstd::prelude::*;

use crate::helper_functions::TaskId;

verus! {

pub const SC_LSHIFT_MAKE: u8 = 0x2A;

pub const SC_RSHIFT_MAKE: u8 = 0x36;

pub const SC_LSHIFT_BREAK: u8 = 0xAA;

pub const SC_RSHIFT_BREAK: u8 = 0xB6;

pub const SC_CAPS_MAKE: u8 = 0x3A;

/// Precedes the second byte of an extended key.
pub const SC_EXTENDED: u8 = 0xE0;

pub const SC_CTRL_MAKE: u8 = 0x1D;

pub const SC_CTRL_BREAK: u8 = 0x9D;

pub const SC_ALT_MAKE: u8 = 0x38;

pub const SC_ALT_BREAK: u8 = 0xB8;

pub const SC_ESC_MAKE: u8 = 0x01;

/// ASCII escape.
pub const ESCAPE: u8 = 0x1B;

/// Stands for Ctrl+Alt+Esc.
pub const SHUTDOWN: u8 = 0xFF;

/// The number of make codes in the tables.
pub const TABLE_LEN: usize = 0x54;

/// The characters of the keys without shift; zero where there is none.
pub const UNSHIFTED: [u8; 0x54] = [
    0, 0, 0x31, 0x32, 0x33, 0x34, 0x35, 0x36,
    0x37, 0x38, 0x39, 0x30, 0x2D, 0x3D, 0x08, 0x09,
    0x71, 0x77, 0x65, 0x72, 0x74, 0x79, 0x75, 0x69,
    0x6F, 0x70, 0x5B, 0x5D, 0x0A, 0, 0x61, 0x73,
    0x64, 0x66, 0x67, 0x68, 0x6A, 0x6B, 0x6C, 0x3B,
    0x27, 0x60, 0, 0x5C, 0x7A, 0x78, 0x63, 0x76,
    0x62, 0x6E, 0x6D, 0x2C, 0x2E, 0x2F, 0, 0x2A,
    0, 0x20, 0, 0, 0, 0, 0, 0,
    0, 0, 0, 0, 0, 0, 0, 0x37,
    0x38, 0x39, 0x2D, 0x34, 0x35, 0x36, 0x2B, 0x31,
    0x32, 0x33, 0x30, 0x2E,
];

/// The characters of the keys with shift; zero where there is none.
pub const SHIFTED: [u8; 0x54] = [
    0, 0, 0x21, 0x40, 0x23, 0x24, 0x25, 0x5E,
    0x26, 0x2A, 0x28, 0x29, 0x5F, 0x2B, 0x08, 0x09,
    0x51, 0x57, 0x45, 0x52, 0x54, 0x59, 0x55, 0x49,
    0x4F, 0x50, 0x7B, 0x7D, 0x0A, 0, 0x41, 0x53,
    0x44, 0x46, 0x47, 0x48, 0x4A, 0x4B, 0x4C, 0x3A,
    0x22, 0x7E, 0, 0x7C, 0x5A, 0x58, 0x43, 0x56,
    0x42, 0x4E, 0x4D, 0x3C, 0x3E, 0x3F, 0, 0x2A,
    0, 0x20, 0, 0, 0, 0, 0, 0,
    0, 0, 0, 0, 0, 0, 0, 0x37,
    0x38, 0x39, 0x2D, 0x34, 0x35, 0x36, 0x2B, 0x31,
    0x32, 0x33, 0x30, 0x2E,
];

/// The keys that are held, and what the decoder remembers.
#[derive(Debug, Clone, Copy, PartialEq, Eq, Structural)]
pub struct Modifiers {
    pub left_shift: bool,
    pub right_shift: bool,
    /// Caps lock is on.
    pub caps: bool,
    /// The last byte was the prefix of an extended key.
    pub extended: bool,
    pub ctrl: bool,
    pub alt: bool,
}

impl Modifiers {
    /// Nothing held, caps lock off.
    pub fn new() -> (r: Self)
        ensures
            r == (Modifiers {
                left_shift: false,
                right_shift: false,
                caps: false,
                extended: false,
                ctrl: false,
                alt: false,
            }),
    {
        Modifiers {
            left_shift: false,
            right_shift: false,
            caps: false,
            extended: false,
            ctrl: false,
            alt: false,
        }
    }

    pub open spec fn shift(self) -> bool {
        self.left_shift || self.right_shift
    }

    /// The modifiers after a scancode.
    pub open spec fn after(self, scancode: u8) -> Modifiers {
        if scancode == SC_EXTENDED {
            Modifiers { extended: true, ..self }
        } else if self.extended {
            Modifiers { extended: false, ..self }
        } else if scancode == SC_LSHIFT_MAKE {
            Modifiers { left_shift: true, ..self }
        } else if scancode == SC_RSHIFT_MAKE {
            Modifiers { right_shift: true, ..self }
        } else if scancode == SC_LSHIFT_BREAK {
            Modifiers { left_shift: false, ..self }
        } else if scancode == SC_RSHIFT_BREAK {
            Modifiers { right_shift: false, ..self }
        } else if scancode == SC_CTRL_MAKE {
            Modifiers { ctrl: true, ..self }
        } else if scancode == SC_CTRL_BREAK {
            Modifiers { ctrl: false, ..self }
        } else if scancode == SC_ALT_MAKE {
            Modifiers { alt: true, ..self }
        } else if scancode == SC_ALT_BREAK {
            Modifiers { alt: false, ..self }
        } else if scancode == SC_CAPS_MAKE {
            Modifiers { caps: !self.caps, ..self }
        } else {
            self
        }
    }

    /// The character of a scancode. Neither byte of an extended key has one,
    /// nor a modifier, a key release, or a key outside the tables.
    pub open spec fn character(self, scancode: u8) -> Option<u8> {
        if scancode == SC_EXTENDED || self.extended || is_modifier(scancode) || scancode >= 0x80 {
            None
        } else if scancode == SC_ESC_MAKE {
            Some(
                if self.ctrl && self.alt {
                    SHUTDOWN
                } else {
                    ESCAPE
                },
            )
        } else if scancode >= TABLE_LEN {
            None
        } else {
            let plain = key_character(scancode, self.shift());
            if plain == 0 {
                None
            } else if is_letter(plain) && self.caps {
                Some(key_character(scancode, !self.shift()))
            } else {
                Some(plain)
            }
        }
    }
}

/// The make code of a key that changes the modifiers.
pub open spec fn is_modifier(scancode: u8) -> bool {
    scancode == SC_LSHIFT_MAKE || scancode == SC_RSHIFT_MAKE || scancode == SC_CTRL_MAKE || scancode
        == SC_ALT_MAKE || scancode == SC_CAPS_MAKE
}

/// The entry of the table that goes with the state of the shift keys.
pub open spec fn key_character(scancode: u8, shift: bool) -> u8 {
    if shift {
        SHIFTED@[scancode as int]
    } else {
        UNSHIFTED@[scancode as int]
    }
}

pub open spec fn is_lower(c: u8) -> bool {
    0x61 <= c <= 0x7A
}

pub open spec fn is_upper(c: u8) -> bool {
    0x41 <= c <= 0x5A
}

pub open spec fn is_letter(c: u8) -> bool {
    is_lower(c) || is_upper(c)
}

/// Processes one scancode.
pub fn process_scancode(modifiers: &mut Modifiers, scancode: u8) -> (r: Option<u8>)
    ensures
        r == old(modifiers).character(scancode),
        *final(modifiers) == old(modifiers).after(scancode),
{
    if scancode == SC_EXTENDED {
        modifiers.extended = true;
        return None;
    }
    if modifiers.extended {
        modifiers.extended = false;
        return None;
    }
    match scancode {
        SC_LSHIFT_MAKE => {
            modifiers.left_shift = true;
            return None;
        },
        SC_RSHIFT_MAKE => {
            modifiers.right_shift = true;
            return None;
        },
        SC_LSHIFT_BREAK => {
            modifiers.left_shift = false;
            return None;
        },
        SC_RSHIFT_BREAK => {
            modifiers.right_shift = false;
            return None;
        },
        SC_CTRL_MAKE => {
            modifiers.ctrl = true;
            return None;
        },
        SC_CTRL_BREAK => {
            modifiers.ctrl = false;
            return None;
        },
        SC_ALT_MAKE => {
            modifiers.alt = true;
            return None;
        },
        SC_ALT_BREAK => {
            modifiers.alt = false;
            return None;
        },
        SC_CAPS_MAKE => {
            modifiers.caps = !modifiers.caps;
            return None;
        },
        _ => {},
    }
    assert((scancode & 0x80 != 0) == (scancode >= 0x80)) by (bit_vector);
    if scancode & 0x80 != 0 {
        return None;
    }
    if scancode == SC_ESC_MAKE {
        if modifiers.ctrl && modifiers.alt {
            return Some(SHUTDOWN);
        }
        return Some(ESCAPE);
    }
    if scancode as usize >= TABLE_LEN {
        return None;
    }
    let shift = modifiers.left_shift || modifiers.right_shift;
    let base_char: u8 = if shift {
        SHIFTED[scancode as usize]
    } else {
        UNSHIFTED[scancode as usize]
    };
    if base_char == 0 {
        return None;
    }
    let letter = (0x61 <= base_char && base_char <= 0x7A) || (0x41 <= base_char && base_char
        <= 0x5A);
    let char_code: u8 = if letter && modifiers.caps {
        if shift {
            UNSHIFTED[scancode as usize]
        } else {
            SHIFTED[scancode as usize]
        }
    } else {
        base_char
    };
    Some(char_code)
}

/// The tables agree: a key has a character in both or in neither, and it is a
/// letter in both, small in the one and capital in the other, or in neither.
spec fn tables_agree(n: nat) -> bool
    decreases n,
{
    n == 0 || (tables_agree((n - 1) as nat) && {
        let plain = UNSHIFTED@[n - 1];
        let shifted = SHIFTED@[n - 1];
        &&& plain == 0 <==> shifted == 0
        &&& !is_upper(plain) && !is_lower(shifted)
        &&& is_lower(plain) <==> is_upper(shifted)
        &&& is_lower(plain) ==> shifted == plain - 0x20
    })
}

proof fn lemma_tables_agree(n: nat, i: int)
    requires
        tables_agree(n),
        0 <= i < n,
    ensures
        ({
            let plain = UNSHIFTED@[i];
            let shifted = SHIFTED@[i];
            &&& plain == 0 <==> shifted == 0
            &&& !is_upper(plain) && !is_lower(shifted)
            &&& is_lower(plain) <==> is_upper(shifted)
            &&& is_lower(plain) ==> shifted == plain - 0x20
        }),
    decreases n,
{
    if i < n - 1 {
        lemma_tables_agree((n - 1) as nat, i);
    }
}

/// Shift and caps lock cancel each other on letters: a letter key gives the
/// capital if exactly one of the two is on, and the small letter otherwise. On
/// every other key caps lock has no effect.
pub proof fn caps_inverts_shift_on_letters(m: Modifiers, scancode: u8)
    requires
        !m.extended,
        !is_modifier(scancode),
        scancode != SC_ESC_MAKE,
        scancode < TABLE_LEN,
    ensures
        is_letter(UNSHIFTED@[scancode as int]) ==> m.character(scancode) == Some(
            if m.shift() != m.caps {
                (UNSHIFTED@[scancode as int] - 0x20) as u8
            } else {
                UNSHIFTED@[scancode as int]
            },
        ),
        !is_letter(UNSHIFTED@[scancode as int]) ==> m.character(scancode) == (Modifiers {
            caps: !m.caps,
            ..m
        }).character(scancode),
{
    reveal_with_fuel(tables_agree, 85);
    assert(tables_agree(84));
    lemma_tables_agree(84, scancode as int);
}

/// An extended key, two bytes, has no character and changes no modifier.
pub proof fn extended_keys_are_dropped(m: Modifiers, second: u8)
    requires
        !m.extended,
        second != SC_EXTENDED,
    ensures
        m.character(SC_EXTENDED) is None,
        m.after(SC_EXTENDED).character(second) is None,
        m.after(SC_EXTENDED).after(second) == m,
{
}

/// Pressing and releasing a key of the shift, control or alternate kind, or
/// pressing caps lock twice, leaves the modifiers as they were.
pub proof fn released_keys_leave_no_trace(m: Modifiers)
    requires
        !m.extended,
    ensures
        !m.left_shift ==> m.after(SC_LSHIFT_MAKE).after(SC_LSHIFT_BREAK) == m,
        !m.right_shift ==> m.after(SC_RSHIFT_MAKE).after(SC_RSHIFT_BREAK) == m,
        !m.ctrl ==> m.after(SC_CTRL_MAKE).after(SC_CTRL_BREAK) == m,
        !m.alt ==> m.after(SC_ALT_MAKE).after(SC_ALT_BREAK) == m,
        m.after(SC_CAPS_MAKE).after(SC_CAPS_MAKE) == m,
{
}

pub const RING_SIZE: usize = 256;

pub const RING_MASK: usize = 255;

/// A ring of scancodes that wait to be processed.
pub struct ScancodeBuffer {
    buffer: [u8; 256],
    /// The slot to read next.
    head: usize,
    /// The slot to write next.
    tail: usize,
    length: usize,
}

impl View for ScancodeBuffer {
    type V = Seq<u8>;

    closed spec fn view(&self) -> Seq<u8> {
        Seq::new(
            self.length as nat,
            |i: int| self.buffer@[(self.head + i) % (RING_SIZE as int)],
        )
    }
}

impl ScancodeBuffer {
    pub closed spec fn wf(&self) -> bool {
        &&& self.head < RING_SIZE
        &&& self.length <= RING_SIZE
        &&& self.tail == (self.head + self.length) % (RING_SIZE as int)
    }

    /// An empty ring.
    pub fn new() -> (r: Self)
        ensures
            r.wf(),
            r@ == Seq::<u8>::empty(),
    {
        let r = ScancodeBuffer { buffer: [0;256], head: 0, tail: 0, length: 0 };
        assert(r@ =~= Seq::<u8>::empty());
        r
    }

    /// Adds a scancode at the end. A full ring drops it.
    pub fn push(&mut self, scancode: u8)
        requires
            old(self).wf(),
        ensures
            final(self).wf(),
            final(self)@ == if old(self)@.len() == RING_SIZE {
                old(self)@
            } else {
                old(self)@.push(scancode)
            },
    {
        if self.length == RING_SIZE {
            return ;
        }
        let ghost before = self@;
        self.buffer[self.tail] = scancode;
        let next: usize = self.tail + 1;
        assert(next & 255 == next % 256) by (bit_vector);
        self.tail = next & RING_MASK;
        self.length = self.length + 1;
        assert(self@ =~= before.push(scancode));
    }

    /// Takes the first scancode.
    pub fn pop(&mut self) -> (r: Option<u8>)
        requires
            old(self).wf(),
        ensures
            final(self).wf(),
            match r {
                Some(scancode) => old(self)@.len() > 0 && scancode == old(self)@[0] && final(self)@
                    == old(self)@.skip(1),
                None => old(self)@.len() == 0 && final(self)@ == old(self)@,
            },
    {
        if self.length == 0 {
            return None;
        }
        let ghost before = self@;
        let scancode: u8 = self.buffer[self.head];
        let next: usize = self.head + 1;
        assert(next & 255 == next % 256) by (bit_vector);
        self.head = next & RING_MASK;
        self.length = self.length - 1;
        assert(self@ =~= before.skip(1));
        Some(scancode)
    }
}

/// The keyboard as the interrupt handler and the keyboard task share it.
pub struct Keyboard {
    pub scancodes: ScancodeBuffer,
    /// The task to wake when a scancode has arrived.
    pub task_id: Option<TaskId>,
}

impl Keyboard {
    /// No scancodes, no task.
    pub fn new() -> (r: Self)
        ensures
            r.scancodes.wf(),
            r.scancodes@ == Seq::<u8>::empty(),
            r.task_id is None,
    {
        Keyboard { scancodes: ScancodeBuffer::new(), task_id: None }
    }
}

/// Registers the task that consumes the scancodes, in place of an earlier one.
pub fn keyboard_set_task_id(keyboard: &mut Keyboard, task_id: TaskId)
    ensures
        final(keyboard).task_id == Some(task_id),
        final(keyboard).scancodes == old(keyboard).scancodes,
{
    keyboard.task_id = Some(task_id);
}

/// Stores a scancode, and tells which task is to be woken.
pub fn keyboard_push_scancode(keyboard: &mut Keyboard, scancode: u8) -> (r: Option<TaskId>)
    requires
        old(keyboard).scancodes.wf(),
    ensures
        final(keyboard).scancodes.wf(),
        final(keyboard).scancodes@ == if old(keyboard).scancodes@.len() == RING_SIZE {
            old(keyboard).scancodes@
        } else {
            old(keyboard).scancodes@.push(scancode)
        },
        final(keyboard).task_id == old(keyboard).task_id,
        r == old(keyboard).task_id,
{
    keyboard.scancodes.push(scancode);
    keyboard.task_id
}

/// Takes the scancode that has waited longest.
pub fn keyboard_pop_scancode(keyboard: &mut Keyboard) -> (r: Option<u8>)
    requires
        old(keyboard).scancodes.wf(),
    ensures
        final(keyboard).scancodes.wf(),
        match r {
            Some(scancode) => old(keyboard).scancodes@.len() > 0 && scancode == old(
                keyboard,
            ).scancodes@[0] && final(keyboard).scancodes@ == old(keyboard).scancodes@.skip(1),
            None => old(keyboard).scancodes@.len() == 0 && final(keyboard).scancodes@ == old(
                keyboard,
            ).scancodes@,
        },
        final(keyboard).task_id == old(keyboard).task_id,
{
    keyboard.scancodes.pop()
}

/// Scancodes come out in the order in which they went in: what is pushed onto
/// a ring that is not full comes out after all that it held.
pub proof fn scancodes_are_first_in_first_out(held: Seq<u8>, scancode: u8)
    requires
        held.len() < RING_SIZE,
    ensures
        held.push(scancode).skip(held.len() as int) == seq![scancode],
        held.len() > 0 ==> held.push(scancode)[0] == held[0] && held.push(scancode).skip(1)
            == held.skip(1).push(scancode),
{
    assert(held.push(scancode).skip(held.len() as int) =~= seq![scancode]);
    if held.len() > 0 {
        assert(held.push(scancode).skip(1) =~= held.skip(1).push(scancode));
    }
}

/// What comes of a key.
#[derive(Debug, Clone, Copy, PartialEq, Eq, Structural)]
pub enum KeyOutput {
    /// The system is to be shut down.
    Shutdown,
    /// An ASCII character.
    Character(u8),
}

/// What comes of a character code: bytes that are no text by themselves are
/// dropped.
pub open spec fn output_of(code: Option<u8>) -> Seq<KeyOutput> {
    match code {
        Some(c) => if c == SHUTDOWN {
            seq![KeyOutput::Shutdown]
        } else if c < 0x80 {
            seq![KeyOutput::Character(c)]
        } else {
            seq![]
        },
        None => seq![],
    }
}

/// What comes of scancodes, one after the other.
pub open spec fn typed(m: Modifiers, scancodes: Seq<u8>) -> Seq<KeyOutput>
    decreases scancodes.len(),
{
    if scancodes.len() == 0 {
        seq![]
    } else {
        output_of(m.character(scancodes[0])) + typed(m.after(scancodes[0]), scancodes.skip(1))
    }
}

/// The modifiers after scancodes.
pub open spec fn modifiers_after(m: Modifiers, scancodes: Seq<u8>) -> Modifiers
    decreases scancodes.len(),
{
    if scancodes.len() == 0 {
        m
    } else {
        modifiers_after(m.after(scancodes[0]), scancodes.skip(1))
    }
}

/// Processes all scancodes that wait.
pub fn keyboard_drain(keyboard: &mut Keyboard, modifiers: &mut Modifiers) -> (r: Vec<KeyOutput>)
    requires
        old(keyboard).scancodes.wf(),
    ensures
        final(keyboard).scancodes.wf(),
        final(keyboard).scancodes@.len() == 0,
        final(keyboard).task_id == old(keyboard).task_id,
        *final(modifiers) == modifiers_after(*old(modifiers), old(keyboard).scancodes@),
        r@ == typed(*old(modifiers), old(keyboard).scancodes@),
{
    let mut outputs: Vec<KeyOutput> = Vec::new();
    let ghost all = typed(*old(modifiers), old(keyboard).scancodes@);
    let ghost last = modifiers_after(*old(modifiers), old(keyboard).scancodes@);
    assert(outputs@ + all =~= all);
    let mut more: bool = true;
    while more
        invariant
            keyboard.scancodes.wf(),
            keyboard.task_id == old(keyboard).task_id,
            all == outputs@ + typed(*modifiers, keyboard.scancodes@),
            last == modifiers_after(*modifiers, keyboard.scancodes@),
            !more ==> keyboard.scancodes@.len() == 0,
        decreases
            keyboard.scancodes@.len(),
            if more {
                1int
            } else {
                0
            },
    {
        let ghost m = *modifiers;
        let ghost codes = keyboard.scancodes@;
        let ghost before = outputs@;
        match keyboard_pop_scancode(keyboard) {
            Some(scancode) => {
                let code: Option<u8> = process_scancode(modifiers, scancode);
                if let Some(c) = code {
                    if c == SHUTDOWN {
                        outputs.push(KeyOutput::Shutdown);
                    } else if c < 0x80 {
                        outputs.push(KeyOutput::Character(c));
                    }
                }
                assert(outputs@ =~= before + output_of(code));
                assert(before + (output_of(code) + typed(*modifiers, codes.skip(1))) =~= outputs@
                    + typed(*modifiers, codes.skip(1)));
            },
            None => {
                more = false;
            },
        }
    }
    assert(outputs@ + typed(*modifiers, keyboard.scancodes@) =~= outputs@);
    outputs
}

/// Draining twice gives what draining once would have given of all scancodes.
pub proof fn drains_add_up(m: Modifiers, first: Seq<u8>, second: Seq<u8>)
    ensures
        typed(m, first + second) == typed(m, first) + typed(modifiers_after(m, first), second),
        modifiers_after(m, first + second) == modifiers_after(modifiers_after(m, first), second),
    decreases first.len(),
{
    if first.len() == 0 {
        assert(first + second =~= second);
        assert(typed(m, first) + typed(m, second) =~= typed(m, second));
    } else {
        assert((first + second).skip(1) =~= first.skip(1) + second);
        drains_add_up(m.after(first[0]), first.skip(1), second);
        assert(typed(m, first + second) =~= typed(m, first) + typed(
            modifiers_after(m, first),
            second,
        ));
    }
}

/// The keys stand in rows, as they are printed: figures, three rows of letters,
/// and the keys on the side. Shift gives what is printed above. There are keys
/// for going back, to the next stop and to the next line, for the star and for
/// the space.
pub proof fn keys_stand_in_rows()
    ensures
        UNSHIFTED@.subrange(0x02, 0x0E) == seq![0x31u8, 0x32, 0x33, 0x34, 0x35, 0x36, 0x37, 0x38, 0x39, 0x30, 0x2D, 0x3D],
        SHIFTED@.subrange(0x02, 0x0E) == seq![0x21u8, 0x40, 0x23, 0x24, 0x25, 0x5E, 0x26, 0x2A, 0x28, 0x29, 0x5F, 0x2B],
        UNSHIFTED@.subrange(0x10, 0x1C) == seq![0x71u8, 0x77, 0x65, 0x72, 0x74, 0x79, 0x75, 0x69, 0x6F, 0x70, 0x5B, 0x5D],
        SHIFTED@.subrange(0x10, 0x1C) == seq![0x51u8, 0x57, 0x45, 0x52, 0x54, 0x59, 0x55, 0x49, 0x4F, 0x50, 0x7B, 0x7D],
        UNSHIFTED@.subrange(0x1E, 0x2A) == seq![0x61u8, 0x73, 0x64, 0x66, 0x67, 0x68, 0x6A, 0x6B, 0x6C, 0x3B, 0x27, 0x60],
        SHIFTED@.subrange(0x1E, 0x2A) == seq![0x41u8, 0x53, 0x44, 0x46, 0x47, 0x48, 0x4A, 0x4B, 0x4C, 0x3A, 0x22, 0x7E],
        UNSHIFTED@.subrange(0x2B, 0x36) == seq![0x5Cu8, 0x7A, 0x78, 0x63, 0x76, 0x62, 0x6E, 0x6D, 0x2C, 0x2E, 0x2F],
        SHIFTED@.subrange(0x2B, 0x36) == seq![0x7Cu8, 0x5A, 0x58, 0x43, 0x56, 0x42, 0x4E, 0x4D, 0x3C, 0x3E, 0x3F],
        UNSHIFTED@.subrange(0x47, 0x54) == seq![0x37u8, 0x38, 0x39, 0x2D, 0x34, 0x35, 0x36, 0x2B, 0x31, 0x32, 0x33, 0x30, 0x2E],
        SHIFTED@.subrange(0x47, 0x54) == seq![0x37u8, 0x38, 0x39, 0x2D, 0x34, 0x35, 0x36, 0x2B, 0x31, 0x32, 0x33, 0x30, 0x2E],
        UNSHIFTED@[0x0E] == 0x08 && SHIFTED@[0x0E] == 0x08,
        UNSHIFTED@[0x0F] == 0x09 && SHIFTED@[0x0F] == 0x09,
        UNSHIFTED@[0x1C] == 0x0A && SHIFTED@[0x1C] == 0x0A,
        UNSHIFTED@[0x37] == 0x2A && SHIFTED@[0x37] == 0x2A,
        UNSHIFTED@[0x39] == 0x20 && SHIFTED@[0x39] == 0x20,
{
    assert(UNSHIFTED@.subrange(0x02, 0x0E) =~= seq![0x31u8, 0x32, 0x33, 0x34, 0x35, 0x36, 0x37, 0x38, 0x39, 0x30, 0x2D, 0x3D]);
    assert(SHIFTED@.subrange(0x02, 0x0E) =~= seq![0x21u8, 0x40, 0x23, 0x24, 0x25, 0x5E, 0x26, 0x2A, 0x28, 0x29, 0x5F, 0x2B]);
    assert(UNSHIFTED@.subrange(0x10, 0x1C) =~= seq![0x71u8, 0x77, 0x65, 0x72, 0x74, 0x79, 0x75, 0x69, 0x6F, 0x70, 0x5B, 0x5D]);
    assert(SHIFTED@.subrange(0x10, 0x1C) =~= seq![0x51u8, 0x57, 0x45, 0x52, 0x54, 0x59, 0x55, 0x49, 0x4F, 0x50, 0x7B, 0x7D]);
    assert(UNSHIFTED@.subrange(0x1E, 0x2A) =~= seq![0x61u8, 0x73, 0x64, 0x66, 0x67, 0x68, 0x6A, 0x6B, 0x6C, 0x3B, 0x27, 0x60]);
    assert(SHIFTED@.subrange(0x1E, 0x2A) =~= seq![0x41u8, 0x53, 0x44, 0x46, 0x47, 0x48, 0x4A, 0x4B, 0x4C, 0x3A, 0x22, 0x7E]);
    assert(UNSHIFTED@.subrange(0x2B, 0x36) =~= seq![0x5Cu8, 0x7A, 0x78, 0x63, 0x76, 0x62, 0x6E, 0x6D, 0x2C, 0x2E, 0x2F]);
    assert(SHIFTED@.subrange(0x2B, 0x36) =~= seq![0x7Cu8, 0x5A, 0x58, 0x43, 0x56, 0x42, 0x4E, 0x4D, 0x3C, 0x3E, 0x3F]);
    assert(UNSHIFTED@.subrange(0x47, 0x54) =~= seq![0x37u8, 0x38, 0x39, 0x2D, 0x34, 0x35, 0x36, 0x2B, 0x31, 0x32, 0x33, 0x30, 0x2E]);
    assert(SHIFTED@.subrange(0x47, 0x54) =~= seq![0x37u8, 0x38, 0x39, 0x2D, 0x34, 0x35, 0x36, 0x2B, 0x31, 0x32, 0x33, 0x30, 0x2E]);
}

/// No other key has a character.
pub proof fn other_keys_have_no_character(m: Modifiers, scancode: u8)
    requires
        scancode == 0 || scancode == 0x1D || scancode == 0x2A || scancode == 0x36 || scancode == 0x38
            || 0x3A <= scancode <= 0x46 || scancode >= 0x54,
    ensures
        m.character(scancode) is None,
{
    if 0x3A <= scancode <= 0x46 {
        assert(scancode == 0x3A || scancode == 0x3B || scancode == 0x3C || scancode == 0x3D
            || scancode == 0x3E || scancode == 0x3F || scancode == 0x40 || scancode == 0x41
            || scancode == 0x42 || scancode == 0x43 || scancode == 0x44 || scancode == 0x45
            || scancode == 0x46);
    }
}

/// Each modifier is held from when its key is pressed until that same key is
/// released, whatever other keys do meanwhile; caps lock changes when its key is
/// pressed. Either shift key shifts.
pub proof fn modifiers_are_held(m: Modifiers, c: u8)
    requires
        !m.extended,
        c != 0xE0,
    ensures
        m.after(c).left_shift == if c == 0x2A {
            true
        } else if c == 0xAA {
            false
        } else {
            m.left_shift
        },
        m.after(c).right_shift == if c == 0x36 {
            true
        } else if c == 0xB6 {
            false
        } else {
            m.right_shift
        },
        m.after(c).ctrl == if c == 0x1D {
            true
        } else if c == 0x9D {
            false
        } else {
            m.ctrl
        },
        m.after(c).alt == if c == 0x38 {
            true
        } else if c == 0xB8 {
            false
        } else {
            m.alt
        },
        m.after(c).caps == if c == 0x3A {
            !m.caps
        } else {
            m.caps
        },
        !m.after(c).extended,
        m.shift() <==> m.left_shift || m.right_shift,
{
}

/// Escape is a character, unless control and alternate are both held: then it
/// stands for shutting down, whatever else is held.
pub proof fn escape_key(m: Modifiers)
    requires
        !m.extended,
    ensures
        m.character(0x01) == Some(
            if m.ctrl && m.alt {
                0xFFu8
            } else {
                0x1B
            },
        ),
{
}

/// Control, alternate and the other shift key change no other key's character.
pub proof fn characters_depend_on_shift_and_caps(m: Modifiers, n: Modifiers, c: u8)
    requires
        m.extended == n.extended,
        m.caps == n.caps,
        (m.left_shift || m.right_shift) == (n.left_shift || n.right_shift),
        c != 0x01,
    ensures
        m.character(c) == n.character(c),
{
}

/// What comes of a code: shutting down of 0xFF, the character of a byte below
/// 0x80, and nothing else.
pub proof fn codes_come_to_outputs(code: u8)
    ensures
        code == 0xFF ==> output_of(Some(code)) == seq![KeyOutput::Shutdown],
        code < 0x80 ==> output_of(Some(code)) == seq![KeyOutput::Character(code)],
        0x80 <= code < 0xFF ==> output_of(Some(code)).len() == 0,
        output_of(None).len() == 0,
{
}

/// One scancode is processed as it is decoded, with the modifiers before it.
pub proof fn scancodes_are_processed(before: Modifiers, c: u8)
    ensures
        forall|m: &mut Modifiers, r: Option<u8>|
            *m == before && #[trigger] call_ensures(process_scancode, (m, c), r) ==> {
                &&& r == before.character(c)
                &&& *final(m) == before.after(c)
                &&& typed(before, seq![c]) == output_of(r)
            },
{
    reveal_with_fuel(typed, 2);
    assert(seq![c].skip(1) =~= seq![]);
    assert(typed(before, seq![c]) =~= output_of(before.character(c)));
}

} // verus!
