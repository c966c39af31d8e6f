//! The keyboard driver: scan codes to terminal actions.
use vstd::prelude::*;

verus! {

/// The characters of a key, without and with shift; 0 where it has none.
pub open spec fn key_pair_spec(sc: u8) -> (u8, u8) {
    match sc {
        0x02 => (0x31u8, 0x21u8),
        0x03 => (0x32u8, 0x40u8),
        0x04 => (0x33u8, 0x23u8),
        0x05 => (0x34u8, 0x24u8),
        0x06 => (0x35u8, 0x25u8),
        0x07 => (0x36u8, 0x5Eu8),
        0x08 => (0x37u8, 0x26u8),
        0x09 => (0x38u8, 0x2Au8),
        0x0A => (0x39u8, 0x28u8),
        0x0B => (0x30u8, 0x29u8),
        0x0C => (0x2Du8, 0x5Fu8),
        0x0D => (0x3Du8, 0x2Bu8),
        0x0F => (0x09u8, 0x09u8),
        0x10 => (0x71u8, 0x51u8),
        0x11 => (0x77u8, 0x57u8),
        0x12 => (0x65u8, 0x45u8),
        0x13 => (0x72u8, 0x52u8),
        0x14 => (0x74u8, 0x54u8),
        0x15 => (0x79u8, 0x59u8),
        0x16 => (0x75u8, 0x55u8),
        0x17 => (0x69u8, 0x49u8),
        0x18 => (0x6Fu8, 0x4Fu8),
        0x19 => (0x70u8, 0x50u8),
        0x1A => (0x5Bu8, 0x7Bu8),
        0x1B => (0x5Du8, 0x7Du8),
        0x1E => (0x61u8, 0x41u8),
        0x1F => (0x73u8, 0x53u8),
        0x20 => (0x64u8, 0x44u8),
        0x21 => (0x66u8, 0x46u8),
        0x22 => (0x67u8, 0x47u8),
        0x23 => (0x68u8, 0x48u8),
        0x24 => (0x6Au8, 0x4Au8),
        0x25 => (0x6Bu8, 0x4Bu8),
        0x26 => (0x6Cu8, 0x4Cu8),
        0x27 => (0x3Bu8, 0x3Au8),
        0x28 => (0x27u8, 0x22u8),
        0x29 => (0x60u8, 0x7Eu8),
        0x2B => (0x5Cu8, 0x7Cu8),
        0x2C => (0x7Au8, 0x5Au8),
        0x2D => (0x78u8, 0x58u8),
        0x2E => (0x63u8, 0x43u8),
        0x2F => (0x76u8, 0x56u8),
        0x30 => (0x62u8, 0x42u8),
        0x31 => (0x6Eu8, 0x4Eu8),
        0x32 => (0x6Du8, 0x4Du8),
        0x33 => (0x2Cu8, 0x3Cu8),
        0x34 => (0x2Eu8, 0x3Eu8),
        0x35 => (0x2Fu8, 0x3Fu8),
        0x39 => (0x20u8, 0x20u8),
        _ => (0u8, 0u8),
    }
}

/// The characters of a key, without and with shift; 0 where it has none.
pub fn key_pair(sc: u8) -> (r: (u8, u8))
    ensures
        r == key_pair_spec(sc),
{
    match sc {
        0x02 => (0x31u8, 0x21u8),
        0x03 => (0x32u8, 0x40u8),
        0x04 => (0x33u8, 0x23u8),
        0x05 => (0x34u8, 0x24u8),
        0x06 => (0x35u8, 0x25u8),
        0x07 => (0x36u8, 0x5Eu8),
        0x08 => (0x37u8, 0x26u8),
        0x09 => (0x38u8, 0x2Au8),
        0x0A => (0x39u8, 0x28u8),
        0x0B => (0x30u8, 0x29u8),
        0x0C => (0x2Du8, 0x5Fu8),
        0x0D => (0x3Du8, 0x2Bu8),
        0x0F => (0x09u8, 0x09u8),
        0x10 => (0x71u8, 0x51u8),
        0x11 => (0x77u8, 0x57u8),
        0x12 => (0x65u8, 0x45u8),
        0x13 => (0x72u8, 0x52u8),
        0x14 => (0x74u8, 0x54u8),
        0x15 => (0x79u8, 0x59u8),
        0x16 => (0x75u8, 0x55u8),
        0x17 => (0x69u8, 0x49u8),
        0x18 => (0x6Fu8, 0x4Fu8),
        0x19 => (0x70u8, 0x50u8),
        0x1A => (0x5Bu8, 0x7Bu8),
        0x1B => (0x5Du8, 0x7Du8),
        0x1E => (0x61u8, 0x41u8),
        0x1F => (0x73u8, 0x53u8),
        0x20 => (0x64u8, 0x44u8),
        0x21 => (0x66u8, 0x46u8),
        0x22 => (0x67u8, 0x47u8),
        0x23 => (0x68u8, 0x48u8),
        0x24 => (0x6Au8, 0x4Au8),
        0x25 => (0x6Bu8, 0x4Bu8),
        0x26 => (0x6Cu8, 0x4Cu8),
        0x27 => (0x3Bu8, 0x3Au8),
        0x28 => (0x27u8, 0x22u8),
        0x29 => (0x60u8, 0x7Eu8),
        0x2B => (0x5Cu8, 0x7Cu8),
        0x2C => (0x7Au8, 0x5Au8),
        0x2D => (0x78u8, 0x58u8),
        0x2E => (0x63u8, 0x43u8),
        0x2F => (0x76u8, 0x56u8),
        0x30 => (0x62u8, 0x42u8),
        0x31 => (0x6Eu8, 0x4Eu8),
        0x32 => (0x6Du8, 0x4Du8),
        0x33 => (0x2Cu8, 0x3Cu8),
        0x34 => (0x2Eu8, 0x3Eu8),
        0x35 => (0x2Fu8, 0x3Fu8),
        0x39 => (0x20u8, 0x20u8),
        _ => (0u8, 0u8),
    }
}

/// The character of a key; `None` for a key that stands for no character.
pub open spec fn key_char_spec(sc: u8, shift: bool) -> Option<u8> {
    let (base, shifted) = key_pair_spec(sc);
    let c = if shift {
        shifted
    } else {
        base
    };
    if c == 0 {
        None
    } else {
        Some(c)
    }
}

/// The character of a key; `None` for a key that stands for no character.
pub fn key_char(sc: u8, shift: bool) -> (r: Option<u8>)
    ensures
        r == key_char_spec(sc, shift),
{
    let (base, shifted) = key_pair(sc);
    let c: u8 = if shift {
        shifted
    } else {
        base
    };
    if c == 0 {
        None
    } else {
        Some(c)
    }
}

/// What the terminal is told to do.
#[derive(Clone, Copy, PartialEq, Eq, Structural)]
pub enum KeyAction {
    Nothing,
    ScrollUp,
    ScrollDown,
    CursorLeft,
    CursorRight,
    Backspace,
    Put(u8),
}

/// The decoder between two scan codes: whether the last one was the prefix of an
/// extended key, and whether shift is held.
#[derive(Clone, Copy, PartialEq, Eq, Structural)]
pub struct Keyboard {
    pub ext: bool,
    pub shift: bool,
}

impl Keyboard {
    /// The decoder and the action after one more scan code.
    pub open spec fn step_spec(self, sc: u8) -> (Keyboard, KeyAction) {
        if sc == 0xE0 {
            (Keyboard { ext: true, ..self }, KeyAction::Nothing)
        } else if sc >= 0x80 {
            (
                Keyboard {
                    ext: false,
                    shift: self.shift && sc != 0xAA && sc != 0xB6,
                },
                KeyAction::Nothing,
            )
        } else if self.ext {
            (
                Keyboard { ext: false, ..self },
                if sc == 0x48 {
                    KeyAction::ScrollUp
                } else if sc == 0x50 {
                    KeyAction::ScrollDown
                } else if sc == 0x4B {
                    KeyAction::CursorLeft
                } else if sc == 0x4D {
                    KeyAction::CursorRight
                } else if sc == 0x1C {
                    KeyAction::Put(0x0A)
                } else {
                    KeyAction::Nothing
                },
            )
        } else if sc == 0x2A || sc == 0x36 {
            (Keyboard { shift: true, ..self }, KeyAction::Nothing)
        } else if sc == 0x0E {
            (self, KeyAction::Backspace)
        } else if sc == 0x1C {
            (self, KeyAction::Put(0x0A))
        } else {
            (
                self,
                match key_char_spec(sc, self.shift) {
                    Some(c) => KeyAction::Put(c),
                    None => KeyAction::Nothing,
                },
            )
        }
    }

    /// No key held, no prefix seen.
    pub fn new() -> (r: Keyboard)
        ensures
            r == (Keyboard { ext: false, shift: false }),
    {
        Keyboard { ext: false, shift: false }
    }

    /// Takes in one scan code.
    pub fn step(&mut self, sc: u8) -> (r: KeyAction)
        ensures
            (*final(self), r) == old(self).step_spec(sc),
    {
        if sc == 0xE0 {
            self.ext = true;
            return KeyAction::Nothing;
        }
        if sc & 0x80 != 0 {
            let base: u8 = sc & 0x7F;
            proof {
                assert(sc & 0x80 != 0 ==> sc >= 0x80 && (sc & 0x7F) == sc - 0x80)
                    by (bit_vector);
            }
            if base == 0x2A || base == 0x36 {
                self.shift = false;
            }
            self.ext = false;
            return KeyAction::Nothing;
        }
        proof {
            assert(sc & 0x80 == 0 ==> sc < 0x80) by (bit_vector);
        }
        if self.ext {
            self.ext = false;
            return match sc {
                0x48 => KeyAction::ScrollUp,
                0x50 => KeyAction::ScrollDown,
                0x4B => KeyAction::CursorLeft,
                0x4D => KeyAction::CursorRight,
                0x1C => KeyAction::Put(0x0A),
                _ => KeyAction::Nothing,
            };
        }
        if sc == 0x2A || sc == 0x36 {
            self.shift = true;
            return KeyAction::Nothing;
        }
        if sc == 0x0E {
            return KeyAction::Backspace;
        }
        if sc == 0x1C {
            return KeyAction::Put(0x0A);
        }
        match key_char(sc, self.shift) {
            Some(c) => KeyAction::Put(c),
            None => KeyAction::Nothing,
        }
    }
}

/// Law: releasing a key never acts on the terminal, and only the two shift keys
/// change what shift is taken for.
pub proof fn law_release(k: Keyboard, sc: u8)
    requires
        sc >= 0x80,
    ensures
        k.step_spec(sc).1 == KeyAction::Nothing,
        sc != 0xAA && sc != 0xB6 ==> k.step_spec(sc).0.shift == k.shift,
{
}

/// Law: an extended key is decoded once: after the key that follows the prefix, the
/// next one is an ordinary key again.
pub proof fn law_prefix_lasts_one_key(k: Keyboard, sc: u8)
    requires
        sc != 0xE0,
    ensures
        k.step_spec(0xE0).0.step_spec(sc).0.ext == false,
        k.step_spec(0xE0).0.step_spec(sc).0.shift == k.shift || sc == 0xAA || sc == 0xB6,
{
}

} // verus!
