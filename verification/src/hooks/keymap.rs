//! Key code tables of the platform hooks: X11 key codes, macOS virtual key
//! codes and Windows virtual keys, mapped to characters and special keys.

use vstd::prelude::*;
use crate::hooks::platform::{Modifiers, SpecialKey};

verus! {

/// The ASCII lower-case form of an ASCII upper-case letter; every other
/// character is kept.
pub open spec fn ascii_lower(c: char) -> char {
    if 'A' <= c && c <= 'Z' { ((c as u32) + 32) as char } else { c }
}

fn to_ascii_lower(c: char) -> (r: char)
    ensures
        r == ascii_lower(c),
{
    if 'A' <= c && c <= 'Z' {
        let code = (c as u8) + 32;
        code as char
    } else {
        c
    }
}

/// The character a shifted digit key gives, for the digit keys `1` to `9`
/// and `0` numbered 0 to 9.
pub open spec fn shifted_digit(index: int) -> char {
    if index == 0 { '!' }
    else if index == 1 { '@' }
    else if index == 2 { '#' }
    else if index == 3 { '$' }
    else if index == 4 { '%' }
    else if index == 5 { '^' }
    else if index == 6 { '&' }
    else if index == 7 { '*' }
    else if index == 8 { '(' }
    else { ')' }
}

fn shifted_digit_of(index: u8) -> (r: char)
    requires
        index <= 9,
    ensures
        r == shifted_digit(index as int),
{
    match index {
        0 => '!',
        1 => '@',
        2 => '#',
        3 => '$',
        4 => '%',
        5 => '^',
        6 => '&',
        7 => '*',
        8 => '(',
        _ => ')',
    }
}

/// The character of an X11 key code: letters 38 to 63 (upper-case when
/// exactly one of Shift and Caps Lock is on), digits 10 to 19 (their
/// symbols with Shift), space 65, Return 36 and Tab 23.
pub open spec fn x11_char(keycode: u8, m: Modifiers) -> Option<char> {
    if 38 <= keycode <= 63 {
        let letter = ((keycode - 38 + 65) as u32) as char;
        Some(if m.shift != m.caps_lock { letter } else { ascii_lower(letter) })
    } else if 10 <= keycode <= 19 {
        if m.shift {
            Some(shifted_digit(keycode - 10))
        } else {
            Some(((keycode - 10 + 49) as u32) as char)
        }
    } else if keycode == 65 {
        Some(' ')
    } else if keycode == 36 {
        Some('\n')
    } else if keycode == 23 {
        Some('\t')
    } else {
        None
    }
}

/// Map an X11 key code to a character
pub fn x11_keycode_to_char(keycode: u8, modifiers: &Modifiers) -> (r: Option<char>)
    ensures
        r == x11_char(keycode, *modifiers),
{
    if 38 <= keycode && keycode <= 63 {
        let letter = (keycode - 38 + 65) as char;
        if modifiers.shift != modifiers.caps_lock {
            Some(letter)
        } else {
            Some(to_ascii_lower(letter))
        }
    } else if 10 <= keycode && keycode <= 19 {
        if modifiers.shift {
            Some(shifted_digit_of(keycode - 10))
        } else {
            Some((keycode - 10 + 49) as char)
        }
    } else if keycode == 65 {
        Some(' ')
    } else if keycode == 36 {
        Some('\n')
    } else if keycode == 23 {
        Some('\t')
    } else {
        None
    }
}

/// Map an X11 key code to a special key
pub fn x11_keycode_to_special(keycode: u8) -> (r: Option<SpecialKey>)
    ensures
        r == match keycode {
            36 => Some(SpecialKey::Enter),
            23 => Some(SpecialKey::Tab),
            22 => Some(SpecialKey::Backspace),
            119 => Some(SpecialKey::Delete),
            9 => Some(SpecialKey::Escape),
            110 => Some(SpecialKey::Home),
            115 => Some(SpecialKey::End),
            112 => Some(SpecialKey::PageUp),
            117 => Some(SpecialKey::PageDown),
            111 => Some(SpecialKey::ArrowUp),
            116 => Some(SpecialKey::ArrowDown),
            113 => Some(SpecialKey::ArrowLeft),
            114 => Some(SpecialKey::ArrowRight),
            _ => None,
        },
{
    match keycode {
        36 => Some(SpecialKey::Enter),
        23 => Some(SpecialKey::Tab),
        22 => Some(SpecialKey::Backspace),
        119 => Some(SpecialKey::Delete),
        9 => Some(SpecialKey::Escape),
        110 => Some(SpecialKey::Home),
        115 => Some(SpecialKey::End),
        112 => Some(SpecialKey::PageUp),
        117 => Some(SpecialKey::PageDown),
        111 => Some(SpecialKey::ArrowUp),
        116 => Some(SpecialKey::ArrowDown),
        113 => Some(SpecialKey::ArrowLeft),
        114 => Some(SpecialKey::ArrowRight),
        _ => None,
    }
}

/// The character of a macOS virtual key code by the fixed table the hook
/// falls back on: codes 0x00 to 0x25 are read as letters from `A` on
/// (upper-case when exactly one of Shift and Caps Lock is on), 0x26 as the
/// digit key after them, 0x31 as space and 0x30 as Tab.
pub open spec fn mac_char(keycode: u16, m: Modifiers) -> Option<char> {
    if keycode <= 0x25 {
        let letter = ((keycode + 65) as u32) as char;
        Some(if m.shift != m.caps_lock { letter } else { ascii_lower(letter) })
    } else if keycode == 0x26 {
        if m.shift { Some(shifted_digit(9)) } else { Some(((0x26 - 0x1D + 49) as u32) as char) }
    } else if keycode == 0x31 {
        Some(' ')
    } else if keycode == 0x30 {
        Some('\t')
    } else {
        None
    }
}

/// Map a macOS virtual key code to a character by the fixed table
pub fn mac_keycode_to_char(keycode: u16, modifiers: &Modifiers) -> (r: Option<char>)
    ensures
        r == mac_char(keycode, *modifiers),
{
    if keycode <= 0x25 {
        let letter = ((keycode as u8) + 65) as char;
        if modifiers.shift != modifiers.caps_lock {
            Some(letter)
        } else {
            Some(to_ascii_lower(letter))
        }
    } else if keycode == 0x26 {
        if modifiers.shift {
            Some(shifted_digit_of(9))
        } else {
            Some((0x26u8 - 0x1D + 49) as char)
        }
    } else if keycode == 0x31 {
        Some(' ')
    } else if keycode == 0x30 {
        Some('\t')
    } else {
        None
    }
}

/// Map a macOS virtual key code to a special key
pub fn mac_keycode_to_special(keycode: u16) -> (r: Option<SpecialKey>)
    ensures
        r == match keycode {
            0x24 => Some(SpecialKey::Enter),
            0x30 => Some(SpecialKey::Tab),
            0x33 => Some(SpecialKey::Backspace),
            0x75 => Some(SpecialKey::Delete),
            0x35 => Some(SpecialKey::Escape),
            0x73 => Some(SpecialKey::Home),
            0x77 => Some(SpecialKey::End),
            0x74 => Some(SpecialKey::PageUp),
            0x79 => Some(SpecialKey::PageDown),
            0x7E => Some(SpecialKey::ArrowUp),
            0x7D => Some(SpecialKey::ArrowDown),
            0x7B => Some(SpecialKey::ArrowLeft),
            0x7C => Some(SpecialKey::ArrowRight),
            _ => None,
        },
{
    match keycode {
        0x24 => Some(SpecialKey::Enter),
        0x30 => Some(SpecialKey::Tab),
        0x33 => Some(SpecialKey::Backspace),
        0x75 => Some(SpecialKey::Delete),
        0x35 => Some(SpecialKey::Escape),
        0x73 => Some(SpecialKey::Home),
        0x77 => Some(SpecialKey::End),
        0x74 => Some(SpecialKey::PageUp),
        0x79 => Some(SpecialKey::PageDown),
        0x7E => Some(SpecialKey::ArrowUp),
        0x7D => Some(SpecialKey::ArrowDown),
        0x7B => Some(SpecialKey::ArrowLeft),
        0x7C => Some(SpecialKey::ArrowRight),
        _ => None,
    }
}

/// Map a Windows virtual key to a special key
pub fn vk_to_special(vk: u32) -> (r: Option<SpecialKey>)
    ensures
        r == match vk {
            0x0D => Some(SpecialKey::Enter),
            0x09 => Some(SpecialKey::Tab),
            0x08 => Some(SpecialKey::Backspace),
            0x2E => Some(SpecialKey::Delete),
            0x1B => Some(SpecialKey::Escape),
            0x24 => Some(SpecialKey::Home),
            0x23 => Some(SpecialKey::End),
            0x21 => Some(SpecialKey::PageUp),
            0x22 => Some(SpecialKey::PageDown),
            0x26 => Some(SpecialKey::ArrowUp),
            0x28 => Some(SpecialKey::ArrowDown),
            0x25 => Some(SpecialKey::ArrowLeft),
            0x27 => Some(SpecialKey::ArrowRight),
            _ => None,
        },
{
    match vk {
        0x0D => Some(SpecialKey::Enter),
        0x09 => Some(SpecialKey::Tab),
        0x08 => Some(SpecialKey::Backspace),
        0x2E => Some(SpecialKey::Delete),
        0x1B => Some(SpecialKey::Escape),
        0x24 => Some(SpecialKey::Home),
        0x23 => Some(SpecialKey::End),
        0x21 => Some(SpecialKey::PageUp),
        0x22 => Some(SpecialKey::PageDown),
        0x26 => Some(SpecialKey::ArrowUp),
        0x28 => Some(SpecialKey::ArrowDown),
        0x25 => Some(SpecialKey::ArrowLeft),
        0x27 => Some(SpecialKey::ArrowRight),
        _ => None,
    }
}

/// Check if a Windows virtual key is a modifier key (Shift, Ctrl, Alt,
/// either side)
pub fn is_modifier_key(vk: u32) -> (r: bool)
    ensures
        r == (vk == 0x10 || vk == 0x11 || vk == 0x12 || (0xA0 <= vk && vk <= 0xA5)),
{
    vk == 0x10 || vk == 0x11 || vk == 0x12 || vk == 0xA0 || vk == 0xA1 || vk == 0xA2 || vk == 0xA3
        || vk == 0xA4 || vk == 0xA5
}

/// The modifier state of macOS event flags (taken as an integer): Shift
/// is bit 0, Control bit 1, Option bit 2 and Caps Lock bit 6.
pub fn mac_flags_to_modifiers(flags: u64) -> (m: Modifiers)
    ensures
        m.shift == (flags & 0x01 != 0),
        m.ctrl == (flags & 0x02 != 0),
        m.alt == (flags & 0x04 != 0),
        m.caps_lock == (flags & 0x40 != 0),
{
    Modifiers {
        shift: (flags & 0x01) != 0,
        ctrl: (flags & 0x02) != 0,
        alt: (flags & 0x04) != 0,
        caps_lock: (flags & 0x40) != 0,
    }
}

} // verus!
