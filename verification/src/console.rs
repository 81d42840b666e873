//! 控制台彩色输出: the console text attribute (Windows) and the ANSI escape
//! sequence (elsewhere) of each colour the tool prints in.
use vstd::prelude::*;
use crate::text::{owned, push_str};

verus! {

/// `FOREGROUND_RED`.
pub const FOREGROUND_RED: u16 = 4u16;

/// `FOREGROUND_GREEN`.
pub const FOREGROUND_GREEN: u16 = 2u16;

/// `FOREGROUND_BLUE`.
pub const FOREGROUND_BLUE: u16 = 1u16;

/// `FOREGROUND_INTENSITY`.
pub const FOREGROUND_INTENSITY: u16 = 8u16;

/// The console text attribute with exactly the requested foreground bits set.
pub open spec fn attribute_of(red: bool, green: bool, blue: bool, intensity: bool) -> u16 {
    ((if red {
        4int
    } else {
        0
    }) + (if green {
        2int
    } else {
        0
    }) + (if blue {
        1int
    } else {
        0
    }) + (if intensity {
        8int
    } else {
        0
    })) as u16
}

/// The attribute that `SetConsoleTextAttribute` is given for a colour: the red, green
/// and blue foreground bits as requested, and the intensity bit when asked for.
pub fn color_attribute(red: bool, green: bool, blue: bool, intensity: bool) -> (a: u16)
    ensures
        a == attribute_of(red, green, blue, intensity),
{
    let mut attr: u16 = FOREGROUND_RED | FOREGROUND_GREEN | FOREGROUND_BLUE;
    assert(4u16 | 2u16 | 1u16 == 7u16) by (bit_vector);
    if red {
        attr = attr | FOREGROUND_RED;
    } else {
        attr = attr & !FOREGROUND_RED;
    }
    if green {
        attr = attr | FOREGROUND_GREEN;
    } else {
        attr = attr & !FOREGROUND_GREEN;
    }
    if blue {
        attr = attr | FOREGROUND_BLUE;
    } else {
        attr = attr & !FOREGROUND_BLUE;
    }
    if intensity {
        attr = attr | FOREGROUND_INTENSITY;
    }
    assert(7u16 | 4u16 == 7u16 && 7u16 & !4u16 == 3u16) by (bit_vector);
    assert(7u16 | 2u16 == 7u16 && 7u16 & !2u16 == 5u16 && 3u16 | 2u16 == 3u16 && 3u16 & !2u16
        == 1u16) by (bit_vector);
    assert(7u16 | 1u16 == 7u16 && 7u16 & !1u16 == 6u16 && 5u16 | 1u16 == 5u16 && 5u16 & !1u16
        == 4u16 && 3u16 | 1u16 == 3u16 && 3u16 & !1u16 == 2u16 && 1u16 | 1u16 == 1u16 && 1u16
        & !1u16 == 0u16) by (bit_vector);
    assert(6u16 | 1u16 == 7u16 && 6u16 & !1u16 == 6u16 && 4u16 | 1u16 == 5u16 && 4u16 & !1u16
        == 4u16 && 2u16 | 1u16 == 3u16 && 2u16 & !1u16 == 2u16 && 0u16 | 1u16 == 1u16 && 0u16
        & !1u16 == 0u16) by (bit_vector);
    assert(forall|x: u16| x < 8 ==> #[trigger] (x | 8u16) == x + 8) by (bit_vector);
    attr
}

/// A colour the tool prints in: the console attribute used on Windows and the ANSI
/// escape sequence used elsewhere.
pub struct ConsoleColor {
    pub attribute: u16,
    pub ansi: String,
}

/// The default colour: white, not intense; `ESC[0m`.
pub fn reset() -> (c: ConsoleColor)
    ensures
        c.attribute == attribute_of(true, true, true, false),
        c.ansi@ == "\x1b[0m"@,
{
    ConsoleColor { attribute: color_attribute(true, true, true, false), ansi: owned("\x1b[0m") }
}

/// Bright green; `ESC[1;32m`.
pub fn green() -> (c: ConsoleColor)
    ensures
        c.attribute == attribute_of(false, true, false, true),
        c.ansi@ == "\x1b[1;32m"@,
{
    ConsoleColor {
        attribute: color_attribute(false, true, false, true),
        ansi: owned("\x1b[1;32m"),
    }
}

/// Bright red; `ESC[1;31m`.
pub fn red() -> (c: ConsoleColor)
    ensures
        c.attribute == attribute_of(true, false, false, true),
        c.ansi@ == "\x1b[1;31m"@,
{
    ConsoleColor { attribute: color_attribute(true, false, false, true), ansi: owned("\x1b[1;31m") }
}

/// Bright yellow; `ESC[1;33m`.
pub fn yellow() -> (c: ConsoleColor)
    ensures
        c.attribute == attribute_of(true, true, false, true),
        c.ansi@ == "\x1b[1;33m"@,
{
    ConsoleColor {
        attribute: color_attribute(true, true, false, true),
        ansi: owned("\x1b[1;33m"),
    }
}

/// What `print_green`, `print_red` and `print_yellow` write on an ANSI terminal: the
/// colour's escape sequence, the text, then the reset sequence.
pub fn colored(color: &ConsoleColor, text: &str) -> (s: String)
    ensures
        s@ == color.ansi@ + text@ + "\x1b[0m"@,
{
    let mut s = crate::text::copy_string(&color.ansi);
    push_str(&mut s, text);
    push_str(&mut s, "\x1b[0m");
    s
}

} // verus!
