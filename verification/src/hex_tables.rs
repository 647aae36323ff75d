//! Byte classification and glyph data: for every byte value a category
//! tag, a two-hex-digit rendering, and a text glyph per visual mode.

use vstd::prelude::*;
use vstd::string::StringExecFns;

verus! {

/// Classification tag for a byte value, used by presentation code to pick
/// styling. Independent of which glyph table is active.
#[derive(Copy, Clone, Debug, PartialEq, Eq, Structural)]
pub enum ByteCategory {
    AsciiPrintable,
    AsciiWhitespace,
    AsciiControl,
    NonAscii,
}

/// The category assigned to each byte value.
pub open spec fn category_of(b: u8) -> ByteCategory {
    if b == 0x20 || b == 0x09 || b == 0x0a || b == 0x0d {
        ByteCategory::AsciiWhitespace
    } else if b < 0x20 || b == 0x7f {
        ByteCategory::AsciiControl
    } else if b < 0x80 {
        ByteCategory::AsciiPrintable
    } else {
        ByteCategory::NonAscii
    }
}

pub fn byte_category(b: u8) -> (c: ByteCategory)
    ensures
        c == category_of(b),
{
    if b == 0x20 || b == 0x09 || b == 0x0a || b == 0x0d {
        ByteCategory::AsciiWhitespace
    } else if b < 0x20 || b == 0x7f {
        ByteCategory::AsciiControl
    } else if b < 0x80 {
        ByteCategory::AsciiPrintable
    } else {
        ByteCategory::NonAscii
    }
}

/// The upper-case character for one hex digit value.
pub open spec fn hex_digit_char(n: int) -> char {
    if n == 0 {
        '0'
    } else if n == 1 {
        '1'
    } else if n == 2 {
        '2'
    } else if n == 3 {
        '3'
    } else if n == 4 {
        '4'
    } else if n == 5 {
        '5'
    } else if n == 6 {
        '6'
    } else if n == 7 {
        '7'
    } else if n == 8 {
        '8'
    } else if n == 9 {
        '9'
    } else if n == 10 {
        'A'
    } else if n == 11 {
        'B'
    } else if n == 12 {
        'C'
    } else if n == 13 {
        'D'
    } else if n == 14 {
        'E'
    } else {
        'F'
    }
}

pub fn hex_digit_str(n: u8) -> (s: &'static str)
    requires
        n < 16,
    ensures
        s@ =~= seq![hex_digit_char(n as int)],
{
    match n {
        0 => {
            proof {
                reveal_strlit("0");
            }
            "0"
        },
        1 => {
            proof {
                reveal_strlit("1");
            }
            "1"
        },
        2 => {
            proof {
                reveal_strlit("2");
            }
            "2"
        },
        3 => {
            proof {
                reveal_strlit("3");
            }
            "3"
        },
        4 => {
            proof {
                reveal_strlit("4");
            }
            "4"
        },
        5 => {
            proof {
                reveal_strlit("5");
            }
            "5"
        },
        6 => {
            proof {
                reveal_strlit("6");
            }
            "6"
        },
        7 => {
            proof {
                reveal_strlit("7");
            }
            "7"
        },
        8 => {
            proof {
                reveal_strlit("8");
            }
            "8"
        },
        9 => {
            proof {
                reveal_strlit("9");
            }
            "9"
        },
        10 => {
            proof {
                reveal_strlit("A");
            }
            "A"
        },
        11 => {
            proof {
                reveal_strlit("B");
            }
            "B"
        },
        12 => {
            proof {
                reveal_strlit("C");
            }
            "C"
        },
        13 => {
            proof {
                reveal_strlit("D");
            }
            "D"
        },
        14 => {
            proof {
                reveal_strlit("E");
            }
            "E"
        },
        _ => {
            proof {
                reveal_strlit("F");
            }
            "F"
        },
    }
}

/// The two-hex-digit rendering of a byte value.
pub open spec fn hex_byte_chars(b: u8) -> Seq<char> {
    seq![hex_digit_char(b as int / 16), hex_digit_char(b as int % 16)]
}

pub fn hex_byte_string(b: u8) -> (s: String)
    ensures
        s@ == hex_byte_chars(b),
{
    let mut s = String::from_str(hex_digit_str(b / 16));
    s.append(hex_digit_str(b % 16));
    proof {
        assert(s@ =~= hex_byte_chars(b));
    }
    s
}

/// The text glyph the Ascii table shows for a byte: the character itself
/// for printable ASCII, a dot for everything else.
pub open spec fn ascii_glyph_char(b: u8) -> char {
    if 0x20 <= b && b <= 0x7e {
        b as char
    } else {
        '.'
    }
}

pub fn ascii_glyph(b: u8) -> (c: char)
    ensures
        c == ascii_glyph_char(b),
{
    if 0x20 <= b && b <= 0x7e {
        b as char
    } else {
        '.'
    }
}

/// The text glyph the Unicode table shows for a byte: printable ASCII and
/// printable Latin-1 as themselves, a question mark for control bytes.
pub open spec fn unicode_glyph_char(b: u8) -> char {
    if 0x20 <= b && b <= 0x7e {
        b as char
    } else if 0xa0 <= b {
        b as char
    } else {
        '?'
    }
}

pub fn unicode_glyph(b: u8) -> (c: char)
    ensures
        c == unicode_glyph_char(b),
{
    if 0x20 <= b && b <= 0x7e {
        b as char
    } else if 0xa0 <= b {
        b as char
    } else {
        '?'
    }
}

} // verus!
