//! The ASCII bytes that the scanners look for, by name.

use vstd::prelude::*;

verus! {

pub const TAB: u8 = 0x09;

pub const LF: u8 = 0x0a;

pub const FF: u8 = 0x0c;

pub const CR: u8 = 0x0d;

pub const SPACE: u8 = 0x20;

pub const QUOTE: u8 = 0x22;

pub const PLUS: u8 = 0x2b;

pub const COMMA: u8 = 0x2c;

pub const MINUS: u8 = 0x2d;

pub const DOT: u8 = 0x2e;

pub const ZERO: u8 = 0x30;

pub const NINE: u8 = 0x39;

pub const COLON: u8 = 0x3a;

pub const UPPER_E: u8 = 0x45;

pub const OPEN_BRACKET: u8 = 0x5b;

pub const BACKSLASH: u8 = 0x5c;

pub const CLOSE_BRACKET: u8 = 0x5d;

pub const LOWER_E: u8 = 0x65;

pub const LOWER_F: u8 = 0x66;

pub const LOWER_N: u8 = 0x6e;

pub const LOWER_T: u8 = 0x74;

pub const OPEN_BRACE: u8 = 0x7b;

pub const CLOSE_BRACE: u8 = 0x7d;

} // verus!
