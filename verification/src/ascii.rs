//! The ASCII byte values that the grammar distinguishes.

use vstd::prelude::*;

verus! {

/// The byte that the scanner holds once the input is used up.
pub const NUL: u8 = 0;

pub const TAB: u8 = 9;

pub const LINE_FEED: u8 = 10;

pub const CARRIAGE_RETURN: u8 = 13;

pub const SPACE: u8 = 32;

/// `!`
pub const BANG: u8 = 33;

/// `(`
pub const LPAREN: u8 = 40;

/// `)`
pub const RPAREN: u8 = 41;

/// `*`
pub const ASTERISK: u8 = 42;

/// `+`
pub const PLUS: u8 = 43;

/// `,`
pub const COMMA: u8 = 44;

/// `-`
pub const MINUS: u8 = 45;

/// `/`
pub const SLASH: u8 = 47;

/// `0`
pub const DIGIT_ZERO: u8 = 48;

/// `9`
pub const DIGIT_NINE: u8 = 57;

/// `;`
pub const SEMICOLON: u8 = 59;

/// `<`
pub const LESS: u8 = 60;

/// `=`
pub const EQUALS: u8 = 61;

/// `>`
pub const GREATER: u8 = 62;

/// `A`
pub const UPPER_A: u8 = 65;

/// `Z`
pub const UPPER_Z: u8 = 90;

/// `_`
pub const UNDERSCORE: u8 = 95;

/// `a`
pub const LOWER_A: u8 = 97;

/// `z`
pub const LOWER_Z: u8 = 122;

/// `{`
pub const LBRACE: u8 = 123;

/// `}`
pub const RBRACE: u8 = 125;

} // verus!
