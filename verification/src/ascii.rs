//! The bytes that the record format gives a meaning to.

use vstd::prelude::*;

verus! {

/// `\n`, which ends a record.
pub const NEWLINE: u8 = 10;

/// A blank, after the comma between two stations of the summary.
pub const SPACE: u8 = 32;

/// `,`, between two stations of the summary.
pub const COMMA: u8 = 44;

/// `-`, the sign of a reading below zero.
pub const MINUS: u8 = 45;

/// `.`, before the tenths of a reading.
pub const POINT: u8 = 46;

/// `/`, between the three figures of a station.
pub const SLASH: u8 = 47;

/// `0`, the first of the ten digits.
pub const ZERO: u8 = 48;

/// `9`, the last of the ten digits.
pub const NINE: u8 = 57;

/// `;`, between a name and its reading.
pub const SEMICOLON: u8 = 59;

/// `=`, between a station's name and its figures.
pub const EQUALS: u8 = 61;

/// `{`, which opens the summary.
pub const OPENING: u8 = 123;

/// `}`, which closes the summary.
pub const CLOSING: u8 = 125;

} // verus!
