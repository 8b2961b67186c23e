//! The sixteen team colors and their fixed renderings: the dye color as
//! a packed RGB value and the legacy chat formatting code.

use vstd::prelude::*;
use vstd::string::StringSliceAdditionalSpecFns;
use crate::num::bytes_eq;

verus! {

#[derive(Clone, Copy, PartialEq, Eq, Structural, Debug, Hash)]
pub enum TeamColor {
    White,
    Orange,
    Magenta,
    LightBlue,
    Yellow,
    Lime,
    Pink,
    Gray,
    LightGray,
    Cyan,
    Purple,
    Blue,
    Brown,
    Green,
    Red,
    Black,
}

impl TeamColor {
    /// The dye color of the team as a packed `0xRRGGBB` value.
    pub open spec fn hex_spec(self) -> u32 {
        match self {
            TeamColor::White => 0xF9FFFEu32,
            TeamColor::Orange => 0xF9801Du32,
            TeamColor::Magenta => 0xC74EBDu32,
            TeamColor::LightBlue => 0x3AB3DAu32,
            TeamColor::Yellow => 0xFED83Du32,
            TeamColor::Lime => 0x80C71Fu32,
            TeamColor::Pink => 0xF38BAAu32,
            TeamColor::Gray => 0x474F52u32,
            TeamColor::LightGray => 0x9D9D97u32,
            TeamColor::Cyan => 0x169C9Cu32,
            TeamColor::Purple => 0x8932B8u32,
            TeamColor::Blue => 0x3C44AAu32,
            TeamColor::Brown => 0x835432u32,
            TeamColor::Green => 0x5E7C16u32,
            TeamColor::Red => 0xB02E26u32,
            TeamColor::Black => 0x1D1D21u32,
        }
    }

    pub fn hex(&self) -> (r: u32)
        ensures
            r == self.hex_spec(),
    {
        match self {
            TeamColor::White => 0xF9FFFE,
            TeamColor::Orange => 0xF9801D,
            TeamColor::Magenta => 0xC74EBD,
            TeamColor::LightBlue => 0x3AB3DA,
            TeamColor::Yellow => 0xFED83D,
            TeamColor::Lime => 0x80C71F,
            TeamColor::Pink => 0xF38BAA,
            TeamColor::Gray => 0x474F52,
            TeamColor::LightGray => 0x9D9D97,
            TeamColor::Cyan => 0x169C9C,
            TeamColor::Purple => 0x8932B8,
            TeamColor::Blue => 0x3C44AA,
            TeamColor::Brown => 0x835432,
            TeamColor::Green => 0x5E7C16,
            TeamColor::Red => 0xB02E26,
            TeamColor::Black => 0x1D1D21,
        }
    }

    /// The legacy chat formatting code of the team color.
    pub open spec fn text_color_spec(self) -> Seq<char> {
        match self {
            TeamColor::White => "\u{a7}f"@,
            TeamColor::Orange => "\u{a7}6"@,
            TeamColor::Magenta => "\u{a7}d"@,
            TeamColor::LightBlue => "\u{a7}b"@,
            TeamColor::Yellow => "\u{a7}e"@,
            TeamColor::Lime => "\u{a7}a"@,
            TeamColor::Pink => "\u{a7}d"@,
            TeamColor::Gray => "\u{a7}8"@,
            TeamColor::LightGray => "\u{a7}7"@,
            TeamColor::Cyan => "\u{a7}3"@,
            TeamColor::Purple => "\u{a7}5"@,
            TeamColor::Blue => "\u{a7}9"@,
            TeamColor::Brown => "\u{a7}6"@,
            TeamColor::Green => "\u{a7}2"@,
            TeamColor::Red => "\u{a7}c"@,
            TeamColor::Black => "\u{a7}0"@,
        }
    }

    pub fn text_color(&self) -> (r: &'static str)
        ensures
            r@ == self.text_color_spec(),
    {
        match self {
            TeamColor::White => "\u{a7}f",
            TeamColor::Orange => "\u{a7}6",
            TeamColor::Magenta => "\u{a7}d",
            TeamColor::LightBlue => "\u{a7}b",
            TeamColor::Yellow => "\u{a7}e",
            TeamColor::Lime => "\u{a7}a",
            TeamColor::Pink => "\u{a7}d",
            TeamColor::Gray => "\u{a7}8",
            TeamColor::LightGray => "\u{a7}7",
            TeamColor::Cyan => "\u{a7}3",
            TeamColor::Purple => "\u{a7}5",
            TeamColor::Blue => "\u{a7}9",
            TeamColor::Brown => "\u{a7}6",
            TeamColor::Green => "\u{a7}2",
            TeamColor::Red => "\u{a7}c",
            TeamColor::Black => "\u{a7}0",
        }
    }

    /// The lower-case name of the color, as used in configuration files
    /// and chat.
    pub open spec fn name_spec(self) -> Seq<char> {
        match self {
            TeamColor::White => "white"@,
            TeamColor::Orange => "orange"@,
            TeamColor::Magenta => "magenta"@,
            TeamColor::LightBlue => "light_blue"@,
            TeamColor::Yellow => "yellow"@,
            TeamColor::Lime => "lime"@,
            TeamColor::Pink => "pink"@,
            TeamColor::Gray => "gray"@,
            TeamColor::LightGray => "light_gray"@,
            TeamColor::Cyan => "cyan"@,
            TeamColor::Purple => "purple"@,
            TeamColor::Blue => "blue"@,
            TeamColor::Brown => "brown"@,
            TeamColor::Green => "green"@,
            TeamColor::Red => "red"@,
            TeamColor::Black => "black"@,
        }
    }

    /// Which team color a lower-case name denotes, if any: the inverse
    /// of `name`.
    pub open spec fn from_name_spec(bytes: Seq<u8>) -> Option<TeamColor> {
        if bytes == "white".spec_bytes() {
            Some(TeamColor::White)
        } else if bytes == "orange".spec_bytes() {
            Some(TeamColor::Orange)
        } else if bytes == "magenta".spec_bytes() {
            Some(TeamColor::Magenta)
        } else if bytes == "light_blue".spec_bytes() {
            Some(TeamColor::LightBlue)
        } else if bytes == "yellow".spec_bytes() {
            Some(TeamColor::Yellow)
        } else if bytes == "lime".spec_bytes() {
            Some(TeamColor::Lime)
        } else if bytes == "pink".spec_bytes() {
            Some(TeamColor::Pink)
        } else if bytes == "gray".spec_bytes() {
            Some(TeamColor::Gray)
        } else if bytes == "light_gray".spec_bytes() {
            Some(TeamColor::LightGray)
        } else if bytes == "cyan".spec_bytes() {
            Some(TeamColor::Cyan)
        } else if bytes == "purple".spec_bytes() {
            Some(TeamColor::Purple)
        } else if bytes == "blue".spec_bytes() {
            Some(TeamColor::Blue)
        } else if bytes == "brown".spec_bytes() {
            Some(TeamColor::Brown)
        } else if bytes == "green".spec_bytes() {
            Some(TeamColor::Green)
        } else if bytes == "red".spec_bytes() {
            Some(TeamColor::Red)
        } else if bytes == "black".spec_bytes() {
            Some(TeamColor::Black)
        } else {
            None
        }
    }

    /// Parse a team color from its lower-case name.
    pub fn from_name(s: &str) -> (r: Option<TeamColor>)
        ensures
            r == TeamColor::from_name_spec(s.spec_bytes()),
    {
        let b = s.as_bytes();
        if bytes_eq(b, "white".as_bytes()) {
            Some(TeamColor::White)
        } else if bytes_eq(b, "orange".as_bytes()) {
            Some(TeamColor::Orange)
        } else if bytes_eq(b, "magenta".as_bytes()) {
            Some(TeamColor::Magenta)
        } else if bytes_eq(b, "light_blue".as_bytes()) {
            Some(TeamColor::LightBlue)
        } else if bytes_eq(b, "yellow".as_bytes()) {
            Some(TeamColor::Yellow)
        } else if bytes_eq(b, "lime".as_bytes()) {
            Some(TeamColor::Lime)
        } else if bytes_eq(b, "pink".as_bytes()) {
            Some(TeamColor::Pink)
        } else if bytes_eq(b, "gray".as_bytes()) {
            Some(TeamColor::Gray)
        } else if bytes_eq(b, "light_gray".as_bytes()) {
            Some(TeamColor::LightGray)
        } else if bytes_eq(b, "cyan".as_bytes()) {
            Some(TeamColor::Cyan)
        } else if bytes_eq(b, "purple".as_bytes()) {
            Some(TeamColor::Purple)
        } else if bytes_eq(b, "blue".as_bytes()) {
            Some(TeamColor::Blue)
        } else if bytes_eq(b, "brown".as_bytes()) {
            Some(TeamColor::Brown)
        } else if bytes_eq(b, "green".as_bytes()) {
            Some(TeamColor::Green)
        } else if bytes_eq(b, "red".as_bytes()) {
            Some(TeamColor::Red)
        } else if bytes_eq(b, "black".as_bytes()) {
            Some(TeamColor::Black)
        } else {
            None
        }
    }

    pub fn name(&self) -> (r: &'static str)
        ensures
            r@ == self.name_spec(),
    {
        match self {
            TeamColor::White => "white",
            TeamColor::Orange => "orange",
            TeamColor::Magenta => "magenta",
            TeamColor::LightBlue => "light_blue",
            TeamColor::Yellow => "yellow",
            TeamColor::Lime => "lime",
            TeamColor::Pink => "pink",
            TeamColor::Gray => "gray",
            TeamColor::LightGray => "light_gray",
            TeamColor::Cyan => "cyan",
            TeamColor::Purple => "purple",
            TeamColor::Blue => "blue",
            TeamColor::Brown => "brown",
            TeamColor::Green => "green",
            TeamColor::Red => "red",
            TeamColor::Black => "black",
        }
    }
}

} // verus!
