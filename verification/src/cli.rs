//! What the command line hands to the viewer.

use vstd::prelude::*;
use vstd::string::StringExecFns;

verus! {

/// The options of one run.
pub struct Cli {
    /// Input bam file with index
    pub bam: String,
    /// input region, format: chr:start-end
    pub region: String,
    /// Display color for coverage
    pub color: Color,
    /// Step size for moving the view
    pub step_size: u8,
    /// Included flags
    pub include_flags: u16,
    /// Excluded flags
    pub exclude_flags: u16,
    /// Minimum mapping quality
    pub min_mapq: u8,
}

/// The colors that the coverage can be drawn in.
#[derive(Debug, Clone, Copy, PartialEq, Eq, Structural)]
#[allow(non_camel_case_types)]
pub enum Color {
    black,
    red,
    green,
    yellow,
    blue,
    magenta,
    cyan,
    gray,
    darkgray,
    lightred,
    lightgreen,
    lightyellow,
    lightblue,
    lightmagenta,
    lightcyan,
    white,
}

impl Color {
    /// The name of the color: its variant, letter for letter.
    pub open spec fn name(self) -> Seq<char> {
        match self {
            Color::black => "black"@,
            Color::red => "red"@,
            Color::green => "green"@,
            Color::yellow => "yellow"@,
            Color::blue => "blue"@,
            Color::magenta => "magenta"@,
            Color::cyan => "cyan"@,
            Color::gray => "gray"@,
            Color::darkgray => "darkgray"@,
            Color::lightred => "lightred"@,
            Color::lightgreen => "lightgreen"@,
            Color::lightyellow => "lightyellow"@,
            Color::lightblue => "lightblue"@,
            Color::lightmagenta => "lightmagenta"@,
            Color::lightcyan => "lightcyan"@,
            Color::white => "white"@,
        }
    }

    /// The name of the color as text.
    pub fn to_string(&self) -> (text: String)
        ensures
            text@ == self.name(),
    {
        match self {
            Color::black => String::from_str("black"),
            Color::red => String::from_str("red"),
            Color::green => String::from_str("green"),
            Color::yellow => String::from_str("yellow"),
            Color::blue => String::from_str("blue"),
            Color::magenta => String::from_str("magenta"),
            Color::cyan => String::from_str("cyan"),
            Color::gray => String::from_str("gray"),
            Color::darkgray => String::from_str("darkgray"),
            Color::lightred => String::from_str("lightred"),
            Color::lightgreen => String::from_str("lightgreen"),
            Color::lightyellow => String::from_str("lightyellow"),
            Color::lightblue => String::from_str("lightblue"),
            Color::lightmagenta => String::from_str("lightmagenta"),
            Color::lightcyan => String::from_str("lightcyan"),
            Color::white => String::from_str("white"),
        }
    }
}

} // verus!
