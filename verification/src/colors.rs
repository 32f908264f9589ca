//! ANSI terminal colors for the command-line front end: a value is
//! wrapped in an escape sequence selecting the color and one resetting
//! it.

use vstd::prelude::*;
use vstd::string::{StrSliceExecFns, StringExecFns};

verus! {

/// The colors the front end uses.
#[derive(Clone, Copy, Debug, PartialEq, Eq, Structural)]
pub enum Color {
    Green,
    Yellow,
    Blue,
    Cyan,
    BoldGreen,
}

/// The ANSI code selecting each color.
pub open spec fn color_code(c: Color) -> Seq<char> {
    match c {
        Color::Green => "32"@,
        Color::Yellow => "33"@,
        Color::Blue => "34"@,
        Color::Cyan => "36"@,
        Color::BoldGreen => "1;32"@,
    }
}

/// What the colored form of a string is: the color-select sequence,
/// the string, and the reset sequence.
pub open spec fn colored(s: Seq<char>, c: Color) -> Seq<char> {
    "\x1b["@ + color_code(c) + "m"@ + s + "\x1b[m"@
}

fn code_str(c: Color) -> (r: &'static str)
    ensures
        r@ == color_code(c),
{
    match c {
        Color::Green => "32",
        Color::Yellow => "33",
        Color::Blue => "34",
        Color::Cyan => "36",
        Color::BoldGreen => "1;32",
    }
}

/// Wraps `string` in the ANSI escape sequences that print it in
/// `color` and then reset the terminal.
pub fn color(string: &str, c: Color) -> (r: String)
    ensures
        r@ == colored(string@, c),
{
    let mut s = String::from_str("\x1b[");
    s.append(code_str(c));
    s.append("m");
    s.append(string);
    s.append("\x1b[m");
    proof {
        assert(s@ =~= colored(string@, c));
    }
    s
}

} // verus!
