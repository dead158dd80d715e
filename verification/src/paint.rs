//! Making text stand out on a terminal.
//!
//! Emphasis is turned into the escape sequences that terminals understand:
//! a sequence that sets the emphasis, the text, and the sequence that
//! resets it.

use ansi_term::{Colour, Style};
use vstd::prelude::*;

verus! {

/// A colour for text.
#[derive(Clone, Copy, Debug, PartialEq, Eq, Structural)]
pub enum Tint {
    Red,
    Green,
    Blue,
    /// A colour by its red, green and blue parts.
    Rgb(u8, u8, u8),
}

/// How text is to stand out.
#[derive(Clone, Copy, Debug, PartialEq, Eq, Structural)]
pub struct Emphasis {
    pub tint: Option<Tint>,
    pub bold: bool,
    pub dimmed: bool,
}

/// A number in decimal, without leading zeros.
pub open spec fn decimal(n: nat) -> Seq<char>
    decreases n,
{
    if n < 10 {
        seq![(48 + n) as char]
    } else {
        decimal(n / 10).push((48 + n % 10) as char)
    }
}

/// The code that selects a colour for text.
pub open spec fn tint_code(tint: Tint) -> Seq<char> {
    match tint {
        Tint::Red => "31"@,
        Tint::Green => "32"@,
        Tint::Blue => "34"@,
        Tint::Rgb(r, g, b) => "38;2;"@ + decimal(r as nat) + ";"@ + decimal(g as nat) + ";"@
            + decimal(b as nat),
    }
}

/// The codes of an emphasis, with semicolons between them: `1` for bold,
/// `2` for dimmed, then the colour.
pub open spec fn codes(emphasis: Emphasis) -> Seq<char> {
    let weight = if emphasis.bold && emphasis.dimmed {
        "1;2"@
    } else if emphasis.bold {
        "1"@
    } else if emphasis.dimmed {
        "2"@
    } else {
        Seq::empty()
    };
    match emphasis.tint {
        None => weight,
        Some(tint) => if weight.len() == 0 {
            tint_code(tint)
        } else {
            weight + ";"@ + tint_code(tint)
        },
    }
}

/// Text with an emphasis: the text itself if there is nothing to stress,
/// else the text between the sequence that sets the codes and the one that
/// resets them.
pub open spec fn painted(emphasis: Emphasis, text: Seq<char>) -> Seq<char> {
    if !emphasis.bold && !emphasis.dimmed && emphasis.tint.is_none() {
        text
    } else {
        "\x1b["@ + codes(emphasis) + "m"@ + text + "\x1b[0m"@
    }
}

/// Trusted: stands for `ansi_term::Style::paint` and the `Display` of what
/// it returns, on a style with the given foreground colour and the given
/// bold and dimmed marks. A plain style writes the text alone. Any other
/// writes `ESC [`, the codes with semicolons between them (`1` for bold, `2`
/// for dimmed, then the code of the colour), `m`, the text, and the reset
/// sequence `ESC [ 0 m`.
#[verifier::external_body]
pub(crate) fn paint(emphasis: Emphasis, text: &str) -> (out: String)
    ensures
        out@ == painted(emphasis, text@),
{
    let foreground = match emphasis.tint {
        Some(Tint::Red) => Some(Colour::Red),
        Some(Tint::Green) => Some(Colour::Green),
        Some(Tint::Blue) => Some(Colour::Blue),
        Some(Tint::Rgb(r, g, b)) => Some(Colour::RGB(r, g, b)),
        None => None,
    };
    let style =
        Style { foreground, is_bold: emphasis.bold, is_dimmed: emphasis.dimmed, ..Style::default() };
    style.paint(text).to_string()
}

} // verus!
