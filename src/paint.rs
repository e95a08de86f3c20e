//! Terminal colors and the character classes of the standard library.
use colored::Colorize;
use vstd::prelude::*;

verus! {

/// The colors of the output; each is used together with bold.
#[derive(Clone, Copy, Debug, PartialEq, Eq, Structural)]
pub enum Color {
    Yellow,
    Cyan,
    Red,
    Blue,
}

/// The escape character that starts a terminal control sequence.
pub open spec fn esc() -> char {
    '\u{1b}'
}

/// The SGR parameter of a foreground color.
pub open spec fn color_code(c: Color) -> Seq<char> {
    match c {
        Color::Yellow => seq!['3', '3'],
        Color::Cyan => seq!['3', '6'],
        Color::Red => seq!['3', '1'],
        Color::Blue => seq!['3', '4'],
    }
}

/// The sequence that switches to bold text in color `c`.
pub open spec fn style_start(c: Color) -> Seq<char> {
    seq![esc(), '[', '1', ';'] + color_code(c) + seq!['m']
}

/// The sequence that resets all attributes.
pub open spec fn style_reset() -> Seq<char> {
    seq![esc(), '[', '0', 'm']
}

/// `text` holds the reset sequence somewhere.
pub open spec fn holds_reset(text: Seq<char>) -> bool {
    exists|i: int| 0 <= i && i + 4 <= text.len() && #[trigger] text.subrange(i, i + 4) == style_reset()
}

/// `out` is what painting `text` bold in color `c` may give: the text
/// itself when coloring is off, or the text between the style's start and
/// a reset when it is on. Text that itself holds the reset sequence, after
/// which the style is started again, is left unconstrained.
pub open spec fn painted(out: Seq<char>, text: Seq<char>, c: Color) -> bool {
    holds_reset(text) || out == text || out == style_start(c) + text + style_reset()
}

/// Relies on colored's `Colorize::color` and `Colorize::bold`, and on the
/// `Display` of `ColoredString`: with coloring off the text is written as
/// it is; with it on, it is written between the style's start sequence and
/// a reset, and each reset inside the text gets the style's start sequence
/// written again after it. Whether coloring is on is colored's global state.
#[verifier::external_body]
pub(crate) fn paint(text: &str, color: Color) -> (r: String)
    ensures
        painted(r@, text@, color),
{
    let color = match color {
        Color::Yellow => colored::Color::Yellow,
        Color::Cyan => colored::Color::Cyan,
        Color::Red => colored::Color::Red,
        Color::Blue => colored::Color::Blue,
    };
    text.color(color).bold().to_string()
}

/// An ASCII letter.
pub open spec fn ascii_letter(c: char) -> bool {
    ('a' <= c && c <= 'z') || ('A' <= c && c <= 'Z')
}

/// An ASCII decimal digit.
pub open spec fn ascii_digit(c: char) -> bool {
    '0' <= c && c <= '9'
}

/// Whether the non-ASCII `c` has the Unicode Alphabetic property.
pub uninterp spec fn unicode_alphabetic(c: char) -> bool;

/// Whether the non-ASCII `c` is alphabetic or numeric in the Unicode sense.
pub uninterp spec fn unicode_alphanumeric(c: char) -> bool;

/// Whether `c` is alphabetic: among ASCII characters, the letters.
pub open spec fn alphabetic(c: char) -> bool {
    if c <= '\u{7f}' {
        ascii_letter(c)
    } else {
        unicode_alphabetic(c)
    }
}

/// Whether `c` is alphanumeric: among ASCII characters, the letters and
/// the digits.
pub open spec fn alphanumeric(c: char) -> bool {
    if c <= '\u{7f}' {
        ascii_letter(c) || ascii_digit(c)
    } else {
        unicode_alphanumeric(c)
    }
}

/// Relies on `char::is_alphabetic`: the Alphabetic property of the Unicode
/// Character Database, which among ASCII characters holds of the letters.
#[verifier::external_body]
pub(crate) fn is_alphabetic(c: char) -> (r: bool)
    ensures
        c <= '\u{7f}' ==> r == ascii_letter(c),
        c > '\u{7f}' ==> r == unicode_alphabetic(c),
{
    c.is_alphabetic()
}

/// Relies on `char::is_alphanumeric`: alphabetic or numeric, which among
/// ASCII characters holds of the letters and the digits.
#[verifier::external_body]
pub(crate) fn is_alphanumeric(c: char) -> (r: bool)
    ensures
        c <= '\u{7f}' ==> r == (ascii_letter(c) || ascii_digit(c)),
        c > '\u{7f}' ==> r == unicode_alphanumeric(c),
{
    c.is_alphanumeric()
}

} // verus!
