//! Text wrapped in ANSI escape sequences that colour it on a terminal.

use vstd::prelude::*;
use vstd::string::*;
use crate::text::join_text;

verus! {

/// `t` between the escape sequence `start` and the sequence that resets
/// the terminal's colours.
pub open spec fn painted(start: Seq<char>, t: Seq<char>) -> Seq<char> {
    start + t + "\x1b[0m"@
}

/// Wraps `t` between `start` and the reset sequence.
fn paint(start: &str, t: &str) -> (r: String)
    ensures
        r@ == painted(start@, t@),
{
    let mut r = join_text(start, t);
    r.append("\x1b[0m");
    r
}

/// The text with black text.
pub fn black(t: &str) -> (r: String)
    ensures
        r@ == painted("\x1b[30m"@, t@),
{
    paint("\x1b[30m", t)
}

/// The text with red text.
pub fn red(t: &str) -> (r: String)
    ensures
        r@ == painted("\x1b[31m"@, t@),
{
    paint("\x1b[31m", t)
}

/// The text with green text.
pub fn green(t: &str) -> (r: String)
    ensures
        r@ == painted("\x1b[32m"@, t@),
{
    paint("\x1b[32m", t)
}

/// The text with yellow text.
pub fn yellow(t: &str) -> (r: String)
    ensures
        r@ == painted("\x1b[33m"@, t@),
{
    paint("\x1b[33m", t)
}

/// The text with blue text.
pub fn blue(t: &str) -> (r: String)
    ensures
        r@ == painted("\x1b[34m"@, t@),
{
    paint("\x1b[34m", t)
}

/// The text with magenta text.
pub fn magenta(t: &str) -> (r: String)
    ensures
        r@ == painted("\x1b[35m"@, t@),
{
    paint("\x1b[35m", t)
}

/// The text with cyan text.
pub fn cyan(t: &str) -> (r: String)
    ensures
        r@ == painted("\x1b[36m"@, t@),
{
    paint("\x1b[36m", t)
}

/// The text with white text.
pub fn white(t: &str) -> (r: String)
    ensures
        r@ == painted("\x1b[37m"@, t@),
{
    paint("\x1b[37m", t)
}

/// The text with a black background.
pub fn bg_black(t: &str) -> (r: String)
    ensures
        r@ == painted("\x1b[40m"@, t@),
{
    paint("\x1b[40m", t)
}

/// The text with a red background.
pub fn bg_red(t: &str) -> (r: String)
    ensures
        r@ == painted("\x1b[41m"@, t@),
{
    paint("\x1b[41m", t)
}

/// The text with a green background.
pub fn bg_green(t: &str) -> (r: String)
    ensures
        r@ == painted("\x1b[42m"@, t@),
{
    paint("\x1b[42m", t)
}

/// The text with a yellow background.
pub fn bg_yellow(t: &str) -> (r: String)
    ensures
        r@ == painted("\x1b[43m"@, t@),
{
    paint("\x1b[43m", t)
}

/// The text with a blue background.
pub fn bg_blue(t: &str) -> (r: String)
    ensures
        r@ == painted("\x1b[44m"@, t@),
{
    paint("\x1b[44m", t)
}

/// The text with a magenta background.
pub fn bg_magenta(t: &str) -> (r: String)
    ensures
        r@ == painted("\x1b[45m"@, t@),
{
    paint("\x1b[45m", t)
}

/// The text with a cyan background.
pub fn bg_cyan(t: &str) -> (r: String)
    ensures
        r@ == painted("\x1b[46m"@, t@),
{
    paint("\x1b[46m", t)
}

/// The text with a white background.
pub fn bg_white(t: &str) -> (r: String)
    ensures
        r@ == painted("\x1b[47m"@, t@),
{
    paint("\x1b[47m", t)
}

} // verus!
