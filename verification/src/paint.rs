//! Coloring of text for a terminal.
//!
//! Each function hands a text to the `colored` crate with one style and
//! takes back what that crate prints for it. Whether escape sequences are
//! added depends on the variables and the terminal of the process, so
//! nothing is stated of the result.

use colored::Colorize;
use vstd::prelude::*;

verus! {

/// `Colorize::black` and `Colorize::bold`, printed.
#[verifier::external_body]
pub(crate) fn paint_black_bold(text: &str) -> String {
    format!("{}", text.black().bold())
}

/// `Colorize::cyan` and `Colorize::bold`, printed.
#[verifier::external_body]
pub(crate) fn paint_cyan_bold(text: &str) -> String {
    format!("{}", text.cyan().bold())
}

/// `Colorize::red`, printed.
#[verifier::external_body]
pub(crate) fn paint_red(text: &str) -> String {
    format!("{}", text.red())
}

/// `Colorize::green` and `Colorize::bold`, printed.
#[verifier::external_body]
pub(crate) fn paint_green_bold(text: &str) -> String {
    format!("{}", text.green().bold())
}

/// `Colorize::red` and `Colorize::bold`, printed.
#[verifier::external_body]
pub(crate) fn paint_red_bold(text: &str) -> String {
    format!("{}", text.red().bold())
}

/// `Colorize::truecolor` with the grey (128, 128, 128) and
/// `Colorize::bold`, printed.
#[verifier::external_body]
pub(crate) fn paint_grey_bold(text: &str) -> String {
    format!("{}", text.truecolor(128, 128, 128).bold())
}

/// `Colorize::black`, printed.
#[verifier::external_body]
pub(crate) fn paint_black(text: &str) -> String {
    format!("{}", text.black())
}

} // verus!
