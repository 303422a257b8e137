//! Colour for terminals that take it, by the `colored` crate.
//!
//! What a coloured text looks like when it is printed depends on the terminal and on the
//! environment, so nothing here says what comes back from `colored`. What is handed to it, and
//! how the parts of a line are put together afterwards, is verified.

use vstd::prelude::*;
use crate::render::{joined, join_line, Emphasis, Line};
use colored::{ColoredString, Colorize};

verus! {

/// `colored::ColoredString`: a text together with the colour and the style to print it in.
#[verifier::external_type_specification]
#[verifier::external_body]
pub struct ExColoredString(ColoredString);

/// `colored::Colorize::bright_blue` on a text. Nothing is claimed of the result.
#[verifier::external_body]
fn bright_blue(text: &str) -> (painted: ColoredString) {
    text.bright_blue()
}

/// `colored::Colorize::cyan` on a text. Nothing is claimed of the result.
#[verifier::external_body]
fn cyan(text: &str) -> (painted: ColoredString) {
    text.cyan()
}

/// `colored::Colorize::green` on a text. Nothing is claimed of the result.
#[verifier::external_body]
fn green(text: &str) -> (painted: ColoredString) {
    text.green()
}

/// `colored::Colorize::red` on a text. Nothing is claimed of the result.
#[verifier::external_body]
fn red(text: &str) -> (painted: ColoredString) {
    text.red()
}

/// `colored::Colorize::bright_red` on a text. Nothing is claimed of the result.
#[verifier::external_body]
fn bright_red(text: &str) -> (painted: ColoredString) {
    text.bright_red()
}

/// `colored::Colorize::white` on a text. Nothing is claimed of the result.
#[verifier::external_body]
fn white(text: &str) -> (painted: ColoredString) {
    text.white()
}

/// `colored::Colorize::bold` on a coloured text. Nothing is claimed of the result.
#[verifier::external_body]
fn bold(painted: ColoredString) -> (bolder: ColoredString) {
    painted.bold()
}

impl Line {
    /// The line for a terminal, without a line feed: the name of a directory in bright blue
    /// and that of a file in cyan, the size in green, the share in bold red where it is
    /// strong, in bright red where it is medium and in white where it is faint. The indent
    /// is not coloured. Whatever `colored` makes of the parts, they stand in the line as
    /// they do in the plain text.
    pub fn colored(&self) -> (text: String)
        ensures
            exists|name: Seq<char>, size: Seq<char>, share: Seq<char>|
                text@ == joined(self@.indent, name, size, share),
    {
        let name = if self.is_dir {
            bright_blue(self.name.as_str())
        } else {
            cyan(self.name.as_str())
        };
        let size = green(self.size.as_str());
        let share = match self.emphasis {
            Some(Emphasis::Strong) => bold(red(self.share.as_str())).to_string(),
            Some(Emphasis::Medium) => bright_red(self.share.as_str()).to_string(),
            Some(Emphasis::Faint) => white(self.share.as_str()).to_string(),
            None => self.share.clone(),
        };
        let name = name.to_string();
        let size = size.to_string();
        let text = join_line(self.indent.as_str(), name.as_str(), size.as_str(), share.as_str());
        assert(text@ == joined(self@.indent, name@, size@, share@));
        text
    }
}

} // verus!
