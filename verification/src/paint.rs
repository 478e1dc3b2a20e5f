//! Colour classes as styled text for a terminal.
//!
//! The styling itself is the work of the `colored` crate. What its
//! functions return is not looked into here: each function's result has a
//! name, and the contracts say which function was applied to which text.

use vstd::prelude::*;
use colored::ColoredString;
use colored::Colorize;
use crate::classify::class_of;
use crate::classify::classify;
use crate::classify::ColorClass;
use crate::classify::EntryFacts;

verus! {

#[verifier::external_type_specification]
#[verifier::external_body]
pub struct ExColoredString(ColoredString);

/// What `Colorize::normal` makes of a text.
pub uninterp spec fn normal_of(text: Seq<char>) -> ColoredString;

/// What `Colorize::cyan` makes of a text.
pub uninterp spec fn cyan_of(text: Seq<char>) -> ColoredString;

/// What `Colorize::green` makes of a text.
pub uninterp spec fn green_of(text: Seq<char>) -> ColoredString;

/// What `Colorize::blue` makes of a text.
pub uninterp spec fn blue_of(text: Seq<char>) -> ColoredString;

/// What `Colorize::yellow` makes of a text.
pub uninterp spec fn yellow_of(text: Seq<char>) -> ColoredString;

/// What `Colorize::white` makes of a text.
pub uninterp spec fn white_of(text: Seq<char>) -> ColoredString;

/// What `Colorize::black` makes of a text.
pub uninterp spec fn black_of(text: Seq<char>) -> ColoredString;

/// What `Colorize::red` makes of a text.
pub uninterp spec fn red_of(text: Seq<char>) -> ColoredString;

/// What `Colorize::magenta` makes of a text.
pub uninterp spec fn magenta_of(text: Seq<char>) -> ColoredString;

/// What `Colorize::bright_magenta` makes of a text.
pub uninterp spec fn bright_magenta_of(text: Seq<char>) -> ColoredString;

/// What `Colorize::on_blue` makes of a styled text.
pub uninterp spec fn on_blue_of(styled: ColoredString) -> ColoredString;

/// What `Colorize::on_red` makes of a styled text.
pub uninterp spec fn on_red_of(styled: ColoredString) -> ColoredString;

/// What `Colorize::on_yellow` makes of a styled text.
pub uninterp spec fn on_yellow_of(styled: ColoredString) -> ColoredString;

/// What `Colorize::bold` makes of a styled text.
pub uninterp spec fn bold_of(styled: ColoredString) -> ColoredString;

/// `colored::Colorize::normal` on a string slice. It builds the styled
/// text from the slice alone, so one text always gives one result.
#[verifier::external_body]
fn colored_normal(s: &str) -> (r: ColoredString)
    ensures
        r == normal_of(s@),
{
    Colorize::normal(s)
}

/// `colored::Colorize::cyan` on a string slice. It builds the styled text
/// from the slice alone, so one text always gives one result.
#[verifier::external_body]
fn colored_cyan(s: &str) -> (r: ColoredString)
    ensures
        r == cyan_of(s@),
{
    Colorize::cyan(s)
}

/// `colored::Colorize::green` on a string slice. It builds the styled text
/// from the slice alone, so one text always gives one result.
#[verifier::external_body]
fn colored_green(s: &str) -> (r: ColoredString)
    ensures
        r == green_of(s@),
{
    Colorize::green(s)
}

/// `colored::Colorize::blue` on a string slice. It builds the styled text
/// from the slice alone, so one text always gives one result.
#[verifier::external_body]
fn colored_blue(s: &str) -> (r: ColoredString)
    ensures
        r == blue_of(s@),
{
    Colorize::blue(s)
}

/// `colored::Colorize::yellow` on a string slice. It builds the styled
/// text from the slice alone, so one text always gives one result.
#[verifier::external_body]
fn colored_yellow(s: &str) -> (r: ColoredString)
    ensures
        r == yellow_of(s@),
{
    Colorize::yellow(s)
}

/// `colored::Colorize::white` on a string slice. It builds the styled text
/// from the slice alone, so one text always gives one result.
#[verifier::external_body]
fn colored_white(s: &str) -> (r: ColoredString)
    ensures
        r == white_of(s@),
{
    Colorize::white(s)
}

/// `colored::Colorize::black` on a string slice. It builds the styled text
/// from the slice alone, so one text always gives one result.
#[verifier::external_body]
fn colored_black(s: &str) -> (r: ColoredString)
    ensures
        r == black_of(s@),
{
    Colorize::black(s)
}

/// `colored::Colorize::red` on a string slice. It builds the styled text
/// from the slice alone, so one text always gives one result.
#[verifier::external_body]
fn colored_red(s: &str) -> (r: ColoredString)
    ensures
        r == red_of(s@),
{
    Colorize::red(s)
}

/// `colored::Colorize::magenta` on a string slice. It builds the styled
/// text from the slice alone, so one text always gives one result.
#[verifier::external_body]
fn colored_magenta(s: &str) -> (r: ColoredString)
    ensures
        r == magenta_of(s@),
{
    Colorize::magenta(s)
}

/// `colored::Colorize::bright_magenta` on a string slice. It builds the
/// styled text from the slice alone, so one text always gives one result.
#[verifier::external_body]
fn colored_bright_magenta(s: &str) -> (r: ColoredString)
    ensures
        r == bright_magenta_of(s@),
{
    Colorize::bright_magenta(s)
}

/// `colored::Colorize::on_blue` on a styled text. It sets the background
/// of the value it is given and reads nothing else.
#[verifier::external_body]
fn colored_on_blue(styled: ColoredString) -> (r: ColoredString)
    ensures
        r == on_blue_of(styled),
{
    Colorize::on_blue(styled)
}

/// `colored::Colorize::on_red` on a styled text. It sets the background of
/// the value it is given and reads nothing else.
#[verifier::external_body]
fn colored_on_red(styled: ColoredString) -> (r: ColoredString)
    ensures
        r == on_red_of(styled),
{
    Colorize::on_red(styled)
}

/// `colored::Colorize::on_yellow` on a styled text. It sets the background
/// of the value it is given and reads nothing else.
#[verifier::external_body]
fn colored_on_yellow(styled: ColoredString) -> (r: ColoredString)
    ensures
        r == on_yellow_of(styled),
{
    Colorize::on_yellow(styled)
}

/// `colored::Colorize::bold` on a styled text. It adds bold to the style
/// of the value it is given and reads nothing else.
#[verifier::external_body]
fn colored_bold(styled: ColoredString) -> (r: ColoredString)
    ensures
        r == bold_of(styled),
{
    Colorize::bold(styled)
}

/// The styled text of each class: which colours, in which order applied.
pub open spec fn painted(text: Seq<char>, class: ColorClass) -> ColoredString {
    match class {
        ColorClass::Symlink => cyan_of(text),
        ColorClass::SetuidFile => on_red_of(white_of(text)),
        ColorClass::SetgidFile => on_yellow_of(black_of(text)),
        ColorClass::StickyDirectory => on_blue_of(green_of(text)),
        ColorClass::Directory => bold_of(blue_of(text)),
        ColorClass::SpecialDevice => bold_of(yellow_of(text)),
        ColorClass::SpecialSocket => yellow_of(text),
        ColorClass::WorldWritable => yellow_of(text),
        ColorClass::Executable => green_of(text),
        ColorClass::Archive => red_of(text),
        ColorClass::Image => magenta_of(text),
        ColorClass::Media => bright_magenta_of(text),
        ColorClass::Plain => normal_of(text),
    }
}

/// A text in the style of a class.
pub fn paint(text: &str, class: ColorClass) -> (r: ColoredString)
    ensures
        r == painted(text@, class),
{
    match class {
        ColorClass::Symlink => colored_cyan(text),
        ColorClass::SetuidFile => colored_on_red(colored_white(text)),
        ColorClass::SetgidFile => colored_on_yellow(colored_black(text)),
        ColorClass::StickyDirectory => colored_on_blue(colored_green(text)),
        ColorClass::Directory => colored_bold(colored_blue(text)),
        ColorClass::SpecialDevice => colored_bold(colored_yellow(text)),
        ColorClass::SpecialSocket => colored_yellow(text),
        ColorClass::WorldWritable => colored_yellow(text),
        ColorClass::Executable => colored_green(text),
        ColorClass::Archive => colored_red(text),
        ColorClass::Image => colored_magenta(text),
        ColorClass::Media => colored_bright_magenta(text),
        ColorClass::Plain => colored_normal(text),
    }
}

/// The text under which an entry is listed, in the style of the entry's
/// class. `name` is the entry's file name, `facts` what the metadata
/// queries said of it.
pub fn colorize_filename(text: &str, name: &str, facts: &EntryFacts) -> (r: ColoredString)
    ensures
        r == painted(text@, class_of(*facts, name@)),
{
    paint(text, classify(facts, name))
}

} // verus!
