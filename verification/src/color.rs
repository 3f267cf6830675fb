//! Styled fragments of the command's output: labels, state words, headers
//! and single-letter file markers, colored with ANSI escape sequences
//! (whether they reach the terminal is decided when printing).
use vstd::prelude::*;
use owo_colors::OwoColorize;
use crate::text::push_char;

verus! {

/// The escape sequence `ESC [ <code> m`.
pub open spec fn sgr(code: Seq<char>) -> Seq<char> {
    seq!['\x1b', '['] + code + seq!['m']
}

/// Foreground color `code` around `s`, reset to the default foreground after.
pub open spec fn fg(code: Seq<char>, s: Seq<char>) -> Seq<char> {
    sgr(code) + s + sgr(seq!['3', '9'])
}

/// Style `code` around `s`, all attributes reset after.
pub open spec fn styled(code: Seq<char>, s: Seq<char>) -> Seq<char> {
    sgr(code) + s + sgr(seq!['0'])
}

/// `s.red().to_string()`: red foreground (code 31) around `s`.
#[verifier::external_body]
fn paint_red(s: &str) -> (r: String)
    ensures
        r@ == fg(seq!['3', '1'], s@),
{
    s.red().to_string()
}

/// `s.green().to_string()`: green foreground (code 32) around `s`.
#[verifier::external_body]
fn paint_green(s: &str) -> (r: String)
    ensures
        r@ == fg(seq!['3', '2'], s@),
{
    s.green().to_string()
}

/// `s.yellow().to_string()`: yellow foreground (code 33) around `s`.
#[verifier::external_body]
fn paint_yellow(s: &str) -> (r: String)
    ensures
        r@ == fg(seq!['3', '3'], s@),
{
    s.yellow().to_string()
}

/// `s.magenta().to_string()`: magenta foreground (code 35) around `s`.
#[verifier::external_body]
fn paint_magenta(s: &str) -> (r: String)
    ensures
        r@ == fg(seq!['3', '5'], s@),
{
    s.magenta().to_string()
}

/// `s.cyan().to_string()`: cyan foreground (code 36) around `s`.
#[verifier::external_body]
fn paint_cyan(s: &str) -> (r: String)
    ensures
        r@ == fg(seq!['3', '6'], s@),
{
    s.cyan().to_string()
}

/// `s.bold().to_string()`: bold (code 1) around `s`, then a full reset.
#[verifier::external_body]
fn paint_bold(s: &str) -> (r: String)
    ensures
        r@ == styled(seq!['1'], s@),
{
    s.bold().to_string()
}

/// `s.dimmed().to_string()`: dim (code 2) around `s`, then a full reset.
#[verifier::external_body]
fn paint_dimmed(s: &str) -> (r: String)
    ensures
        r@ == styled(seq!['2'], s@),
{
    s.dimmed().to_string()
}

/// Styled "error:" label: bold red.
pub fn error_label() -> (r: String)
    ensures
        r@ == styled(seq!['1'], fg(seq!['3', '1'], seq!['e', 'r', 'r', 'o', 'r', ':'])),
{
    proof {
        reveal_strlit("error:");
    }
    let red = paint_red("error:");
    assert("error:"@ =~= seq!['e', 'r', 'r', 'o', 'r', ':']);
    paint_bold(red.as_str())
}

/// Styled "warning:" label: bold yellow.
pub fn warning_label() -> (r: String)
    ensures
        r@ == styled(seq!['1'], fg(seq!['3', '3'], seq!['w', 'a', 'r', 'n', 'i', 'n', 'g', ':'])),
{
    proof {
        reveal_strlit("warning:");
    }
    let yellow = paint_yellow("warning:");
    assert("warning:"@ =~= seq!['w', 'a', 'r', 'n', 'i', 'n', 'g', ':']);
    paint_bold(yellow.as_str())
}

/// Green: state matches what's expected, nothing to do.
pub fn ok(s: &str) -> (r: String)
    ensures
        r@ == fg(seq!['3', '2'], s@),
{
    paint_green(s)
}

/// Yellow: local drift that hasn't been applied/resolved yet.
pub fn warn(s: &str) -> (r: String)
    ensures
        r@ == fg(seq!['3', '3'], s@),
{
    paint_yellow(s)
}

/// Red: missing state or a condition that blocks the requested action.
pub fn bad(s: &str) -> (r: String)
    ensures
        r@ == fg(seq!['3', '1'], s@),
{
    paint_red(s)
}

/// Bold: entry headers (`name (folder)`).
pub fn header(s: &str) -> (r: String)
    ensures
        r@ == styled(seq!['1'], s@),
{
    paint_bold(s)
}

/// Dim: secondary detail, e.g. commit hashes.
pub fn dim(s: &str) -> (r: String)
    ensures
        r@ == styled(seq!['2'], s@),
{
    paint_dimmed(s)
}

/// The colored form of a single-letter marker.
pub open spec fn marker_text(letter: char) -> Seq<char> {
    if letter == 'M' {
        fg(seq!['3', '3'], seq![letter])
    } else if letter == 'D' || letter == 'X' {
        fg(seq!['3', '1'], seq![letter])
    } else if letter == '?' {
        fg(seq!['3', '6'], seq![letter])
    } else if letter == 'L' {
        fg(seq!['3', '5'], seq![letter])
    } else if letter == 'W' {
        fg(seq!['3', '2'], seq![letter])
    } else {
        seq![letter]
    }
}

/// Single-letter file-status markers, colored to match `git status --short`
/// conventions where they overlap (M yellow, D red, ? cyan).
pub fn marker(letter: char) -> (r: String)
    ensures
        r@ == marker_text(letter),
{
    let mut s = String::new();
    push_char(&mut s, letter);
    assert(s@ =~= seq![letter]);
    if letter == 'M' {
        paint_yellow(s.as_str())
    } else if letter == 'D' || letter == 'X' {
        paint_red(s.as_str())
    } else if letter == '?' {
        paint_cyan(s.as_str())
    } else if letter == 'L' {
        paint_magenta(s.as_str())
    } else if letter == 'W' {
        paint_green(s.as_str())
    } else {
        s
    }
}

} // verus!
