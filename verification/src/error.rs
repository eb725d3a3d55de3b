//! The library's error type.
use vstd::prelude::*;

use crate::datetime::{int_text, nat_to_string};

verus! {

/// An I/O failure, as std reports it.
#[verifier::external_type_specification]
#[verifier::external_body]
pub struct ExIoError(std::io::Error);

/// A failure of chrono to read a date and time from text.
#[verifier::external_type_specification]
#[verifier::external_body]
pub struct ExChronoParseError(chrono::format::ParseError);

/// Everything that can go wrong in takt.
#[derive(Debug)]
pub enum TaktError {
    /// Reading or writing a file failed.
    Io(std::io::Error),
    /// No data directory could be located.
    NoDataDir,
    /// No tag has this name.
    UnknownTag(String),
    /// Several tags have this name; their full paths.
    AmbiguousTag(Vec<String>),
    /// Nothing is being tracked.
    NoActiveTask,
    /// A line (0-indexed) that does not have the expected shape.
    MalformedLine { line: usize, content: String },
    /// A tag line (0-indexed) indented deeper than its position allows.
    UnexpectedIndent { line: usize, max: usize, depth: usize },
    /// A date and time on a log line (0-indexed) that could not be read.
    BadDateTime { line: usize, value: String, source: chrono::format::ParseError },
}

/// The texts chrono's `ParseError` shows, one per kind of failure.
pub open spec fn parse_error_texts() -> Set<Seq<char>> {
    set![
        "input is out of range"@,
        "no possible date and time matching input"@,
        "input is not enough for unique date and time"@,
        "input contains invalid characters"@,
        "premature end of input"@,
        "trailing input"@,
        "bad or unsupported format string"@,
    ]
}

/// std's `Display` of an I/O error. What it shows comes from the operating
/// system and is not stated.
#[verifier::external_body]
fn io_error_text(e: &std::io::Error) -> (r: String) {
    e.to_string()
}

/// chrono's `Display` of a `ParseError`: the description of its kind, one of
/// `parse_error_texts`.
#[verifier::external_body]
fn parse_error_text(e: &chrono::format::ParseError) -> (r: String)
    ensures
        parse_error_texts().contains(r@),
{
    e.to_string()
}

/// std's `Debug` of a list of strings: the strings quoted and escaped, between
/// brackets. std does not fix that form, so it is not stated.
#[verifier::external_body]
fn debug_list(v: &Vec<String>) -> (r: String) {
    format!("{:?}", v)
}

/// Appends `n` in decimal.
fn push_number(out: &mut String, n: u128)
    ensures
        final(out)@ == old(out)@ + int_text(n as int),
{
    let d = nat_to_string(n);
    out.append(d.as_str());
}

impl TaktError {
    /// The message shown for this error; line numbers are shown counted from 1.
    pub fn message(&self) -> (r: String)
        ensures
            match self {
                TaktError::Io(_) => exists|x: Seq<char>| r@ == "IO error: "@ + x,
                TaktError::NoDataDir => r@ == "could not locate a data directory (is $HOME set?)"@,
                TaktError::UnknownTag(n) => r@ == "unknown tag: "@ + n@,
                TaktError::AmbiguousTag(_) => exists|x: Seq<char>|
                    r@ == "ambiguous tag, could be: "@ + x,
                TaktError::NoActiveTask => r@ == "no active task \u{2014} run `takt start <tag>` first"@,
                TaktError::MalformedLine { line, content } => r@ == "malformed line "@ + int_text(
                    line + 1,
                ) + ": "@ + content@,
                TaktError::UnexpectedIndent { line, max, depth } => r@ == "unexpected indent on line "@
                    + int_text(line + 1) + ": expected depth \u{2264} "@ + int_text(*max as int)
                    + ", got "@ + int_text(*depth as int),
                TaktError::BadDateTime { line, value, source: _ } => exists|x: Seq<char>|
                    parse_error_texts().contains(x) && r@ == "invalid datetime on line "@ + int_text(
                        line + 1,
                    ) + ": '"@ + value@ + "' ("@ + x + ")"@,
            },
    {
        match self {
            TaktError::Io(e) => {
                let mut out = String::from_str("IO error: ");
                let t = io_error_text(e);
                out.append(t.as_str());
                proof {
                    reveal_strlit("IO error: ");
                    assert(out@ == "IO error: "@ + t@);
                }
                out
            },
            TaktError::NoDataDir => String::from_str("could not locate a data directory (is $HOME set?)"),
            TaktError::UnknownTag(n) => {
                let mut out = String::from_str("unknown tag: ");
                out.append(n.as_str());
                out
            },
            TaktError::AmbiguousTag(v) => {
                let mut out = String::from_str("ambiguous tag, could be: ");
                let t = debug_list(v);
                out.append(t.as_str());
                proof {
                    assert(out@ == "ambiguous tag, could be: "@ + t@);
                }
                out
            },
            TaktError::NoActiveTask => String::from_str("no active task \u{2014} run `takt start <tag>` first"),
            TaktError::MalformedLine { line, content } => {
                let mut out = String::from_str("malformed line ");
                push_number(&mut out, *line as u128 + 1);
                out.append(": ");
                out.append(content.as_str());
                out
            },
            TaktError::UnexpectedIndent { line, max, depth } => {
                let mut out = String::from_str("unexpected indent on line ");
                push_number(&mut out, *line as u128 + 1);
                out.append(": expected depth \u{2264} ");
                push_number(&mut out, *max as u128);
                out.append(", got ");
                push_number(&mut out, *depth as u128);
                out
            },
            TaktError::BadDateTime { line, value, source } => {
                let mut out = String::from_str("invalid datetime on line ");
                push_number(&mut out, *line as u128 + 1);
                out.append(": '");
                out.append(value.as_str());
                out.append("' (");
                let t = parse_error_text(source);
                out.append(t.as_str());
                out.append(")");
                proof {
                    assert(parse_error_texts().contains(t@));
                }
                out
            },
        }
    }
}

} // verus!
