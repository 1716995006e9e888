//! Errors raised while parsing or hydrating frame, cut and reel documents.

use vstd::prelude::*;
use crate::text::{chars_eq, chars_of};

verus! {

/// Mathematical model of an error value.
#[verifier::ext_equal]
pub enum SpecErr {
    FrameParse(Seq<char>),
    FrameParsef(Seq<char>, Seq<char>),
    ReelParse(Seq<char>),
    ReelParsef(Seq<char>, Seq<char>),
    ReadInstruction(Seq<char>),
    ReadInstructionf(Seq<char>, Seq<char>),
    WriteInstruction(Seq<char>),
    Serde(Seq<char>),
    Parse(Seq<char>),
    File(Seq<char>, Seq<char>),
}

/// An error raised while parsing or hydrating a frame, cut or reel document.
/// The `f` variants carry the offending item alongside the message.
#[derive(Debug)]
pub enum FrError {
    FrameParse(&'static str),
    FrameParsef(&'static str, String),
    ReelParse(&'static str),
    ReelParsef(&'static str, String),
    ReadInstruction(&'static str),
    ReadInstructionf(&'static str, String),
    WriteInstruction(&'static str),
    Serde(String),
    Parse(String),
    File(String, String),
}

impl View for FrError {
    type V = SpecErr;

    open spec fn view(&self) -> SpecErr {
        match self {
            FrError::FrameParse(m) => SpecErr::FrameParse(m@),
            FrError::FrameParsef(m, i) => SpecErr::FrameParsef(m@, i@),
            FrError::ReelParse(m) => SpecErr::ReelParse(m@),
            FrError::ReelParsef(m, i) => SpecErr::ReelParsef(m@, i@),
            FrError::ReadInstruction(m) => SpecErr::ReadInstruction(m@),
            FrError::ReadInstructionf(m, i) => SpecErr::ReadInstructionf(m@, i@),
            FrError::WriteInstruction(m) => SpecErr::WriteInstruction(m@),
            FrError::Serde(m) => SpecErr::Serde(m@),
            FrError::Parse(m) => SpecErr::Parse(m@),
            FrError::File(m, i) => SpecErr::File(m@, i@),
        }
    }
}

/// Decides view equality of two string slices.
pub fn str_eq(a: &str, b: &str) -> (r: bool)
    ensures
        r == (a@ == b@),
{
    let av = chars_of(a);
    let bv = chars_of(b);
    chars_eq(&av, &bv)
}

impl PartialEq for FrError {
    fn eq(&self, other: &FrError) -> (r: bool) {
        match (self, other) {
            (FrError::FrameParse(a), FrError::FrameParse(b)) => str_eq(a, b),
            (FrError::FrameParsef(a, x), FrError::FrameParsef(b, y)) => str_eq(a, b) && str_eq(
                x.as_str(),
                y.as_str(),
            ),
            (FrError::ReelParse(a), FrError::ReelParse(b)) => str_eq(a, b),
            (FrError::ReelParsef(a, x), FrError::ReelParsef(b, y)) => str_eq(a, b) && str_eq(
                x.as_str(),
                y.as_str(),
            ),
            (FrError::ReadInstruction(a), FrError::ReadInstruction(b)) => str_eq(a, b),
            (FrError::ReadInstructionf(a, x), FrError::ReadInstructionf(b, y)) => str_eq(a, b)
                && str_eq(x.as_str(), y.as_str()),
            (FrError::WriteInstruction(a), FrError::WriteInstruction(b)) => str_eq(a, b),
            (FrError::Serde(a), FrError::Serde(b)) => str_eq(a.as_str(), b.as_str()),
            (FrError::Parse(a), FrError::Parse(b)) => str_eq(a.as_str(), b.as_str()),
            (FrError::File(a, x), FrError::File(b, y)) => str_eq(a.as_str(), b.as_str()) && str_eq(
                x.as_str(),
                y.as_str(),
            ),
            _ => false,
        }
    }
}

impl vstd::std_specs::cmp::PartialEqSpecImpl for FrError {
    open spec fn obeys_eq_spec() -> bool {
        true
    }

    open spec fn eq_spec(&self, other: &FrError) -> bool {
        self@ == other@
    }
}

impl FrError {
    /// The error rendered as one line of text, for display by callers.
    pub fn to_display_string(&self) -> (r: String)
        ensures
            r@ == spec_display(self@),
    {
        match self {
            FrError::FrameParse(m) => concat2("FrameParseError: ", m),
            FrError::FrameParsef(m, i) => concat4("FrameParseError: ", m, " --> ", i.as_str()),
            FrError::ReelParse(m) => concat2("ReelParseError: ", m),
            FrError::ReelParsef(m, i) => concat4("ReelParseError: ", m, " --> ", i.as_str()),
            FrError::ReadInstruction(m) => concat2("ReadInstructionError: ", m),
            FrError::ReadInstructionf(m, i) => concat4(
                "ReadInstructionError: ",
                m,
                " --> ",
                i.as_str(),
            ),
            FrError::WriteInstruction(m) => concat2("WriteInstructionError: ", m),
            FrError::Serde(m) => concat2("SerdeError --> ", m.as_str()),
            FrError::Parse(m) => concat2("ParseError --> ", m.as_str()),
            FrError::File(m, i) => concat4("FileError: ", m.as_str(), " --> ", i.as_str()),
        }
    }
}

/// The text `to_display_string` produces for each error.
pub open spec fn spec_display(e: SpecErr) -> Seq<char> {
    match e {
        SpecErr::FrameParse(m) => "FrameParseError: "@ + m,
        SpecErr::FrameParsef(m, i) => "FrameParseError: "@ + m + " --> "@ + i,
        SpecErr::ReelParse(m) => "ReelParseError: "@ + m,
        SpecErr::ReelParsef(m, i) => "ReelParseError: "@ + m + " --> "@ + i,
        SpecErr::ReadInstruction(m) => "ReadInstructionError: "@ + m,
        SpecErr::ReadInstructionf(m, i) => "ReadInstructionError: "@ + m + " --> "@ + i,
        SpecErr::WriteInstruction(m) => "WriteInstructionError: "@ + m,
        SpecErr::Serde(m) => "SerdeError --> "@ + m,
        SpecErr::Parse(m) => "ParseError --> "@ + m,
        SpecErr::File(m, i) => "FileError: "@ + m + " --> "@ + i,
    }
}

/// Joins two string slices.
pub fn concat2(a: &str, b: &str) -> (r: String)
    ensures
        r@ == a@ + b@,
{
    let mut s = a.to_owned();
    s.append(b);
    s
}

/// Joins four string slices.
pub fn concat4(a: &str, b: &str, c: &str, d: &str) -> (r: String)
    ensures
        r@ == a@ + b@ + c@ + d@,
{
    let mut s = a.to_owned();
    s.append(b);
    s.append(c);
    s.append(d);
    s
}

} // verus!
