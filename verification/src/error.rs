//! The failure that every parser of this crate reports.
use vstd::prelude::*;
use vstd::string::*;

verus! {

/// What the grammar expected at the place where a parse stopped.
#[derive(Clone, Copy, Debug, PartialEq, Eq)]
pub enum ErrorKind {
    /// A letter.
    Alpha,
    /// A letter or a digit.
    AlphaNumeric,
    /// One of the fixed characters `[`, `]`, `=` and `_`.
    Tag,
    /// A line feed.
    Char,
    /// The end of the input.
    Eof,
}

/// A failed parse: the part of the input at which the grammar stopped
/// matching, and what it expected to find there.
#[derive(Clone, Copy, Debug, PartialEq, Eq)]
pub struct ParseError<'a> {
    pub remaining: &'a str,
    pub kind: ErrorKind,
}

/// What a parser makes of a sequence of characters: what is left of the input
/// and the value that was read, or where and why it stopped.
pub type Parsed<T> = Result<(Seq<char>, T), (Seq<char>, ErrorKind)>;

impl<'a> View for ParseError<'a> {
    type V = (Seq<char>, ErrorKind);

    open spec fn view(&self) -> (Seq<char>, ErrorKind) {
        (self.remaining@, self.kind)
    }
}

/// The words that `describe` puts before the remaining input.
pub open spec fn kind_label(kind: ErrorKind) -> Seq<char> {
    match kind {
        ErrorKind::Alpha => "expected a letter at: "@,
        ErrorKind::AlphaNumeric => "expected a letter or a digit at: "@,
        ErrorKind::Tag => "expected a delimiter at: "@,
        ErrorKind::Char => "expected a line feed at: "@,
        ErrorKind::Eof => "expected the end of the input at: "@,
    }
}

/// The text of a failure: its label, then the remaining input as it stands.
pub open spec fn describe_failure(failure: (Seq<char>, ErrorKind)) -> Seq<char> {
    kind_label(failure.1) + failure.0
}

impl<'a> ParseError<'a> {
    /// Renders the failure as text, for diagnostics.
    pub fn describe(&self) -> (text: String)
        ensures
            text@ == describe_failure(self@),
    {
        let label = match self.kind {
            ErrorKind::Alpha => "expected a letter at: ",
            ErrorKind::AlphaNumeric => "expected a letter or a digit at: ",
            ErrorKind::Tag => "expected a delimiter at: ",
            ErrorKind::Char => "expected a line feed at: ",
            ErrorKind::Eof => "expected the end of the input at: ",
        };
        let mut text = String::from_str(label);
        text.append(self.remaining);
        text
    }
}

/// The view of a parser's result whose value is a slice of the input.
pub open spec fn view_str<'a>(r: Result<(&'a str, &'a str), ParseError<'a>>) -> Parsed<Seq<char>> {
    match r {
        Ok((rest, out)) => Ok((rest@, out@)),
        Err(e) => Err(e@),
    }
}

/// The view of a parser's result whose value is a pair of slices of the input.
pub open spec fn view_pair<'a>(
    r: Result<(&'a str, (&'a str, &'a str)), ParseError<'a>>,
) -> Parsed<(Seq<char>, Seq<char>)> {
    match r {
        Ok((rest, (key, value))) => Ok((rest@, (key@, value@))),
        Err(e) => Err(e@),
    }
}

} // verus!
