//! The failures a parse or a resolution can end in.

use vstd::prelude::*;
use vstd::string::StringExecFns;

use crate::chars::dec_chars;
use crate::chars::usize_to_string;

verus! {

/// How a line of input failed to parse.
#[derive(Debug, PartialEq, Eq, Clone, Copy)]
pub enum ParseIssueKind {
    /// A quoted value with no closing delimiter before the end of the line.
    UnterminatedValue,
    /// Text other than a trailing comment after a quoted value's closing
    /// delimiter.
    TrailingAfterQuote,
    /// A line that is neither blank, nor a comment, nor a declaration.
    MalformedLine,
}

/// A structural parse failure, carrying its one-based source line.
#[derive(Debug, PartialEq, Eq, Clone, Copy)]
pub struct ParseIssue {
    pub line: usize,
    pub kind: ParseIssueKind,
}

/// Spec-level image of a [`ParseIssue`].
pub struct IssueView {
    pub line: int,
    pub kind: ParseIssueKind,
}

impl View for ParseIssue {
    type V = IssueView;

    open spec fn view(&self) -> IssueView {
        IssueView { line: self.line as int, kind: self.kind }
    }
}

/// Everything that can go wrong while parsing or resolving entries.
#[derive(Debug, PartialEq, Eq, Clone)]
pub enum Error {
    /// The input text is structurally malformed.
    ParsingError(ParseIssue),
    /// The bulk secret store's transport or API failed; the payload carries
    /// the backend's detail.
    AwsSmSdkError(String),
    /// The bulk secret store reported a per-item error other than a missing
    /// secret; the payload carries the backend's detail.
    AwsSmApiError(String),
    /// The parameter store's transport or API failed; the payload carries
    /// the backend's detail.
    AwsPsSdkError(String),
    /// An identifier pattern referenced a placeholder with no supplied value;
    /// the payload names the placeholder.
    PlaceholderMissing(String),
    /// A required directive's identifier was absent from its backend; the
    /// payload names the expanded identifier.
    ParameterNotFound(String),
}

/// The description text for a [`ParseIssueKind`].
pub open spec fn kind_text(k: ParseIssueKind) -> Seq<char> {
    match k {
        ParseIssueKind::UnterminatedValue => "unterminated quoted value"@,
        ParseIssueKind::TrailingAfterQuote => "unexpected text after quoted value"@,
        ParseIssueKind::MalformedLine => "neither a comment nor a declaration"@,
    }
}

/// The description text for an [`Error`].
pub open spec fn spec_message(e: Error) -> Seq<char> {
    match e {
        Error::ParsingError(pi) => "Unable to parse input: line "@ + dec_chars(pi.line as nat)
            + ": "@ + kind_text(pi.kind),
        Error::AwsSmSdkError(s) => "AWS SDK error: "@ + s@,
        Error::AwsSmApiError(s) => "AWS API error: "@ + s@,
        Error::AwsPsSdkError(s) => "AWS SDK error: "@ + s@,
        Error::PlaceholderMissing(s) => "Placeholder value missing for '"@ + s@ + "'"@,
        Error::ParameterNotFound(s) => "Parameter not found: "@ + s@,
    }
}

impl Error {
    /// Renders the error as human-readable text.
    pub fn message(&self) -> (r: String)
        ensures
            r@ == spec_message(*self),
    {
        match self {
            Error::ParsingError(pi) => {
                let mut s = String::from_str("Unable to parse input: line ");
                let num = usize_to_string(pi.line);
                s.append(num.as_str());
                s.append(": ");
                match pi.kind {
                    ParseIssueKind::UnterminatedValue => s.append("unterminated quoted value"),
                    ParseIssueKind::TrailingAfterQuote => s.append(
                        "unexpected text after quoted value",
                    ),
                    ParseIssueKind::MalformedLine => s.append("neither a comment nor a declaration"),
                }
                s
            },
            Error::AwsSmSdkError(d) => {
                let mut s = String::from_str("AWS SDK error: ");
                s.append(d.as_str());
                s
            },
            Error::AwsSmApiError(d) => {
                let mut s = String::from_str("AWS API error: ");
                s.append(d.as_str());
                s
            },
            Error::AwsPsSdkError(d) => {
                let mut s = String::from_str("AWS SDK error: ");
                s.append(d.as_str());
                s
            },
            Error::PlaceholderMissing(d) => {
                let mut s = String::from_str("Placeholder value missing for '");
                s.append(d.as_str());
                s.append("'");
                s
            },
            Error::ParameterNotFound(d) => {
                let mut s = String::from_str("Parameter not found: ");
                s.append(d.as_str());
                s
            },
        }
    }
}

} // verus!
