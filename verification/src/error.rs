use vstd::prelude::*;

verus! {

/// A diagnostic collected while scanning or parsing.
///
/// `Report` entries are user facing and mark the parse as failed. `Internal`
/// entries only record that a grammar alternative was probed and rejected;
/// they steer the choice between productions and must never reach the user.
/// Lines and columns are 1-based.
#[derive(Debug, Clone)]
pub enum ParsingError {
    Report { message: String, line: usize, column: usize },
    Internal { message: String, line: usize, column: usize },
}

pub open spec fn is_report(e: ParsingError) -> bool {
    e matches ParsingError::Report { .. }
}

pub open spec fn err_line(e: ParsingError) -> usize {
    match e {
        ParsingError::Report { line, .. } => line,
        ParsingError::Internal { line, .. } => line,
    }
}

pub open spec fn err_column(e: ParsingError) -> usize {
    match e {
        ParsingError::Report { column, .. } => column,
        ParsingError::Internal { column, .. } => column,
    }
}

pub open spec fn err_message(e: ParsingError) -> Seq<char> {
    match e {
        ParsingError::Report { message, .. } => message@,
        ParsingError::Internal { message, .. } => message@,
    }
}

/// Some user-facing diagnostic in `es` sits at line `l`, column `c`.
pub open spec fn has_report_at(es: Seq<ParsingError>, l: int, c: int) -> bool {
    exists|k: int|
        0 <= k < es.len() && is_report(#[trigger] es[k]) && err_line(es[k]) == l && err_column(
            es[k],
        ) == c
}

impl ParsingError {
    /// An owned copy; the derived `clone` tells Verus nothing about its result.
    pub fn dup(&self) -> (r: ParsingError)
        ensures
            r == *self,
    {
        match self {
            ParsingError::Report { message, line, column } => ParsingError::Report {
                message: message.clone(),
                line: *line,
                column: *column,
            },
            ParsingError::Internal { message, line, column } => ParsingError::Internal {
                message: message.clone(),
                line: *line,
                column: *column,
            },
        }
    }

    /// The position of the diagnostic, as (line, column).
    pub fn position(&self) -> (r: (usize, usize))
        ensures
            r.0 == err_line(*self),
            r.1 == err_column(*self),
    {
        match self {
            ParsingError::Report { line, column, .. } => (*line, *column),
            ParsingError::Internal { line, column, .. } => (*line, *column),
        }
    }

    /// Whether the diagnostic is user facing.
    pub fn is_reportable(&self) -> (r: bool)
        ensures
            r == is_report(*self),
    {
        match self {
            ParsingError::Report { .. } => true,
            ParsingError::Internal { .. } => false,
        }
    }
}

} // verus!
