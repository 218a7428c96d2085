use vstd::prelude::*;

verus! {

/// The kinds of malformed input the scanner reports.
#[derive(Clone, Copy, Debug, PartialEq, Eq, Structural)]
pub enum ScanError {
    UnexpectedCharacter,
    UnterminatedString,
    InvalidNumber,
}

impl ScanError {
    /// The diagnostic text of this error.
    pub fn message(&self) -> (r: &'static str)
        ensures
            *self == ScanError::UnexpectedCharacter ==> r@ == "Unexpected character."@,
            *self == ScanError::UnterminatedString ==> r@ == "Unterminated string."@,
            *self == ScanError::InvalidNumber ==> r@ == "Invalid numeric literal."@,
    {
        match self {
            ScanError::UnexpectedCharacter => "Unexpected character.",
            ScanError::UnterminatedString => "Unterminated string.",
            ScanError::InvalidNumber => "Invalid numeric literal.",
        }
    }
}

/// One reported error and the line it was detected on.
#[derive(Clone, Copy, Debug, PartialEq, Eq, Structural)]
pub struct Diagnostic {
    pub line: usize,
    pub error: ScanError,
}

/// Collects the errors of one or more scans; `had_error` latches once any
/// error has been reported.
pub struct ErrorReporter {
    pub had_error: bool,
    pub diagnostics: Vec<Diagnostic>,
}

/// The models of a sequence of diagnostics: line and error.
pub open spec fn diagnostics_view(ds: Seq<Diagnostic>) -> Seq<(int, ScanError)> {
    ds.map_values(|d: Diagnostic| (d.line as int, d.error))
}

impl ErrorReporter {
    pub fn new() -> (r: Self)
        ensures
            !r.had_error,
            r.diagnostics@.len() == 0,
    {
        ErrorReporter { had_error: false, diagnostics: Vec::new() }
    }

    pub fn set_error(&mut self)
        ensures
            final(self).had_error,
            final(self).diagnostics@ == old(self).diagnostics@,
    {
        self.had_error = true;
    }
}

/// Records `message` as detected on line `line_no`.
pub fn error(error_reporter: &mut ErrorReporter, line_no: usize, message: ScanError)
    ensures
        final(error_reporter).had_error,
        final(error_reporter).diagnostics@ == old(error_reporter).diagnostics@.push(
            Diagnostic { line: line_no, error: message },
        ),
{
    error_reporter.diagnostics.push(Diagnostic { line: line_no, error: message });
    error_reporter.set_error();
}

} // verus!
