use vstd::prelude::*;
use vstd::string::StringExecFns;

verus! {

/// Why an audit stopped without a verdict.
#[derive(Debug)]
pub enum Error {
    /// A script, or a command substitution inside one, is not well-formed shell.
    /// The field is the parser's diagnostic.
    Syntax(String),
    /// Compound commands are nested deeper than the depth counter can count.
    Depth,
}

/// The mathematical value of an [`Error`].
pub enum ErrorView {
    Syntax(Seq<char>),
    Depth,
}

impl View for Error {
    type V = ErrorView;

    open spec fn view(&self) -> ErrorView {
        match self {
            Error::Syntax(diagnostic) => ErrorView::Syntax(diagnostic@),
            Error::Depth => ErrorView::Depth,
        }
    }
}

impl ErrorView {
    /// The text that describes the error to an operator.
    pub open spec fn message(self) -> Seq<char> {
        match self {
            ErrorView::Syntax(diagnostic) => "Failed to parse shell script: "@ + diagnostic,
            ErrorView::Depth => "Compound commands are nested too deeply"@,
        }
    }
}

impl Error {
    /// Wraps the diagnostic of a parser that refused a script.
    pub fn syntax(diagnostic: &str) -> (r: Error)
        ensures
            r@ == ErrorView::Syntax(diagnostic@),
    {
        Error::Syntax(String::from_str(diagnostic))
    }

    /// The text that describes the error to an operator.
    pub fn message(&self) -> (r: String)
        ensures
            r@ == self@.message(),
    {
        match self {
            Error::Syntax(diagnostic) => {
                let mut text = String::from_str("Failed to parse shell script: ");
                text.append(diagnostic.as_str());
                text
            },
            Error::Depth => String::from_str("Compound commands are nested too deeply"),
        }
    }
}

} // verus!
