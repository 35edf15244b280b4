//! The errors that the store, its text format and the prompt around them report.
use crate::codec::{IntErrorKind, LineFault};
use vstd::prelude::*;
use vstd::string::*;

verus! {

/// An error met while talking to the user or reading the stored list.
pub enum TerminalError {
    /// Writing to the output failed; holds the description of the failure.
    StdoutErr(String),
    /// Reading the input failed; holds the description of the failure.
    StdinErr(String),
    /// A number was expected and the text did not hold one.
    ParseErr(IntErrorKind),
    /// Something asked for is not there; holds the message to show.
    NotFound(String),
}

/// Whether `e` is the error that reports the line fault `f`.
pub open spec fn reports(e: TerminalError, f: LineFault) -> bool {
    match f {
        LineFault::BadKey(k) => e == TerminalError::ParseErr(k),
        LineFault::MissingField => e is NotFound,
    }
}

impl TerminalError {
    /// The error that reports a line of the stored list that is not a record.
    pub fn from_fault(f: LineFault) -> (r: TerminalError)
        ensures
            reports(r, f),
    {
        match f {
            LineFault::BadKey(k) => TerminalError::ParseErr(k),
            LineFault::MissingField => TerminalError::NotFound(
                String::from_str("Erro no parse_line [resolve not found]"),
            ),
        }
    }

    /// The message shown to the user for this error.
    pub fn message_err(self) -> (r: String)
        ensures
            r@ == match self {
                TerminalError::StdoutErr(err) => "Houve um erro ao tentar exibir mensagem "@ + err@,
                TerminalError::StdinErr(err) => "Houve um erro na entrada de dados "@ + err@,
                TerminalError::ParseErr(_) => "O valor inserido precisa ser um número"@,
                TerminalError::NotFound(err) => err@,
            },
    {
        match self {
            TerminalError::StdoutErr(err) => {
                let mut r = String::from_str("Houve um erro ao tentar exibir mensagem ");
                r.append(err.as_str());
                r
            },
            TerminalError::StdinErr(err) => {
                let mut r = String::from_str("Houve um erro na entrada de dados ");
                r.append(err.as_str());
                r
            },
            TerminalError::ParseErr(_) => String::from_str("O valor inserido precisa ser um número"),
            TerminalError::NotFound(err) => err,
        }
    }
}

} // verus!
