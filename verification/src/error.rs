use crate::formatting::{decimal, push_decimal};
use crate::text::push_str;
use vstd::prelude::*;

verus! {

#[verifier::external_type_specification]
#[verifier::external_body]
pub struct ExIoError(std::io::Error);

/// Everything that can go wrong while reading, editing or writing a document.
#[derive(Debug)]
pub enum CsvError {
    Io(std::io::Error),
    InvalidRow { row: usize },
    InvalidColumn { column: usize },
    InvalidReorder { from: usize, to: usize },
    UnsupportedEncoding(&'static str),
    Parse(String),
}

/// The text of an I/O error.
///
/// Calls `ToString::to_string` on `std::io::Error`. Nothing is claimed of the
/// text: for operating-system errors it comes from the system.
#[verifier::external_body]
fn io_error_text(e: &std::io::Error) -> String {
    e.to_string()
}

impl CsvError {
    /// The message of the error, for the errors whose text the library
    /// makes (an I/O error's text comes from the system).
    pub open spec fn known_message(&self) -> Option<Seq<char>> {
        match self {
            CsvError::Io(_) => None,
            CsvError::InvalidRow { row } => Some("invalid row index "@ + decimal(*row as nat)),
            CsvError::InvalidColumn { column } => Some(
                "invalid column index "@ + decimal(*column as nat),
            ),
            CsvError::InvalidReorder { from, to } => Some(
                "cannot reorder item from "@ + decimal(*from as nat) + " to "@ + decimal(
                    *to as nat,
                ),
            ),
            CsvError::UnsupportedEncoding(name) => Some("unsupported encoding: "@ + name@),
            CsvError::Parse(m) => Some("CSV parse error: "@ + m@),
        }
    }

    /// The message of the error, as shown to the user.
    pub fn message(&self) -> (s: String)
        ensures
            self.known_message() matches Some(m) ==> s@ == m,
    {
        let mut s = String::new();
        match self {
            CsvError::Io(e) => {
                s = io_error_text(e);
            },
            CsvError::InvalidRow { row } => {
                push_str(&mut s, "invalid row index ");
                push_decimal(&mut s, *row);
            },
            CsvError::InvalidColumn { column } => {
                push_str(&mut s, "invalid column index ");
                push_decimal(&mut s, *column);
            },
            CsvError::InvalidReorder { from, to } => {
                push_str(&mut s, "cannot reorder item from ");
                push_decimal(&mut s, *from);
                push_str(&mut s, " to ");
                push_decimal(&mut s, *to);
            },
            CsvError::UnsupportedEncoding(name) => {
                push_str(&mut s, "unsupported encoding: ");
                push_str(&mut s, name);
            },
            CsvError::Parse(m) => {
                push_str(&mut s, "CSV parse error: ");
                push_str(&mut s, m.as_str());
            },
        }
        s
    }
}

impl From<std::io::Error> for CsvError {
    fn from(value: std::io::Error) -> (e: Self) {
        CsvError::Io(value)
    }
}

impl vstd::std_specs::convert::FromSpecImpl<std::io::Error> for CsvError {
    open spec fn obeys_from_spec() -> bool {
        true
    }

    open spec fn from_spec(v: std::io::Error) -> Self {
        CsvError::Io(v)
    }
}

} // verus!
