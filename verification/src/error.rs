use vstd::prelude::*;
use vstd::string::*;

use crate::transaction::{models, Transaction, TransactionModel};

verus! {

/// What can go wrong while reading or writing bank records.
#[derive(Debug)]
pub enum ParseError {
    /// The input could not be read; the text says why.
    InvalidIo(String),
    /// A binary record does not start with the magic bytes.
    InvalidMagic,
    /// A field holds a value that is not allowed.
    InvalidField { field: &'static str, value: String },
    /// A required field is missing from a record.
    MissingField(&'static str),
    /// Bytes that should be text are not well-formed UTF-8.
    IsNotUtf8(std::str::Utf8Error),
}

/// Result of the parsers and serializers of this crate.
pub type Result<T> = core::result::Result<T, ParseError>;

/// The mathematical value of a [`ParseError`]: the variant with its texts as
/// character sequences. Of a UTF-8 error only the variant is kept.
pub enum ParseErrorModel {
    InvalidIo(Seq<char>),
    InvalidMagic,
    InvalidField { field: Seq<char>, value: Seq<char> },
    MissingField(Seq<char>),
    IsNotUtf8,
}

impl View for ParseError {
    type V = ParseErrorModel;

    open spec fn view(&self) -> ParseErrorModel {
        match self {
            ParseError::InvalidIo(m) => ParseErrorModel::InvalidIo(m@),
            ParseError::InvalidMagic => ParseErrorModel::InvalidMagic,
            ParseError::InvalidField { field, value } => ParseErrorModel::InvalidField {
                field: field@,
                value: value@,
            },
            ParseError::MissingField(f) => ParseErrorModel::MissingField(f@),
            ParseError::IsNotUtf8(_) => ParseErrorModel::IsNotUtf8,
        }
    }
}

/// The model of the outcome of parsing one transaction.
pub open spec fn tx_result(r: Result<Transaction>) -> core::result::Result<
    TransactionModel,
    ParseErrorModel,
> {
    match r {
        Ok(t) => Ok(t@),
        Err(e) => Err(e@),
    }
}

/// The model of the outcome of parsing a list of transactions.
pub open spec fn list_result(r: Result<Vec<Transaction>>) -> core::result::Result<
    Seq<TransactionModel>,
    ParseErrorModel,
> {
    match r {
        Ok(v) => Ok(models(v@)),
        Err(e) => Err(e@),
    }
}

/// The outcome `r` with the transactions `head` put in front of its list.
pub open spec fn prepend(
    head: Seq<TransactionModel>,
    r: core::result::Result<Seq<TransactionModel>, ParseErrorModel>,
) -> core::result::Result<Seq<TransactionModel>, ParseErrorModel> {
    match r {
        Ok(t) => Ok(head + t),
        Err(e) => Err(e),
    }
}

/// Putting `b` and then `a` in front of a list is putting `a + b` in front.
pub proof fn lemma_prepend_assoc(
    a: Seq<TransactionModel>,
    b: Seq<TransactionModel>,
    r: core::result::Result<Seq<TransactionModel>, ParseErrorModel>,
)
    ensures
        prepend(a, prepend(b, r)) == prepend(a + b, r),
{
    match r {
        Ok(t) => {
            assert(a + b + t =~= a + (b + t));
        },
        Err(_) => {},
    }
}

/// The model of a missing-field error.
pub open spec fn missing(field: Seq<char>) -> ParseErrorModel {
    ParseErrorModel::MissingField(field)
}

/// The model of an invalid-field error.
pub open spec fn invalid(field: Seq<char>, value: Seq<char>) -> ParseErrorModel {
    ParseErrorModel::InvalidField { field, value }
}

/// The text that `std` gives an I/O error for input that runs out in the
/// middle of a read of a fixed number of bytes.
pub open spec fn eof_text() -> Seq<char> {
    "failed to fill whole buffer"@
}

/// The text that `std` gives an I/O error for a line that is not UTF-8.
pub open spec fn not_utf8_text() -> Seq<char> {
    "stream did not contain valid UTF-8"@
}

/// The error for input that ends in the middle of a fixed-size read.
pub fn unexpected_eof() -> (e: ParseError)
    ensures
        e@ == ParseErrorModel::InvalidIo(eof_text()),
{
    ParseError::InvalidIo(String::from_str("failed to fill whole buffer"))
}

/// The error for a line of text that is not well-formed UTF-8.
pub fn invalid_line_data() -> (e: ParseError)
    ensures
        e@ == ParseErrorModel::InvalidIo(not_utf8_text()),
{
    ParseError::InvalidIo(String::from_str("stream did not contain valid UTF-8"))
}

/// Calls `Utf8Error`'s `Display` implementation through `to_string`; nothing
/// is claimed of the text it gives.
#[verifier::external_body]
fn utf8_error_text(e: &std::str::Utf8Error) -> String {
    e.to_string()
}

impl ParseError {
    /// The human-readable description of the error.
    pub fn message(&self) -> (m: String)
        ensures
            match self@ {
                ParseErrorModel::InvalidIo(t) => m@ == "IO error: "@ + t,
                ParseErrorModel::InvalidMagic => m@
                    == "invalid magic bytes in binary record header"@,
                ParseErrorModel::InvalidField { field, value } => m@ == "invalid value for field '"@
                    + field + "': '"@ + value + "'"@,
                ParseErrorModel::MissingField(f) => m@ == "missing required field '"@ + f
                    + "'"@,
                ParseErrorModel::IsNotUtf8 => exists|t: Seq<char>| m@ == "UTF-8 error: "@ + t,
            },
    {
        match self {
            ParseError::InvalidIo(e) => {
                let mut m = String::from_str("IO error: ");
                m.append(e.as_str());
                m
            },
            ParseError::InvalidMagic => String::from_str(
                "invalid magic bytes in binary record header",
            ),
            ParseError::InvalidField { field, value } => {
                let mut m = String::from_str("invalid value for field '");
                m.append(field);
                m.append("': '");
                m.append(value.as_str());
                m.append("'");
                m
            },
            ParseError::MissingField(field) => {
                let mut m = String::from_str("missing required field '");
                m.append(field);
                m.append("'");
                m
            },
            ParseError::IsNotUtf8(e) => {
                let t = utf8_error_text(e);
                let mut m = String::from_str("UTF-8 error: ");
                m.append(t.as_str());
                assert(m@ == "UTF-8 error: "@ + t@);
                m
            },
        }
    }
}

impl From<std::str::Utf8Error> for ParseError {
    fn from(e: std::str::Utf8Error) -> (r: Self) {
        ParseError::IsNotUtf8(e)
    }
}

impl vstd::std_specs::convert::FromSpecImpl<std::str::Utf8Error> for ParseError {
    open spec fn obeys_from_spec() -> bool {
        true
    }

    open spec fn from_spec(e: std::str::Utf8Error) -> Self {
        ParseError::IsNotUtf8(e)
    }
}

} // verus!
