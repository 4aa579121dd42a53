//! What is said about errors.

use crate::convert::ConvertError;
use crate::dbc::{DbcError, LineError, SignalError};
use crate::frame::BlfError;
use crate::lexer::contains_text;
use crate::lexer_laws::law_parts_are_found;
use crate::text::{decimal, hexadecimal, push_decimal, push_hexadecimal, push_text};
use vstd::prelude::*;

verus! {

/// A text, a number behind it, and a text behind that.
fn with_number(head: &str, n: u128, tail: &str) -> (r: String)
    ensures
        r@ == head@ + decimal(n as int) + tail@,
{
    let mut r: String = head.to_owned();
    push_decimal(&mut r, n);
    push_text(&mut r, tail);
    r
}

impl BlfError {
    /// What is said about the error.
    pub open spec fn text(self) -> Seq<char> {
        match self {
            BlfError::HeaderTruncated => "BLF file header is truncated"@,
            BlfError::NotBlf => "not a BLF file (missing LOGG signature)"@,
            BlfError::HeaderSize(size) => "invalid BLF header size: "@ + decimal(size as int)
                + ""@,
            BlfError::ObjectHeader(size) => "corrupt BLF object header (size "@ + decimal(
                size as int,
            ) + ")"@,
            BlfError::ObjectTruncated => "BLF object is truncated"@,
            BlfError::ShortObject => "BLF object shorter than its header"@,
            BlfError::HeaderVersion(version) => "unsupported BLF object header version "@
                + decimal(version as int) + ""@,
            BlfError::TimestampRange => "BLF object timestamp is out of range"@,
            BlfError::Container => "corrupt LOG_CONTAINER object"@,
            BlfError::Inflate => "failed to inflate BLF log container"@,
            BlfError::Compression(method) => "unsupported BLF container compression method "@
                + decimal(method as int) + ""@,
        }
    }

    /// What is said about the error.
    pub fn message(&self) -> (r: String)
        ensures
            r@ == self.text(),
    {
        match *self {
            BlfError::HeaderTruncated => "BLF file header is truncated".to_owned(),
            BlfError::NotBlf => "not a BLF file (missing LOGG signature)".to_owned(),
            BlfError::HeaderSize(size) => with_number(
                "invalid BLF header size: ",
                size as u128,
                "",
            ),
            BlfError::ObjectHeader(size) => with_number(
                "corrupt BLF object header (size ",
                size as u128,
                ")",
            ),
            BlfError::ObjectTruncated => "BLF object is truncated".to_owned(),
            BlfError::ShortObject => "BLF object shorter than its header".to_owned(),
            BlfError::HeaderVersion(version) => with_number(
                "unsupported BLF object header version ",
                version as u128,
                "",
            ),
            BlfError::TimestampRange => "BLF object timestamp is out of range".to_owned(),
            BlfError::Container => "corrupt LOG_CONTAINER object".to_owned(),
            BlfError::Inflate => "failed to inflate BLF log container".to_owned(),
            BlfError::Compression(method) => with_number(
                "unsupported BLF container compression method ",
                method as u128,
                "",
            ),
        }
    }
}

impl SignalError {
    /// What is said about the error.
    pub open spec fn text(self) -> Seq<char> {
        match self {
            SignalError::MissingSeparator => "missing ':' separator"@,
            SignalError::MissingName => "missing signal name"@,
            SignalError::MuxIndicator => "invalid multiplex indicator"@,
            SignalError::MissingPlacement => "missing bit placement"@,
            SignalError::Placement => "bad bit placement"@,
            SignalError::StartBit => "bad start bit"@,
            SignalError::Length => "bad signal length"@,
            SignalError::LengthRange(length) => "signal length "@ + decimal(length as int)
                + " out of range"@,
            SignalError::ByteOrder => "bad byte order"@,
            SignalError::Sign => "bad sign indicator"@,
            SignalError::MissingScale => "missing factor/offset"@,
            SignalError::Scale => "bad factor/offset"@,
            SignalError::Factor => "bad factor"@,
            SignalError::Offset => "bad offset"@,
        }
    }

    /// What is said about the error.
    pub fn message(&self) -> (r: String)
        ensures
            r@ == self.text(),
    {
        match *self {
            SignalError::MissingSeparator => "missing ':' separator".to_owned(),
            SignalError::MissingName => "missing signal name".to_owned(),
            SignalError::MuxIndicator => "invalid multiplex indicator".to_owned(),
            SignalError::MissingPlacement => "missing bit placement".to_owned(),
            SignalError::Placement => "bad bit placement".to_owned(),
            SignalError::StartBit => "bad start bit".to_owned(),
            SignalError::Length => "bad signal length".to_owned(),
            SignalError::LengthRange(length) => with_number(
                "signal length ",
                length as u128,
                " out of range",
            ),
            SignalError::ByteOrder => "bad byte order".to_owned(),
            SignalError::Sign => "bad sign indicator".to_owned(),
            SignalError::MissingScale => "missing factor/offset".to_owned(),
            SignalError::Scale => "bad factor/offset".to_owned(),
            SignalError::Factor => "bad factor".to_owned(),
            SignalError::Offset => "bad offset".to_owned(),
        }
    }
}

impl LineError {
    /// What is said about the error.
    pub open spec fn text(self) -> Seq<char> {
        match self {
            LineError::MessageId => "invalid message id"@,
            LineError::MessageName => "missing message name"@,
            LineError::MessageDlc => "invalid message DLC"@,
            LineError::SignalBeforeMessage => "signal definition before any message"@,
            LineError::Signal(error) => "malformed signal: "@ + error.text(),
        }
    }

    /// What is said about the error.
    pub fn message(&self) -> (r: String)
        ensures
            r@ == self.text(),
    {
        match *self {
            LineError::MessageId => "invalid message id".to_owned(),
            LineError::MessageName => "missing message name".to_owned(),
            LineError::MessageDlc => "invalid message DLC".to_owned(),
            LineError::SignalBeforeMessage => "signal definition before any message".to_owned(),
            LineError::Signal(error) => {
                let mut r: String = "malformed signal: ".to_owned();
                push_text(&mut r, error.message().as_str());
                r
            },
        }
    }
}

impl DbcError {
    /// What is said about the error. Lines are counted from one.
    pub open spec fn text(self) -> Seq<char> {
        "DBC line "@ + decimal(self.line + 1) + ": "@ + self.error.text()
    }

    /// What is said about the error.
    pub fn message(&self) -> (r: String)
        ensures
            r@ == self.text(),
    {
        let mut r: String = with_number("DBC line ", self.line as u128 + 1, ": ");
        push_text(&mut r, self.error.message().as_str());
        r
    }
}

impl ConvertError {
    /// What is said about the error.
    pub open spec fn text(self) -> Seq<char> {
        match self {
            ConvertError::Interval => "resample interval must be greater than 0 ms"@,
            ConvertError::Dbc(error) => error.text(),
            ConvertError::NoMessages => "no messages found in DBC file (is it a valid DBC?)"@,
            ConvertError::Blf(error) => error.text(),
            ConvertError::OutputExists => "output file already exists"@,
            ConvertError::UnknownId(id) => "CAN ID 0x"@ + hexadecimal(id as int)
                + " is not defined in the DBC"@,
        }
    }

    /// What is said about the error.
    pub fn message(&self) -> (r: String)
        ensures
            r@ == self.text(),
    {
        match *self {
            ConvertError::Interval => "resample interval must be greater than 0 ms".to_owned(),
            ConvertError::Dbc(error) => error.message(),
            ConvertError::NoMessages =>
                "no messages found in DBC file (is it a valid DBC?)".to_owned(),
            ConvertError::Blf(error) => error.message(),
            ConvertError::OutputExists => "output file already exists".to_owned(),
            ConvertError::UnknownId(id) => {
                let mut r: String = "CAN ID 0x".to_owned();
                push_hexadecimal(&mut r, id);
                push_text(&mut r, " is not defined in the DBC");
                r
            },
        }
    }
}

/// What is said about an error names the number that the error carries: the
/// size, the version, the method, the length, the line counted from one, and
/// the identifier in hexadecimal notation.
pub proof fn law_errors_name_their_numbers(
    size: u32,
    version: u16,
    line: usize,
    error: LineError,
    id: u32,
)
    ensures
        contains_text(BlfError::HeaderSize(size).text(), decimal(size as int)),
        contains_text(BlfError::ObjectHeader(size).text(), decimal(size as int)),
        contains_text(BlfError::HeaderVersion(version).text(), decimal(version as int)),
        contains_text(BlfError::Compression(version).text(), decimal(version as int)),
        contains_text(SignalError::LengthRange(version).text(), decimal(version as int)),
        contains_text((DbcError { line, error }).text(), decimal(line + 1)),
        contains_text((DbcError { line, error }).text(), error.text()),
        contains_text(
            ConvertError::UnknownId(id).text(),
            seq!['0', 'x'] + hexadecimal(id as int),
        ),
{
    law_parts_are_found("invalid BLF header size: "@, decimal(size as int), ""@);
    law_parts_are_found("corrupt BLF object header (size "@, decimal(size as int), ")"@);
    law_parts_are_found("unsupported BLF object header version "@, decimal(version as int), ""@);
    law_parts_are_found(
        "unsupported BLF container compression method "@,
        decimal(version as int),
        ""@,
    );
    law_parts_are_found("signal length "@, decimal(version as int), " out of range"@);
    let d = DbcError { line, error };
    law_parts_are_found("DBC line "@, decimal(line + 1), ": "@ + error.text());
    assert(d.text() =~= "DBC line "@ + decimal(line + 1) + (": "@ + error.text()));
    law_parts_are_found("DBC line "@ + decimal(line + 1) + ": "@, error.text(), Seq::empty());
    assert(d.text() =~= "DBC line "@ + decimal(line + 1) + ": "@ + error.text() + Seq::empty());
    reveal_strlit("CAN ID 0x");
    let lead = "CAN ID 0x"@;
    let behind = " is not defined in the DBC"@;
    let number = seq!['0', 'x'] + hexadecimal(id as int);
    law_parts_are_found(lead.take(7), number, behind);
    assert(lead =~= lead.take(7) + seq!['0', 'x']);
    assert(ConvertError::UnknownId(id).text() =~= lead.take(7) + number + behind);
}

} // verus!
