use vstd::prelude::*;
use crate::txt::Token;

verus! {

/// Why a binary read failed.
#[derive(Debug, Clone, Copy, PartialEq, Eq, Structural)]
pub enum DecodeError {
    /// Fewer bytes remain than the field being read needs.
    InsufficientData,
    /// A label length byte uses one of the reserved high-bit patterns.
    UnrecognizedLabelCode(u8),
    /// A compression pointer does not point strictly backwards.
    BadPointer(u16),
    /// The decoded name is longer than 255 bytes in wire form.
    DomainNameTooLong,
}

/// Why a binary write failed.
#[derive(Debug, Clone, Copy, PartialEq, Eq, Structural)]
pub enum EncodeError {
    /// The write would take the buffer past its size limit.
    MaxBufferSizeExceeded(usize),
}

/// Which field of a record a parse error concerns.
#[derive(Debug, Clone, Copy, PartialEq, Eq, Structural)]
pub enum Field {
    Preference,
    Exchange,
}

/// Why a domain name could not be read from text.
#[derive(Debug, Clone, Copy, PartialEq, Eq, Structural)]
pub enum NameTextError {
    /// The text is empty.
    Empty,
    /// Two dots in a row, or a dot at the start of a name other than the root.
    EmptyLabel,
    /// A label of more than 63 bytes.
    LabelTooLong,
    /// The name is longer than 255 bytes in wire form.
    NameTooLong,
    /// A character outside ASCII, or a bad escape sequence.
    BadCharacter,
    /// A relative name was given with no origin to complete it.
    RelativeWithoutOrigin,
}

/// Why record data could not be read from zone-file tokens.
#[derive(Debug, Clone, PartialEq, Eq)]
pub enum ParseError {
    /// The tokens ran out before this field.
    MissingToken(Field),
    /// A token other than character data stood where a field was expected.
    UnexpectedToken(Token),
    /// The preference is not a decimal number from 0 to 65535.
    BadNumber,
    /// The exchange is not a valid domain name.
    BadName(NameTextError),
}

} // verus!
