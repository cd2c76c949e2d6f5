//! What can go wrong with a P4K archive.

use vstd::prelude::*;
use vstd::string::*;

use crate::text;
use crate::text::{dec, hex_digits};

verus! {

/// Class of an input or output failure.
#[derive(Debug, Clone, Copy, PartialEq, Eq, Structural)]
pub enum IoErrorKind {
    /// A parameter is not usable.
    InvalidInput,
    /// The data itself is not usable.
    InvalidData,
    /// The data ends too early.
    UnexpectedEof,
    /// What was asked for does not exist.
    NotFound,
    /// Any other failure.
    Other,
}

/// Errors that can occur when working with P4K archives.
#[derive(Debug)]
#[allow(inconsistent_fields)]
pub enum Error {
    /// I/O error.
    Io { kind: IoErrorKind, message: String },
    /// A fixed-size structure does not fit in the bytes that are left.
    UnexpectedEof { needed: u64, available: u64 },
    /// Invalid ZIP magic bytes.
    InvalidSignature { expected: u32, actual: u32 },
    /// Could not find the end of central directory record.
    EocdNotFound,
    /// ZIP64 record not found when expected.
    Zip64EocdNotFound,
    /// Invalid extra field ID.
    InvalidExtraFieldId { expected: u16, actual: u16 },
    /// Unsupported compression method.
    UnsupportedCompression(u16),
    /// Unsupported version.
    UnsupportedVersion(u16),
    /// V2 EOCDR was found but its internal layout is inconsistent.
    MalformedV2Eocdr(String),
    /// V2 CDR contains an entry whose name offset / data offset is
    /// outside the bounds of the archive.
    MalformedV2Entry(String),
    /// V1 install block is missing or inconsistent with the CDR.
    MalformedV1InstallBlock(String),
    /// V1 CDR entry is internally inconsistent.
    MalformedV1Entry(String),
    /// P4K subarchive trailer or CDR metadata is inconsistent.
    MalformedSubArchive(String),
    /// Entry data CRC does not match metadata.
    CrcMismatch { expected: u32, actual: u32 },
    /// Entry raw payload SHA-256 does not match metadata.
    Sha256Mismatch { expected: [u8; 32], actual: [u8; 32] },
    /// Decompression error.
    Decompression(String),
    /// Decryption error.
    Decryption(String),
    /// Encryption error.
    Encryption(String),
    /// Entry not found.
    EntryNotFound(String),
}

/// Result type for P4K operations.
pub type Result<T> = std::result::Result<T, Error>;

/// What an [`Error`] says, with its texts as character sequences.
#[allow(inconsistent_fields)]
pub enum Fault {
    Io { kind: IoErrorKind, message: Seq<char> },
    UnexpectedEof { needed: u64, available: u64 },
    InvalidSignature { expected: u32, actual: u32 },
    EocdNotFound,
    Zip64EocdNotFound,
    InvalidExtraFieldId { expected: u16, actual: u16 },
    UnsupportedCompression(u16),
    UnsupportedVersion(u16),
    MalformedV2Eocdr(Seq<char>),
    MalformedV2Entry(Seq<char>),
    MalformedV1InstallBlock(Seq<char>),
    MalformedV1Entry(Seq<char>),
    MalformedSubArchive(Seq<char>),
    CrcMismatch { expected: u32, actual: u32 },
    Sha256Mismatch { expected: Seq<u8>, actual: Seq<u8> },
    Decompression(Seq<char>),
    Decryption(Seq<char>),
    Encryption(Seq<char>),
    EntryNotFound(Seq<char>),
}

impl View for Error {
    type V = Fault;

    open spec fn view(&self) -> Fault {
        match self {
            Error::Io { kind, message } => Fault::Io { kind: *kind, message: message@ },
            Error::UnexpectedEof { needed, available } => Fault::UnexpectedEof {
                needed: *needed,
                available: *available,
            },
            Error::InvalidSignature { expected, actual } => Fault::InvalidSignature {
                expected: *expected,
                actual: *actual,
            },
            Error::EocdNotFound => Fault::EocdNotFound,
            Error::Zip64EocdNotFound => Fault::Zip64EocdNotFound,
            Error::InvalidExtraFieldId { expected, actual } => Fault::InvalidExtraFieldId {
                expected: *expected,
                actual: *actual,
            },
            Error::UnsupportedCompression(method) => Fault::UnsupportedCompression(*method),
            Error::UnsupportedVersion(version) => Fault::UnsupportedVersion(*version),
            Error::MalformedV2Eocdr(text) => Fault::MalformedV2Eocdr(text@),
            Error::MalformedV2Entry(text) => Fault::MalformedV2Entry(text@),
            Error::MalformedV1InstallBlock(text) => Fault::MalformedV1InstallBlock(text@),
            Error::MalformedV1Entry(text) => Fault::MalformedV1Entry(text@),
            Error::MalformedSubArchive(text) => Fault::MalformedSubArchive(text@),
            Error::CrcMismatch { expected, actual } => Fault::CrcMismatch {
                expected: *expected,
                actual: *actual,
            },
            Error::Sha256Mismatch { expected, actual } => Fault::Sha256Mismatch {
                expected: expected@,
                actual: actual@,
            },
            Error::Decompression(text) => Fault::Decompression(text@),
            Error::Decryption(text) => Fault::Decryption(text@),
            Error::Encryption(text) => Fault::Encryption(text@),
            Error::EntryNotFound(text) => Fault::EntryNotFound(text@),
        }
    }
}

/// The fault of an unusable parameter.
pub open spec fn invalid_input_fault(message: Seq<char>) -> Fault {
    Fault::Io { kind: IoErrorKind::InvalidInput, message }
}

/// The fault of data that ends too early.
pub open spec fn eof_fault(message: Seq<char>) -> Fault {
    Fault::Io { kind: IoErrorKind::UnexpectedEof, message }
}

/// The fault of something missing.
pub open spec fn not_found_fault(message: Seq<char>) -> Fault {
    Fault::Io { kind: IoErrorKind::NotFound, message }
}

/// Report an unusable parameter.
pub fn invalid_input(message: &str) -> (e: Error)
    ensures
        e@ == invalid_input_fault(message@),
{
    Error::Io { kind: IoErrorKind::InvalidInput, message: String::from_str(message) }
}

/// Report data that ends too early.
pub fn unexpected_eof(message: &str) -> (e: Error)
    ensures
        e@ == eof_fault(message@),
{
    Error::Io { kind: IoErrorKind::UnexpectedEof, message: String::from_str(message) }
}

/// Report something missing.
pub fn not_found(message: &str) -> (e: Error)
    ensures
        e@ == not_found_fault(message@),
{
    Error::Io { kind: IoErrorKind::NotFound, message: String::from_str(message) }
}

/// Report an inconsistent v1 directory.
pub(crate) fn bad_v1_directory<T>(message: String) -> (r: Result<T>)
    ensures
        r matches Err(e) && e@ == Fault::MalformedV1InstallBlock(message@),
{
    Err(Error::MalformedV1InstallBlock(message))
}

/// Report an inconsistent v1 entry.
pub(crate) fn bad_v1_entry<T>(message: String) -> (r: Result<T>)
    ensures
        r matches Err(e) && e@ == Fault::MalformedV1Entry(message@),
{
    Err(Error::MalformedV1Entry(message))
}

/// A result as its fault or its value.
pub open spec fn outcome<T>(r: Result<T>) -> std::result::Result<T, Fault> {
    match r {
        Ok(v) => Ok(v),
        Err(e) => Err(e@),
    }
}

/// The bytes of a digest in decimal, as a bracketed list.
pub open spec fn byte_list_text(bytes: Seq<u8>) -> Seq<char>
    decreases bytes.len(),
{
    if bytes.len() == 0 {
        "["@
    } else if bytes.len() == 1 {
        "["@ + text::dec_text(bytes[0] as nat)
    } else {
        byte_list_text(bytes.drop_last()) + ", "@ + text::dec_text(bytes.last() as nat)
    }
}

fn byte_list(bytes: &[u8]) -> (s: String)
    ensures
        s@ == byte_list_text(bytes@) + "]"@,
{
    let mut s = String::from_str("[");
    let mut i: usize = 0;
    while i < bytes.len()
        invariant
            i <= bytes@.len(),
            s@ == byte_list_text(bytes@.take(i as int)),
        decreases bytes@.len() - i,
    {
        proof {
            assert(bytes@.take(i + 1).drop_last() =~= bytes@.take(i as int));
            assert(bytes@.take(i as int).len() == 0 ==> bytes@.take(i as int) =~= Seq::<u8>::empty());
        }
        if i != 0 {
            s.append(", ");
        }
        s.append(dec(bytes[i] as u64).as_str());
        i += 1;
    }
    proof {
        assert(bytes@.take(i as int) =~= bytes@);
    }
    s.concat("]")
}

impl Fault {
    /// The line that describes the fault to a reader.
    pub open spec fn text(self) -> Seq<char> {
        match self {
            Fault::Io { kind, message } => "I/O error: "@ + message,
            Fault::UnexpectedEof { needed, available } => "unexpected end of data: needed "@
                + text::dec_text(needed as nat) + " bytes, "@ + text::dec_text(available as nat)
                + " available"@,
            Fault::InvalidSignature { expected, actual } => "invalid ZIP signature: expected 0x"@
                + text::hex_digits_text(expected as nat, 8) + ", got 0x"@ + text::hex_digits_text(
                actual as nat,
                8,
            ),
            Fault::EocdNotFound => "could not find end of central directory record"@,
            Fault::Zip64EocdNotFound => "ZIP64 end of central directory not found"@,
            Fault::InvalidExtraFieldId { expected, actual } =>
                "invalid extra field ID: expected 0x"@ + text::hex_digits_text(expected as nat, 4)
                + ", got 0x"@ + text::hex_digits_text(actual as nat, 4),
            Fault::UnsupportedCompression(method) => "unsupported compression method: "@
                + text::dec_text(method as nat),
            Fault::UnsupportedVersion(version) => "unsupported version: "@ + text::dec_text(
                version as nat,
            ),
            Fault::MalformedV2Eocdr(text) => "malformed P4K v2 EOCDR: "@ + text,
            Fault::MalformedV2Entry(text) => "malformed P4K v2 CDR entry: "@ + text,
            Fault::MalformedV1InstallBlock(text) => "malformed P4K v1 install block: "@ + text,
            Fault::MalformedV1Entry(text) => "malformed P4K v1 CDR entry: "@ + text,
            Fault::MalformedSubArchive(text) => "malformed P4K subarchive: "@ + text,
            Fault::CrcMismatch { expected, actual } => "CRC32 mismatch: expected 0x"@
                + text::hex_digits_text(expected as nat, 8) + ", got 0x"@ + text::hex_digits_text(
                actual as nat,
                8,
            ),
            Fault::Sha256Mismatch { expected, actual } => "SHA-256 mismatch: expected "@ + (
            byte_list_text(expected) + "]"@) + ", got "@ + (byte_list_text(actual) + "]"@),
            Fault::Decompression(text) => "decompression error: "@ + text,
            Fault::Decryption(text) => "decryption error: "@ + text,
            Fault::Encryption(text) => "encryption error: "@ + text,
            Fault::EntryNotFound(text) => "entry not found: "@ + text,
        }
    }
}

impl Error {
    /// Describe the error in one line.
    pub fn message(&self) -> (s: String)
        ensures
            s@ == self@.text(),
    {
        match self {
            Error::Io { kind: _, message } => String::from_str("I/O error: ").concat(
                message.as_str(),
            ),
            Error::UnexpectedEof { needed, available } => String::from_str(
                "unexpected end of data: needed ",
            ).concat(dec(*needed).as_str()).concat(" bytes, ").concat(
                dec(*available).as_str(),
            ).concat(" available"),
            Error::InvalidSignature { expected, actual } => String::from_str(
                "invalid ZIP signature: expected 0x",
            ).concat(hex_digits(*expected as u64, 8).as_str()).concat(", got 0x").concat(
                hex_digits(*actual as u64, 8).as_str(),
            ),
            Error::EocdNotFound => String::from_str(
                "could not find end of central directory record",
            ),
            Error::Zip64EocdNotFound => String::from_str(
                "ZIP64 end of central directory not found",
            ),
            Error::InvalidExtraFieldId { expected, actual } => String::from_str(
                "invalid extra field ID: expected 0x",
            ).concat(hex_digits(*expected as u64, 4).as_str()).concat(", got 0x").concat(
                hex_digits(*actual as u64, 4).as_str(),
            ),
            Error::UnsupportedCompression(method) => String::from_str(
                "unsupported compression method: ",
            ).concat(dec(*method as u64).as_str()),
            Error::UnsupportedVersion(version) => String::from_str("unsupported version: ").concat(
                dec(*version as u64).as_str(),
            ),
            Error::MalformedV2Eocdr(text) => String::from_str("malformed P4K v2 EOCDR: ").concat(
                text.as_str(),
            ),
            Error::MalformedV2Entry(text) => String::from_str(
                "malformed P4K v2 CDR entry: ",
            ).concat(text.as_str()),
            Error::MalformedV1InstallBlock(text) => String::from_str(
                "malformed P4K v1 install block: ",
            ).concat(text.as_str()),
            Error::MalformedV1Entry(text) => String::from_str(
                "malformed P4K v1 CDR entry: ",
            ).concat(text.as_str()),
            Error::MalformedSubArchive(text) => String::from_str(
                "malformed P4K subarchive: ",
            ).concat(text.as_str()),
            Error::CrcMismatch { expected, actual } => String::from_str(
                "CRC32 mismatch: expected 0x",
            ).concat(hex_digits(*expected as u64, 8).as_str()).concat(", got 0x").concat(
                hex_digits(*actual as u64, 8).as_str(),
            ),
            Error::Sha256Mismatch { expected, actual } => String::from_str(
                "SHA-256 mismatch: expected ",
            ).concat(byte_list(expected.as_slice()).as_str()).concat(", got ").concat(
                byte_list(actual.as_slice()).as_str(),
            ),
            Error::Decompression(text) => String::from_str("decompression error: ").concat(
                text.as_str(),
            ),
            Error::Decryption(text) => String::from_str("decryption error: ").concat(
                text.as_str(),
            ),
            Error::Encryption(text) => String::from_str("encryption error: ").concat(
                text.as_str(),
            ),
            Error::EntryNotFound(text) => String::from_str("entry not found: ").concat(
                text.as_str(),
            ),
        }
    }
}

} // verus!
