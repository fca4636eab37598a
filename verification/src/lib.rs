//! Parsing and applying IPS, UPS and BPS binary patches.
//!
//! Every format is parsed from the bytes of the patch file and applied to the
//! bytes of the input file. The contracts state the result of each operation
//! over the grammar of the format, written as spec functions over `Seq<u8>`.
use vstd::prelude::*;

pub mod bps;
pub mod bytes;
pub mod ips;
pub mod message;
pub mod paths;
pub mod ups;
pub mod varint;

verus! {

/// How many bytes a record keeps inline before it allocates.
pub const INLINE_DATA_SIZE: usize = 16;

#[verifier::external_type_specification]
#[verifier::external_body]
pub struct ExIoError(std::io::Error);

#[verifier::external_type_specification]
#[verifier::external_body]
pub struct ExFromUtf8Error(std::string::FromUtf8Error);

#[verifier::external_type_specification]
pub struct ExIoErrorKind(std::io::ErrorKind);

/// The errors of parsing and applying a patch.
#[derive(Debug)]
#[non_exhaustive]
#[allow(inconsistent_fields)]
pub enum Error {
    InvalidHeader,
    InvalidInputChecksum { expected: u32, actual: u32 },
    InvalidInputSize { expected: u64, actual: u64 },
    InvalidOutputChecksum { expected: u32, actual: u32 },
    InvalidOutputSize { expected: u64, actual: u64 },
    IO(std::io::Error),
    VariableIntegerOverflow(&'static str),
    OffsetOverflow(&'static str),
    InvalidMetadata(std::string::FromUtf8Error),
    ZeroSizedHunk,
}

/// The model of an [`Error`]: the same variants, with the payloads that the
/// contracts speak of.
#[allow(inconsistent_fields)]
pub enum Failure {
    InvalidHeader,
    InvalidInputChecksum { expected: u32, actual: u32 },
    InvalidInputSize { expected: u64, actual: u64 },
    InvalidOutputChecksum { expected: u32, actual: u32 },
    InvalidOutputSize { expected: u64, actual: u64 },
    /// An I/O error of the given kind: `UnexpectedEof` for a read past the
    /// end of the data, `InvalidInput` for a seek before its start.
    Io(std::io::ErrorKind),
    VariableIntegerOverflow(Seq<char>),
    OffsetOverflow(Seq<char>),
    InvalidMetadata,
    ZeroSizedHunk,
}

/// `e` is the error that `f` describes.
pub open spec fn error_matches(e: Error, f: Failure) -> bool {
    match f {
        Failure::InvalidHeader => e is InvalidHeader,
        Failure::InvalidInputChecksum { expected, actual } => e == (Error::InvalidInputChecksum {
            expected,
            actual,
        }),
        Failure::InvalidInputSize { expected, actual } => e == (Error::InvalidInputSize {
            expected,
            actual,
        }),
        Failure::InvalidOutputChecksum { expected, actual } => e == (Error::InvalidOutputChecksum {
            expected,
            actual,
        }),
        Failure::InvalidOutputSize { expected, actual } => e == (Error::InvalidOutputSize {
            expected,
            actual,
        }),
        Failure::Io(kind) => e == Error::IO(io_error_from(kind)),
        Failure::VariableIntegerOverflow(what) => e matches Error::VariableIntegerOverflow(w)
            && w@ == what,
        Failure::OffsetOverflow(what) => e matches Error::OffsetOverflow(w) && w@ == what,
        Failure::InvalidMetadata => e is InvalidMetadata,
        Failure::ZeroSizedHunk => e is ZeroSizedHunk,
    }
}

/// The outcome of a step that may also be an unrecoverable fault: `Abort`
/// stands for an index out of range or an arithmetic overflow, which the
/// verified functions rule out by `requires` or report as `None`.
pub enum Outcome<T> {
    Value(T),
    Fail(Failure),
    Abort,
}

/// `r` is what the spec result `s` describes.
pub open spec fn result_matches<T>(r: Result<T, Error>, s: Result<T, Failure>) -> bool {
    match s {
        Ok(v) => r == Ok::<T, Error>(v),
        Err(f) => r matches Err(e) && error_matches(e, f),
    }
}

/// `r` is what the outcome `s` describes; `s` is not `Abort`.
pub open spec fn outcome_matches<T>(r: Result<T, Error>, s: Outcome<T>) -> bool {
    match s {
        Outcome::Value(v) => r == Ok::<T, Error>(v),
        Outcome::Fail(f) => r matches Err(e) && error_matches(e, f),
        Outcome::Abort => false,
    }
}

/// The error that `std::io::Error::from` builds from the kind `kind`.
pub uninterp spec fn io_error_from(kind: std::io::ErrorKind) -> std::io::Error;

/// Calls `std::io::Error::from` on an `ErrorKind`: an error of that kind,
/// with no message and no source. The result is named after the kind.
#[verifier::external_body]
pub(crate) fn io_error(kind: std::io::ErrorKind) -> (e: std::io::Error)
    ensures
        e == io_error_from(kind),
{
    std::io::Error::from(kind)
}

/// The failure of a read past the end of the data.
pub open spec fn eof_failure() -> Failure {
    Failure::Io(std::io::ErrorKind::UnexpectedEof)
}

/// The failure of a seek before the start of the data.
pub open spec fn seek_failure() -> Failure {
    Failure::Io(std::io::ErrorKind::InvalidInput)
}

/// The error of a read past the end of the data.
pub(crate) fn eof_error() -> (e: Error)
    ensures
        error_matches(e, eof_failure()),
{
    Error::IO(io_error(std::io::ErrorKind::UnexpectedEof))
}

/// The error of a seek before the start of the data.
pub(crate) fn seek_error() -> (e: Error)
    ensures
        error_matches(e, seek_failure()),
{
    Error::IO(io_error(std::io::ErrorKind::InvalidInput))
}

/// The CRC-32 (ISO-HDLC) checksum of `data`, as the `crc` crate computes it.
pub uninterp spec fn crc32_checksum(data: Seq<u8>) -> u32;

/// Calls `crc::Crc::<u32>::checksum` with the CRC-32/ISO-HDLC algorithm of
/// `crc-catalog`. The contract only names the result: it is a function of
/// the bytes alone.
#[verifier::external_body]
fn crc32_of(data: &[u8]) -> (r: u32)
    ensures
        r == crc32_checksum(data@),
{
    crc::Crc::<u32>::new(&crc::CRC_32_ISO_HDLC).checksum(data)
}

/// The CRC-32 of all of `data`.
pub fn crc32(data: &[u8]) -> (r: u32)
    ensures
        r == crc32_checksum(data@),
{
    crc32_length(data, None)
}

/// The bytes that a checksum over at most `length` bytes of `data` covers.
pub open spec fn checksum_prefix(data: Seq<u8>, length: Option<usize>) -> Seq<u8> {
    match length {
        Some(n) => if n < data.len() {
            data.take(n as int)
        } else {
            data
        },
        None => data,
    }
}

/// The CRC-32 of the first `length` bytes of `data` (of all of it where
/// `length` is `None` or at least its length).
pub fn crc32_length(data: &[u8], length: Option<usize>) -> (r: u32)
    ensures
        r == crc32_checksum(checksum_prefix(data@, length)),
{
    let end: usize = match length {
        Some(n) => if n < data.len() {
            n
        } else {
            data.len()
        },
        None => data.len(),
    };
    let covered = &data[0..end];
    proof {
        assert(covered@ =~= checksum_prefix(data@, length));
    }
    crc32_of(covered)
}

} // verus!
