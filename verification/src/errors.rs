//! The errors that the library reports.
use vstd::prelude::*;

verus! {

/// Why a byte buffer could not be decoded.
#[derive(Debug, Clone, Copy, PartialEq, Eq)]
pub enum ParseError {
    /// The buffer ends before the field that was to be read.
    TruncatedInput,
    /// The aggregation code, given here, is none of the eight known ones.
    InvalidAggregation(u32),
    /// An archive's declared offset is not where the archives before it end.
    InconsistentLayout,
}

/// Why a proposed header was turned down.
#[derive(Debug, Clone, Copy, PartialEq, Eq)]
pub enum ValidationError {
    /// An archive's step is zero or not larger than the step before it.
    NonAscendingPrecision,
    /// An archive's step is no multiple of the step before it.
    NonDivisibleStep,
    /// An archive's retention is zero or not larger than the retention
    /// before it.
    RetentionTooShort,
    /// The x-files factor lies outside the interval from zero to one.
    InvalidXFilesFactor,
    /// There is no archive at all.
    EmptyArchiveList,
    /// The metadata's archive count differs from the number of archives.
    ArchiveCountMismatch,
    /// The metadata's maximal retention is not the last archive's retention.
    MaxRetentionMismatch,
    /// An offset or the maximal retention would not fit its 32 bits.
    TooLarge,
}

/// Why access to a byte stream failed.
#[derive(Debug, Clone, Copy, PartialEq, Eq)]
pub enum IoError {
    /// Another holder's lock excludes the requested one.
    LockContention,
    /// The requested range does not lie within the stream.
    OutOfBounds,
}

/// Why a time range or a timestamp was turned down.
#[derive(Debug, Clone, Copy, PartialEq, Eq)]
pub enum RangeError {
    /// The end of the interval is not after its start.
    InvalidInterval,
    /// The timestamp is further back than the file retains.
    TimestampTooOld,
    /// The timestamp is later than the present moment.
    TimestampInFuture,
}

/// Any error of the library.
#[derive(Debug, Clone, Copy, PartialEq, Eq)]
pub enum Error {
    Parse(ParseError),
    Validation(ValidationError),
    Io(IoError),
    Range(RangeError),
}

} // verus!
