//! Access to the bytes of a file by range, with every range checked
//! against the length of the buffer.
use crate::errors::IoError;
use vstd::prelude::*;
use vstd::slice::slice_subrange;

verus! {

/// How a file is opened.
#[derive(Debug, Clone, Copy, PartialEq, Eq)]
pub enum AccessMode {
    /// For reading only.
    ReadOnly,
    /// For reading and writing.
    ReadWrite,
}

/// The advisory lock that goes with an open file.
#[derive(Debug, Clone, Copy, PartialEq, Eq)]
pub enum LockKind {
    /// Held together with other shared locks.
    Shared,
    /// Held alone.
    Exclusive,
}

impl AccessMode {
    /// The lock that a file opened in this mode asks for: readers share
    /// theirs, a writer excludes everybody else.
    pub fn lock_kind(self) -> (k: LockKind)
        ensures
            k == (match self {
                AccessMode::ReadOnly => LockKind::Shared,
                AccessMode::ReadWrite => LockKind::Exclusive,
            }),
    {
        match self {
            AccessMode::ReadOnly => LockKind::Shared,
            AccessMode::ReadWrite => LockKind::Exclusive,
        }
    }
}

/// What became of an attempt to take a lock without waiting.
pub fn lock_outcome(acquired: bool) -> (r: Result<(), IoError>)
    ensures
        r == (if acquired {
            Ok::<(), IoError>(())
        } else {
            Err::<(), IoError>(IoError::LockContention)
        }),
{
    if acquired {
        Ok(())
    } else {
        Err(IoError::LockContention)
    }
}

/// The bytes `b` with `part` written over them from position `at` on.
pub open spec fn splice(b: Seq<u8>, at: int, part: Seq<u8>) -> Seq<u8> {
    b.subrange(0, at) + part + b.subrange(at + part.len(), b.len() as int)
}

/// Whether the range of `len` bytes from `offset` on lies within a buffer
/// of `total` bytes.
pub open spec fn in_bounds(total: int, offset: int, len: int) -> bool {
    offset + len <= total
}

/// Tells whether a range lies within a buffer of `total` bytes.
pub fn check_bounds(total: usize, offset: usize, len: usize) -> (ok: bool)
    ensures
        ok == in_bounds(total as int, offset as int, len as int),
{
    offset <= total && len <= total - offset
}

/// The `len` bytes from `offset` on, or an error where the buffer does not
/// hold them all.
pub fn read_at<'a>(bytes: &'a [u8], offset: usize, len: usize) -> (r: Result<&'a [u8], IoError>)
    ensures
        r is Ok <==> in_bounds(bytes@.len() as int, offset as int, len as int),
        r is Ok ==> r->Ok_0@ == bytes@.subrange(offset as int, offset + len),
        r is Err ==> r->Err_0 == IoError::OutOfBounds,
{
    if !check_bounds(bytes.len(), offset, len) {
        return Err(IoError::OutOfBounds);
    }
    Ok(slice_subrange(bytes, offset, offset + len))
}

/// Writes `part` over the bytes from `offset` on. Where the buffer does
/// not hold the whole range, nothing is written and an error comes back.
pub fn write_at(bytes: &mut [u8], offset: usize, part: &[u8]) -> (r: Result<(), IoError>)
    ensures
        r is Ok <==> in_bounds(old(bytes)@.len() as int, offset as int, part@.len() as int),
        r is Ok ==> final(bytes)@ == splice(old(bytes)@, offset as int, part@),
        r is Err ==> r->Err_0 == IoError::OutOfBounds && final(bytes)@ == old(bytes)@,
{
    if !check_bounds(bytes.len(), offset, part.len()) {
        return Err(IoError::OutOfBounds);
    }
    let n = part.len();
    let total = bytes.len();
    let mut i: usize = 0;
    assert(bytes@ =~= splice(old(bytes)@, offset as int, part@.subrange(0, 0)));
    while i < n
        invariant
            i <= n,
            n == part@.len(),
            offset + n <= total,
            bytes@.len() == total,
            old(bytes)@.len() == total,
            bytes@ == splice(old(bytes)@, offset as int, part@.subrange(0, i as int)),
        decreases n - i,
    {
        bytes[offset + i] = part[i];
        i = i + 1;
        assert(bytes@ =~= splice(old(bytes)@, offset as int, part@.subrange(0, i as int)));
    }
    assert(part@.subrange(0, n as int) =~= part@);
    Ok(())
}

} // verus!
