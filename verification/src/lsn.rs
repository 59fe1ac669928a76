//! Log sequence numbers, log identities and the metadata version counter.
//!
//! An [`Lsn`] is a strictly increasing 64-bit position within one log. The
//! value `0` is the `INVALID` sentinel and is never the position of a payload;
//! `u64::MAX` is the `MAX` sentinel used by readers to mean "follow the tail".

use vstd::prelude::*;

verus! {

/// The invalid (zero) sequence number; never the position of a payload.
pub const LSN_INVALID: u64 = 0;

/// The first sequence number a record can occupy.
pub const LSN_OLDEST: u64 = 1;

/// The greatest representable sequence number, used as a sentinel by readers.
pub const LSN_MAX: u64 = u64::MAX;

/// A log sequence number: a position within one log.
#[derive(Clone, Copy, Debug, Hash, PartialEq, Eq, Structural)]
pub struct Lsn(pub u64);

impl Lsn {
    /// The invalid sentinel, below every record position.
    pub fn invalid() -> (r: Self)
        ensures
            r.0 == LSN_INVALID,
    {
        Lsn(LSN_INVALID)
    }

    /// The first position a record can occupy.
    pub fn oldest() -> (r: Self)
        ensures
            r.0 == LSN_OLDEST,
    {
        Lsn(LSN_OLDEST)
    }

    /// The tail-following sentinel, above every record position.
    pub fn max_sentinel() -> (r: Self)
        ensures
            r.0 == LSN_MAX,
    {
        Lsn(LSN_MAX)
    }

    pub fn new(value: u64) -> (r: Self)
        ensures
            r.0 == value,
    {
        Lsn(value)
    }

    pub fn value(self) -> (r: u64)
        ensures
            r == self.0,
    {
        self.0
    }

    /// The position directly after this one.
    pub fn next(self) -> (r: Self)
        requires
            self.0 < u64::MAX,
        ensures
            r.0 == self.0 + 1,
    {
        Lsn(self.0 + 1)
    }

    /// The position directly before this one.
    pub fn prev(self) -> (r: Self)
        requires
            self.0 > 0,
        ensures
            r.0 == self.0 - 1,
    {
        Lsn(self.0 - 1)
    }
}

/// The stable identity of one logical log.
#[derive(Clone, Copy, Debug, Hash, PartialEq, Eq, Structural)]
pub struct LogId(pub u64);

impl LogId {
    pub fn new(value: u64) -> (r: Self)
        ensures
            r.0 == value,
    {
        LogId(value)
    }

    pub fn value(self) -> (r: u64)
        ensures
            r == self.0,
    {
        self.0
    }
}

/// The monotonic version of the process-wide logs metadata snapshot.
#[derive(Clone, Copy, Debug, Hash, PartialEq, Eq, Structural)]
pub struct Version(pub u64);

impl Version {
    pub fn new(value: u64) -> (r: Self)
        ensures
            r.0 == value,
    {
        Version(value)
    }

    pub fn value(self) -> (r: u64)
        ensures
            r == self.0,
    {
        self.0
    }
}

} // verus!
