//! A thin wrapper around a byte count, so that sizes and offsets are not
//! confused with other integers.

use vstd::prelude::*;

verus! {

/// A number of bytes, as stored on disk or counted while replaying a log.
#[derive(Debug, Clone, Copy, PartialEq, Eq, Structural)]
pub struct Bytes(pub u64);

impl Bytes {
    /// The sum of two byte counts.
    pub fn add(self, rhs: Bytes) -> (r: Bytes)
        requires
            self.0 + rhs.0 <= u64::MAX,
        ensures
            r.0 == self.0 + rhs.0,
    {
        Bytes(self.0 + rhs.0)
    }

    /// Add a byte count in place.
    pub fn add_assign(&mut self, rhs: Bytes)
        requires
            old(self).0 + rhs.0 <= u64::MAX,
        ensures
            final(self).0 == old(self).0 + rhs.0,
    {
        self.0 = self.0 + rhs.0;
    }

    /// The difference of two byte counts.
    pub fn sub(self, rhs: Bytes) -> (r: Bytes)
        requires
            rhs.0 <= self.0,
        ensures
            r.0 == self.0 - rhs.0,
    {
        Bytes(self.0 - rhs.0)
    }


    /// Add, stopping at the largest representable count.
    pub fn saturating_add(self, rhs: u64) -> (r: Bytes)
        ensures
            r.0 == if self.0 + rhs <= u64::MAX {
                self.0 + rhs
            } else {
                u64::MAX as int
            },
            r.0 >= self.0,
    {
        if self.0 > u64::MAX - rhs {
            Bytes(u64::MAX)
        } else {
            Bytes(self.0 + rhs)
        }
    }

    /// The byte count of an in-memory buffer length.
    pub fn from_usize(n: usize) -> (r: Bytes)
        ensures
            r.0 == n,
    {
        Bytes(n as u64)
    }
}

} // verus!
