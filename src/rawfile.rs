//! An owned file descriptor.

use vstd::prelude::*;

use crate::types::c_int;

verus! {

/// A file descriptor that this value owns. Opening, duplicating and closing
/// are the caller's calls; this type records their outcome.
pub struct RawFile(c_int);

impl View for RawFile {
    type V = c_int;

    closed spec fn view(&self) -> c_int {
        self.0
    }
}

impl RawFile {
    /// Takes the result of an `open` call: `-1` reports a failure, any other
    /// value is the new descriptor.
    pub fn open(fd: c_int) -> (r: Result<RawFile, ()>)
        ensures
            fd == -1 ==> r is Err,
            fd != -1 ==> (r matches Ok(f) && f@ == fd),
    {
        match fd {
            -1 => Err(()),
            n => Ok(RawFile(n)),
        }
    }

    /// Takes the result of a `dup` call on this descriptor: `-1` reports a
    /// failure, any other value is the copy.
    pub fn dup(&self, copy: c_int) -> (r: Result<RawFile, ()>)
        ensures
            copy == -1 ==> r is Err,
            copy != -1 ==> (r matches Ok(f) && f@ == copy),
    {
        RawFile::open(copy)
    }

    pub fn as_raw_fd(&self) -> (r: c_int)
        ensures
            r == self@,
    {
        self.0
    }

    /// Gives up ownership of the descriptor.
    pub fn into_raw_fd(self) -> (r: c_int)
        ensures
            r == self@,
    {
        self.0
    }

    /// Takes ownership of a descriptor.
    pub fn from_fd(fd: c_int) -> (r: Self)
        ensures
            r@ == fd,
    {
        RawFile(fd)
    }
}

} // verus!
