use crate::address::Address;
use std::ops::Range;
use vstd::prelude::*;

verus! {

#[verifier::external_type_specification]
#[verifier::external_body]
pub struct ExIoError(std::io::Error);

/// The ways reading memory can fail.
pub enum Error {
    /// No segment holds the requested bytes.
    NoSegment,
    /// The segment could not read its bytes.
    IOError(std::io::Error),
}

/// A contiguous piece of an address space that can be read.
pub trait Segment {
    /// Whether the segment holds `length` bytes from `address` on.
    spec fn holds(&self, address: Address, length: u64) -> bool;

    /// The addresses that the segment covers.
    fn range(&self) -> Range<Address>;

    /// Does the segment hold `length` bytes from `address` on?
    fn contains(&self, address: &Address, length: u64) -> (r: bool)
        ensures
            r == self.holds(*address, length),
    ;

    /// What reading `length` bytes from `address` on gives.
    spec fn spec_read_bytes(&self, address: Address, length: u64) -> Result<Vec<u8>, Error>;

    /// Read `length` bytes from `address` on.
    fn read_bytes(&self, address: &Address, length: u64) -> (r: Result<&[u8], Error>)
        ensures
            read_result(r, self.spec_read_bytes(*address, length)),
    ;
}

/// Whether `r` is the outcome `expected`: the same bytes, or the same error.
pub open spec fn read_result(r: Result<&[u8], Error>, expected: Result<Vec<u8>, Error>) -> bool {
    match (r, expected) {
        (Ok(b), Ok(v)) => b@ == v@,
        (Err(e), Err(f)) => e == f,
        _ => false,
    }
}

/// An address space made of segments.
pub struct Memory<'m, S: Segment> {
    segments: Vec<&'m S>,
}

impl<'m, S: Segment> Memory<'m, S> {
    /// The segments, in the order they are searched.
    pub closed spec fn segments(&self) -> Seq<&'m S> {
        self.segments@
    }

    /// A memory with no segment.
    pub fn new() -> (r: Self)
        ensures
            r.segments().len() == 0,
    {
        Memory { segments: Vec::new() }
    }

    /// Read `length` bytes from `address` on, from the first segment that
    /// holds them, passing its outcome on; `NoSegment` when none does.
    pub fn read_bytes(&self, address: &Address, length: u64) -> (r: Result<&[u8], Error>)
        ensures
            (forall|i: int| 0 <= i < self.segments().len() ==> !(#[trigger] self.segments()[i]).holds(*address, length))
                ==> r matches Err(Error::NoSegment),
            forall|k: int|
                0 <= k < self.segments().len() && (#[trigger] self.segments()[k]).holds(*address, length) && (forall|j: int|
                    0 <= j < k ==> !(#[trigger] self.segments()[j]).holds(*address, length)) ==> read_result(
                    r,
                    self.segments()[k].spec_read_bytes(*address, length),
                ),
    {
        let mut i: usize = 0;
        while i < self.segments.len()
            invariant
                i <= self.segments@.len(),
                forall|j: int| 0 <= j < i ==> !(#[trigger] self.segments@[j]).holds(*address, length),
            decreases self.segments@.len() - i,
        {
            let s = self.segments[i];
            if s.contains(address, length) {
                assert(self.segments()[i as int].holds(*address, length));
                let r = s.read_bytes(address, length);
                assert forall|k: int|
                    0 <= k < self.segments().len() && (#[trigger] self.segments()[k]).holds(*address, length) && (forall|j: int|
                        0 <= j < k ==> !(#[trigger] self.segments()[j]).holds(*address, length)) implies read_result(
                        r,
                        self.segments()[k].spec_read_bytes(*address, length),
                    ) by {
                    if k > i {
                        assert(!self.segments()[i as int].holds(*address, length));
                    }
                }
                return r;
            }
            i = i + 1;
        }
        Err(Error::NoSegment)
    }
}

} // verus!
