use vstd::prelude::*;

use crate::byte_order::ByteOrder;
use crate::error::Error;

verus! {

/// The result of a read: the decoded value paired with the number of bytes
/// it consumed, which a variable-length decoder only knows once decoding is
/// done.
#[derive(Debug, PartialEq)]
pub struct ReadOutput<T: Sized> {
    data: T,
    read_bytes: usize,
}

impl<T: Sized> ReadOutput<T> {
    /// The decoded value.
    pub closed spec fn spec_data(&self) -> T {
        self.data
    }

    /// The number of bytes the decoder consumed.
    pub closed spec fn spec_read_bytes(&self) -> usize {
        self.read_bytes
    }

    #[inline(always)]
    pub fn new(data: T, read_bytes: usize) -> (r: Self)
        ensures
            r.spec_data() == data,
            r.spec_read_bytes() == read_bytes,
    {
        Self { data, read_bytes }
    }

    /// Consumes the read output and returns the inner data.
    #[inline(always)]
    pub fn into_data(self) -> (r: T)
        ensures
            r == self.spec_data(),
    {
        self.data
    }

    /// Returns the number of bytes used to read the data.
    #[inline(always)]
    pub fn get_read_bytes(&self) -> (r: usize)
        ensures
            r == self.spec_read_bytes(),
    {
        self.read_bytes
    }

    /// Converts the data of the read output into a new type, keeping the
    /// count of consumed bytes.
    #[inline(always)]
    pub fn into_other<U: From<T>>(self) -> (r: ReadOutput<U>)
        ensures
            r.spec_read_bytes() == self.spec_read_bytes(),
            call_ensures(U::from, (self.spec_data(),), r.spec_data()),
    {
        let read_bytes = self.read_bytes;
        let data = U::from(self.data);
        ReadOutput { data, read_bytes }
    }
}

/// A type that can be decoded from an endian-explicit byte representation.
///
/// This is the library's extensibility point: any type, not just the
/// fixed-width scalars, may define how many bytes it consumes, so nested and
/// dynamically sized values compose with the readers of this library.
///
/// The three specification members describe the decoder exactly:
/// `read_ok` says on which inputs it succeeds, `read_match` pins the value
/// and consumed count it returns, and `read_err` gives the failure it
/// reports otherwise, with positions relative to the start of `bytes`.
pub trait EndianRead: Sized {
    /// Whether decoding from `bytes` succeeds.
    spec fn read_ok(order: ByteOrder, bytes: Seq<u8>) -> bool;

    /// Holds exactly of the value `v` and consumed count `n` that a
    /// successful decode of `bytes` produces.
    spec fn read_match(order: ByteOrder, bytes: Seq<u8>, v: Self, n: int) -> bool;

    /// The failure reported when decoding from `bytes` does not succeed.
    spec fn read_err(order: ByteOrder, bytes: Seq<u8>) -> Error;

    /// Decoding is deterministic in how far it advances: two successful
    /// decodes of the same bytes consume the same count.
    proof fn read_size_deterministic(
        order: ByteOrder,
        bytes: Seq<u8>,
        v1: Self,
        n1: int,
        v2: Self,
        n2: int,
    )
        requires
            Self::read_match(order, bytes, v1, n1),
            Self::read_match(order, bytes, v2, n2),
        ensures
            n1 == n2,
    ;

    /// Tries to read the value from its little endian representation.
    fn try_read_le(bytes: &[u8]) -> (r: Result<ReadOutput<Self>, Error>)
        ensures
            match r {
                Ok(o) => Self::read_ok(ByteOrder::Little, bytes@) && Self::read_match(
                    ByteOrder::Little,
                    bytes@,
                    o.spec_data(),
                    o.spec_read_bytes() as int,
                ) && o.spec_read_bytes() <= bytes@.len(),
                Err(e) => !Self::read_ok(ByteOrder::Little, bytes@) && e == Self::read_err(
                    ByteOrder::Little,
                    bytes@,
                ),
            },
    ;

    /// Tries to read the value from its big endian representation.
    fn try_read_be(bytes: &[u8]) -> (r: Result<ReadOutput<Self>, Error>)
        ensures
            match r {
                Ok(o) => Self::read_ok(ByteOrder::Big, bytes@) && Self::read_match(
                    ByteOrder::Big,
                    bytes@,
                    o.spec_data(),
                    o.spec_read_bytes() as int,
                ) && o.spec_read_bytes() <= bytes@.len(),
                Err(e) => !Self::read_ok(ByteOrder::Big, bytes@) && e == Self::read_err(
                    ByteOrder::Big,
                    bytes@,
                ),
            },
    ;
}

} // verus!
