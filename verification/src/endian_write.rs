use vstd::prelude::*;

use crate::byte_order::{avail_from, ByteOrder};
use crate::error::Error;

verus! {

/// A type that can be encoded into an endian-explicit byte representation.
///
/// The counterpart of [`crate::EndianRead`]: the specification members
/// describe the encoder exactly. `spec_size` is the number of bytes the
/// value produces, `bytes_of` is its encoding in a given byte order, and
/// `spec_write` says, for a destination with `avail` bytes from the write
/// position on, whether the write succeeds and which failure it reports
/// otherwise, with positions relative to the write position.
///
/// `try_write_le` and `try_write_be` write the encoding at `offset` into
/// `dst` without changing `dst`'s length: growing a buffer is the business
/// of the [`crate::Writer`] that wraps it. Whatever the outcome, no byte
/// outside the value's own region `offset..offset + spec_size()` changes;
/// inside that region a failed composite write may leave a partial result.
pub trait EndianWrite {
    /// The number of bytes this value encodes to.
    spec fn spec_size(&self) -> int;

    /// The bytes this value encodes to in byte order `order`.
    spec fn bytes_of(&self, order: ByteOrder) -> Seq<u8>;

    /// Whether a write with `avail` bytes of room succeeds, and the failure
    /// it reports when it does not.
    spec fn spec_write(&self, order: ByteOrder, avail: int) -> Result<(), Error>;

    /// The encoding is as long as the size the value reports, in either
    /// byte order.
    proof fn size_law(&self, order: ByteOrder)
        ensures
            self.bytes_of(order).len() == self.spec_size(),
    ;

    /// Returns the size of the data that is to be written.
    fn get_size(&self) -> (n: usize)
        requires
            self.spec_size() <= usize::MAX,
        ensures
            n == self.spec_size(),
    ;

    /// Tries to write the value in its little endian representation at
    /// `offset` into `dst`. Returns the number of bytes written.
    fn try_write_le(&self, dst: &mut Vec<u8>, offset: usize) -> (r: Result<usize, Error>)
        requires
            self.spec_size() <= usize::MAX,
        ensures
            final(dst)@.len() == old(dst)@.len(),
            forall|i: int|
                0 <= i < final(dst)@.len() && !(offset <= i < offset + self.spec_size()) ==> final(dst)@[i]
                    == old(dst)@[i],
            match (r, self.spec_write(
                ByteOrder::Little,
                avail_from(old(dst)@.len() as int, offset as int),
            )) {
                (Ok(n), Ok(())) => n == self.spec_size() && (n > 0 ==> offset + n <= final(dst)@.len()
                    && final(dst)@.subrange(offset as int, offset + n) == self.bytes_of(
                    ByteOrder::Little,
                )),
                (Err(e), Err(se)) => e == se,
                _ => false,
            },
    ;

    /// Tries to write the value in its big endian representation at
    /// `offset` into `dst`. Returns the number of bytes written.
    fn try_write_be(&self, dst: &mut Vec<u8>, offset: usize) -> (r: Result<usize, Error>)
        requires
            self.spec_size() <= usize::MAX,
        ensures
            final(dst)@.len() == old(dst)@.len(),
            forall|i: int|
                0 <= i < final(dst)@.len() && !(offset <= i < offset + self.spec_size()) ==> final(dst)@[i]
                    == old(dst)@[i],
            match (r, self.spec_write(
                ByteOrder::Big,
                avail_from(old(dst)@.len() as int, offset as int),
            )) {
                (Ok(n), Ok(())) => n == self.spec_size() && (n > 0 ==> offset + n <= final(dst)@.len()
                    && final(dst)@.subrange(offset as int, offset + n) == self.bytes_of(ByteOrder::Big)),
                (Err(e), Err(se)) => e == se,
                _ => false,
            },
    ;
}

} // verus!
