use vstd::prelude::*;

use crate::byte_order::ByteOrder;
use crate::endian_read::{EndianRead, ReadOutput};
use crate::endian_write::EndianWrite;
use crate::error::Error;

verus! {

/// A hand-written decoder with a dynamic scheme of its own: it consumes two
/// bytes and keeps their sum, in either byte order. It demonstrates that
/// any type may define how many bytes it consumes.
#[derive(Debug, PartialEq)]
pub struct Sum(pub u8);

impl EndianRead for Sum {
    open spec fn read_ok(order: ByteOrder, bytes: Seq<u8>) -> bool {
        bytes.len() >= 2
    }

    open spec fn read_match(order: ByteOrder, bytes: Seq<u8>, v: Self, n: int) -> bool {
        v.0 == ((bytes[0] + bytes[1]) % 0x100) as u8 && n == 2
    }

    open spec fn read_err(order: ByteOrder, bytes: Seq<u8>) -> Error {
        Error::InvalidSize { wanted_size: 2, offset: 0, data_len: bytes.len() as usize }
    }

    proof fn read_size_deterministic(
        order: ByteOrder,
        bytes: Seq<u8>,
        v1: Self,
        n1: int,
        v2: Self,
        n2: int,
    ) {
    }

    fn try_read_le(bytes: &[u8]) -> (r: Result<ReadOutput<Self>, Error>) {
        if bytes.len() < 2 {
            return Err(Error::InvalidSize { wanted_size: 2, offset: 0, data_len: bytes.len() });
        }
        let s: u16 = (bytes[0] as u16 + bytes[1] as u16) % 0x100;
        Ok(ReadOutput::new(Sum(s as u8), 2))
    }

    fn try_read_be(bytes: &[u8]) -> (r: Result<ReadOutput<Self>, Error>) {
        if bytes.len() < 2 {
            return Err(Error::InvalidSize { wanted_size: 2, offset: 0, data_len: bytes.len() });
        }
        let s: u16 = (bytes[0] as u16 + bytes[1] as u16) % 0x100;
        Ok(ReadOutput::new(Sum(s as u8), 2))
    }
}

/// A hand-written encoder with a dynamic scheme of its own: it writes its
/// byte three times over.
#[derive(Debug, PartialEq)]
pub struct Repeat(pub u8);

impl EndianWrite for Repeat {
    open spec fn spec_size(&self) -> int {
        3
    }

    open spec fn bytes_of(&self, order: ByteOrder) -> Seq<u8> {
        seq![self.0, self.0, self.0]
    }

    open spec fn spec_write(&self, order: ByteOrder, avail: int) -> Result<(), Error> {
        if avail >= 3 {
            Ok(())
        } else {
            Err(Error::InvalidSize { wanted_size: 3, offset: 0, data_len: avail as usize })
        }
    }

    proof fn size_law(&self, order: ByteOrder) {
    }

    fn get_size(&self) -> (n: usize) {
        3
    }

    fn try_write_le(&self, dst: &mut Vec<u8>, offset: usize) -> (r: Result<usize, Error>) {
        let len = dst.len();
        let avail: usize = if offset <= len {
            len - offset
        } else {
            0
        };
        if avail < 3 {
            return Err(Error::InvalidSize { wanted_size: 3, offset: 0, data_len: avail });
        }
        dst[offset] = self.0;
        dst[offset + 1] = self.0;
        dst[offset + 2] = self.0;
        proof {
            assert(final(dst)@.subrange(offset as int, offset + 3) =~= self.bytes_of(
                ByteOrder::Little,
            ));
        }
        Ok(3)
    }

    fn try_write_be(&self, dst: &mut Vec<u8>, offset: usize) -> (r: Result<usize, Error>) {
        let len = dst.len();
        let avail: usize = if offset <= len {
            len - offset
        } else {
            0
        };
        if avail < 3 {
            return Err(Error::InvalidSize { wanted_size: 3, offset: 0, data_len: avail });
        }
        dst[offset] = self.0;
        dst[offset + 1] = self.0;
        dst[offset + 2] = self.0;
        proof {
            assert(final(dst)@.subrange(offset as int, offset + 3) =~= self.bytes_of(
                ByteOrder::Big,
            ));
        }
        Ok(3)
    }
}

/// A value whose encoder always reports a custom failure, exercising the
/// [`Error::InvalidRead`] escape hatch: composing layers must pass such a
/// failure through unchanged.
#[derive(Debug, PartialEq)]
pub struct CustomFail(pub u32);

impl EndianWrite for CustomFail {
    open spec fn spec_size(&self) -> int {
        0
    }

    open spec fn bytes_of(&self, order: ByteOrder) -> Seq<u8> {
        Seq::empty()
    }

    open spec fn spec_write(&self, order: ByteOrder, avail: int) -> Result<(), Error> {
        Err(Error::InvalidRead { message: "Custom error!" })
    }

    proof fn size_law(&self, order: ByteOrder) {
    }

    fn get_size(&self) -> (n: usize) {
        0
    }

    fn try_write_le(&self, dst: &mut Vec<u8>, offset: usize) -> (r: Result<usize, Error>) {
        Err(Error::InvalidRead { message: "Custom error!" })
    }

    fn try_write_be(&self, dst: &mut Vec<u8>, offset: usize) -> (r: Result<usize, Error>) {
        Err(Error::InvalidRead { message: "Custom error!" })
    }
}

/// A value whose encoder always reports a failure at an interior position,
/// exercising the offset-rewriting of the composing layers: the failure's
/// offset must come out rebased to the caller's own buffer.
#[derive(Debug, PartialEq)]
pub struct OffsetFail(pub u32);

impl EndianWrite for OffsetFail {
    open spec fn spec_size(&self) -> int {
        0
    }

    open spec fn bytes_of(&self, order: ByteOrder) -> Seq<u8> {
        Seq::empty()
    }

    open spec fn spec_write(&self, order: ByteOrder, avail: int) -> Result<(), Error> {
        Err(Error::InvalidSize { wanted_size: 8, offset: 1, data_len: 0 })
    }

    proof fn size_law(&self, order: ByteOrder) {
    }

    fn get_size(&self) -> (n: usize) {
        0
    }

    fn try_write_le(&self, dst: &mut Vec<u8>, offset: usize) -> (r: Result<usize, Error>) {
        Err(Error::InvalidSize { wanted_size: 8, offset: 1, data_len: 0 })
    }

    fn try_write_be(&self, dst: &mut Vec<u8>, offset: usize) -> (r: Result<usize, Error>) {
        Err(Error::InvalidSize { wanted_size: 8, offset: 1, data_len: 0 })
    }
}

} // verus!
