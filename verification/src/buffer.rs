use vstd::prelude::*;

use crate::endian_write::EndianWrite;
use crate::error::{add_error_context, Error};
use crate::reader::Reader;
use crate::writer::{Writer, WriterResult};

verus! {

/// A fixed-capacity byte buffer: writes past its end error with
/// [`Error::InvalidSize`] instead of growing it.
///
/// The counterpart of the growable flavor that `Vec<u8>` provides directly:
/// the same write call that extends a `Vec<u8>` fails on a `FixedBuffer`,
/// and the two are deliberately distinct types.
pub struct FixedBuffer {
    data: Vec<u8>,
}

impl View for FixedBuffer {
    type V = Seq<u8>;

    closed spec fn view(&self) -> Seq<u8> {
        self.data@
    }
}

impl FixedBuffer {
    /// Wraps the given bytes as a fixed-capacity buffer.
    pub fn new(data: Vec<u8>) -> (r: Self)
        ensures
            r@ == data@,
    {
        Self { data }
    }

    /// Consumes the buffer and returns its bytes.
    pub fn into_vec(self) -> (r: Vec<u8>)
        ensures
            r@ == self@,
    {
        self.data
    }
}

impl Reader for FixedBuffer {
    open spec fn data(&self) -> Seq<u8> {
        self@
    }

    fn get_slice(&self) -> (r: &[u8]) {
        self.data.as_slice()
    }
}

impl Writer for FixedBuffer {
    open spec fn wdata(&self) -> Seq<u8> {
        self@
    }

    open spec fn is_growable() -> bool {
        false
    }

    fn data_len(&self) -> (n: usize) {
        self.data.len()
    }

    proof fn wdata_len_law(&self) {
        broadcast use vstd::std_specs::vec::axiom_spec_len;

        assert(self.data.len() <= usize::MAX);
    }

    fn write_bytes(&mut self, offset: usize, bytes: &[u8]) -> (r: WriterResult<usize>) {
        let len = self.data.len();
        if offset > len || bytes.len() > len - offset {
            return Err(
                Error::InvalidSize { wanted_size: bytes.len(), offset, data_len: len },
            );
        }
        let mut i: usize = 0;
        while i < bytes.len()
            invariant
                i <= bytes@.len(),
                self.data@.len() == old(self).data@.len(),
                offset + bytes@.len() <= self.data@.len(),
                self.data@.len() <= usize::MAX,
                forall|j: int| 0 <= j < i ==> self.data@[offset + j] == bytes@[j],
                forall|j: int|
                    0 <= j < self.data@.len() && !(offset <= j < offset + i) ==> self.data@[j]
                        == old(self).data@[j],
            decreases bytes@.len() - i,
        {
            self.data[offset + i] = bytes[i];
            i = i + 1;
        }
        proof {
            assert(self.data@.subrange(offset as int, offset + bytes@.len()) =~= bytes@);
        }
        Ok(bytes.len())
    }

    fn write_le<T: EndianWrite>(&mut self, offset: usize, value: &T) -> (r: WriterResult<usize>) {
        let len = self.data.len();
        let res = value.try_write_le(&mut self.data, offset);
        add_error_context(res, offset, len)
    }

    fn write_be<T: EndianWrite>(&mut self, offset: usize, value: &T) -> (r: WriterResult<usize>) {
        let len = self.data.len();
        let res = value.try_write_be(&mut self.data, offset);
        add_error_context(res, offset, len)
    }
}

} // verus!
