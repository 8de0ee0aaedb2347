use vstd::array::array_index_get;
use vstd::prelude::*;

use crate::byte_order::{avail_from, tail_from, tail_of, ByteOrder};
use crate::endian_read::{EndianRead, ReadOutput};
use crate::endian_write::EndianWrite;
use crate::error::{rebase_error, spec_add_context, Error};
use crate::primitives::{spec_u16_decode, spec_u16_encode, spec_u32_decode, spec_u32_encode};
use crate::writer::{
    concat_bytes, lemma_concat_len, lemma_concat_snoc, lemma_total_size_nonneg,
    lemma_total_size_snoc, lemma_total_size_split, total_size,
};

verus! {

/// The payload of a padding directive on a field: how many bytes to skip
/// immediately before the field is processed. It exists only at the time a
/// record's codec is laid out and has no representation in the serialized
/// data beyond the skipped bytes; the record codecs of this module honor
/// their declared padding by construction.
#[derive(Debug, Clone, Copy, PartialEq, Eq, Structural)]
pub struct MacroArgs {
    pub pad_before: usize,
}

impl EndianRead for [u16; 2] {
    open spec fn read_ok(order: ByteOrder, bytes: Seq<u8>) -> bool {
        bytes.len() >= 4
    }

    open spec fn read_match(order: ByteOrder, bytes: Seq<u8>, v: Self, n: int) -> bool {
        &&& n == 4
        &&& v[0] == spec_u16_decode(order, bytes)
        &&& v[1] == spec_u16_decode(order, tail_from(bytes, 2))
    }

    open spec fn read_err(order: ByteOrder, bytes: Seq<u8>) -> Error {
        if bytes.len() < 2 {
            Error::InvalidSize { wanted_size: 2, offset: 0, data_len: bytes.len() as usize }
        } else {
            Error::InvalidSize { wanted_size: 2, offset: 2, data_len: bytes.len() as usize }
        }
    }

    proof fn read_size_deterministic(
        order: ByteOrder,
        bytes: Seq<u8>,
        v1: Self,
        n1: int,
        v2: Self,
        n2: int,
    ) {
    }

    fn try_read_le(bytes: &[u8]) -> (r: Result<ReadOutput<Self>, Error>) {
        let v0 = match u16::try_read_le(bytes) {
            Ok(o) => o.into_data(),
            Err(e) => {
                return Err(rebase_error(e, 0, bytes.len()));
            },
        };
        let v1 = match u16::try_read_le(tail_of(bytes, 2)) {
            Ok(o) => o.into_data(),
            Err(e) => {
                return Err(rebase_error(e, 2, bytes.len()));
            },
        };
        let a: [u16; 2] = [v0, v1];
        Ok(ReadOutput::new(a, 4))
    }

    fn try_read_be(bytes: &[u8]) -> (r: Result<ReadOutput<Self>, Error>) {
        let v0 = match u16::try_read_be(bytes) {
            Ok(o) => o.into_data(),
            Err(e) => {
                return Err(rebase_error(e, 0, bytes.len()));
            },
        };
        let v1 = match u16::try_read_be(tail_of(bytes, 2)) {
            Ok(o) => o.into_data(),
            Err(e) => {
                return Err(rebase_error(e, 2, bytes.len()));
            },
        };
        let a: [u16; 2] = [v0, v1];
        Ok(ReadOutput::new(a, 4))
    }
}

impl<const N: usize> EndianWrite for [u8; N] {
    open spec fn spec_size(&self) -> int {
        N as int
    }

    open spec fn bytes_of(&self, order: ByteOrder) -> Seq<u8> {
        self@
    }

    open spec fn spec_write(&self, order: ByteOrder, avail: int) -> Result<(), Error> {
        if avail >= N {
            Ok(())
        } else {
            Err(Error::InvalidSize { wanted_size: N, offset: 0, data_len: avail as usize })
        }
    }

    proof fn size_law(&self, order: ByteOrder) {
    }

    fn get_size(&self) -> (n: usize) {
        N
    }

    fn try_write_le(&self, dst: &mut Vec<u8>, offset: usize) -> (r: Result<usize, Error>) {
        self.copy_to(dst, offset)
    }

    fn try_write_be(&self, dst: &mut Vec<u8>, offset: usize) -> (r: Result<usize, Error>) {
        self.copy_to(dst, offset)
    }
}

/// A helper trait for the one verbatim encoder: a fixed-size byte array is
/// copied as it stands, with no byte-order effect.
trait CopyVerbatim {
    spec fn contents(&self) -> Seq<u8>;

    fn copy_to(&self, dst: &mut Vec<u8>, offset: usize) -> (r: Result<usize, Error>)
        ensures
            final(dst)@.len() == old(dst)@.len(),
            forall|i: int|
                0 <= i < final(dst)@.len() && !(offset <= i < offset + self.contents().len())
                    ==> final(dst)@[i] == old(dst)@[i],
            match r {
                Ok(n) => n == self.contents().len() && (n > 0 ==> offset + n <= final(dst)@.len()
                    && final(dst)@.subrange(offset as int, offset + n) == self.contents()),
                Err(e) => avail_from(old(dst)@.len() as int, offset as int)
                    < self.contents().len() && e == (Error::InvalidSize {
                    wanted_size: self.contents().len() as usize,
                    offset: 0,
                    data_len: avail_from(old(dst)@.len() as int, offset as int) as usize,
                }),
            },
    ;
}

impl<const N: usize> CopyVerbatim for [u8; N] {
    closed spec fn contents(&self) -> Seq<u8> {
        self@
    }

    fn copy_to(&self, dst: &mut Vec<u8>, offset: usize) -> (r: Result<usize, Error>) {
        let len = dst.len();
        let avail: usize = if offset <= len {
            len - offset
        } else {
            0
        };
        if avail < N {
            return Err(Error::InvalidSize { wanted_size: N, offset: 0, data_len: avail });
        }
        let mut i: usize = 0;
        while i < N
            invariant
                i <= N,
                N > 0 ==> offset + N <= dst@.len(),
                dst@.len() == len,
                dst@.len() == old(dst)@.len(),
                forall|j: int| 0 <= j < i ==> dst@[offset + j] == self@[j],
                forall|j: int|
                    0 <= j < dst@.len() && !(offset <= j < offset + i) ==> dst@[j] == old(
                        dst,
                    )@[j],
            decreases N - i,
        {
            dst[offset + i] = *vstd::array::array_index_get(self, i);
            i = i + 1;
        }
        proof {
            if N > 0 {
                assert(final(dst)@.subrange(offset as int, offset + N) =~= self@);
            }
        }
        Ok(N)
    }
}

impl EndianWrite for [u16; 2] {
    open spec fn spec_size(&self) -> int {
        4
    }

    open spec fn bytes_of(&self, order: ByteOrder) -> Seq<u8> {
        spec_u16_encode(order, self[0]) + spec_u16_encode(order, self[1])
    }

    open spec fn spec_write(&self, order: ByteOrder, avail: int) -> Result<(), Error> {
        if avail < 2 {
            Err(Error::InvalidSize { wanted_size: 2, offset: 0, data_len: avail as usize })
        } else if avail < 4 {
            Err(Error::InvalidSize { wanted_size: 2, offset: 2, data_len: avail as usize })
        } else {
            Ok(())
        }
    }

    proof fn size_law(&self, order: ByteOrder) {
    }

    fn get_size(&self) -> (n: usize) {
        4
    }

    fn try_write_le(&self, dst: &mut Vec<u8>, offset: usize) -> (r: Result<usize, Error>) {
        let len = dst.len();
        let avail: usize = if offset <= len {
            len - offset
        } else {
            0
        };
        match array_index_get(self, 0).try_write_le(dst, offset) {
            Ok(_) => (),
            Err(e) => {
                return Err(rebase_error(e, 0, avail));
            },
        }
        match array_index_get(self, 1).try_write_le(dst, offset + 2) {
            Ok(_) => (),
            Err(e) => {
                return Err(rebase_error(e, 2, avail));
            },
        }
        proof {
            assert(final(dst)@.subrange(offset as int, offset + 4) =~= final(dst)@.subrange(
                offset as int,
                offset + 2,
            ) + final(dst)@.subrange(offset + 2, offset + 4));
        }
        Ok(4)
    }

    fn try_write_be(&self, dst: &mut Vec<u8>, offset: usize) -> (r: Result<usize, Error>) {
        let len = dst.len();
        let avail: usize = if offset <= len {
            len - offset
        } else {
            0
        };
        match array_index_get(self, 0).try_write_be(dst, offset) {
            Ok(_) => (),
            Err(e) => {
                return Err(rebase_error(e, 0, avail));
            },
        }
        match array_index_get(self, 1).try_write_be(dst, offset + 2) {
            Ok(_) => (),
            Err(e) => {
                return Err(rebase_error(e, 2, avail));
            },
        }
        proof {
            assert(final(dst)@.subrange(offset as int, offset + 4) =~= final(dst)@.subrange(
                offset as int,
                offset + 2,
            ) + final(dst)@.subrange(offset + 2, offset + 4));
        }
        Ok(4)
    }
}

/// A record with three fixed-width fields, whose codec follows the
/// field-sequencing discipline: fields are decoded and encoded one after
/// another in declaration order, and a field's failure is reported at the
/// field's own offset inside the record.
#[derive(Debug, PartialEq)]
pub struct Record {
    pub first: u8,
    pub second: u32,
    pub array: [u16; 2],
}

impl EndianRead for Record {
    open spec fn read_ok(order: ByteOrder, bytes: Seq<u8>) -> bool {
        bytes.len() >= 9
    }

    open spec fn read_match(order: ByteOrder, bytes: Seq<u8>, v: Self, n: int) -> bool {
        &&& u8::read_match(order, bytes, v.first, 1)
        &&& u32::read_match(order, tail_from(bytes, 1), v.second, 4)
        &&& <[u16; 2]>::read_match(order, tail_from(bytes, 5), v.array, 4)
        &&& n == 9
    }

    open spec fn read_err(order: ByteOrder, bytes: Seq<u8>) -> Error {
        if bytes.len() < 1 {
            spec_add_context(u8::read_err(order, bytes), 0, bytes.len() as int)
        } else if bytes.len() < 5 {
            spec_add_context(u32::read_err(order, tail_from(bytes, 1)), 1, bytes.len() as int)
        } else {
            spec_add_context(
                <[u16; 2]>::read_err(order, tail_from(bytes, 5)),
                5,
                bytes.len() as int,
            )
        }
    }

    proof fn read_size_deterministic(
        order: ByteOrder,
        bytes: Seq<u8>,
        v1: Self,
        n1: int,
        v2: Self,
        n2: int,
    ) {
    }

    fn try_read_le(bytes: &[u8]) -> (r: Result<ReadOutput<Self>, Error>) {
        let first = match u8::try_read_le(bytes) {
            Ok(o) => o.into_data(),
            Err(e) => {
                return Err(rebase_error(e, 0, bytes.len()));
            },
        };
        let second = match u32::try_read_le(tail_of(bytes, 1)) {
            Ok(o) => o.into_data(),
            Err(e) => {
                return Err(rebase_error(e, 1, bytes.len()));
            },
        };
        let array = match <[u16; 2]>::try_read_le(tail_of(bytes, 5)) {
            Ok(o) => o.into_data(),
            Err(e) => {
                return Err(rebase_error(e, 5, bytes.len()));
            },
        };
        Ok(ReadOutput::new(Record { first, second, array }, 9))
    }

    fn try_read_be(bytes: &[u8]) -> (r: Result<ReadOutput<Self>, Error>) {
        let first = match u8::try_read_be(bytes) {
            Ok(o) => o.into_data(),
            Err(e) => {
                return Err(rebase_error(e, 0, bytes.len()));
            },
        };
        let second = match u32::try_read_be(tail_of(bytes, 1)) {
            Ok(o) => o.into_data(),
            Err(e) => {
                return Err(rebase_error(e, 1, bytes.len()));
            },
        };
        let array = match <[u16; 2]>::try_read_be(tail_of(bytes, 5)) {
            Ok(o) => o.into_data(),
            Err(e) => {
                return Err(rebase_error(e, 5, bytes.len()));
            },
        };
        Ok(ReadOutput::new(Record { first, second, array }, 9))
    }
}

impl EndianWrite for Record {
    open spec fn spec_size(&self) -> int {
        9
    }

    open spec fn bytes_of(&self, order: ByteOrder) -> Seq<u8> {
        self.first.bytes_of(order) + self.second.bytes_of(order) + self.array.bytes_of(order)
    }

    open spec fn spec_write(&self, order: ByteOrder, avail: int) -> Result<(), Error> {
        match self.first.spec_write(order, avail) {
            Err(e) => Err(spec_add_context(e, 0, avail)),
            Ok(()) => match self.second.spec_write(order, avail - 1) {
                Err(e) => Err(spec_add_context(e, 1, avail)),
                Ok(()) => match self.array.spec_write(order, avail - 5) {
                    Err(e) => Err(spec_add_context(e, 5, avail)),
                    Ok(()) => Ok(()),
                },
            },
        }
    }

    proof fn size_law(&self, order: ByteOrder) {
    }

    fn get_size(&self) -> (n: usize) {
        9
    }

    fn try_write_le(&self, dst: &mut Vec<u8>, offset: usize) -> (r: Result<usize, Error>) {
        let len = dst.len();
        let avail: usize = if offset <= len {
            len - offset
        } else {
            0
        };
        match self.first.try_write_le(dst, offset) {
            Ok(_) => (),
            Err(e) => {
                return Err(rebase_error(e, 0, avail));
            },
        }
        let ghost s1 = dst@;
        match self.second.try_write_le(dst, offset + 1) {
            Ok(_) => (),
            Err(e) => {
                return Err(rebase_error(e, 1, avail));
            },
        }
        let ghost s2 = dst@;
        match self.array.try_write_le(dst, offset + 5) {
            Ok(_) => (),
            Err(e) => {
                return Err(rebase_error(e, 5, avail));
            },
        }
        proof {
            assert(final(dst)@.subrange(offset as int, offset + 1) =~= s1.subrange(
                offset as int,
                offset + 1,
            ));
            assert(final(dst)@.subrange(offset + 1, offset + 5) =~= s2.subrange(
                offset + 1,
                offset + 5,
            ));
            assert(final(dst)@.subrange(offset as int, offset + 9) =~= final(dst)@.subrange(
                offset as int,
                offset + 1,
            ) + final(dst)@.subrange(offset + 1, offset + 5) + final(dst)@.subrange(
                offset + 5,
                offset + 9,
            ));
        }
        Ok(9)
    }

    fn try_write_be(&self, dst: &mut Vec<u8>, offset: usize) -> (r: Result<usize, Error>) {
        let len = dst.len();
        let avail: usize = if offset <= len {
            len - offset
        } else {
            0
        };
        match self.first.try_write_be(dst, offset) {
            Ok(_) => (),
            Err(e) => {
                return Err(rebase_error(e, 0, avail));
            },
        }
        let ghost s1 = dst@;
        match self.second.try_write_be(dst, offset + 1) {
            Ok(_) => (),
            Err(e) => {
                return Err(rebase_error(e, 1, avail));
            },
        }
        let ghost s2 = dst@;
        match self.array.try_write_be(dst, offset + 5) {
            Ok(_) => (),
            Err(e) => {
                return Err(rebase_error(e, 5, avail));
            },
        }
        proof {
            assert(final(dst)@.subrange(offset as int, offset + 1) =~= s1.subrange(
                offset as int,
                offset + 1,
            ));
            assert(final(dst)@.subrange(offset + 1, offset + 5) =~= s2.subrange(
                offset + 1,
                offset + 5,
            ));
            assert(final(dst)@.subrange(offset as int, offset + 9) =~= final(dst)@.subrange(
                offset as int,
                offset + 1,
            ) + final(dst)@.subrange(offset + 1, offset + 5) + final(dst)@.subrange(
                offset + 5,
                offset + 9,
            ));
        }
        Ok(9)
    }
}

/// A record with declared padding: one padding byte before `first` and two
/// more before `second`, giving the eight-byte layout `pad first pad pad
/// second`.
///
/// Decoding skips the padding bytes without interpreting them. Encoding
/// writes them explicitly as zero, so an encoded record does not depend on
/// the destination's prior contents; a destination too short even for a
/// padding byte reports the failure at that byte's offset.
#[derive(Debug, PartialEq)]
pub struct PaddedRecord {
    pub first: u8,
    pub second: u32,
}

impl EndianRead for PaddedRecord {
    open spec fn read_ok(order: ByteOrder, bytes: Seq<u8>) -> bool {
        bytes.len() >= 8
    }

    open spec fn read_match(order: ByteOrder, bytes: Seq<u8>, v: Self, n: int) -> bool {
        &&& u8::read_match(order, tail_from(bytes, 1), v.first, 1)
        &&& u32::read_match(order, tail_from(bytes, 4), v.second, 4)
        &&& n == 8
    }

    open spec fn read_err(order: ByteOrder, bytes: Seq<u8>) -> Error {
        if bytes.len() < 2 {
            spec_add_context(u8::read_err(order, tail_from(bytes, 1)), 1, bytes.len() as int)
        } else {
            spec_add_context(u32::read_err(order, tail_from(bytes, 4)), 4, bytes.len() as int)
        }
    }

    proof fn read_size_deterministic(
        order: ByteOrder,
        bytes: Seq<u8>,
        v1: Self,
        n1: int,
        v2: Self,
        n2: int,
    ) {
    }

    fn try_read_le(bytes: &[u8]) -> (r: Result<ReadOutput<Self>, Error>) {
        let first = match u8::try_read_le(tail_of(bytes, 1)) {
            Ok(o) => o.into_data(),
            Err(e) => {
                return Err(rebase_error(e, 1, bytes.len()));
            },
        };
        let second = match u32::try_read_le(tail_of(bytes, 4)) {
            Ok(o) => o.into_data(),
            Err(e) => {
                return Err(rebase_error(e, 4, bytes.len()));
            },
        };
        Ok(ReadOutput::new(PaddedRecord { first, second }, 8))
    }

    fn try_read_be(bytes: &[u8]) -> (r: Result<ReadOutput<Self>, Error>) {
        let first = match u8::try_read_be(tail_of(bytes, 1)) {
            Ok(o) => o.into_data(),
            Err(e) => {
                return Err(rebase_error(e, 1, bytes.len()));
            },
        };
        let second = match u32::try_read_be(tail_of(bytes, 4)) {
            Ok(o) => o.into_data(),
            Err(e) => {
                return Err(rebase_error(e, 4, bytes.len()));
            },
        };
        Ok(ReadOutput::new(PaddedRecord { first, second }, 8))
    }
}

impl EndianWrite for PaddedRecord {
    open spec fn spec_size(&self) -> int {
        8
    }

    open spec fn bytes_of(&self, order: ByteOrder) -> Seq<u8> {
        seq![0u8] + self.first.bytes_of(order) + seq![0u8, 0u8] + self.second.bytes_of(order)
    }

    open spec fn spec_write(&self, order: ByteOrder, avail: int) -> Result<(), Error> {
        match (0u8).spec_write(order, avail) {
            Err(e) => Err(spec_add_context(e, 0, avail)),
            Ok(()) => match self.first.spec_write(order, avail - 1) {
                Err(e) => Err(spec_add_context(e, 1, avail)),
                Ok(()) => match (0u8).spec_write(order, avail - 2) {
                    Err(e) => Err(spec_add_context(e, 2, avail)),
                    Ok(()) => match (0u8).spec_write(order, avail - 3) {
                        Err(e) => Err(spec_add_context(e, 3, avail)),
                        Ok(()) => match self.second.spec_write(order, avail - 4) {
                            Err(e) => Err(spec_add_context(e, 4, avail)),
                            Ok(()) => Ok(()),
                        },
                    },
                },
            },
        }
    }

    proof fn size_law(&self, order: ByteOrder) {
    }

    fn get_size(&self) -> (n: usize) {
        8
    }

    fn try_write_le(&self, dst: &mut Vec<u8>, offset: usize) -> (r: Result<usize, Error>) {
        let len = dst.len();
        let avail: usize = if offset <= len {
            len - offset
        } else {
            0
        };
        let zero: u8 = 0;
        match zero.try_write_le(dst, offset) {
            Ok(_) => (),
            Err(e) => {
                return Err(rebase_error(e, 0, avail));
            },
        }
        let ghost s1 = dst@;
        match self.first.try_write_le(dst, offset + 1) {
            Ok(_) => (),
            Err(e) => {
                return Err(rebase_error(e, 1, avail));
            },
        }
        let ghost s2 = dst@;
        match zero.try_write_le(dst, offset + 2) {
            Ok(_) => (),
            Err(e) => {
                return Err(rebase_error(e, 2, avail));
            },
        }
        let ghost s3 = dst@;
        match zero.try_write_le(dst, offset + 3) {
            Ok(_) => (),
            Err(e) => {
                return Err(rebase_error(e, 3, avail));
            },
        }
        let ghost s4 = dst@;
        match self.second.try_write_le(dst, offset + 4) {
            Ok(_) => (),
            Err(e) => {
                return Err(rebase_error(e, 4, avail));
            },
        }
        proof {
            assert(final(dst)@.subrange(offset as int, offset + 1) =~= s1.subrange(
                offset as int,
                offset + 1,
            ));
            assert(final(dst)@.subrange(offset + 1, offset + 2) =~= s2.subrange(
                offset + 1,
                offset + 2,
            ));
            assert(final(dst)@.subrange(offset + 2, offset + 3) =~= s3.subrange(
                offset + 2,
                offset + 3,
            ));
            assert(final(dst)@.subrange(offset + 3, offset + 4) =~= s4.subrange(
                offset + 3,
                offset + 4,
            ));
            assert(final(dst)@.subrange(offset as int, offset + 8) =~= final(dst)@.subrange(
                offset as int,
                offset + 1,
            ) + final(dst)@.subrange(offset + 1, offset + 2) + final(dst)@.subrange(
                offset + 2,
                offset + 3,
            ) + final(dst)@.subrange(offset + 3, offset + 4) + final(dst)@.subrange(
                offset + 4,
                offset + 8,
            ));
        }
        Ok(8)
    }

    fn try_write_be(&self, dst: &mut Vec<u8>, offset: usize) -> (r: Result<usize, Error>) {
        let len = dst.len();
        let avail: usize = if offset <= len {
            len - offset
        } else {
            0
        };
        let zero: u8 = 0;
        match zero.try_write_be(dst, offset) {
            Ok(_) => (),
            Err(e) => {
                return Err(rebase_error(e, 0, avail));
            },
        }
        let ghost s1 = dst@;
        match self.first.try_write_be(dst, offset + 1) {
            Ok(_) => (),
            Err(e) => {
                return Err(rebase_error(e, 1, avail));
            },
        }
        let ghost s2 = dst@;
        match zero.try_write_be(dst, offset + 2) {
            Ok(_) => (),
            Err(e) => {
                return Err(rebase_error(e, 2, avail));
            },
        }
        let ghost s3 = dst@;
        match zero.try_write_be(dst, offset + 3) {
            Ok(_) => (),
            Err(e) => {
                return Err(rebase_error(e, 3, avail));
            },
        }
        let ghost s4 = dst@;
        match self.second.try_write_be(dst, offset + 4) {
            Ok(_) => (),
            Err(e) => {
                return Err(rebase_error(e, 4, avail));
            },
        }
        proof {
            assert(final(dst)@.subrange(offset as int, offset + 1) =~= s1.subrange(
                offset as int,
                offset + 1,
            ));
            assert(final(dst)@.subrange(offset + 1, offset + 2) =~= s2.subrange(
                offset + 1,
                offset + 2,
            ));
            assert(final(dst)@.subrange(offset + 2, offset + 3) =~= s3.subrange(
                offset + 2,
                offset + 3,
            ));
            assert(final(dst)@.subrange(offset + 3, offset + 4) =~= s4.subrange(
                offset + 3,
                offset + 4,
            ));
            assert(final(dst)@.subrange(offset as int, offset + 8) =~= final(dst)@.subrange(
                offset as int,
                offset + 1,
            ) + final(dst)@.subrange(offset + 1, offset + 2) + final(dst)@.subrange(
                offset + 2,
                offset + 3,
            ) + final(dst)@.subrange(offset + 3, offset + 4) + final(dst)@.subrange(
                offset + 4,
                offset + 8,
            ));
        }
        Ok(8)
    }
}

/// A record that nests an arbitrary encodable value after a leading
/// four-byte field, demonstrating that composed codecs are themselves
/// values of the protocol.
#[derive(Debug, PartialEq)]
pub struct NestedContainer<T: EndianRead + EndianWrite> {
    pub first: u32,
    pub data: T,
}

impl<T: EndianRead + EndianWrite> EndianRead for NestedContainer<T> {
    open spec fn read_ok(order: ByteOrder, bytes: Seq<u8>) -> bool {
        bytes.len() >= 4 && T::read_ok(order, tail_from(bytes, 4))
    }

    open spec fn read_match(order: ByteOrder, bytes: Seq<u8>, v: Self, n: int) -> bool {
        &&& u32::read_match(order, bytes, v.first, 4)
        &&& T::read_match(order, tail_from(bytes, 4), v.data, n - 4)
    }

    open spec fn read_err(order: ByteOrder, bytes: Seq<u8>) -> Error {
        if bytes.len() < 4 {
            spec_add_context(u32::read_err(order, bytes), 0, bytes.len() as int)
        } else {
            spec_add_context(T::read_err(order, tail_from(bytes, 4)), 4, bytes.len() as int)
        }
    }

    proof fn read_size_deterministic(
        order: ByteOrder,
        bytes: Seq<u8>,
        v1: Self,
        n1: int,
        v2: Self,
        n2: int,
    ) {
        T::read_size_deterministic(order, tail_from(bytes, 4), v1.data, n1 - 4, v2.data, n2 - 4);
    }

    fn try_read_le(bytes: &[u8]) -> (r: Result<ReadOutput<Self>, Error>) {
        let first = match u32::try_read_le(bytes) {
            Ok(o) => o.into_data(),
            Err(e) => {
                return Err(rebase_error(e, 0, bytes.len()));
            },
        };
        let blen = bytes.len();
        let tail = tail_of(bytes, 4);
        match T::try_read_le(tail) {
            Ok(o) => {
                let n = o.get_read_bytes();
                let data = o.into_data();
                proof {
                    assert(n <= tail@.len());
                    assert(tail@.len() + 4 <= blen);
                }
                Ok(ReadOutput::new(NestedContainer { first, data }, 4 + n))
            },
            Err(e) => Err(rebase_error(e, 4, blen)),
        }
    }

    fn try_read_be(bytes: &[u8]) -> (r: Result<ReadOutput<Self>, Error>) {
        let first = match u32::try_read_be(bytes) {
            Ok(o) => o.into_data(),
            Err(e) => {
                return Err(rebase_error(e, 0, bytes.len()));
            },
        };
        let blen = bytes.len();
        let tail = tail_of(bytes, 4);
        match T::try_read_be(tail) {
            Ok(o) => {
                let n = o.get_read_bytes();
                let data = o.into_data();
                proof {
                    assert(n <= tail@.len());
                    assert(tail@.len() + 4 <= blen);
                }
                Ok(ReadOutput::new(NestedContainer { first, data }, 4 + n))
            },
            Err(e) => Err(rebase_error(e, 4, blen)),
        }
    }
}

impl<T: EndianRead + EndianWrite> EndianWrite for NestedContainer<T> {
    open spec fn spec_size(&self) -> int {
        4 + self.data.spec_size()
    }

    open spec fn bytes_of(&self, order: ByteOrder) -> Seq<u8> {
        self.first.bytes_of(order) + self.data.bytes_of(order)
    }

    open spec fn spec_write(&self, order: ByteOrder, avail: int) -> Result<(), Error> {
        match self.first.spec_write(order, avail) {
            Err(e) => Err(spec_add_context(e, 0, avail)),
            Ok(()) => match self.data.spec_write(order, avail - 4) {
                Err(e) => Err(spec_add_context(e, 4, avail)),
                Ok(()) => Ok(()),
            },
        }
    }

    proof fn size_law(&self, order: ByteOrder) {
        self.data.size_law(order);
    }

    fn get_size(&self) -> (n: usize) {
        proof {
            self.data.size_law(ByteOrder::Little);
        }
        4 + self.data.get_size()
    }

    fn try_write_le(&self, dst: &mut Vec<u8>, offset: usize) -> (r: Result<usize, Error>) {
        proof {
            self.data.size_law(ByteOrder::Little);
        }
        let len = dst.len();
        let avail: usize = if offset <= len {
            len - offset
        } else {
            0
        };
        match self.first.try_write_le(dst, offset) {
            Ok(_) => (),
            Err(e) => {
                return Err(rebase_error(e, 0, avail));
            },
        }
        let ghost s1 = dst@;
        let inner = match self.data.try_write_le(dst, offset + 4) {
            Ok(n) => n,
            Err(e) => {
                return Err(rebase_error(e, 4, avail));
            },
        };
        proof {
            assert(final(dst)@.subrange(offset as int, offset + 4) =~= s1.subrange(
                offset as int,
                offset + 4,
            ));
            if inner > 0 {
                assert(final(dst)@.subrange(offset as int, offset + 4 + self.data.spec_size())
                    =~= final(dst)@.subrange(offset as int, offset + 4) + final(dst)@.subrange(
                    offset + 4,
                    offset + 4 + self.data.spec_size(),
                ));
            } else {
                assert(self.data.bytes_of(ByteOrder::Little) =~= Seq::<u8>::empty());
                assert(final(dst)@.subrange(offset as int, offset + 4 + self.data.spec_size())
                    =~= final(dst)@.subrange(offset as int, offset + 4));
            }
        }
        Ok(4 + inner)
    }

    fn try_write_be(&self, dst: &mut Vec<u8>, offset: usize) -> (r: Result<usize, Error>) {
        proof {
            self.data.size_law(ByteOrder::Big);
        }
        let len = dst.len();
        let avail: usize = if offset <= len {
            len - offset
        } else {
            0
        };
        match self.first.try_write_be(dst, offset) {
            Ok(_) => (),
            Err(e) => {
                return Err(rebase_error(e, 0, avail));
            },
        }
        let ghost s1 = dst@;
        let inner = match self.data.try_write_be(dst, offset + 4) {
            Ok(n) => n,
            Err(e) => {
                return Err(rebase_error(e, 4, avail));
            },
        };
        proof {
            assert(final(dst)@.subrange(offset as int, offset + 4) =~= s1.subrange(
                offset as int,
                offset + 4,
            ));
            if inner > 0 {
                assert(final(dst)@.subrange(offset as int, offset + 4 + self.data.spec_size())
                    =~= final(dst)@.subrange(offset as int, offset + 4) + final(dst)@.subrange(
                    offset + 4,
                    offset + 4 + self.data.spec_size(),
                ));
            } else {
                assert(self.data.bytes_of(ByteOrder::Big) =~= Seq::<u8>::empty());
                assert(final(dst)@.subrange(offset as int, offset + 4 + self.data.spec_size())
                    =~= final(dst)@.subrange(offset as int, offset + 4));
            }
        }
        Ok(4 + inner)
    }
}

/// Holds of a sequence of `items` decoded one after another from `bytes`,
/// starting at position `idx` and ending exactly at position `end`.
pub open spec fn items_read<T: EndianRead>(
    order: ByteOrder,
    bytes: Seq<u8>,
    idx: int,
    items: Seq<T>,
    end: int,
) -> bool
    decreases items.len(),
{
    if items.len() == 0 {
        end == idx
    } else {
        exists|n: int|
            #[trigger] T::read_match(order, tail_from(bytes, idx), items[0], n) && items_read(
                order,
                bytes,
                idx + n,
                items.skip(1),
                end,
            )
    }
}

/// Whether `k` values decode one after another from `bytes` starting at
/// position `idx`.
pub open spec fn items_read_ok<T: EndianRead>(
    order: ByteOrder,
    bytes: Seq<u8>,
    idx: int,
    k: nat,
) -> bool
    decreases k,
{
    if k == 0 {
        true
    } else if !T::read_ok(order, tail_from(bytes, idx)) {
        false
    } else {
        let p = choose|p: (T, int)| T::read_match(order, tail_from(bytes, idx), p.0, p.1);
        items_read_ok::<T>(order, bytes, idx + p.1, (k - 1) as nat)
    }
}

/// The failure the first undecodable of `k` values reports, rebased to the
/// whole of `bytes`.
pub open spec fn items_read_err<T: EndianRead>(
    order: ByteOrder,
    bytes: Seq<u8>,
    idx: int,
    k: nat,
) -> Error
    decreases k,
{
    if k == 0 {
        Error::InvalidSize { wanted_size: 0, offset: 0, data_len: 0 }
    } else if !T::read_ok(order, tail_from(bytes, idx)) {
        spec_add_context(T::read_err(order, tail_from(bytes, idx)), idx, bytes.len() as int)
    } else {
        let p = choose|p: (T, int)| T::read_match(order, tail_from(bytes, idx), p.0, p.1);
        items_read_err::<T>(order, bytes, idx + p.1, (k - 1) as nat)
    }
}

/// One decoded value advances the `k`-value chain by exactly the count it
/// consumed: size determinism resolves the chain's next position.
pub proof fn lemma_items_step<T: EndianRead>(
    order: ByteOrder,
    bytes: Seq<u8>,
    idx: int,
    k: nat,
    v: T,
    n: int,
)
    requires
        k > 0,
        T::read_match(order, tail_from(bytes, idx), v, n),
        T::read_ok(order, tail_from(bytes, idx)),
    ensures
        items_read_ok::<T>(order, bytes, idx, k) == items_read_ok::<T>(
            order,
            bytes,
            idx + n,
            (k - 1) as nat,
        ),
        items_read_err::<T>(order, bytes, idx, k) == items_read_err::<T>(
            order,
            bytes,
            idx + n,
            (k - 1) as nat,
        ),
{
    let tail = tail_from(bytes, idx);
    assert(T::read_match(order, tail, ((v, n)).0, ((v, n)).1));
    let p0 = choose|p: (T, int)| T::read_match(order, tail, p.0, p.1);
    T::read_size_deterministic(order, tail, p0.0, p0.1, v, n);
}

/// A chain of decoded items extends by one more item decoded at its end.
pub proof fn lemma_items_read_push<T: EndianRead>(
    order: ByteOrder,
    bytes: Seq<u8>,
    idx: int,
    items: Seq<T>,
    end: int,
    v: T,
    n: int,
)
    requires
        items_read(order, bytes, idx, items, end),
        T::read_match(order, tail_from(bytes, end), v, n),
    ensures
        items_read(order, bytes, idx, items.push(v), end + n),
    decreases items.len(),
{
    if items.len() == 0 {
        assert(items.push(v)[0] == v);
        assert(items.push(v).skip(1) =~= Seq::<T>::empty());
        assert(T::read_match(order, tail_from(bytes, idx), items.push(v)[0], n) && items_read(
            order,
            bytes,
            idx + n,
            items.push(v).skip(1),
            end + n,
        ));
    } else {
        let m = choose|m: int|
            #[trigger] T::read_match(order, tail_from(bytes, idx), items[0], m) && items_read(
                order,
                bytes,
                idx + m,
                items.skip(1),
                end,
            );
        lemma_items_read_push(order, bytes, idx + m, items.skip(1), end, v, n);
        assert(items.skip(1).push(v) =~= items.push(v).skip(1));
        assert(items.push(v)[0] == items[0]);
        assert(T::read_match(order, tail_from(bytes, idx), items.push(v)[0], m) && items_read(
            order,
            bytes,
            idx + m,
            items.push(v).skip(1),
            end + n,
        ));
    }
}

/// Two chains of equally many items decoded from the same position end at
/// the same position.
pub proof fn lemma_items_read_unique_end<T: EndianRead>(
    order: ByteOrder,
    bytes: Seq<u8>,
    idx: int,
    items1: Seq<T>,
    end1: int,
    items2: Seq<T>,
    end2: int,
)
    requires
        items_read(order, bytes, idx, items1, end1),
        items_read(order, bytes, idx, items2, end2),
        items1.len() == items2.len(),
    ensures
        end1 == end2,
    decreases items1.len(),
{
    if items1.len() > 0 {
        let m1 = choose|m: int|
            #[trigger] T::read_match(order, tail_from(bytes, idx), items1[0], m) && items_read(
                order,
                bytes,
                idx + m,
                items1.skip(1),
                end1,
            );
        let m2 = choose|m: int|
            #[trigger] T::read_match(order, tail_from(bytes, idx), items2[0], m) && items_read(
                order,
                bytes,
                idx + m,
                items2.skip(1),
                end2,
            );
        T::read_size_deterministic(order, tail_from(bytes, idx), items1[0], m1, items2[0], m2);
        lemma_items_read_unique_end(
            order,
            bytes,
            idx + m1,
            items1.skip(1),
            end1,
            items2.skip(1),
            end2,
        );
    }
}

/// A list of encodable values, encoded as one count byte followed by the
/// values' own encodings: the library's example of a self-describing
/// variable-length value.
#[derive(Debug, PartialEq)]
pub struct ListContainer<T: EndianRead + EndianWrite>(pub Vec<T>);

impl<T: EndianRead + EndianWrite> EndianRead for ListContainer<T> {
    open spec fn read_ok(order: ByteOrder, bytes: Seq<u8>) -> bool {
        bytes.len() >= 1 && items_read_ok::<T>(order, bytes, 1, bytes[0] as nat)
    }

    open spec fn read_match(order: ByteOrder, bytes: Seq<u8>, v: Self, n: int) -> bool {
        &&& bytes.len() >= 1
        &&& v.0@.len() == bytes[0] as int
        &&& items_read(order, bytes, 1, v.0@, n)
    }

    open spec fn read_err(order: ByteOrder, bytes: Seq<u8>) -> Error {
        if bytes.len() < 1 {
            Error::InvalidSize { wanted_size: 1, offset: 0, data_len: 0 }
        } else {
            items_read_err::<T>(order, bytes, 1, bytes[0] as nat)
        }
    }

    proof fn read_size_deterministic(
        order: ByteOrder,
        bytes: Seq<u8>,
        v1: Self,
        n1: int,
        v2: Self,
        n2: int,
    ) {
        lemma_items_read_unique_end(order, bytes, 1, v1.0@, n1, v2.0@, n2);
    }

    fn try_read_le(bytes: &[u8]) -> (r: Result<ReadOutput<Self>, Error>) {
        if bytes.len() < 1 {
            return Err(Error::InvalidSize { wanted_size: 1, offset: 0, data_len: 0 });
        }
        let count: usize = bytes[0] as usize;
        let blen = bytes.len();
        let mut list: Vec<T> = Vec::new();
        let mut idx: usize = 1;
        let mut j: usize = 0;
        while j < count
            invariant
                1 <= idx <= bytes@.len(),
                j <= count,
                bytes@.len() >= 1,
                blen == bytes@.len(),
                count == bytes@[0] as usize,
                list@.len() == j,
                items_read::<T>(ByteOrder::Little, bytes@, 1, list@, idx as int),
                items_read_ok::<T>(ByteOrder::Little, bytes@, 1, count as nat)
                    == items_read_ok::<T>(
                    ByteOrder::Little,
                    bytes@,
                    idx as int,
                    (count - j) as nat,
                ),
                items_read_err::<T>(ByteOrder::Little, bytes@, 1, count as nat)
                    == items_read_err::<T>(
                    ByteOrder::Little,
                    bytes@,
                    idx as int,
                    (count - j) as nat,
                ),
            decreases count - j,
        {
            let tail = tail_of(bytes, idx);
            match T::try_read_le(tail) {
                Ok(o) => {
                    let n = o.get_read_bytes();
                    let v = o.into_data();
                    proof {
                        lemma_items_step::<T>(
                            ByteOrder::Little,
                            bytes@,
                            idx as int,
                            (count - j) as nat,
                            v,
                            n as int,
                        );
                        lemma_items_read_push::<T>(
                            ByteOrder::Little,
                            bytes@,
                            1,
                            list@,
                            idx as int,
                            v,
                            n as int,
                        );
                    }
                    list.push(v);
                    idx = idx + n;
                    j = j + 1;
                },
                Err(e) => {
                    return Err(rebase_error(e, idx, blen));
                },
            }
        }
        Ok(ReadOutput::new(ListContainer(list), idx))
    }

    fn try_read_be(bytes: &[u8]) -> (r: Result<ReadOutput<Self>, Error>) {
        if bytes.len() < 1 {
            return Err(Error::InvalidSize { wanted_size: 1, offset: 0, data_len: 0 });
        }
        let count: usize = bytes[0] as usize;
        let blen = bytes.len();
        let mut list: Vec<T> = Vec::new();
        let mut idx: usize = 1;
        let mut j: usize = 0;
        while j < count
            invariant
                1 <= idx <= bytes@.len(),
                j <= count,
                bytes@.len() >= 1,
                blen == bytes@.len(),
                count == bytes@[0] as usize,
                list@.len() == j,
                items_read::<T>(ByteOrder::Big, bytes@, 1, list@, idx as int),
                items_read_ok::<T>(ByteOrder::Big, bytes@, 1, count as nat) == items_read_ok::<T>(
                    ByteOrder::Big,
                    bytes@,
                    idx as int,
                    (count - j) as nat,
                ),
                items_read_err::<T>(ByteOrder::Big, bytes@, 1, count as nat)
                    == items_read_err::<T>(ByteOrder::Big, bytes@, idx as int, (count - j) as nat),
            decreases count - j,
        {
            let tail = tail_of(bytes, idx);
            match T::try_read_be(tail) {
                Ok(o) => {
                    let n = o.get_read_bytes();
                    let v = o.into_data();
                    proof {
                        lemma_items_step::<T>(
                            ByteOrder::Big,
                            bytes@,
                            idx as int,
                            (count - j) as nat,
                            v,
                            n as int,
                        );
                        lemma_items_read_push::<T>(
                            ByteOrder::Big,
                            bytes@,
                            1,
                            list@,
                            idx as int,
                            v,
                            n as int,
                        );
                    }
                    list.push(v);
                    idx = idx + n;
                    j = j + 1;
                },
                Err(e) => {
                    return Err(rebase_error(e, idx, blen));
                },
            }
        }
        Ok(ReadOutput::new(ListContainer(list), idx))
    }
}

/// The outcome of encoding the values of `vals` one after another into a
/// window of `avail` bytes, the first value at relative position `pos`: all
/// fit, or the first failing value's failure rebased to the window.
pub open spec fn items_write<T: EndianWrite>(
    vals: Seq<T>,
    order: ByteOrder,
    avail: int,
    pos: int,
) -> Result<(), Error>
    decreases vals.len(),
{
    if vals.len() == 0 {
        Ok(())
    } else {
        match vals[0].spec_write(order, avail - pos) {
            Err(e) => Err(spec_add_context(e, pos, avail)),
            Ok(()) => items_write(vals.skip(1), order, avail, pos + vals[0].spec_size()),
        }
    }
}

impl<T: EndianRead + EndianWrite> EndianWrite for ListContainer<T> {
    open spec fn spec_size(&self) -> int {
        1 + total_size(self.0@)
    }

    open spec fn bytes_of(&self, order: ByteOrder) -> Seq<u8> {
        seq![(self.0@.len() % 256) as u8] + concat_bytes(self.0@, order)
    }

    open spec fn spec_write(&self, order: ByteOrder, avail: int) -> Result<(), Error> {
        if self.0@.len() > 255 {
            Err(Error::InvalidWrite { message: "list too long for a one-byte count" })
        } else if avail < 1 + total_size(self.0@) {
            Err(
                Error::InvalidSize {
                    wanted_size: (1 + total_size(self.0@)) as usize,
                    offset: 0,
                    data_len: avail as usize,
                },
            )
        } else {
            items_write(self.0@, order, avail, 1)
        }
    }

    proof fn size_law(&self, order: ByteOrder) {
        lemma_concat_len::<T>(self.0@, order);
    }

    fn get_size(&self) -> (n: usize) {
        proof {
            lemma_total_size_nonneg::<T>(self.0@);
            assert(self.0@.take(0) =~= Seq::<T>::empty());
        }
        let mut size: usize = 1;
        let mut i: usize = 0;
        while i < self.0.len()
            invariant
                i <= self.0@.len(),
                size == 1 + total_size(self.0@.take(i as int)),
                1 + total_size(self.0@) <= usize::MAX,
            decreases self.0@.len() - i,
        {
            let ghost ii = i as int;
            proof {
                lemma_total_size_split::<T>(self.0@, ii);
                lemma_total_size_snoc::<T>(self.0@, ii);
                self.0@[ii].size_law(ByteOrder::Little);
                assert(self.0@.skip(ii)[0] == self.0@[ii]);
                assert(self.0@.skip(ii).skip(1) =~= self.0@.skip(ii + 1));
                lemma_total_size_nonneg::<T>(self.0@.skip(ii + 1));
                assert(total_size(self.0@.skip(ii)) == self.0@[ii].spec_size() + total_size(
                    self.0@.skip(ii + 1),
                ));
            }
            let v = &self.0[i];
            size = size + v.get_size();
            i = i + 1;
        }
        proof {
            assert(self.0@.take(self.0@.len() as int) =~= self.0@);
        }
        size
    }

    fn try_write_le(&self, dst: &mut Vec<u8>, offset: usize) -> (r: Result<usize, Error>) {
        self.write_ordered(ByteOrder::Little, dst, offset)
    }

    fn try_write_be(&self, dst: &mut Vec<u8>, offset: usize) -> (r: Result<usize, Error>) {
        self.write_ordered(ByteOrder::Big, dst, offset)
    }
}

impl<T: EndianRead + EndianWrite> ListContainer<T> {
    /// Encodes the count byte and then the values, one after another, in
    /// the given byte order; the shared body of the two encoding
    /// directions.
    fn write_ordered(&self, order: ByteOrder, dst: &mut Vec<u8>, offset: usize) -> (r: Result<
        usize,
        Error,
    >)
        requires
            self.spec_size() <= usize::MAX,
        ensures
            final(dst)@.len() == old(dst)@.len(),
            forall|i: int|
                0 <= i < final(dst)@.len() && !(offset <= i < offset + self.spec_size())
                    ==> final(dst)@[i] == old(dst)@[i],
            match (r, self.spec_write(order, avail_from(old(dst)@.len() as int, offset as int))) {
                (Ok(n), Ok(())) => n == self.spec_size() && (n > 0 ==> offset + n <= final(dst)@.len() && final(dst)@.subrange(offset as int, offset + n) == self.bytes_of(
                    order,
                )),
                (Err(e), Err(se)) => e == se,
                _ => false,
            },
    {
        proof {
            lemma_total_size_nonneg::<T>(self.0@);
            assert(self.0@.take(0) =~= Seq::<T>::empty());
            assert(self.0@.skip(0) =~= self.0@);
        }
        let len0 = self.0.len();
        if len0 > 255 {
            return Err(Error::InvalidWrite { message: "list too long for a one-byte count" });
        }
        let dlen = dst.len();
        let avail: usize = if offset <= dlen {
            dlen - offset
        } else {
            0
        };
        let size = self.get_size();
        if avail < size {
            return Err(Error::InvalidSize { wanted_size: size, offset: 0, data_len: avail });
        }
        let cb: u8 = len0 as u8;
        match cb.try_write_le(dst, offset) {
            Ok(_) => (),
            Err(e) => {
                assert(false);
                return Err(e);
            },
        }
        proof {
            assert(dst@[offset as int] == dst@.subrange(offset as int, offset + 1)[0]);
        }
        let mut pos: usize = 1;
        let mut i: usize = 0;
        while i < len0
            invariant
                i <= self.0@.len(),
                self.0@.len() == len0,
                len0 <= 255,
                pos == 1 + total_size(self.0@.take(i as int)),
                1 + total_size(self.0@) <= usize::MAX,
                dst@.len() == old(dst)@.len(),
                dst@.len() == dlen,
                offset < dlen,
                avail == dlen - offset,
                avail >= 1 + total_size(self.0@),
                dst@[offset as int] == cb,
                items_write(self.0@, order, avail as int, 1) == items_write(
                    self.0@.skip(i as int),
                    order,
                    avail as int,
                    pos as int,
                ),
                pos > 1 ==> dst@.subrange(offset + 1, offset + pos) == concat_bytes(
                    self.0@.take(i as int),
                    order,
                ),
                forall|k: int|
                    0 <= k < dst@.len() && !(offset <= k < offset + 1 + total_size(self.0@))
                        ==> dst@[k] == old(dst)@[k],
            decreases len0 - i,
        {
            let ghost prev = dst@;
            let ghost ii = i as int;
            proof {
                lemma_total_size_split::<T>(self.0@, ii);
                lemma_total_size_snoc::<T>(self.0@, ii);
                self.0@[ii].size_law(order);
                assert(self.0@.skip(ii)[0] == self.0@[ii]);
                assert(self.0@.skip(ii).skip(1) =~= self.0@.skip(ii + 1));
                lemma_total_size_nonneg::<T>(self.0@.skip(ii + 1));
                lemma_total_size_nonneg::<T>(self.0@.take(ii));
                assert(total_size(self.0@.skip(ii)) == self.0@[ii].spec_size() + total_size(
                    self.0@.skip(ii + 1),
                ));
            }
            let v = &self.0[i];
            let ghost sz = self.0@[ii].spec_size();
            let res = match order {
                ByteOrder::Little => v.try_write_le(dst, offset + pos),
                ByteOrder::Big => v.try_write_be(dst, offset + pos),
            };
            match res {
                Ok(n) => {
                    proof {
                        lemma_concat_snoc::<T>(self.0@, ii, order);
                        if n > 0 {
                            assert(dst@.subrange(offset + pos, offset + pos + sz)
                                == self.0@[ii].bytes_of(order));
                        } else {
                            assert(self.0@[ii].bytes_of(order) =~= Seq::<u8>::empty());
                            assert(dst@.subrange(offset + pos, offset + pos + sz) =~= Seq::<
                                u8,
                            >::empty());
                        }
                        if pos > 1 {
                            assert forall|k: int| offset + 1 <= k < offset + pos implies dst@[k]
                                == prev[k] by {}
                            assert(dst@.subrange(offset + 1, offset + pos) =~= prev.subrange(
                                offset + 1,
                                offset + pos,
                            ));
                        } else {
                            lemma_concat_len::<T>(self.0@.take(ii), order);
                            assert(concat_bytes(self.0@.take(ii), order) =~= Seq::<u8>::empty());
                            assert(dst@.subrange(offset + 1, offset + 1) =~= Seq::<u8>::empty());
                        }
                        assert(dst@.subrange(offset + 1, offset + pos + sz) =~= dst@.subrange(
                            offset + 1,
                            offset + pos,
                        ) + dst@.subrange(offset + pos, offset + pos + sz));
                        assert(dst@.subrange(offset + 1, offset + pos + sz) == concat_bytes(
                            self.0@.take(ii + 1),
                            order,
                        ));
                        assert forall|k: int|
                            0 <= k < dst@.len() && !(offset <= k < offset + 1 + total_size(
                                self.0@,
                            )) implies dst@[k] == old(dst)@[k] by {
                            assert(dst@[k] == prev[k]);
                        }
                    }
                    pos = pos + n;
                    i = i + 1;
                },
                Err(e) => {
                    return Err(rebase_error(e, pos, avail));
                },
            }
        }
        proof {
            assert(self.0@.take(len0 as int) =~= self.0@);
            assert(self.0@.skip(len0 as int) =~= Seq::<T>::empty());
            assert(final(dst)@.subrange(offset as int, offset + 1) =~= seq![cb]);
            assert(seq![cb] =~= seq![(self.0@.len() % 256) as u8]);
            if pos > 1 {
                assert(final(dst)@.subrange(offset as int, offset + size) =~= final(dst)@.subrange(offset as int, offset + 1) + final(dst)@.subrange(
                    offset + 1,
                    offset + pos,
                ));
            } else {
                lemma_concat_len::<T>(self.0@, order);
                assert(concat_bytes(self.0@, order) =~= Seq::<u8>::empty());
                assert(final(dst)@.subrange(offset as int, offset + size) =~= final(dst)@.subrange(offset as int, offset + 1));
            }
            assert(final(dst)@.subrange(offset as int, offset + size) == self.bytes_of(order));
        }
        Ok(size)
    }
}

/// A record that pairs a fixed-width [`Record`] with a variable-length
/// [`ListContainer`], composing a generated-style codec with a
/// self-describing one.
#[derive(Debug, PartialEq)]
pub struct Composite {
    pub record: Record,
    pub list: ListContainer<u32>,
}

impl EndianRead for Composite {
    open spec fn read_ok(order: ByteOrder, bytes: Seq<u8>) -> bool {
        bytes.len() >= 9 && <ListContainer<u32>>::read_ok(order, tail_from(bytes, 9))
    }

    open spec fn read_match(order: ByteOrder, bytes: Seq<u8>, v: Self, n: int) -> bool {
        &&& Record::read_match(order, bytes, v.record, 9)
        &&& <ListContainer<u32>>::read_match(order, tail_from(bytes, 9), v.list, n - 9)
    }

    open spec fn read_err(order: ByteOrder, bytes: Seq<u8>) -> Error {
        if bytes.len() < 9 {
            spec_add_context(Record::read_err(order, bytes), 0, bytes.len() as int)
        } else {
            spec_add_context(
                <ListContainer<u32>>::read_err(order, tail_from(bytes, 9)),
                9,
                bytes.len() as int,
            )
        }
    }

    proof fn read_size_deterministic(
        order: ByteOrder,
        bytes: Seq<u8>,
        v1: Self,
        n1: int,
        v2: Self,
        n2: int,
    ) {
        <ListContainer<u32>>::read_size_deterministic(
            order,
            tail_from(bytes, 9),
            v1.list,
            n1 - 9,
            v2.list,
            n2 - 9,
        );
    }

    fn try_read_le(bytes: &[u8]) -> (r: Result<ReadOutput<Self>, Error>) {
        let record = match Record::try_read_le(bytes) {
            Ok(o) => o.into_data(),
            Err(e) => {
                return Err(rebase_error(e, 0, bytes.len()));
            },
        };
        let blen = bytes.len();
        let tail = tail_of(bytes, 9);
        match <ListContainer<u32>>::try_read_le(tail) {
            Ok(o) => {
                let n = o.get_read_bytes();
                let list = o.into_data();
                proof {
                    assert(n <= tail@.len());
                    assert(tail@.len() + 9 <= blen);
                }
                Ok(ReadOutput::new(Composite { record, list }, 9 + n))
            },
            Err(e) => Err(rebase_error(e, 9, blen)),
        }
    }

    fn try_read_be(bytes: &[u8]) -> (r: Result<ReadOutput<Self>, Error>) {
        let record = match Record::try_read_be(bytes) {
            Ok(o) => o.into_data(),
            Err(e) => {
                return Err(rebase_error(e, 0, bytes.len()));
            },
        };
        let blen = bytes.len();
        let tail = tail_of(bytes, 9);
        match <ListContainer<u32>>::try_read_be(tail) {
            Ok(o) => {
                let n = o.get_read_bytes();
                let list = o.into_data();
                proof {
                    assert(n <= tail@.len());
                    assert(tail@.len() + 9 <= blen);
                }
                Ok(ReadOutput::new(Composite { record, list }, 9 + n))
            },
            Err(e) => Err(rebase_error(e, 9, blen)),
        }
    }
}

impl EndianWrite for Composite {
    open spec fn spec_size(&self) -> int {
        9 + self.list.spec_size()
    }

    open spec fn bytes_of(&self, order: ByteOrder) -> Seq<u8> {
        self.record.bytes_of(order) + self.list.bytes_of(order)
    }

    open spec fn spec_write(&self, order: ByteOrder, avail: int) -> Result<(), Error> {
        match self.record.spec_write(order, avail) {
            Err(e) => Err(spec_add_context(e, 0, avail)),
            Ok(()) => match self.list.spec_write(order, avail - 9) {
                Err(e) => Err(spec_add_context(e, 9, avail)),
                Ok(()) => Ok(()),
            },
        }
    }

    proof fn size_law(&self, order: ByteOrder) {
        self.list.size_law(order);
    }

    fn get_size(&self) -> (n: usize) {
        proof {
            self.list.size_law(ByteOrder::Little);
        }
        9 + self.list.get_size()
    }

    fn try_write_le(&self, dst: &mut Vec<u8>, offset: usize) -> (r: Result<usize, Error>) {
        proof {
            self.list.size_law(ByteOrder::Little);
        }
        let len = dst.len();
        let avail: usize = if offset <= len {
            len - offset
        } else {
            0
        };
        match self.record.try_write_le(dst, offset) {
            Ok(_) => (),
            Err(e) => {
                return Err(rebase_error(e, 0, avail));
            },
        }
        let ghost s1 = dst@;
        let inner = match self.list.try_write_le(dst, offset + 9) {
            Ok(n) => n,
            Err(e) => {
                return Err(rebase_error(e, 9, avail));
            },
        };
        proof {
            assert(final(dst)@.subrange(offset as int, offset + 9) =~= s1.subrange(
                offset as int,
                offset + 9,
            ));
            assert(final(dst)@.subrange(offset as int, offset + 9 + self.list.spec_size())
                =~= final(dst)@.subrange(offset as int, offset + 9) + final(dst)@.subrange(
                offset + 9,
                offset + 9 + self.list.spec_size(),
            ));
        }
        Ok(9 + inner)
    }

    fn try_write_be(&self, dst: &mut Vec<u8>, offset: usize) -> (r: Result<usize, Error>) {
        proof {
            self.list.size_law(ByteOrder::Big);
        }
        let len = dst.len();
        let avail: usize = if offset <= len {
            len - offset
        } else {
            0
        };
        match self.record.try_write_be(dst, offset) {
            Ok(_) => (),
            Err(e) => {
                return Err(rebase_error(e, 0, avail));
            },
        }
        let ghost s1 = dst@;
        let inner = match self.list.try_write_be(dst, offset + 9) {
            Ok(n) => n,
            Err(e) => {
                return Err(rebase_error(e, 9, avail));
            },
        };
        proof {
            assert(final(dst)@.subrange(offset as int, offset + 9) =~= s1.subrange(
                offset as int,
                offset + 9,
            ));
            assert(final(dst)@.subrange(offset as int, offset + 9 + self.list.spec_size())
                =~= final(dst)@.subrange(offset as int, offset + 9) + final(dst)@.subrange(
                offset + 9,
                offset + 9 + self.list.spec_size(),
            ));
        }
        Ok(9 + inner)
    }
}

} // verus!
