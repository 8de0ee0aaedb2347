use vstd::prelude::*;

use crate::byte_order::{avail_from, ByteOrder};
use crate::endian_read::{EndianRead, ReadOutput};
use crate::endian_write::EndianWrite;
use crate::error::Error;

verus! {

/// The signed value with two's-complement representation `u` in a domain of
/// `full` values: `u` itself below `full / 2`, else `u - full`.
pub open spec fn to_signed(u: int, full: int) -> int {
    if u < full / 2 {
        u
    } else {
        u - full
    }
}

/// The two's-complement representation of `v` in a domain of `full` values.
pub open spec fn to_unsigned(v: int, full: int) -> int {
    if v >= 0 {
        v
    } else {
        v + full
    }
}

/// The value of the first two bytes of `s` in byte order `order`.
pub open spec fn spec_u16_decode(order: ByteOrder, s: Seq<u8>) -> u16
    recommends
        s.len() >= 2,
{
    match order {
        ByteOrder::Little => (s[0] + s[1] * 0x100) as u16,
        ByteOrder::Big => (s[1] + s[0] * 0x100) as u16,
    }
}

/// The two-byte encoding of `x` in byte order `order`.
pub open spec fn spec_u16_encode(order: ByteOrder, x: u16) -> Seq<u8> {
    match order {
        ByteOrder::Little => seq![(x as int % 0x100) as u8, (x as int / 0x100) as u8],
        ByteOrder::Big => seq![(x as int / 0x100) as u8, (x as int % 0x100) as u8],
    }
}

/// The value of the first four bytes of `s` in byte order `order`.
pub open spec fn spec_u32_decode(order: ByteOrder, s: Seq<u8>) -> u32
    recommends
        s.len() >= 4,
{
    match order {
        ByteOrder::Little => (s[0] + s[1] * 0x100 + s[2] * 0x10000 + s[3] * 0x1000000) as u32,
        ByteOrder::Big => (s[3] + s[2] * 0x100 + s[1] * 0x10000 + s[0] * 0x1000000) as u32,
    }
}

/// The four-byte encoding of `x` in byte order `order`.
pub open spec fn spec_u32_encode(order: ByteOrder, x: u32) -> Seq<u8> {
    match order {
        ByteOrder::Little => seq![
            (x as int % 0x100) as u8,
            (x as int / 0x100 % 0x100) as u8,
            (x as int / 0x10000 % 0x100) as u8,
            (x as int / 0x1000000) as u8,
        ],
        ByteOrder::Big => seq![
            (x as int / 0x1000000) as u8,
            (x as int / 0x10000 % 0x100) as u8,
            (x as int / 0x100 % 0x100) as u8,
            (x as int % 0x100) as u8,
        ],
    }
}

/// The value of the first eight bytes of `s` in byte order `order`.
pub open spec fn spec_u64_decode(order: ByteOrder, s: Seq<u8>) -> u64
    recommends
        s.len() >= 8,
{
    match order {
        ByteOrder::Little => (s[0] + s[1] * 0x100 + s[2] * 0x10000 + s[3] * 0x1000000 + s[4]
            * 0x100000000 + s[5] * 0x10000000000 + s[6] * 0x1000000000000 + s[7]
            * 0x100000000000000) as u64,
        ByteOrder::Big => (s[7] + s[6] * 0x100 + s[5] * 0x10000 + s[4] * 0x1000000 + s[3]
            * 0x100000000 + s[2] * 0x10000000000 + s[1] * 0x1000000000000 + s[0]
            * 0x100000000000000) as u64,
    }
}

/// The eight-byte encoding of `x` in byte order `order`.
pub open spec fn spec_u64_encode(order: ByteOrder, x: u64) -> Seq<u8> {
    match order {
        ByteOrder::Little => seq![
            (x as int % 0x100) as u8,
            (x as int / 0x100 % 0x100) as u8,
            (x as int / 0x10000 % 0x100) as u8,
            (x as int / 0x1000000 % 0x100) as u8,
            (x as int / 0x100000000 % 0x100) as u8,
            (x as int / 0x10000000000 % 0x100) as u8,
            (x as int / 0x1000000000000 % 0x100) as u8,
            (x as int / 0x100000000000000) as u8,
        ],
        ByteOrder::Big => seq![
            (x as int / 0x100000000000000) as u8,
            (x as int / 0x1000000000000 % 0x100) as u8,
            (x as int / 0x10000000000 % 0x100) as u8,
            (x as int / 0x100000000 % 0x100) as u8,
            (x as int / 0x1000000 % 0x100) as u8,
            (x as int / 0x10000 % 0x100) as u8,
            (x as int / 0x100 % 0x100) as u8,
            (x as int % 0x100) as u8,
        ],
    }
}

/// The error every fixed-width decoder reports when fewer than `wanted`
/// bytes are available.
pub open spec fn short_read_err(wanted: int, len: int) -> Error {
    Error::InvalidSize { wanted_size: wanted as usize, offset: 0, data_len: len as usize }
}

/// The error every fixed-width encoder reports when fewer than `wanted`
/// bytes of room are available.
pub open spec fn short_write_err(wanted: int, avail: int) -> Error {
    Error::InvalidSize { wanted_size: wanted as usize, offset: 0, data_len: avail as usize }
}

/// A fixed-width scalar: a type whose encoding always occupies
/// [`FixedWidth::width`] bytes, decodes whenever that many bytes are
/// available, and whose required alignment for direct reinterpretation
/// equals its width.
pub trait FixedWidth: EndianRead + EndianWrite {
    /// The number of bytes every value of this type encodes to.
    spec fn width() -> int;

    /// The value substituted by the lenient read operations on failure.
    spec fn spec_default() -> Self;

    /// `width`, as an executable value.
    fn fixed_size() -> (n: usize)
        ensures
            n == Self::width(),
    ;

    /// The substitute value, as an executable value.
    fn default_value() -> (r: Self)
        ensures
            r == Self::spec_default(),
    ;

    /// A decode succeeds exactly when `width` bytes are available; it then
    /// consumes exactly `width` bytes, and fails with the canonical
    /// short-read error otherwise.
    proof fn read_law(order: ByteOrder, bytes: Seq<u8>)
        ensures
            Self::read_ok(order, bytes) <==> bytes.len() >= Self::width(),
            forall|v: Self, n: int| Self::read_match(order, bytes, v, n) ==> n == Self::width(),
            !Self::read_ok(order, bytes) ==> Self::read_err(order, bytes) == short_read_err(
                Self::width(),
                bytes.len() as int,
            ),
    ;

    /// A write succeeds exactly when `width` bytes of room are available,
    /// and fails with the canonical short-write error otherwise; the size a
    /// value reports is `width`.
    proof fn write_law(&self, order: ByteOrder, avail: int)
        requires
            0 <= avail,
        ensures
            self.spec_size() == Self::width(),
            self.spec_write(order, avail) == if avail >= Self::width() {
                Ok::<(), Error>(())
            } else {
                Err::<(), Error>(short_write_err(Self::width(), avail))
            },
    ;
}

impl EndianRead for u8 {
    open spec fn read_ok(order: ByteOrder, bytes: Seq<u8>) -> bool {
        bytes.len() >= 1
    }

    open spec fn read_match(order: ByteOrder, bytes: Seq<u8>, v: Self, n: int) -> bool {
        v == bytes[0] && n == 1
    }

    open spec fn read_err(order: ByteOrder, bytes: Seq<u8>) -> Error {
        short_read_err(1, bytes.len() as int)
    }

    proof fn read_size_deterministic(
        order: ByteOrder,
        bytes: Seq<u8>,
        v1: Self,
        n1: int,
        v2: Self,
        n2: int,
    ) {
    }

    fn try_read_le(bytes: &[u8]) -> (r: Result<ReadOutput<Self>, Error>) {
        if bytes.len() < 1 {
            return Err(Error::InvalidSize { wanted_size: 1, offset: 0, data_len: bytes.len() });
        }
        Ok(ReadOutput::new(bytes[0], 1))
    }

    fn try_read_be(bytes: &[u8]) -> (r: Result<ReadOutput<Self>, Error>) {
        if bytes.len() < 1 {
            return Err(Error::InvalidSize { wanted_size: 1, offset: 0, data_len: bytes.len() });
        }
        Ok(ReadOutput::new(bytes[0], 1))
    }
}

impl EndianWrite for u8 {
    open spec fn spec_size(&self) -> int {
        1
    }

    open spec fn bytes_of(&self, order: ByteOrder) -> Seq<u8> {
        seq![*self]
    }

    open spec fn spec_write(&self, order: ByteOrder, avail: int) -> Result<(), Error> {
        if avail >= 1 {
            Ok(())
        } else {
            Err(short_write_err(1, avail))
        }
    }

    proof fn size_law(&self, order: ByteOrder) {
    }

    fn get_size(&self) -> (n: usize) {
        1
    }

    fn try_write_le(&self, dst: &mut Vec<u8>, offset: usize) -> (r: Result<usize, Error>) {
        let len = dst.len();
        let avail: usize = if offset <= len {
            len - offset
        } else {
            0
        };
        if avail < 1 {
            return Err(Error::InvalidSize { wanted_size: 1, offset: 0, data_len: avail });
        }
        dst[offset] = *self;
        assert(final(dst)@.subrange(offset as int, offset + 1) =~= self.bytes_of(
            ByteOrder::Little,
        ));
        Ok(1)
    }

    fn try_write_be(&self, dst: &mut Vec<u8>, offset: usize) -> (r: Result<usize, Error>) {
        let len = dst.len();
        let avail: usize = if offset <= len {
            len - offset
        } else {
            0
        };
        if avail < 1 {
            return Err(Error::InvalidSize { wanted_size: 1, offset: 0, data_len: avail });
        }
        dst[offset] = *self;
        assert(final(dst)@.subrange(offset as int, offset + 1) =~= self.bytes_of(ByteOrder::Big));
        Ok(1)
    }
}

impl FixedWidth for u8 {
    open spec fn width() -> int {
        1
    }

    open spec fn spec_default() -> Self {
        0
    }

    fn fixed_size() -> (n: usize) {
        1
    }

    fn default_value() -> (r: Self) {
        0
    }

    proof fn read_law(order: ByteOrder, bytes: Seq<u8>) {
    }

    proof fn write_law(&self, order: ByteOrder, avail: int) {
    }
}

impl EndianRead for u16 {
    open spec fn read_ok(order: ByteOrder, bytes: Seq<u8>) -> bool {
        bytes.len() >= 2
    }

    open spec fn read_match(order: ByteOrder, bytes: Seq<u8>, v: Self, n: int) -> bool {
        v == spec_u16_decode(order, bytes) && n == 2
    }

    open spec fn read_err(order: ByteOrder, bytes: Seq<u8>) -> Error {
        short_read_err(2, bytes.len() as int)
    }

    proof fn read_size_deterministic(
        order: ByteOrder,
        bytes: Seq<u8>,
        v1: Self,
        n1: int,
        v2: Self,
        n2: int,
    ) {
    }

    fn try_read_le(bytes: &[u8]) -> (r: Result<ReadOutput<Self>, Error>) {
        if bytes.len() < 2 {
            return Err(Error::InvalidSize { wanted_size: 2, offset: 0, data_len: bytes.len() });
        }
        let v: u16 = bytes[0] as u16 + bytes[1] as u16 * 0x100;
        Ok(ReadOutput::new(v, 2))
    }

    fn try_read_be(bytes: &[u8]) -> (r: Result<ReadOutput<Self>, Error>) {
        if bytes.len() < 2 {
            return Err(Error::InvalidSize { wanted_size: 2, offset: 0, data_len: bytes.len() });
        }
        let v: u16 = bytes[1] as u16 + bytes[0] as u16 * 0x100;
        Ok(ReadOutput::new(v, 2))
    }
}

impl EndianWrite for u16 {
    open spec fn spec_size(&self) -> int {
        2
    }

    open spec fn bytes_of(&self, order: ByteOrder) -> Seq<u8> {
        spec_u16_encode(order, *self)
    }

    open spec fn spec_write(&self, order: ByteOrder, avail: int) -> Result<(), Error> {
        if avail >= 2 {
            Ok(())
        } else {
            Err(short_write_err(2, avail))
        }
    }

    proof fn size_law(&self, order: ByteOrder) {
    }

    fn get_size(&self) -> (n: usize) {
        2
    }

    fn try_write_le(&self, dst: &mut Vec<u8>, offset: usize) -> (r: Result<usize, Error>) {
        let len = dst.len();
        let avail: usize = if offset <= len {
            len - offset
        } else {
            0
        };
        if avail < 2 {
            return Err(Error::InvalidSize { wanted_size: 2, offset: 0, data_len: avail });
        }
        dst[offset] = (*self % 0x100) as u8;
        dst[offset + 1] = (*self / 0x100) as u8;
        assert(final(dst)@.subrange(offset as int, offset + 2) =~= self.bytes_of(
            ByteOrder::Little,
        ));
        Ok(2)
    }

    fn try_write_be(&self, dst: &mut Vec<u8>, offset: usize) -> (r: Result<usize, Error>) {
        let len = dst.len();
        let avail: usize = if offset <= len {
            len - offset
        } else {
            0
        };
        if avail < 2 {
            return Err(Error::InvalidSize { wanted_size: 2, offset: 0, data_len: avail });
        }
        dst[offset] = (*self / 0x100) as u8;
        dst[offset + 1] = (*self % 0x100) as u8;
        assert(final(dst)@.subrange(offset as int, offset + 2) =~= self.bytes_of(ByteOrder::Big));
        Ok(2)
    }
}

impl FixedWidth for u16 {
    open spec fn width() -> int {
        2
    }

    open spec fn spec_default() -> Self {
        0
    }

    fn fixed_size() -> (n: usize) {
        2
    }

    fn default_value() -> (r: Self) {
        0
    }

    proof fn read_law(order: ByteOrder, bytes: Seq<u8>) {
    }

    proof fn write_law(&self, order: ByteOrder, avail: int) {
    }
}

impl EndianRead for u32 {
    open spec fn read_ok(order: ByteOrder, bytes: Seq<u8>) -> bool {
        bytes.len() >= 4
    }

    open spec fn read_match(order: ByteOrder, bytes: Seq<u8>, v: Self, n: int) -> bool {
        v == spec_u32_decode(order, bytes) && n == 4
    }

    open spec fn read_err(order: ByteOrder, bytes: Seq<u8>) -> Error {
        short_read_err(4, bytes.len() as int)
    }

    proof fn read_size_deterministic(
        order: ByteOrder,
        bytes: Seq<u8>,
        v1: Self,
        n1: int,
        v2: Self,
        n2: int,
    ) {
    }

    fn try_read_le(bytes: &[u8]) -> (r: Result<ReadOutput<Self>, Error>) {
        if bytes.len() < 4 {
            return Err(Error::InvalidSize { wanted_size: 4, offset: 0, data_len: bytes.len() });
        }
        let v: u32 = bytes[0] as u32 + bytes[1] as u32 * 0x100 + bytes[2] as u32 * 0x10000 + bytes[3] as u32 * 0x1000000;
        Ok(ReadOutput::new(v, 4))
    }

    fn try_read_be(bytes: &[u8]) -> (r: Result<ReadOutput<Self>, Error>) {
        if bytes.len() < 4 {
            return Err(Error::InvalidSize { wanted_size: 4, offset: 0, data_len: bytes.len() });
        }
        let v: u32 = bytes[3] as u32 + bytes[2] as u32 * 0x100 + bytes[1] as u32 * 0x10000 + bytes[0] as u32 * 0x1000000;
        Ok(ReadOutput::new(v, 4))
    }
}

impl EndianWrite for u32 {
    open spec fn spec_size(&self) -> int {
        4
    }

    open spec fn bytes_of(&self, order: ByteOrder) -> Seq<u8> {
        spec_u32_encode(order, *self)
    }

    open spec fn spec_write(&self, order: ByteOrder, avail: int) -> Result<(), Error> {
        if avail >= 4 {
            Ok(())
        } else {
            Err(short_write_err(4, avail))
        }
    }

    proof fn size_law(&self, order: ByteOrder) {
    }

    fn get_size(&self) -> (n: usize) {
        4
    }

    fn try_write_le(&self, dst: &mut Vec<u8>, offset: usize) -> (r: Result<usize, Error>) {
        let len = dst.len();
        let avail: usize = if offset <= len {
            len - offset
        } else {
            0
        };
        if avail < 4 {
            return Err(Error::InvalidSize { wanted_size: 4, offset: 0, data_len: avail });
        }
        dst[offset] = (*self % 0x100) as u8;
        dst[offset + 1] = (*self / 0x100 % 0x100) as u8;
        dst[offset + 2] = (*self / 0x10000 % 0x100) as u8;
        dst[offset + 3] = (*self / 0x1000000) as u8;
        assert(final(dst)@.subrange(offset as int, offset + 4) =~= self.bytes_of(
            ByteOrder::Little,
        ));
        Ok(4)
    }

    fn try_write_be(&self, dst: &mut Vec<u8>, offset: usize) -> (r: Result<usize, Error>) {
        let len = dst.len();
        let avail: usize = if offset <= len {
            len - offset
        } else {
            0
        };
        if avail < 4 {
            return Err(Error::InvalidSize { wanted_size: 4, offset: 0, data_len: avail });
        }
        dst[offset] = (*self / 0x1000000) as u8;
        dst[offset + 1] = (*self / 0x10000 % 0x100) as u8;
        dst[offset + 2] = (*self / 0x100 % 0x100) as u8;
        dst[offset + 3] = (*self % 0x100) as u8;
        assert(final(dst)@.subrange(offset as int, offset + 4) =~= self.bytes_of(ByteOrder::Big));
        Ok(4)
    }
}

impl FixedWidth for u32 {
    open spec fn width() -> int {
        4
    }

    open spec fn spec_default() -> Self {
        0
    }

    fn fixed_size() -> (n: usize) {
        4
    }

    fn default_value() -> (r: Self) {
        0
    }

    proof fn read_law(order: ByteOrder, bytes: Seq<u8>) {
    }

    proof fn write_law(&self, order: ByteOrder, avail: int) {
    }
}

impl EndianRead for u64 {
    open spec fn read_ok(order: ByteOrder, bytes: Seq<u8>) -> bool {
        bytes.len() >= 8
    }

    open spec fn read_match(order: ByteOrder, bytes: Seq<u8>, v: Self, n: int) -> bool {
        v == spec_u64_decode(order, bytes) && n == 8
    }

    open spec fn read_err(order: ByteOrder, bytes: Seq<u8>) -> Error {
        short_read_err(8, bytes.len() as int)
    }

    proof fn read_size_deterministic(
        order: ByteOrder,
        bytes: Seq<u8>,
        v1: Self,
        n1: int,
        v2: Self,
        n2: int,
    ) {
    }

    fn try_read_le(bytes: &[u8]) -> (r: Result<ReadOutput<Self>, Error>) {
        if bytes.len() < 8 {
            return Err(Error::InvalidSize { wanted_size: 8, offset: 0, data_len: bytes.len() });
        }
        let v: u64 = bytes[0] as u64 + bytes[1] as u64 * 0x100 + bytes[2] as u64 * 0x10000
            + bytes[3] as u64 * 0x1000000 + bytes[4] as u64 * 0x100000000 + bytes[5] as u64
            * 0x10000000000 + bytes[6] as u64 * 0x1000000000000 + bytes[7] as u64
            * 0x100000000000000;
        Ok(ReadOutput::new(v, 8))
    }

    fn try_read_be(bytes: &[u8]) -> (r: Result<ReadOutput<Self>, Error>) {
        if bytes.len() < 8 {
            return Err(Error::InvalidSize { wanted_size: 8, offset: 0, data_len: bytes.len() });
        }
        let v: u64 = bytes[7] as u64 + bytes[6] as u64 * 0x100 + bytes[5] as u64 * 0x10000
            + bytes[4] as u64 * 0x1000000 + bytes[3] as u64 * 0x100000000 + bytes[2] as u64
            * 0x10000000000 + bytes[1] as u64 * 0x1000000000000 + bytes[0] as u64
            * 0x100000000000000;
        Ok(ReadOutput::new(v, 8))
    }
}

impl EndianWrite for u64 {
    open spec fn spec_size(&self) -> int {
        8
    }

    open spec fn bytes_of(&self, order: ByteOrder) -> Seq<u8> {
        spec_u64_encode(order, *self)
    }

    open spec fn spec_write(&self, order: ByteOrder, avail: int) -> Result<(), Error> {
        if avail >= 8 {
            Ok(())
        } else {
            Err(short_write_err(8, avail))
        }
    }

    proof fn size_law(&self, order: ByteOrder) {
    }

    fn get_size(&self) -> (n: usize) {
        8
    }

    fn try_write_le(&self, dst: &mut Vec<u8>, offset: usize) -> (r: Result<usize, Error>) {
        let len = dst.len();
        let avail: usize = if offset <= len {
            len - offset
        } else {
            0
        };
        if avail < 8 {
            return Err(Error::InvalidSize { wanted_size: 8, offset: 0, data_len: avail });
        }
        dst[offset] = (*self % 0x100) as u8;
        dst[offset + 1] = (*self / 0x100 % 0x100) as u8;
        dst[offset + 2] = (*self / 0x10000 % 0x100) as u8;
        dst[offset + 3] = (*self / 0x1000000 % 0x100) as u8;
        dst[offset + 4] = (*self / 0x100000000 % 0x100) as u8;
        dst[offset + 5] = (*self / 0x10000000000 % 0x100) as u8;
        dst[offset + 6] = (*self / 0x1000000000000 % 0x100) as u8;
        dst[offset + 7] = (*self / 0x100000000000000) as u8;
        assert(final(dst)@.subrange(offset as int, offset + 8) =~= self.bytes_of(
            ByteOrder::Little,
        ));
        Ok(8)
    }

    fn try_write_be(&self, dst: &mut Vec<u8>, offset: usize) -> (r: Result<usize, Error>) {
        let len = dst.len();
        let avail: usize = if offset <= len {
            len - offset
        } else {
            0
        };
        if avail < 8 {
            return Err(Error::InvalidSize { wanted_size: 8, offset: 0, data_len: avail });
        }
        dst[offset] = (*self / 0x100000000000000) as u8;
        dst[offset + 1] = (*self / 0x1000000000000 % 0x100) as u8;
        dst[offset + 2] = (*self / 0x10000000000 % 0x100) as u8;
        dst[offset + 3] = (*self / 0x100000000 % 0x100) as u8;
        dst[offset + 4] = (*self / 0x1000000 % 0x100) as u8;
        dst[offset + 5] = (*self / 0x10000 % 0x100) as u8;
        dst[offset + 6] = (*self / 0x100 % 0x100) as u8;
        dst[offset + 7] = (*self % 0x100) as u8;
        assert(final(dst)@.subrange(offset as int, offset + 8) =~= self.bytes_of(ByteOrder::Big));
        Ok(8)
    }
}

impl FixedWidth for u64 {
    open spec fn width() -> int {
        8
    }

    open spec fn spec_default() -> Self {
        0
    }

    fn fixed_size() -> (n: usize) {
        8
    }

    fn default_value() -> (r: Self) {
        0
    }

    proof fn read_law(order: ByteOrder, bytes: Seq<u8>) {
    }

    proof fn write_law(&self, order: ByteOrder, avail: int) {
    }
}

impl EndianRead for i8 {
    open spec fn read_ok(order: ByteOrder, bytes: Seq<u8>) -> bool {
        bytes.len() >= 1
    }

    open spec fn read_match(order: ByteOrder, bytes: Seq<u8>, v: Self, n: int) -> bool {
        v == to_signed(bytes[0] as int, 0x100) && n == 1
    }

    open spec fn read_err(order: ByteOrder, bytes: Seq<u8>) -> Error {
        short_read_err(1, bytes.len() as int)
    }

    proof fn read_size_deterministic(
        order: ByteOrder,
        bytes: Seq<u8>,
        v1: Self,
        n1: int,
        v2: Self,
        n2: int,
    ) {
    }

    fn try_read_le(bytes: &[u8]) -> (r: Result<ReadOutput<Self>, Error>) {
        if bytes.len() < 1 {
            return Err(Error::InvalidSize { wanted_size: 1, offset: 0, data_len: bytes.len() });
        }
        let u = bytes[0];
        let v: i8 = if u < 0x80 {
            u as i8
        } else {
            ((u as i16) - 0x100) as i8
        };
        Ok(ReadOutput::new(v, 1))
    }

    fn try_read_be(bytes: &[u8]) -> (r: Result<ReadOutput<Self>, Error>) {
        if bytes.len() < 1 {
            return Err(Error::InvalidSize { wanted_size: 1, offset: 0, data_len: bytes.len() });
        }
        let u = bytes[0];
        let v: i8 = if u < 0x80 {
            u as i8
        } else {
            ((u as i16) - 0x100) as i8
        };
        Ok(ReadOutput::new(v, 1))
    }
}

impl EndianWrite for i8 {
    open spec fn spec_size(&self) -> int {
        1
    }

    open spec fn bytes_of(&self, order: ByteOrder) -> Seq<u8> {
        seq![to_unsigned(*self as int, 0x100) as u8]
    }

    open spec fn spec_write(&self, order: ByteOrder, avail: int) -> Result<(), Error> {
        if avail >= 1 {
            Ok(())
        } else {
            Err(short_write_err(1, avail))
        }
    }

    proof fn size_law(&self, order: ByteOrder) {
    }

    fn get_size(&self) -> (n: usize) {
        1
    }

    fn try_write_le(&self, dst: &mut Vec<u8>, offset: usize) -> (r: Result<usize, Error>) {
        let len = dst.len();
        let avail: usize = if offset <= len {
            len - offset
        } else {
            0
        };
        if avail < 1 {
            return Err(Error::InvalidSize { wanted_size: 1, offset: 0, data_len: avail });
        }
        let u: u8 = if *self >= 0 {
            *self as u8
        } else {
            ((*self as i16) + 0x100) as u8
        };
        dst[offset] = u;
        assert(final(dst)@.subrange(offset as int, offset + 1) =~= self.bytes_of(
            ByteOrder::Little,
        ));
        Ok(1)
    }

    fn try_write_be(&self, dst: &mut Vec<u8>, offset: usize) -> (r: Result<usize, Error>) {
        let len = dst.len();
        let avail: usize = if offset <= len {
            len - offset
        } else {
            0
        };
        if avail < 1 {
            return Err(Error::InvalidSize { wanted_size: 1, offset: 0, data_len: avail });
        }
        let u: u8 = if *self >= 0 {
            *self as u8
        } else {
            ((*self as i16) + 0x100) as u8
        };
        dst[offset] = u;
        assert(final(dst)@.subrange(offset as int, offset + 1) =~= self.bytes_of(ByteOrder::Big));
        Ok(1)
    }
}

impl FixedWidth for i8 {
    open spec fn width() -> int {
        1
    }

    open spec fn spec_default() -> Self {
        0
    }

    fn fixed_size() -> (n: usize) {
        1
    }

    fn default_value() -> (r: Self) {
        0
    }

    proof fn read_law(order: ByteOrder, bytes: Seq<u8>) {
    }

    proof fn write_law(&self, order: ByteOrder, avail: int) {
    }
}

impl EndianRead for i16 {
    open spec fn read_ok(order: ByteOrder, bytes: Seq<u8>) -> bool {
        bytes.len() >= 2
    }

    open spec fn read_match(order: ByteOrder, bytes: Seq<u8>, v: Self, n: int) -> bool {
        v == to_signed(spec_u16_decode(order, bytes) as int, 0x10000) && n == 2
    }

    open spec fn read_err(order: ByteOrder, bytes: Seq<u8>) -> Error {
        short_read_err(2, bytes.len() as int)
    }

    proof fn read_size_deterministic(
        order: ByteOrder,
        bytes: Seq<u8>,
        v1: Self,
        n1: int,
        v2: Self,
        n2: int,
    ) {
    }

    fn try_read_le(bytes: &[u8]) -> (r: Result<ReadOutput<Self>, Error>) {
        let u = match u16::try_read_le(bytes) {
            Ok(o) => o.into_data(),
            Err(e) => {
                return Err(e);
            },
        };
        let v: i16 = if u < 0x8000 {
            u as i16
        } else {
            ((u as i32) - 0x10000) as i16
        };
        Ok(ReadOutput::new(v, 2))
    }

    fn try_read_be(bytes: &[u8]) -> (r: Result<ReadOutput<Self>, Error>) {
        let u = match u16::try_read_be(bytes) {
            Ok(o) => o.into_data(),
            Err(e) => {
                return Err(e);
            },
        };
        let v: i16 = if u < 0x8000 {
            u as i16
        } else {
            ((u as i32) - 0x10000) as i16
        };
        Ok(ReadOutput::new(v, 2))
    }
}

impl EndianWrite for i16 {
    open spec fn spec_size(&self) -> int {
        2
    }

    open spec fn bytes_of(&self, order: ByteOrder) -> Seq<u8> {
        spec_u16_encode(order, to_unsigned(*self as int, 0x10000) as u16)
    }

    open spec fn spec_write(&self, order: ByteOrder, avail: int) -> Result<(), Error> {
        if avail >= 2 {
            Ok(())
        } else {
            Err(short_write_err(2, avail))
        }
    }

    proof fn size_law(&self, order: ByteOrder) {
    }

    fn get_size(&self) -> (n: usize) {
        2
    }

    fn try_write_le(&self, dst: &mut Vec<u8>, offset: usize) -> (r: Result<usize, Error>) {
        let u: u16 = if *self >= 0 {
            *self as u16
        } else {
            ((*self as i32) + 0x10000) as u16
        };
        u.try_write_le(dst, offset)
    }

    fn try_write_be(&self, dst: &mut Vec<u8>, offset: usize) -> (r: Result<usize, Error>) {
        let u: u16 = if *self >= 0 {
            *self as u16
        } else {
            ((*self as i32) + 0x10000) as u16
        };
        u.try_write_be(dst, offset)
    }
}

impl FixedWidth for i16 {
    open spec fn width() -> int {
        2
    }

    open spec fn spec_default() -> Self {
        0
    }

    fn fixed_size() -> (n: usize) {
        2
    }

    fn default_value() -> (r: Self) {
        0
    }

    proof fn read_law(order: ByteOrder, bytes: Seq<u8>) {
    }

    proof fn write_law(&self, order: ByteOrder, avail: int) {
    }
}

impl EndianRead for i32 {
    open spec fn read_ok(order: ByteOrder, bytes: Seq<u8>) -> bool {
        bytes.len() >= 4
    }

    open spec fn read_match(order: ByteOrder, bytes: Seq<u8>, v: Self, n: int) -> bool {
        v == to_signed(spec_u32_decode(order, bytes) as int, 0x100000000) && n == 4
    }

    open spec fn read_err(order: ByteOrder, bytes: Seq<u8>) -> Error {
        short_read_err(4, bytes.len() as int)
    }

    proof fn read_size_deterministic(
        order: ByteOrder,
        bytes: Seq<u8>,
        v1: Self,
        n1: int,
        v2: Self,
        n2: int,
    ) {
    }

    fn try_read_le(bytes: &[u8]) -> (r: Result<ReadOutput<Self>, Error>) {
        let u = match u32::try_read_le(bytes) {
            Ok(o) => o.into_data(),
            Err(e) => {
                return Err(e);
            },
        };
        let v: i32 = if u < 0x80000000 {
            u as i32
        } else {
            ((u as i64) - 0x100000000) as i32
        };
        Ok(ReadOutput::new(v, 4))
    }

    fn try_read_be(bytes: &[u8]) -> (r: Result<ReadOutput<Self>, Error>) {
        let u = match u32::try_read_be(bytes) {
            Ok(o) => o.into_data(),
            Err(e) => {
                return Err(e);
            },
        };
        let v: i32 = if u < 0x80000000 {
            u as i32
        } else {
            ((u as i64) - 0x100000000) as i32
        };
        Ok(ReadOutput::new(v, 4))
    }
}

impl EndianWrite for i32 {
    open spec fn spec_size(&self) -> int {
        4
    }

    open spec fn bytes_of(&self, order: ByteOrder) -> Seq<u8> {
        spec_u32_encode(order, to_unsigned(*self as int, 0x100000000) as u32)
    }

    open spec fn spec_write(&self, order: ByteOrder, avail: int) -> Result<(), Error> {
        if avail >= 4 {
            Ok(())
        } else {
            Err(short_write_err(4, avail))
        }
    }

    proof fn size_law(&self, order: ByteOrder) {
    }

    fn get_size(&self) -> (n: usize) {
        4
    }

    fn try_write_le(&self, dst: &mut Vec<u8>, offset: usize) -> (r: Result<usize, Error>) {
        let u: u32 = if *self >= 0 {
            *self as u32
        } else {
            ((*self as i64) + 0x100000000) as u32
        };
        u.try_write_le(dst, offset)
    }

    fn try_write_be(&self, dst: &mut Vec<u8>, offset: usize) -> (r: Result<usize, Error>) {
        let u: u32 = if *self >= 0 {
            *self as u32
        } else {
            ((*self as i64) + 0x100000000) as u32
        };
        u.try_write_be(dst, offset)
    }
}

impl FixedWidth for i32 {
    open spec fn width() -> int {
        4
    }

    open spec fn spec_default() -> Self {
        0
    }

    fn fixed_size() -> (n: usize) {
        4
    }

    fn default_value() -> (r: Self) {
        0
    }

    proof fn read_law(order: ByteOrder, bytes: Seq<u8>) {
    }

    proof fn write_law(&self, order: ByteOrder, avail: int) {
    }
}

impl EndianRead for i64 {
    open spec fn read_ok(order: ByteOrder, bytes: Seq<u8>) -> bool {
        bytes.len() >= 8
    }

    open spec fn read_match(order: ByteOrder, bytes: Seq<u8>, v: Self, n: int) -> bool {
        v == to_signed(spec_u64_decode(order, bytes) as int, 0x10000000000000000) && n == 8
    }

    open spec fn read_err(order: ByteOrder, bytes: Seq<u8>) -> Error {
        short_read_err(8, bytes.len() as int)
    }

    proof fn read_size_deterministic(
        order: ByteOrder,
        bytes: Seq<u8>,
        v1: Self,
        n1: int,
        v2: Self,
        n2: int,
    ) {
    }

    fn try_read_le(bytes: &[u8]) -> (r: Result<ReadOutput<Self>, Error>) {
        let u = match u64::try_read_le(bytes) {
            Ok(o) => o.into_data(),
            Err(e) => {
                return Err(e);
            },
        };
        let v: i64 = if u < 0x8000000000000000 {
            u as i64
        } else {
            ((u as i128) - 0x10000000000000000) as i64
        };
        Ok(ReadOutput::new(v, 8))
    }

    fn try_read_be(bytes: &[u8]) -> (r: Result<ReadOutput<Self>, Error>) {
        let u = match u64::try_read_be(bytes) {
            Ok(o) => o.into_data(),
            Err(e) => {
                return Err(e);
            },
        };
        let v: i64 = if u < 0x8000000000000000 {
            u as i64
        } else {
            ((u as i128) - 0x10000000000000000) as i64
        };
        Ok(ReadOutput::new(v, 8))
    }
}

impl EndianWrite for i64 {
    open spec fn spec_size(&self) -> int {
        8
    }

    open spec fn bytes_of(&self, order: ByteOrder) -> Seq<u8> {
        spec_u64_encode(order, to_unsigned(*self as int, 0x10000000000000000) as u64)
    }

    open spec fn spec_write(&self, order: ByteOrder, avail: int) -> Result<(), Error> {
        if avail >= 8 {
            Ok(())
        } else {
            Err(short_write_err(8, avail))
        }
    }

    proof fn size_law(&self, order: ByteOrder) {
    }

    fn get_size(&self) -> (n: usize) {
        8
    }

    fn try_write_le(&self, dst: &mut Vec<u8>, offset: usize) -> (r: Result<usize, Error>) {
        let u: u64 = if *self >= 0 {
            *self as u64
        } else {
            ((*self as i128) + 0x10000000000000000) as u64
        };
        u.try_write_le(dst, offset)
    }

    fn try_write_be(&self, dst: &mut Vec<u8>, offset: usize) -> (r: Result<usize, Error>) {
        let u: u64 = if *self >= 0 {
            *self as u64
        } else {
            ((*self as i128) + 0x10000000000000000) as u64
        };
        u.try_write_be(dst, offset)
    }
}

impl FixedWidth for i64 {
    open spec fn width() -> int {
        8
    }

    open spec fn spec_default() -> Self {
        0
    }

    fn fixed_size() -> (n: usize) {
        8
    }

    fn default_value() -> (r: Self) {
        0
    }

    proof fn read_law(order: ByteOrder, bytes: Seq<u8>) {
    }

    proof fn write_law(&self, order: ByteOrder, avail: int) {
    }
}

impl EndianRead for bool {
    open spec fn read_ok(order: ByteOrder, bytes: Seq<u8>) -> bool {
        bytes.len() >= 1
    }

    open spec fn read_match(order: ByteOrder, bytes: Seq<u8>, v: Self, n: int) -> bool {
        v == (bytes[0] != 0) && n == 1
    }

    open spec fn read_err(order: ByteOrder, bytes: Seq<u8>) -> Error {
        short_read_err(1, bytes.len() as int)
    }

    proof fn read_size_deterministic(
        order: ByteOrder,
        bytes: Seq<u8>,
        v1: Self,
        n1: int,
        v2: Self,
        n2: int,
    ) {
    }

    fn try_read_le(bytes: &[u8]) -> (r: Result<ReadOutput<Self>, Error>) {
        if bytes.len() < 1 {
            return Err(Error::InvalidSize { wanted_size: 1, offset: 0, data_len: bytes.len() });
        }
        Ok(ReadOutput::new(bytes[0] != 0, 1))
    }

    fn try_read_be(bytes: &[u8]) -> (r: Result<ReadOutput<Self>, Error>) {
        if bytes.len() < 1 {
            return Err(Error::InvalidSize { wanted_size: 1, offset: 0, data_len: bytes.len() });
        }
        Ok(ReadOutput::new(bytes[0] != 0, 1))
    }
}

impl EndianWrite for bool {
    open spec fn spec_size(&self) -> int {
        1
    }

    open spec fn bytes_of(&self, order: ByteOrder) -> Seq<u8> {
        seq![
            if *self {
                1u8
            } else {
                0u8
            },
        ]
    }

    open spec fn spec_write(&self, order: ByteOrder, avail: int) -> Result<(), Error> {
        if avail >= 1 {
            Ok(())
        } else {
            Err(short_write_err(1, avail))
        }
    }

    proof fn size_law(&self, order: ByteOrder) {
    }

    fn get_size(&self) -> (n: usize) {
        1
    }

    fn try_write_le(&self, dst: &mut Vec<u8>, offset: usize) -> (r: Result<usize, Error>) {
        let b: u8 = if *self {
            1
        } else {
            0
        };
        b.try_write_le(dst, offset)
    }

    fn try_write_be(&self, dst: &mut Vec<u8>, offset: usize) -> (r: Result<usize, Error>) {
        let b: u8 = if *self {
            1
        } else {
            0
        };
        b.try_write_be(dst, offset)
    }
}

impl FixedWidth for bool {
    open spec fn width() -> int {
        1
    }

    open spec fn spec_default() -> Self {
        false
    }

    fn fixed_size() -> (n: usize) {
        1
    }

    fn default_value() -> (r: Self) {
        false
    }

    proof fn read_law(order: ByteOrder, bytes: Seq<u8>) {
    }

    proof fn write_law(&self, order: ByteOrder, avail: int) {
    }
}

impl EndianRead for () {
    open spec fn read_ok(order: ByteOrder, bytes: Seq<u8>) -> bool {
        true
    }

    open spec fn read_match(order: ByteOrder, bytes: Seq<u8>, v: Self, n: int) -> bool {
        n == 0
    }

    open spec fn read_err(order: ByteOrder, bytes: Seq<u8>) -> Error {
        Error::InvalidSize { wanted_size: 0, offset: 0, data_len: 0 }
    }

    proof fn read_size_deterministic(
        order: ByteOrder,
        bytes: Seq<u8>,
        v1: Self,
        n1: int,
        v2: Self,
        n2: int,
    ) {
    }

    fn try_read_le(bytes: &[u8]) -> (r: Result<ReadOutput<Self>, Error>) {
        Ok(ReadOutput::new((), 0))
    }

    fn try_read_be(bytes: &[u8]) -> (r: Result<ReadOutput<Self>, Error>) {
        Ok(ReadOutput::new((), 0))
    }
}

impl EndianWrite for () {
    open spec fn spec_size(&self) -> int {
        0
    }

    open spec fn bytes_of(&self, order: ByteOrder) -> Seq<u8> {
        Seq::empty()
    }

    open spec fn spec_write(&self, order: ByteOrder, avail: int) -> Result<(), Error> {
        Ok(())
    }

    proof fn size_law(&self, order: ByteOrder) {
    }

    fn get_size(&self) -> (n: usize) {
        0
    }

    fn try_write_le(&self, dst: &mut Vec<u8>, offset: usize) -> (r: Result<usize, Error>) {
        Ok(0)
    }

    fn try_write_be(&self, dst: &mut Vec<u8>, offset: usize) -> (r: Result<usize, Error>) {
        Ok(0)
    }
}

impl FixedWidth for () {
    open spec fn width() -> int {
        0
    }

    open spec fn spec_default() -> Self {
        ()
    }

    fn fixed_size() -> (n: usize) {
        0
    }

    fn default_value() -> (r: Self) {
        ()
    }

    proof fn read_law(order: ByteOrder, bytes: Seq<u8>) {
    }

    proof fn write_law(&self, order: ByteOrder, avail: int) {
    }
}

} // verus!
