use vstd::prelude::*;
use vstd::slice::{slice_subrange, slice_to_vec};

use crate::byte_order::{tail_from, ByteOrder};
use crate::endian_read::EndianRead;
use crate::error::{add_error_context, spec_add_context, Error};
use crate::primitives::FixedWidth;

verus! {

pub type ReaderResult<T> = Result<T, Error>;

/// Whether a direct reinterpretation of a value of width `width` may happen
/// at position `offset`: the position must be a multiple of the width.
pub open spec fn is_aligned(offset: int, width: int) -> bool {
    width <= 0 || offset % width == 0
}

/// An interface to safely read values from a source.
///
/// Implementors provide the bytes through [`Reader::get_slice`]; every
/// derived operation checks bounds before it touches them, so a read past
/// the end is reported as an [`Error`] and never panics.
pub trait Reader {
    /// The bytes this source holds.
    spec fn data(&self) -> Seq<u8>;

    /// Returns the data to be read from.
    fn get_slice(&self) -> (r: &[u8])
        ensures
            r@ == self.data(),
    ;

    /// Gets a slice of bytes from an offset of a source where
    /// `slice.len() == size`.
    ///
    /// An error is returned if `offset + size` exceeds the available data.
    fn get_slice_of_size(&self, offset: usize, size: usize) -> (r: ReaderResult<&[u8]>)
        ensures
            match r {
                Ok(s) => offset + size <= self.data().len() && s@ == self.data().subrange(
                    offset as int,
                    offset + size,
                ),
                Err(e) => offset + size > self.data().len() && e == (Error::InvalidSize {
                    wanted_size: size,
                    offset,
                    data_len: self.data().len() as usize,
                }),
            },
    {
        let data = self.get_slice();
        if offset > data.len() || size > data.len() - offset {
            return Err(Error::InvalidSize { wanted_size: size, offset, data_len: data.len() });
        }
        Ok(slice_subrange(data, offset, offset + size))
    }

    /// Same as [`Reader::get_slice_of_size`], but sized by `T`'s static
    /// width.
    fn get_sized_slice<T: FixedWidth>(&self, offset: usize) -> (r: ReaderResult<&[u8]>)
        ensures
            match r {
                Ok(s) => offset + T::width() <= self.data().len() && s@ == self.data().subrange(
                    offset as int,
                    offset + T::width(),
                ),
                Err(e) => offset + T::width() > self.data().len() && e == (Error::InvalidSize {
                    wanted_size: T::width() as usize,
                    offset,
                    data_len: self.data().len() as usize,
                }),
            },
    {
        self.get_slice_of_size(offset, T::fixed_size())
    }

    /// Reads a value by direct reinterpretation of its in-memory layout.
    ///
    /// The offset must hold enough bytes for the value and be aligned to the
    /// value's width; a misaligned offset is reported as
    /// [`Error::InvalidAlignment`] rather than read.
    fn read<T: FixedWidth>(&self, offset: usize) -> (r: ReaderResult<T>)
        ensures
            match r {
                Ok(v) => offset + T::width() <= self.data().len() && is_aligned(
                    offset as int,
                    T::width(),
                ) && T::read_match(
                    ByteOrder::Little,
                    self.data().subrange(offset as int, offset + T::width()),
                    v,
                    T::width(),
                ),
                Err(e) => if offset + T::width() > self.data().len() {
                    e == (Error::InvalidSize {
                        wanted_size: T::width() as usize,
                        offset,
                        data_len: self.data().len() as usize,
                    })
                } else {
                    !is_aligned(offset as int, T::width()) && e == (Error::InvalidAlignment {
                        wanted_size: T::width() as usize,
                        source_size: T::width() as usize,
                        source_offset: offset,
                    })
                },
            },
    {
        let size = T::fixed_size();
        let bytes = match self.get_sized_slice::<T>(offset) {
            Ok(b) => b,
            Err(e) => {
                return Err(e);
            },
        };
        if size > 0 && offset % size != 0 {
            return Err(
                Error::InvalidAlignment {
                    wanted_size: size,
                    source_size: size,
                    source_offset: offset,
                },
            );
        }
        proof {
            T::read_law(ByteOrder::Little, bytes@);
        }
        match T::try_read_le(bytes) {
            Ok(o) => Ok(o.into_data()),
            Err(e) => {
                assert(false);
                Err(e)
            },
        }
    }

    /// Same as [`Reader::read`], but substitutes the type's default value on
    /// any error; for best-effort decoding of possibly truncated sources.
    fn default_read<T: FixedWidth>(&self, offset: usize) -> (r: T)
        ensures
            if offset + T::width() <= self.data().len() && is_aligned(offset as int, T::width()) {
                T::read_match(
                    ByteOrder::Little,
                    self.data().subrange(offset as int, offset + T::width()),
                    r,
                    T::width(),
                )
            } else {
                r == T::spec_default()
            },
    {
        match self.read::<T>(offset) {
            Ok(v) => v,
            Err(_) => T::default_value(),
        }
    }

    /// Reads a value from its little endian representation, through the
    /// variable-length protocol: the value's own decoder sees every byte
    /// from `offset` on and reports how many it consumed.
    ///
    /// A failure of the decoder is rebased to name the absolute offset in
    /// this source's data.
    fn read_le<T: EndianRead>(&self, offset: usize) -> (r: ReaderResult<T>)
        ensures
            match r {
                Ok(v) => T::read_ok(ByteOrder::Little, tail_from(self.data(), offset as int))
                    && exists|n: int|
                    T::read_match(
                        ByteOrder::Little,
                        tail_from(self.data(), offset as int),
                        v,
                        n,
                    ),
                Err(e) => !T::read_ok(ByteOrder::Little, tail_from(self.data(), offset as int))
                    && e == spec_add_context(
                    T::read_err(ByteOrder::Little, tail_from(self.data(), offset as int)),
                    offset as int,
                    self.data().len() as int,
                ),
            },
    {
        let data = self.get_slice();
        let tail = if offset <= data.len() {
            slice_subrange(data, offset, data.len())
        } else {
            slice_subrange(data, 0, 0)
        };
        proof {
            assert(tail@ =~= tail_from(self.data(), offset as int));
        }
        let res = match T::try_read_le(tail) {
            Ok(o) => {
                let n = o.get_read_bytes();
                let v = o.into_data();
                proof {
                    assert(T::read_match(
                        ByteOrder::Little,
                        tail_from(self.data(), offset as int),
                        v,
                        n as int,
                    ));
                }
                Ok(v)
            },
            Err(e) => Err(e),
        };
        add_error_context(res, offset, data.len())
    }

    /// Same as [`Reader::read_le`], but substitutes the type's default value
    /// on any error.
    fn default_read_le<T: EndianRead + FixedWidth>(&self, offset: usize) -> (r: T)
        ensures
            if T::read_ok(ByteOrder::Little, tail_from(self.data(), offset as int)) {
                exists|n: int|
                    T::read_match(ByteOrder::Little, tail_from(self.data(), offset as int), r, n)
            } else {
                r == T::spec_default()
            },
    {
        match self.read_le::<T>(offset) {
            Ok(v) => v,
            Err(_) => T::default_value(),
        }
    }

    /// Reads a value from its big endian representation; the mirror image of
    /// [`Reader::read_le`].
    fn read_be<T: EndianRead>(&self, offset: usize) -> (r: ReaderResult<T>)
        ensures
            match r {
                Ok(v) => T::read_ok(ByteOrder::Big, tail_from(self.data(), offset as int))
                    && exists|n: int|
                    T::read_match(ByteOrder::Big, tail_from(self.data(), offset as int), v, n),
                Err(e) => !T::read_ok(ByteOrder::Big, tail_from(self.data(), offset as int)) && e
                    == spec_add_context(
                    T::read_err(ByteOrder::Big, tail_from(self.data(), offset as int)),
                    offset as int,
                    self.data().len() as int,
                ),
            },
    {
        let data = self.get_slice();
        let tail = if offset <= data.len() {
            slice_subrange(data, offset, data.len())
        } else {
            slice_subrange(data, 0, 0)
        };
        proof {
            assert(tail@ =~= tail_from(self.data(), offset as int));
        }
        let res = match T::try_read_be(tail) {
            Ok(o) => {
                let n = o.get_read_bytes();
                let v = o.into_data();
                proof {
                    assert(T::read_match(
                        ByteOrder::Big,
                        tail_from(self.data(), offset as int),
                        v,
                        n as int,
                    ));
                }
                Ok(v)
            },
            Err(e) => Err(e),
        };
        add_error_context(res, offset, data.len())
    }

    /// Same as [`Reader::read_be`], but substitutes the type's default value
    /// on any error.
    fn default_read_be<T: EndianRead + FixedWidth>(&self, offset: usize) -> (r: T)
        ensures
            if T::read_ok(ByteOrder::Big, tail_from(self.data(), offset as int)) {
                exists|n: int|
                    T::read_match(ByteOrder::Big, tail_from(self.data(), offset as int), r, n)
            } else {
                r == T::spec_default()
            },
    {
        match self.read_be::<T>(offset) {
            Ok(v) => v,
            Err(_) => T::default_value(),
        }
    }

    /// Same as [`Reader::get_slice_of_size`], but copies the bytes into an
    /// owned vector.
    fn read_byte_vec(&self, offset: usize, size: usize) -> (r: ReaderResult<Vec<u8>>)
        ensures
            match r {
                Ok(v) => offset + size <= self.data().len() && v@ == self.data().subrange(
                    offset as int,
                    offset + size,
                ),
                Err(e) => offset + size > self.data().len() && e == (Error::InvalidSize {
                    wanted_size: size,
                    offset,
                    data_len: self.data().len() as usize,
                }),
            },
    {
        match self.get_slice_of_size(offset, size) {
            Ok(s) => Ok(slice_to_vec(s)),
            Err(e) => Err(e),
        }
    }

    /// Same as [`Reader::read_byte_vec`], but returns a zeroed-out vector of
    /// the requested size if the read is invalid.
    fn default_read_byte_vec(&self, offset: usize, size: usize) -> (r: Vec<u8>)
        ensures
            r@ == if offset + size <= self.data().len() {
                self.data().subrange(offset as int, offset + size)
            } else {
                Seq::new(size as nat, |i: int| 0u8)
            },
    {
        match self.read_byte_vec(offset, size) {
            Ok(v) => v,
            Err(_) => {
                let mut v: Vec<u8> = Vec::new();
                let mut i: usize = 0;
                while i < size
                    invariant
                        i <= size,
                        v@ =~= Seq::new(i as nat, |j: int| 0u8),
                    decreases size - i,
                {
                    v.push(0);
                    i = i + 1;
                }
                assert(v@ =~= Seq::new(size as nat, |j: int| 0u8));
                v
            },
        }
    }
}

impl Reader for Vec<u8> {
    open spec fn data(&self) -> Seq<u8> {
        self@
    }

    fn get_slice(&self) -> (r: &[u8]) {
        self.as_slice()
    }
}

impl<'a> Reader for &'a [u8] {
    open spec fn data(&self) -> Seq<u8> {
        self@
    }

    fn get_slice(&self) -> (r: &[u8]) {
        *self
    }
}

} // verus!
