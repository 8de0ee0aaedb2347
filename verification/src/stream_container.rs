use vstd::prelude::*;

use vstd::slice::slice_subrange;

use crate::byte_order::{avail_from, tail_from, ByteOrder};
use crate::cursor::Cursor;
use crate::endian_read::EndianRead;
use crate::endian_write::EndianWrite;
use crate::error::{add_error_context, spec_add_context, Error};
use crate::primitives::FixedWidth;
use crate::reader::{is_aligned, Reader, ReaderResult};
use crate::writer::{array_outcome, array_write_count, concat_bytes, grown_len, lemma_concat_len, lemma_concat_snoc, lemma_total_size_nonneg, lemma_total_size_snoc, lemma_total_size_split, old_or_zero, total_size, Writer, WriterResult};

verus! {

/// What a cursor-relative endian read leaves behind: on success the value
/// and new position are pinned by the type's own decoder specification over
/// the bytes from the old position on; on failure the cursor is unmoved and
/// the decoder's failure is rebased to the absolute position.
pub open spec fn stream_read_result<V: EndianRead>(
    order: ByteOrder,
    data: Seq<u8>,
    pos0: usize,
    pos1: usize,
    r: Result<V, Error>,
) -> bool {
    match r {
        Ok(v) => V::read_ok(order, tail_from(data, pos0 as int)) && pos0 <= pos1
            && V::read_match(order, tail_from(data, pos0 as int), v, pos1 - pos0),
        Err(e) => !V::read_ok(order, tail_from(data, pos0 as int)) && e == spec_add_context(
            V::read_err(order, tail_from(data, pos0 as int)),
            pos0 as int,
            data.len() as int,
        ) && pos1 == pos0,
    }
}

/// A convenience container that pairs a byte source with a cursor, so that
/// a caller can decode or encode a sequence of fields without tracking
/// offsets by hand.
///
/// The container reads from anything that implements [`Reader`]; when the
/// wrapped source also implements [`Writer`], the container writes through
/// to it as well, keeping the source's own fixed or growable flavor.
pub struct StreamContainer<R: Reader> {
    raw: R,
    cursor: usize,
}

impl<R: Reader> StreamContainer<R> {
    /// The wrapped source.
    pub closed spec fn spec_raw(&self) -> R {
        self.raw
    }

    /// Wraps a source, with the cursor at the start.
    pub fn new(raw: R) -> (r: Self)
        ensures
            r.spec_raw() == raw,
            r.position() == 0,
            r.data() == raw.data(),
    {
        Self { raw, cursor: 0 }
    }

    /// Consumes the container and returns the wrapped source.
    pub fn into_raw(self) -> (r: R)
        ensures
            r == self.spec_raw(),
    {
        self.raw
    }

    /// The bytes the container reads are those of the wrapped source.
    pub proof fn lemma_data(&self)
        ensures
            self.data() == self.spec_raw().data(),
    {
    }
}

impl<R: Reader + Writer> StreamContainer<R> {
    /// The bytes the container writes are those of the wrapped source.
    pub proof fn lemma_wdata(&self)
        ensures
            self.wdata() == self.spec_raw().wdata(),
    {
    }
}

impl<R: Reader> StreamContainer<R> {
    /// Same as [`Reader::read`], but at the cursor, which advances by the
    /// type's width whether or not the read succeeds.
    pub fn read_stream<V: FixedWidth>(&mut self) -> (r: ReaderResult<V>)
        requires
            old(self).position() + V::width() <= usize::MAX,
        ensures
            final(self).data() == old(self).data(),
            final(self).spec_raw() == old(self).spec_raw(),
            final(self).position() == old(self).position() + V::width(),
            ({
                let offset = old(self).position();
                match r {
                    Ok(v) => offset + V::width() <= old(self).data().len() && is_aligned(
                        offset as int,
                        V::width(),
                    ) && V::read_match(
                        ByteOrder::Little,
                        old(self).data().subrange(offset as int, offset + V::width()),
                        v,
                        V::width(),
                    ),
                    Err(e) => if offset + V::width() > old(self).data().len() {
                        e == (Error::InvalidSize {
                            wanted_size: V::width() as usize,
                            offset: offset as usize,
                            data_len: old(self).data().len() as usize,
                        })
                    } else {
                        !is_aligned(offset as int, V::width()) && e == (Error::InvalidAlignment {
                            wanted_size: V::width() as usize,
                            source_size: V::width() as usize,
                            source_offset: offset as usize,
                        })
                    },
                }
            }),
    {
        let index = self.cursor;
        let size = V::fixed_size();
        self.cursor = index + size;
        self.read::<V>(index)
    }

    /// Same as [`StreamContainer::read_stream`], but substitutes the type's
    /// default value on any error.
    pub fn default_read_stream<V: FixedWidth>(&mut self) -> (r: V)
        requires
            old(self).position() + V::width() <= usize::MAX,
        ensures
            final(self).data() == old(self).data(),
            final(self).spec_raw() == old(self).spec_raw(),
            final(self).position() == old(self).position() + V::width(),
            ({
                let offset = old(self).position();
                if offset + V::width() <= old(self).data().len() && is_aligned(
                    offset as int,
                    V::width(),
                ) {
                    V::read_match(
                        ByteOrder::Little,
                        old(self).data().subrange(offset as int, offset + V::width()),
                        r,
                        V::width(),
                    )
                } else {
                    r == V::spec_default()
                }
            }),
    {
        match self.read_stream::<V>() {
            Ok(v) => v,
            Err(_) => V::default_value(),
        }
    }

    /// Same as [`Reader::read_le`], but at the cursor, which advances by
    /// exactly the number of bytes the value's decoder reports consumed;
    /// on failure the cursor does not move.
    pub fn read_stream_le<V: EndianRead>(&mut self) -> (r: ReaderResult<V>)
        ensures
            final(self).data() == old(self).data(),
            final(self).spec_raw() == old(self).spec_raw(),
            stream_read_result(
                ByteOrder::Little,
                old(self).data(),
                old(self).position(),
                final(self).position(),
                r,
            ),
    {
        let index = self.cursor;
        let slice = self.raw.get_slice();
        let len = slice.len();
        let tail = if index <= len {
            slice_subrange(slice, index, len)
        } else {
            slice_subrange(slice, 0, 0)
        };
        proof {
            assert(tail@ =~= tail_from(self.data(), index as int));
        }
        match V::try_read_le(tail) {
            Ok(o) => {
                let n = o.get_read_bytes();
                let v = o.into_data();
                proof {
                    assert(V::read_match(
                        ByteOrder::Little,
                        tail_from(self.data(), index as int),
                        v,
                        n as int,
                    ));
                }
                self.cursor = index + n;
                proof {
                    assert(V::read_match(
                        ByteOrder::Little,
                        tail_from(old(self).data(), old(self).position() as int),
                        v,
                        n as int,
                    ) && self.position() == old(self).position() + n);
                    assert(stream_read_result(
                        ByteOrder::Little,
                        old(self).data(),
                        old(self).position(),
                        self.position(),
                        Ok::<V, Error>(v),
                    )) by {
                        assert(V::read_match(
                            ByteOrder::Little,
                            tail_from(old(self).data(), old(self).position() as int),
                            v,
                            self.position() - old(self).position(),
                        ));
                    }
                }
                Ok(v)
            },
            Err(e) => {
                match add_error_context(Err::<V, Error>(e), index, len) {
                    Err(e2) => {
                        proof {
                            assert(stream_read_result(
                                ByteOrder::Little,
                                old(self).data(),
                                old(self).position(),
                                self.position(),
                                Err::<V, Error>(e2),
                            ));
                        }
                        Err(e2)
                    },
                    Ok(v) => Ok(v),
                }
            },
        }
    }

    /// Same as [`StreamContainer::read_stream_le`], but the cursor advances
    /// by the type's width whether or not the read succeeds, and the type's
    /// default value is substituted on any error.
    pub fn default_read_stream_le<V: EndianRead + FixedWidth>(&mut self) -> (r: V)
        requires
            old(self).position() + V::width() <= usize::MAX,
        ensures
            final(self).data() == old(self).data(),
            final(self).spec_raw() == old(self).spec_raw(),
            final(self).position() == old(self).position() + V::width(),
            ({
                let tail = tail_from(old(self).data(), old(self).position() as int);
                if V::read_ok(ByteOrder::Little, tail) {
                    exists|n: int| V::read_match(ByteOrder::Little, tail, r, n)
                } else {
                    r == V::spec_default()
                }
            }),
    {
        let index = self.cursor;
        let size = V::fixed_size();
        self.cursor = index + size;
        self.default_read_le::<V>(index)
    }

    /// Same as [`Reader::read_be`], but at the cursor; the mirror image of
    /// [`StreamContainer::read_stream_le`].
    pub fn read_stream_be<V: EndianRead>(&mut self) -> (r: ReaderResult<V>)
        ensures
            final(self).data() == old(self).data(),
            final(self).spec_raw() == old(self).spec_raw(),
            stream_read_result(
                ByteOrder::Big,
                old(self).data(),
                old(self).position(),
                final(self).position(),
                r,
            ),
    {
        let index = self.cursor;
        let slice = self.raw.get_slice();
        let len = slice.len();
        let tail = if index <= len {
            slice_subrange(slice, index, len)
        } else {
            slice_subrange(slice, 0, 0)
        };
        proof {
            assert(tail@ =~= tail_from(self.data(), index as int));
        }
        match V::try_read_be(tail) {
            Ok(o) => {
                let n = o.get_read_bytes();
                let v = o.into_data();
                proof {
                    assert(V::read_match(
                        ByteOrder::Big,
                        tail_from(self.data(), index as int),
                        v,
                        n as int,
                    ));
                }
                self.cursor = index + n;
                proof {
                    assert(V::read_match(
                        ByteOrder::Big,
                        tail_from(old(self).data(), old(self).position() as int),
                        v,
                        n as int,
                    ) && self.position() == old(self).position() + n);
                    assert(stream_read_result(
                        ByteOrder::Big,
                        old(self).data(),
                        old(self).position(),
                        self.position(),
                        Ok::<V, Error>(v),
                    )) by {
                        assert(V::read_match(
                            ByteOrder::Big,
                            tail_from(old(self).data(), old(self).position() as int),
                            v,
                            self.position() - old(self).position(),
                        ));
                    }
                }
                Ok(v)
            },
            Err(e) => {
                match add_error_context(Err::<V, Error>(e), index, len) {
                    Err(e2) => {
                        proof {
                            assert(stream_read_result(
                                ByteOrder::Big,
                                old(self).data(),
                                old(self).position(),
                                self.position(),
                                Err::<V, Error>(e2),
                            ));
                        }
                        Err(e2)
                    },
                    Ok(v) => Ok(v),
                }
            },
        }
    }

    /// Same as [`StreamContainer::default_read_stream_le`], in big endian.
    pub fn default_read_stream_be<V: EndianRead + FixedWidth>(&mut self) -> (r: V)
        requires
            old(self).position() + V::width() <= usize::MAX,
        ensures
            final(self).data() == old(self).data(),
            final(self).spec_raw() == old(self).spec_raw(),
            final(self).position() == old(self).position() + V::width(),
            ({
                let tail = tail_from(old(self).data(), old(self).position() as int);
                if V::read_ok(ByteOrder::Big, tail) {
                    exists|n: int| V::read_match(ByteOrder::Big, tail, r, n)
                } else {
                    r == V::spec_default()
                }
            }),
    {
        let index = self.cursor;
        let size = V::fixed_size();
        self.cursor = index + size;
        self.default_read_be::<V>(index)
    }

    /// Same as [`Reader::read_byte_vec`], but at the cursor, which advances
    /// by the requested size whether or not the read succeeds.
    pub fn read_byte_stream(&mut self, size: usize) -> (r: ReaderResult<Vec<u8>>)
        requires
            old(self).position() + size <= usize::MAX,
        ensures
            final(self).data() == old(self).data(),
            final(self).spec_raw() == old(self).spec_raw(),
            final(self).position() == old(self).position() + size,
            ({
                let offset = old(self).position();
                match r {
                    Ok(v) => offset + size <= old(self).data().len() && v@ == old(
                        self,
                    ).data().subrange(offset as int, offset + size),
                    Err(e) => offset + size > old(self).data().len() && e == (Error::InvalidSize {
                        wanted_size: size,
                        offset: offset as usize,
                        data_len: old(self).data().len() as usize,
                    }),
                }
            }),
    {
        let index = self.cursor;
        self.cursor = index + size;
        self.read_byte_vec(index, size)
    }

    /// Same as [`StreamContainer::read_byte_stream`], but returns a
    /// zeroed-out vector of the requested size if the read is invalid.
    pub fn default_read_byte_stream(&mut self, size: usize) -> (r: Vec<u8>)
        requires
            old(self).position() + size <= usize::MAX,
        ensures
            final(self).data() == old(self).data(),
            final(self).spec_raw() == old(self).spec_raw(),
            final(self).position() == old(self).position() + size,
            r@ == if old(self).position() + size <= old(self).data().len() {
                old(self).data().subrange(
                    old(self).position() as int,
                    old(self).position() + size,
                )
            } else {
                Seq::new(size as nat, |i: int| 0u8)
            },
    {
        let index = self.cursor;
        self.cursor = index + size;
        self.default_read_byte_vec(index, size)
    }
}

impl<R: Reader + Writer> StreamContainer<R> {
    /// Same as [`Writer::write_bytes`], but at the cursor, which advances
    /// by the slice's length whether or not the write succeeds.
    pub fn write_stream_bytes(&mut self, bytes: &[u8]) -> (r: WriterResult<usize>)
        requires
            old(self).position() + bytes@.len() <= usize::MAX,
        ensures
            final(self).position() == old(self).position() + bytes@.len(),
            ({
                let offset = old(self).position();
                let n = bytes@.len() as int;
                let newlen = grown_len(
                    old(self).wdata().len() as int,
                    offset as int,
                    n,
                    R::is_growable(),
                );
                match r {
                    Ok(k) => {
                        &&& k == n
                        &&& final(self).wdata().len() == newlen
                        &&& offset + n <= newlen
                        &&& final(self).wdata().subrange(offset as int, offset + n) == bytes@
                        &&& forall|i: int|
                            0 <= i < newlen && !(offset <= i < offset + n) ==> final(self).wdata()[i] == old_or_zero(old(self).wdata(), i)
                    },
                    Err(e) => {
                        &&& !R::is_growable()
                        &&& offset + n > old(self).wdata().len()
                        &&& final(self).wdata() == old(self).wdata()
                        &&& e == (Error::InvalidSize {
                            wanted_size: bytes@.len() as usize,
                            offset: offset as usize,
                            data_len: old(self).wdata().len() as usize,
                        })
                    },
                }
            }),
    {
        let index = self.cursor;
        self.cursor = index + bytes.len();
        self.raw.write_bytes(index, bytes)
    }

    /// Same as [`Writer::checked_write_bytes`], but at the cursor, which
    /// advances by the slice's length whether or not anything was written.
    pub fn checked_write_stream_bytes(&mut self, bytes: &[u8]) -> (r: usize)
        requires
            old(self).position() + bytes@.len() <= usize::MAX,
        ensures
            final(self).position() == old(self).position() + bytes@.len(),
            ({
                let offset = old(self).position();
                let n = bytes@.len() as int;
                if !R::is_growable() && offset + n > old(self).wdata().len() {
                    r == 0 && final(self).wdata() == old(self).wdata()
                } else {
                    let newlen = grown_len(
                        old(self).wdata().len() as int,
                        offset as int,
                        n,
                        R::is_growable(),
                    );
                    &&& r == n
                    &&& final(self).wdata().len() == newlen
                    &&& offset + n <= newlen
                    &&& final(self).wdata().subrange(offset as int, offset + n) == bytes@
                    &&& forall|i: int|
                        0 <= i < newlen && !(offset <= i < offset + n) ==> final(self).wdata()[i]
                            == old_or_zero(old(self).wdata(), i)
                }
            }),
    {
        let index = self.cursor;
        self.cursor = index + bytes.len();
        self.raw.checked_write_bytes(index, bytes)
    }

    /// Same as [`Writer::write`], but at the cursor, which advances by the
    /// type's width whether or not the write succeeds.
    pub fn write_stream<V: FixedWidth>(&mut self, value: &V) -> (r: WriterResult<usize>)
        requires
            old(self).position() + V::width() <= usize::MAX,
        ensures
            final(self).position() == old(self).position() + V::width(),
            ({
                let offset = old(self).position();
                let n = V::width();
                let newlen = grown_len(
                    old(self).wdata().len() as int,
                    offset as int,
                    n,
                    R::is_growable(),
                );
                match r {
                    Ok(k) => {
                        &&& k == n
                        &&& final(self).wdata().len() == newlen
                        &&& offset + n <= newlen
                        &&& final(self).wdata().subrange(offset as int, offset + n)
                            == value.bytes_of(ByteOrder::Little)
                        &&& forall|i: int|
                            0 <= i < newlen && !(offset <= i < offset + n) ==> final(self).wdata()[i] == old_or_zero(old(self).wdata(), i)
                    },
                    Err(e) => {
                        &&& !R::is_growable()
                        &&& offset + n > old(self).wdata().len()
                        &&& final(self).wdata() == old(self).wdata()
                        &&& e == (Error::InvalidSize {
                            wanted_size: V::width() as usize,
                            offset: offset as usize,
                            data_len: old(self).wdata().len() as usize,
                        })
                    },
                }
            }),
    {
        let index = self.cursor;
        let size = V::fixed_size();
        self.cursor = index + size;
        self.raw.write(index, value)
    }

    /// Same as [`StreamContainer::write_stream`], but returns `0` as the
    /// write size if the value will not fit; the cursor advances either
    /// way.
    pub fn checked_write_stream<V: FixedWidth>(&mut self, value: &V) -> (r: usize)
        requires
            old(self).position() + V::width() <= usize::MAX,
        ensures
            final(self).position() == old(self).position() + V::width(),
            ({
                let offset = old(self).position();
                let n = V::width();
                if !R::is_growable() && offset + n > old(self).wdata().len() {
                    r == 0 && final(self).wdata() == old(self).wdata()
                } else {
                    let newlen = grown_len(
                        old(self).wdata().len() as int,
                        offset as int,
                        n,
                        R::is_growable(),
                    );
                    &&& r == n
                    &&& final(self).wdata().len() == newlen
                    &&& offset + n <= newlen
                    &&& final(self).wdata().subrange(offset as int, offset + n) == value.bytes_of(
                        ByteOrder::Little,
                    )
                    &&& forall|i: int|
                        0 <= i < newlen && !(offset <= i < offset + n) ==> final(self).wdata()[i]
                            == old_or_zero(old(self).wdata(), i)
                }
            }),
    {
        let index = self.cursor;
        let size = V::fixed_size();
        self.cursor = index + size;
        self.raw.checked_write(index, value)
    }

    /// Same as [`Writer::write_le`], but at the cursor, which advances by
    /// exactly the number of bytes written; on failure it does not move.
    pub fn write_stream_le<V: EndianWrite>(&mut self, value: &V) -> (r: WriterResult<usize>)
        requires
            value.spec_size() <= usize::MAX,
            R::is_growable() ==> old(self).position() + value.spec_size() <= usize::MAX,
        ensures
            ({
                let offset = old(self).position();
                let sz = value.spec_size();
                let newlen = grown_len(
                    old(self).wdata().len() as int,
                    offset as int,
                    sz,
                    R::is_growable(),
                );
                let avail = avail_from(newlen, offset as int);
                &&& final(self).wdata().len() == newlen
                &&& forall|i: int|
                    0 <= i < newlen && !(offset <= i < offset + sz) ==> final(self).wdata()[i]
                        == old_or_zero(old(self).wdata(), i)
                &&& match (r, value.spec_write(ByteOrder::Little, avail)) {
                    (Ok(k), Ok(())) => k == sz && (k > 0 ==> offset + k <= newlen && final(self).wdata().subrange(offset as int, offset + k) == value.bytes_of(
                        ByteOrder::Little,
                    )) && final(self).position() == old(self).position() + k,
                    (Err(e), Err(se)) => e == spec_add_context(se, offset as int, newlen) && final(self).position() == old(self).position(),
                    _ => false,
                }
            }),
    {
        proof {
            self.raw.wdata_len_law();
        }
        let index = self.cursor;
        match self.raw.write_le(index, value) {
            Ok(n) => {
                self.cursor = index + n;
                Ok(n)
            },
            Err(e) => Err(e),
        }
    }

    /// Same as [`StreamContainer::write_stream_le`], but the cursor
    /// advances by the type's width whether or not the write succeeds, and
    /// `0` is returned as the write size on any error.
    pub fn checked_write_stream_le<V: EndianWrite + FixedWidth>(&mut self, value: &V) -> (r: usize)
        requires
            old(self).position() + V::width() <= usize::MAX,
        ensures
            final(self).position() == old(self).position() + V::width(),
            ({
                let offset = old(self).position();
                let sz = value.spec_size();
                let newlen = grown_len(
                    old(self).wdata().len() as int,
                    offset as int,
                    sz,
                    R::is_growable(),
                );
                let avail = avail_from(newlen, offset as int);
                &&& final(self).wdata().len() == newlen
                &&& forall|i: int|
                    0 <= i < newlen && !(offset <= i < offset + sz) ==> final(self).wdata()[i]
                        == old_or_zero(old(self).wdata(), i)
                &&& match value.spec_write(ByteOrder::Little, avail) {
                    Ok(()) => r == sz && (r > 0 ==> offset + r <= newlen && final(self).wdata().subrange(offset as int, offset + sz) == value.bytes_of(
                        ByteOrder::Little,
                    )),
                    Err(_) => r == 0,
                }
            }),
    {
        proof {
            value.write_law(ByteOrder::Little, 0);
        }
        let index = self.cursor;
        let size = V::fixed_size();
        self.cursor = index + size;
        self.raw.checked_write_le(index, value)
    }

    /// Same as [`Writer::write_be`], but at the cursor; the mirror image of
    /// [`StreamContainer::write_stream_le`].
    pub fn write_stream_be<V: EndianWrite>(&mut self, value: &V) -> (r: WriterResult<usize>)
        requires
            value.spec_size() <= usize::MAX,
            R::is_growable() ==> old(self).position() + value.spec_size() <= usize::MAX,
        ensures
            ({
                let offset = old(self).position();
                let sz = value.spec_size();
                let newlen = grown_len(
                    old(self).wdata().len() as int,
                    offset as int,
                    sz,
                    R::is_growable(),
                );
                let avail = avail_from(newlen, offset as int);
                &&& final(self).wdata().len() == newlen
                &&& forall|i: int|
                    0 <= i < newlen && !(offset <= i < offset + sz) ==> final(self).wdata()[i]
                        == old_or_zero(old(self).wdata(), i)
                &&& match (r, value.spec_write(ByteOrder::Big, avail)) {
                    (Ok(k), Ok(())) => k == sz && (k > 0 ==> offset + k <= newlen && final(self).wdata().subrange(offset as int, offset + k) == value.bytes_of(
                        ByteOrder::Big,
                    )) && final(self).position() == old(self).position() + k,
                    (Err(e), Err(se)) => e == spec_add_context(se, offset as int, newlen) && final(self).position() == old(self).position(),
                    _ => false,
                }
            }),
    {
        proof {
            self.raw.wdata_len_law();
        }
        let index = self.cursor;
        match self.raw.write_be(index, value) {
            Ok(n) => {
                self.cursor = index + n;
                Ok(n)
            },
            Err(e) => Err(e),
        }
    }

    /// Writes the elements of an array one after another in the given byte
    /// order at the cursor, which advances with each element written; on an
    /// element failure the cursor stays after the elements that succeeded.
    pub fn write_array_stream<V: EndianWrite>(&mut self, order: ByteOrder, values: &[V]) -> (r:
        WriterResult<usize>)
        requires
            old(self).position() + total_size(values@) <= usize::MAX,
        ensures
            ({
                let offset = old(self).position();
                let total = total_size(values@);
                let (outcome, flen) = array_outcome(
                    values@,
                    order,
                    R::is_growable(),
                    old(self).wdata().len() as int,
                    offset as int,
                );
                &&& final(self).wdata().len() == flen
                &&& old(self).wdata().len() <= flen
                &&& final(self).position() == old(self).position() + array_write_count(
                    values@,
                    order,
                    R::is_growable(),
                    old(self).wdata().len() as int,
                    offset as int,
                )
                &&& forall|i: int|
                    0 <= i < flen && !(offset <= i < offset + total) ==> final(self).wdata()[i]
                        == old_or_zero(old(self).wdata(), i)
                &&& match (r, outcome) {
                    (Ok(k), Ok(())) => k == total && (k > 0 ==> offset + k <= flen && final(self).wdata().subrange(offset as int, offset + k) == concat_bytes(values@, order)),
                    (Err(e), Err(oe)) => e == oe,
                    _ => false,
                }
            }),
    {
        proof {
            lemma_total_size_nonneg::<V>(values@);
            assert(values@.skip(0) =~= values@);
            assert(values@.take(0) =~= Seq::<V>::empty());
        }
        let index = self.cursor;
        let ghost old0 = old(self).wdata();
        let ghost growable = R::is_growable();
        let mut write_size: usize = 0;
        let mut idx: usize = 0;
        while idx < values.len()
            invariant
                index + total_size(values@) <= usize::MAX,
                idx <= values@.len(),
                write_size == total_size(values@.take(idx as int)),
                index == old(self).position(),
                old0 == old(self).wdata(),
                growable == R::is_growable(),
                old0.len() <= self.wdata().len(),
                self.position() == index + write_size,
                array_outcome(values@, order, growable, old0.len() as int, index as int)
                    == array_outcome(
                    values@.skip(idx as int),
                    order,
                    growable,
                    self.wdata().len() as int,
                    index + write_size,
                ),
                array_write_count(values@, order, growable, old0.len() as int, index as int)
                    == write_size + array_write_count(
                    values@.skip(idx as int),
                    order,
                    growable,
                    self.wdata().len() as int,
                    index + write_size,
                ),
                write_size > 0 ==> index + write_size <= self.wdata().len()
                    && self.wdata().subrange(index as int, index + write_size) == concat_bytes(
                    values@.take(idx as int),
                    order,
                ),
                forall|i: int|
                    0 <= i < self.wdata().len() && !(index <= i < index + write_size)
                        ==> self.wdata()[i] == old_or_zero(old0, i),
            decreases values@.len() - idx,
        {
            let ghost prev = self.wdata();
            let ghost iidx = idx as int;
            proof {
                lemma_total_size_split::<V>(values@, iidx);
                lemma_total_size_snoc::<V>(values@, iidx);
                values@[iidx].size_law(order);
                assert(values@.skip(iidx)[0] == values@[iidx]);
                assert(values@.skip(iidx).skip(1) =~= values@.skip(iidx + 1));
                lemma_total_size_nonneg::<V>(values@.skip(iidx + 1));
                assert(total_size(values@.skip(iidx)) == values@[iidx].spec_size() + total_size(
                    values@.skip(iidx + 1),
                ));
            }
            let val = vstd::slice::slice_index_get(values, idx);
            let res = match order {
                ByteOrder::Little => self.raw.write_le(index + write_size, val),
                ByteOrder::Big => self.raw.write_be(index + write_size, val),
            };
            let ghost sz = values@[iidx].spec_size();
            let ghost newlen = grown_len(prev.len() as int, index + write_size, sz, growable);
            match res {
                Ok(n) => {
                    proof {
                        lemma_concat_snoc::<V>(values@, iidx, order);
                        assert(array_outcome(
                            values@.skip(iidx),
                            order,
                            growable,
                            prev.len() as int,
                            index + write_size,
                        ) == array_outcome(
                            values@.skip(iidx + 1),
                            order,
                            growable,
                            newlen,
                            index + write_size + sz,
                        ));
                        assert(array_write_count(
                            values@.skip(iidx),
                            order,
                            growable,
                            prev.len() as int,
                            index + write_size,
                        ) == sz + array_write_count(
                            values@.skip(iidx + 1),
                            order,
                            growable,
                            newlen,
                            index + write_size + sz,
                        ));
                        if n > 0 {
                            assert(self.wdata().subrange(
                                index + write_size,
                                index + write_size + sz,
                            ) == values@[iidx].bytes_of(order));
                        }
                        if write_size > 0 {
                            assert forall|j: int|
                                index <= j < index + write_size implies self.wdata()[j]
                                == prev[j] by {}
                            assert(self.wdata().subrange(index as int, index + write_size)
                                =~= prev.subrange(index as int, index + write_size));
                        }
                        if write_size + n > 0 {
                            assert(index + write_size + sz <= self.wdata().len());
                            if write_size == 0 {
                                lemma_concat_len::<V>(values@.take(iidx), order);
                                assert(concat_bytes(values@.take(iidx), order) =~= Seq::<
                                    u8,
                                >::empty());
                                assert(self.wdata().subrange(index as int, index as int) =~= Seq::<
                                    u8,
                                >::empty());
                            }
                            if sz == 0 {
                                assert(values@[iidx].bytes_of(order) =~= Seq::<u8>::empty());
                                assert(self.wdata().subrange(
                                    index + write_size,
                                    index + write_size + sz,
                                ) =~= Seq::<u8>::empty());
                            }
                            assert(self.wdata().subrange(index as int, index + write_size + sz)
                                =~= self.wdata().subrange(index as int, index + write_size)
                                + self.wdata().subrange(
                                index + write_size,
                                index + write_size + sz,
                            ));
                            assert(self.wdata().subrange(index as int, index + write_size + sz)
                                == concat_bytes(values@.take(iidx + 1), order));
                        }
                        assert forall|i: int|
                            0 <= i < self.wdata().len() && !(index <= i < index + write_size
                                + sz) implies self.wdata()[i] == old_or_zero(old0, i) by {
                            assert(self.wdata()[i] == old_or_zero(prev, i));
                        }
                    }
                    write_size = write_size + n;
                    self.cursor = index + write_size;
                    idx = idx + 1;
                },
                Err(e) => {
                    proof {
                        assert forall|i: int|
                            0 <= i < self.wdata().len() && !(index <= i < index + total_size(
                                values@,
                            )) implies self.wdata()[i] == old_or_zero(old0, i) by {
                            assert(self.wdata()[i] == old_or_zero(prev, i));
                        }
                    }
                    return Err(e);
                },
            }
        }
        proof {
            assert(values@.take(values@.len() as int) =~= values@);
            assert(values@.skip(values@.len() as int) =~= Seq::<V>::empty());
        }
        Ok(write_size)
    }

    /// Same as [`Writer::write_array_le`], but at the cursor.
    pub fn write_array_stream_le<V: EndianWrite>(&mut self, values: &[V]) -> (r: WriterResult<
        usize,
    >)
        requires
            old(self).position() + total_size(values@) <= usize::MAX,
        ensures
            ({
                let offset = old(self).position();
                let total = total_size(values@);
                let (outcome, flen) = array_outcome(
                    values@,
                    ByteOrder::Little,
                    R::is_growable(),
                    old(self).wdata().len() as int,
                    offset as int,
                );
                &&& final(self).wdata().len() == flen
                &&& old(self).wdata().len() <= flen
                &&& final(self).position() == old(self).position() + array_write_count(
                    values@,
                    ByteOrder::Little,
                    R::is_growable(),
                    old(self).wdata().len() as int,
                    offset as int,
                )
                &&& forall|i: int|
                    0 <= i < flen && !(offset <= i < offset + total) ==> final(self).wdata()[i]
                        == old_or_zero(old(self).wdata(), i)
                &&& match (r, outcome) {
                    (Ok(k), Ok(())) => k == total && (k > 0 ==> offset + k <= flen && final(self).wdata().subrange(offset as int, offset + k) == concat_bytes(
                        values@,
                        ByteOrder::Little,
                    )),
                    (Err(e), Err(oe)) => e == oe,
                    _ => false,
                }
            }),
    {
        self.write_array_stream(ByteOrder::Little, values)
    }

    /// Same as [`Writer::write_array_be`], but at the cursor.
    pub fn write_array_stream_be<V: EndianWrite>(&mut self, values: &[V]) -> (r: WriterResult<
        usize,
    >)
        requires
            old(self).position() + total_size(values@) <= usize::MAX,
        ensures
            ({
                let offset = old(self).position();
                let total = total_size(values@);
                let (outcome, flen) = array_outcome(
                    values@,
                    ByteOrder::Big,
                    R::is_growable(),
                    old(self).wdata().len() as int,
                    offset as int,
                );
                &&& final(self).wdata().len() == flen
                &&& old(self).wdata().len() <= flen
                &&& final(self).position() == old(self).position() + array_write_count(
                    values@,
                    ByteOrder::Big,
                    R::is_growable(),
                    old(self).wdata().len() as int,
                    offset as int,
                )
                &&& forall|i: int|
                    0 <= i < flen && !(offset <= i < offset + total) ==> final(self).wdata()[i]
                        == old_or_zero(old(self).wdata(), i)
                &&& match (r, outcome) {
                    (Ok(k), Ok(())) => k == total && (k > 0 ==> offset + k <= flen && final(self).wdata().subrange(offset as int, offset + k) == concat_bytes(
                        values@,
                        ByteOrder::Big,
                    )),
                    (Err(e), Err(oe)) => e == oe,
                    _ => false,
                }
            }),
    {
        self.write_array_stream(ByteOrder::Big, values)
    }

    /// Same as [`StreamContainer::write_array_stream`], but returns `0` as
    /// the write size, without touching destination or cursor, if the whole
    /// array will not fit at the cursor of the destination as it currently
    /// is. On an element failure after the check, `0` is returned, the
    /// elements already written remain, and the cursor stays after them.
    pub fn checked_write_array_stream<V: EndianWrite>(
        &mut self,
        order: ByteOrder,
        values: &[V],
    ) -> (r: usize)
        requires
            old(self).position() + total_size(values@) <= usize::MAX,
        ensures
            ({
                let offset = old(self).position();
                let total = total_size(values@);
                if offset + total > old(self).wdata().len() {
                    r == 0 && final(self).wdata() == old(self).wdata() && final(self).position()
                        == old(self).position()
                } else {
                    let (outcome, flen) = array_outcome(
                        values@,
                        order,
                        R::is_growable(),
                        old(self).wdata().len() as int,
                        offset as int,
                    );
                    &&& final(self).wdata().len() == flen
                    &&& final(self).position() == old(self).position() + array_write_count(
                        values@,
                        order,
                        R::is_growable(),
                        old(self).wdata().len() as int,
                        offset as int,
                    )
                    &&& forall|i: int|
                        0 <= i < flen && !(offset <= i < offset + total) ==> final(self).wdata()[i]
                            == old_or_zero(old(self).wdata(), i)
                    &&& match outcome {
                        Ok(()) => r == total && (r > 0 ==> offset + r <= flen && final(self).wdata().subrange(offset as int, offset + r) == concat_bytes(
                            values@,
                            order,
                        )),
                        Err(_) => r == 0,
                    }
                }
            }),
    {
        proof {
            lemma_total_size_nonneg::<V>(values@);
            assert(values@.take(0) =~= Seq::<V>::empty());
        }
        let mut size: usize = 0;
        let mut i: usize = 0;
        while i < values.len()
            invariant
                i <= values@.len(),
                size == total_size(values@.take(i as int)),
                old(self).position() + total_size(values@) <= usize::MAX,
            decreases values@.len() - i,
        {
            let ghost ii = i as int;
            proof {
                lemma_total_size_split::<V>(values@, ii);
                lemma_total_size_snoc::<V>(values@, ii);
                values@[ii].size_law(order);
                assert(values@.skip(ii)[0] == values@[ii]);
                assert(values@.skip(ii).skip(1) =~= values@.skip(ii + 1));
                lemma_total_size_nonneg::<V>(values@.skip(ii + 1));
                assert(total_size(values@.skip(ii)) == values@[ii].spec_size() + total_size(
                    values@.skip(ii + 1),
                ));
            }
            let v = vstd::slice::slice_index_get(values, i);
            size = size + v.get_size();
            i = i + 1;
        }
        proof {
            assert(values@.take(values@.len() as int) =~= values@);
        }
        let index = self.cursor;
        let len = self.raw.data_len();
        if index > len || size > len - index {
            return 0;
        }
        match self.write_array_stream(order, values) {
            Ok(n) => n,
            Err(_) => 0,
        }
    }

    /// Same as [`StreamContainer::write_array_stream_le`], but returns `0`
    /// as the write size if the whole array will not fit at the cursor.
    pub fn checked_write_array_stream_le<V: EndianWrite>(&mut self, values: &[V]) -> (r: usize)
        requires
            old(self).position() + total_size(values@) <= usize::MAX,
        ensures
            ({
                let offset = old(self).position();
                let total = total_size(values@);
                if offset + total > old(self).wdata().len() {
                    r == 0 && final(self).wdata() == old(self).wdata() && final(self).position()
                        == old(self).position()
                } else {
                    let (outcome, flen) = array_outcome(
                        values@,
                        ByteOrder::Little,
                        R::is_growable(),
                        old(self).wdata().len() as int,
                        offset as int,
                    );
                    &&& final(self).wdata().len() == flen
                    &&& final(self).position() == old(self).position() + array_write_count(
                        values@,
                        ByteOrder::Little,
                        R::is_growable(),
                        old(self).wdata().len() as int,
                        offset as int,
                    )
                    &&& forall|i: int|
                        0 <= i < flen && !(offset <= i < offset + total) ==> final(self).wdata()[i]
                            == old_or_zero(old(self).wdata(), i)
                    &&& match outcome {
                        Ok(()) => r == total && (r > 0 ==> offset + r <= flen && final(self).wdata().subrange(offset as int, offset + r) == concat_bytes(
                            values@,
                            ByteOrder::Little,
                        )),
                        Err(_) => r == 0,
                    }
                }
            }),
    {
        self.checked_write_array_stream(ByteOrder::Little, values)
    }

    /// Same as [`StreamContainer::write_array_stream_be`], but returns `0`
    /// as the write size if the whole array will not fit at the cursor.
    pub fn checked_write_array_stream_be<V: EndianWrite>(&mut self, values: &[V]) -> (r: usize)
        requires
            old(self).position() + total_size(values@) <= usize::MAX,
        ensures
            ({
                let offset = old(self).position();
                let total = total_size(values@);
                if offset + total > old(self).wdata().len() {
                    r == 0 && final(self).wdata() == old(self).wdata() && final(self).position()
                        == old(self).position()
                } else {
                    let (outcome, flen) = array_outcome(
                        values@,
                        ByteOrder::Big,
                        R::is_growable(),
                        old(self).wdata().len() as int,
                        offset as int,
                    );
                    &&& final(self).wdata().len() == flen
                    &&& final(self).position() == old(self).position() + array_write_count(
                        values@,
                        ByteOrder::Big,
                        R::is_growable(),
                        old(self).wdata().len() as int,
                        offset as int,
                    )
                    &&& forall|i: int|
                        0 <= i < flen && !(offset <= i < offset + total) ==> final(self).wdata()[i]
                            == old_or_zero(old(self).wdata(), i)
                    &&& match outcome {
                        Ok(()) => r == total && (r > 0 ==> offset + r <= flen && final(self).wdata().subrange(offset as int, offset + r) == concat_bytes(
                            values@,
                            ByteOrder::Big,
                        )),
                        Err(_) => r == 0,
                    }
                }
            }),
    {
        self.checked_write_array_stream(ByteOrder::Big, values)
    }

    /// Same as [`StreamContainer::checked_write_stream_le`], in big endian.
    pub fn checked_write_stream_be<V: EndianWrite + FixedWidth>(&mut self, value: &V) -> (r: usize)
        requires
            old(self).position() + V::width() <= usize::MAX,
        ensures
            final(self).position() == old(self).position() + V::width(),
            ({
                let offset = old(self).position();
                let sz = value.spec_size();
                let newlen = grown_len(
                    old(self).wdata().len() as int,
                    offset as int,
                    sz,
                    R::is_growable(),
                );
                let avail = avail_from(newlen, offset as int);
                &&& final(self).wdata().len() == newlen
                &&& forall|i: int|
                    0 <= i < newlen && !(offset <= i < offset + sz) ==> final(self).wdata()[i]
                        == old_or_zero(old(self).wdata(), i)
                &&& match value.spec_write(ByteOrder::Big, avail) {
                    Ok(()) => r == sz && (r > 0 ==> offset + r <= newlen && final(self).wdata().subrange(offset as int, offset + sz) == value.bytes_of(
                        ByteOrder::Big,
                    )),
                    Err(_) => r == 0,
                }
            }),
    {
        proof {
            value.write_law(ByteOrder::Big, 0);
        }
        let index = self.cursor;
        let size = V::fixed_size();
        self.cursor = index + size;
        self.raw.checked_write_be(index, value)
    }
}

impl<R: Reader> Reader for StreamContainer<R> {
    closed spec fn data(&self) -> Seq<u8> {
        self.raw.data()
    }

    fn get_slice(&self) -> (r: &[u8]) {
        self.raw.get_slice()
    }
}

impl<R: Reader> Cursor for StreamContainer<R> {
    closed spec fn position(&self) -> usize {
        self.cursor
    }

    fn get_index(&self) -> (r: usize) {
        self.cursor
    }

    fn set_index(&mut self, index: usize) {
        self.cursor = index;
    }
}

impl<R: Reader + Writer> Writer for StreamContainer<R> {
    closed spec fn wdata(&self) -> Seq<u8> {
        self.raw.wdata()
    }

    open spec fn is_growable() -> bool {
        R::is_growable()
    }

    fn data_len(&self) -> (n: usize) {
        self.raw.data_len()
    }

    proof fn wdata_len_law(&self) {
        self.raw.wdata_len_law();
    }

    fn write_bytes(&mut self, offset: usize, bytes: &[u8]) -> (r: WriterResult<usize>) {
        self.raw.write_bytes(offset, bytes)
    }

    fn write_le<T: EndianWrite>(&mut self, offset: usize, value: &T) -> (r: WriterResult<usize>) {
        self.raw.write_le(offset, value)
    }

    fn write_be<T: EndianWrite>(&mut self, offset: usize, value: &T) -> (r: WriterResult<usize>) {
        self.raw.write_be(offset, value)
    }
}

} // verus!
