use vstd::prelude::*;

use crate::byte_order::{avail_from, ByteOrder};
use crate::endian_write::EndianWrite;
use crate::error::{add_error_context, spec_add_context, Error};
use crate::primitives::FixedWidth;

verus! {

pub type WriterResult<T> = Result<T, Error>;

/// The length a buffer of length `len` has after a write of `size` bytes at
/// `offset`: a growable buffer extends itself to hold the write, a
/// fixed-capacity one keeps its length.
pub open spec fn grown_len(len: int, offset: int, size: int, growable: bool) -> int {
    if growable && offset + size > len {
        offset + size
    } else {
        len
    }
}

/// The byte a grown buffer shows at position `i` where nothing was written:
/// the old byte inside the old length, zero in freshly grown space.
pub open spec fn old_or_zero(s: Seq<u8>, i: int) -> u8 {
    if 0 <= i < s.len() {
        s[i]
    } else {
        0
    }
}

/// The number of bytes a sequence of values encodes to: the sum of the
/// sizes its elements report.
pub open spec fn total_size<T: EndianWrite>(vals: Seq<T>) -> int
    decreases vals.len(),
{
    if vals.len() == 0 {
        0
    } else {
        vals[0].spec_size() + total_size(vals.skip(1))
    }
}

/// The encodings of a sequence of values, concatenated in order.
pub open spec fn concat_bytes<T: EndianWrite>(vals: Seq<T>, order: ByteOrder) -> Seq<u8>
    decreases vals.len(),
{
    if vals.len() == 0 {
        Seq::empty()
    } else {
        vals[0].bytes_of(order) + concat_bytes(vals.skip(1), order)
    }
}

/// The outcome of writing the values of `vals` one after another, starting
/// at `offset` into a buffer of length `len` of the given flavor: whether
/// all fit (or the failure the first failing element reports, rebased to
/// the buffer's frame), and the buffer's final length.
pub open spec fn array_outcome<T: EndianWrite>(
    vals: Seq<T>,
    order: ByteOrder,
    growable: bool,
    len: int,
    offset: int,
) -> (Result<(), Error>, int)
    decreases vals.len(),
{
    if vals.len() == 0 {
        (Ok(()), len)
    } else {
        let sz = vals[0].spec_size();
        let newlen = grown_len(len, offset, sz, growable);
        let avail = avail_from(newlen, offset);
        match vals[0].spec_write(order, avail) {
            Err(e) => (Err(spec_add_context(e, offset, newlen)), newlen),
            Ok(()) => array_outcome(vals.skip(1), order, growable, newlen, offset + sz),
        }
    }
}

/// The number of bytes the successful leading elements of a sequential
/// array write produce before the first failing element, if any: how far a
/// cursor that advances with each element gets.
pub open spec fn array_write_count<T: EndianWrite>(
    vals: Seq<T>,
    order: ByteOrder,
    growable: bool,
    len: int,
    offset: int,
) -> int
    decreases vals.len(),
{
    if vals.len() == 0 {
        0
    } else {
        let sz = vals[0].spec_size();
        let newlen = grown_len(len, offset, sz, growable);
        match vals[0].spec_write(order, avail_from(newlen, offset)) {
            Err(_) => 0,
            Ok(()) => sz + array_write_count(vals.skip(1), order, growable, newlen, offset + sz),
        }
    }
}

/// No sequence of values encodes to a negative number of bytes.
pub proof fn lemma_total_size_nonneg<T: EndianWrite>(vals: Seq<T>)
    ensures
        total_size(vals) >= 0,
    decreases vals.len(),
{
    if vals.len() > 0 {
        vals[0].size_law(ByteOrder::Little);
        lemma_total_size_nonneg(vals.skip(1));
    }
}

/// The size of a sequence of values splits at any point.
pub proof fn lemma_total_size_split<T: EndianWrite>(vals: Seq<T>, k: int)
    requires
        0 <= k <= vals.len(),
    ensures
        total_size(vals) == total_size(vals.take(k)) + total_size(vals.skip(k)),
    decreases k,
{
    if k == 0 {
        assert(vals.take(0) =~= Seq::<T>::empty());
        assert(vals.skip(0) =~= vals);
    } else {
        lemma_total_size_split(vals.skip(1), k - 1);
        assert(vals.skip(1).take(k - 1) =~= vals.take(k).skip(1));
        assert(vals.skip(1).skip(k - 1) =~= vals.skip(k));
        assert(vals.take(k)[0] == vals[0]);
    }
}

/// Extending a prefix of values by one element adds that element's size.
pub proof fn lemma_total_size_snoc<T: EndianWrite>(vals: Seq<T>, k: int)
    requires
        0 <= k < vals.len(),
    ensures
        total_size(vals.take(k + 1)) == total_size(vals.take(k)) + vals[k].spec_size(),
{
    lemma_total_size_split(vals.take(k + 1), k);
    assert(vals.take(k + 1).take(k) =~= vals.take(k));
    let tail = vals.take(k + 1).skip(k);
    assert(tail[0] == vals[k]);
    assert(tail.skip(1) =~= Seq::<T>::empty());
    assert(total_size(Seq::<T>::empty()) == 0);
    assert(total_size(tail) == vals[k].spec_size() + total_size(tail.skip(1)));
}

/// The concatenated encodings of a sequence of values are as long as the
/// size the sequence reports.
pub proof fn lemma_concat_len<T: EndianWrite>(vals: Seq<T>, order: ByteOrder)
    ensures
        concat_bytes(vals, order).len() == total_size(vals),
    decreases vals.len(),
{
    if vals.len() > 0 {
        vals[0].size_law(order);
        lemma_concat_len(vals.skip(1), order);
    }
}

/// Extending a prefix of values by one element appends that element's
/// encoding.
pub proof fn lemma_concat_snoc<T: EndianWrite>(vals: Seq<T>, k: int, order: ByteOrder)
    requires
        0 <= k < vals.len(),
    ensures
        concat_bytes(vals.take(k + 1), order) == concat_bytes(vals.take(k), order)
            + vals[k].bytes_of(order),
    decreases k,
{
    if k == 0 {
        assert(vals.take(1)[0] == vals[0]);
        assert(vals.take(1).skip(1) =~= Seq::<T>::empty());
        assert(vals.take(0) =~= Seq::<T>::empty());
        assert(concat_bytes(vals.take(1), order) =~= concat_bytes(vals.take(0), order)
            + vals[0].bytes_of(order));
    } else {
        lemma_concat_snoc(vals.skip(1), k - 1, order);
        assert(vals.skip(1).take(k) =~= vals.take(k + 1).skip(1));
        assert(vals.skip(1).take(k - 1) =~= vals.take(k).skip(1));
        assert(vals.skip(1)[k - 1] == vals[k]);
        assert(vals.take(k + 1)[0] == vals[0]);
        assert(vals.take(k)[0] == vals[0]);
        assert(vals[0].bytes_of(order) + (concat_bytes(vals.take(k).skip(1), order)
            + vals[k].bytes_of(order)) =~= (vals[0].bytes_of(order) + concat_bytes(
            vals.take(k).skip(1),
            order,
        )) + vals[k].bytes_of(order));
    }
}

/// An interface to safely write values to a destination.
///
/// Two flavors of destination exist and are not interchangeable: a
/// fixed-capacity one ([`crate::FixedBuffer`]) reports [`Error::InvalidSize`]
/// when a write would run past its end, and a growable one (`Vec<u8>`)
/// extends itself, zero-filling any gap, before the value's encoder runs.
/// [`Writer::is_growable`] says which flavor an implementor is, and every
/// contract below describes both through it.
pub trait Writer {
    /// The bytes this destination holds.
    spec fn wdata(&self) -> Seq<u8>;

    /// Whether this destination grows on writes past its current length.
    spec fn is_growable() -> bool;

    /// The current length of this destination's data.
    fn data_len(&self) -> (n: usize)
        ensures
            n == self.wdata().len(),
    ;

    /// A destination's data always fits in a machine-sized buffer.
    proof fn wdata_len_law(&self)
        ensures
            self.wdata().len() <= usize::MAX,
    ;

    /// Writes bytes to an offset and returns the number of bytes written.
    ///
    /// Errors if the byte slice will not fit at the offset; a growable
    /// destination extends itself instead and never errors.
    fn write_bytes(&mut self, offset: usize, bytes: &[u8]) -> (r: WriterResult<usize>)
        requires
            Self::is_growable() ==> offset + bytes@.len() <= usize::MAX,
        ensures
            ({
                let n = bytes@.len() as int;
                let newlen = grown_len(
                    old(self).wdata().len() as int,
                    offset as int,
                    n,
                    Self::is_growable(),
                );
                match r {
                    Ok(k) => {
                        &&& k == n
                        &&& final(self).wdata().len() == newlen
                        &&& offset + n <= newlen
                        &&& final(self).wdata().subrange(offset as int, offset + n) == bytes@
                        &&& forall|i: int|
                            0 <= i < newlen && !(offset <= i < offset + n) ==> final(self).wdata()[i] == old_or_zero(old(self).wdata(), i)
                    },
                    Err(e) => {
                        &&& !Self::is_growable()
                        &&& offset + n > old(self).wdata().len()
                        &&& final(self).wdata() == old(self).wdata()
                        &&& e == (Error::InvalidSize {
                            wanted_size: bytes@.len() as usize,
                            offset,
                            data_len: old(self).wdata().len() as usize,
                        })
                    },
                }
            }),
    ;

    /// Writes a value in its little endian representation at an offset.
    ///
    /// A growable destination first extends itself to exactly accommodate
    /// the value's reported size, zero-filling new bytes, before the value's
    /// encoder runs; if the encoder then fails, the growth remains. A
    /// failure of the encoder is rebased to name the absolute offset in this
    /// destination's data.
    fn write_le<T: EndianWrite>(&mut self, offset: usize, value: &T) -> (r: WriterResult<usize>)
        requires
            value.spec_size() <= usize::MAX,
            Self::is_growable() ==> offset + value.spec_size() <= usize::MAX,
        ensures
            ({
                let sz = value.spec_size();
                let newlen = grown_len(
                    old(self).wdata().len() as int,
                    offset as int,
                    sz,
                    Self::is_growable(),
                );
                let avail = avail_from(newlen, offset as int);
                &&& final(self).wdata().len() == newlen
                &&& forall|i: int|
                    0 <= i < newlen && !(offset <= i < offset + sz) ==> final(self).wdata()[i]
                        == old_or_zero(old(self).wdata(), i)
                &&& match (r, value.spec_write(ByteOrder::Little, avail)) {
                    (Ok(k), Ok(())) => k == sz && (k > 0 ==> offset + k <= newlen && final(self).wdata().subrange(offset as int, offset + k) == value.bytes_of(
                        ByteOrder::Little,
                    )),
                    (Err(e), Err(se)) => e == spec_add_context(se, offset as int, newlen),
                    _ => false,
                }
            }),
    ;

    /// Writes a value in its big endian representation at an offset; the
    /// mirror image of [`Writer::write_le`].
    fn write_be<T: EndianWrite>(&mut self, offset: usize, value: &T) -> (r: WriterResult<usize>)
        requires
            value.spec_size() <= usize::MAX,
            Self::is_growable() ==> offset + value.spec_size() <= usize::MAX,
        ensures
            ({
                let sz = value.spec_size();
                let newlen = grown_len(
                    old(self).wdata().len() as int,
                    offset as int,
                    sz,
                    Self::is_growable(),
                );
                let avail = avail_from(newlen, offset as int);
                &&& final(self).wdata().len() == newlen
                &&& forall|i: int|
                    0 <= i < newlen && !(offset <= i < offset + sz) ==> final(self).wdata()[i]
                        == old_or_zero(old(self).wdata(), i)
                &&& match (r, value.spec_write(ByteOrder::Big, avail)) {
                    (Ok(k), Ok(())) => k == sz && (k > 0 ==> offset + k <= newlen && final(self).wdata().subrange(offset as int, offset + k) == value.bytes_of(
                        ByteOrder::Big,
                    )),
                    (Err(e), Err(se)) => e == spec_add_context(se, offset as int, newlen),
                    _ => false,
                }
            }),
    ;

    /// Same as [`Writer::write_bytes`], but returns `0` as the write size if
    /// the bytes will not fit at the offset, for call sites that prefer
    /// silent best-effort writes.
    fn checked_write_bytes(&mut self, offset: usize, bytes: &[u8]) -> (r: usize)
        requires
            Self::is_growable() ==> offset + bytes@.len() <= usize::MAX,
        ensures
            ({
                let n = bytes@.len() as int;
                if !Self::is_growable() && offset + n > old(self).wdata().len() {
                    r == 0 && final(self).wdata() == old(self).wdata()
                } else {
                    let newlen = grown_len(
                        old(self).wdata().len() as int,
                        offset as int,
                        n,
                        Self::is_growable(),
                    );
                    &&& r == n
                    &&& final(self).wdata().len() == newlen
                    &&& offset + n <= newlen
                    &&& final(self).wdata().subrange(offset as int, offset + n) == bytes@
                    &&& forall|i: int|
                        0 <= i < newlen && !(offset <= i < offset + n) ==> final(self).wdata()[i]
                            == old_or_zero(old(self).wdata(), i)
                }
            }),
    {
        match self.write_bytes(offset, bytes) {
            Ok(n) => n,
            Err(_) => 0,
        }
    }

    /// Writes a fixed-width value by direct reinterpretation of its
    /// in-memory layout, through [`Writer::write_bytes`].
    fn write<T: FixedWidth>(&mut self, offset: usize, value: &T) -> (r: WriterResult<usize>)
        requires
            T::width() <= usize::MAX,
            Self::is_growable() ==> offset + T::width() <= usize::MAX,
        ensures
            ({
                let n = T::width();
                let newlen = grown_len(
                    old(self).wdata().len() as int,
                    offset as int,
                    n,
                    Self::is_growable(),
                );
                match r {
                    Ok(k) => {
                        &&& k == n
                        &&& final(self).wdata().len() == newlen
                        &&& offset + n <= newlen
                        &&& final(self).wdata().subrange(offset as int, offset + n)
                            == value.bytes_of(ByteOrder::Little)
                        &&& forall|i: int|
                            0 <= i < newlen && !(offset <= i < offset + n) ==> final(self).wdata()[i] == old_or_zero(old(self).wdata(), i)
                    },
                    Err(e) => {
                        &&& !Self::is_growable()
                        &&& offset + n > old(self).wdata().len()
                        &&& final(self).wdata() == old(self).wdata()
                        &&& e == (Error::InvalidSize {
                            wanted_size: T::width() as usize,
                            offset,
                            data_len: old(self).wdata().len() as usize,
                        })
                    },
                }
            }),
    {
        let size = T::fixed_size();
        proof {
            value.write_law(ByteOrder::Little, T::width());
            value.size_law(ByteOrder::Little);
        }
        let mut tmp: Vec<u8> = Vec::new();
        tmp.resize(size, 0u8);
        let wrote = value.try_write_le(&mut tmp, 0);
        proof {
            assert(wrote is Ok);
            assert(tmp@.subrange(0, T::width()) =~= tmp@);
        }
        self.write_bytes(offset, tmp.as_slice())
    }

    /// Same as [`Writer::write`], but returns `0` as the write size if the
    /// value will not fit at the offset.
    fn checked_write<T: FixedWidth>(&mut self, offset: usize, value: &T) -> (r: usize)
        requires
            T::width() <= usize::MAX,
            Self::is_growable() ==> offset + T::width() <= usize::MAX,
        ensures
            ({
                let n = T::width();
                if !Self::is_growable() && offset + n > old(self).wdata().len() {
                    r == 0 && final(self).wdata() == old(self).wdata()
                } else {
                    let newlen = grown_len(
                        old(self).wdata().len() as int,
                        offset as int,
                        n,
                        Self::is_growable(),
                    );
                    &&& r == n
                    &&& final(self).wdata().len() == newlen
                    &&& offset + n <= newlen
                    &&& final(self).wdata().subrange(offset as int, offset + n) == value.bytes_of(
                        ByteOrder::Little,
                    )
                    &&& forall|i: int|
                        0 <= i < newlen && !(offset <= i < offset + n) ==> final(self).wdata()[i]
                            == old_or_zero(old(self).wdata(), i)
                }
            }),
    {
        match self.write(offset, value) {
            Ok(n) => n,
            Err(_) => 0,
        }
    }

    /// Same as [`Writer::write_le`], but returns `0` as the write size on
    /// any error.
    fn checked_write_le<T: EndianWrite>(&mut self, offset: usize, value: &T) -> (r: usize)
        requires
            value.spec_size() <= usize::MAX,
            Self::is_growable() ==> offset + value.spec_size() <= usize::MAX,
        ensures
            ({
                let sz = value.spec_size();
                let newlen = grown_len(
                    old(self).wdata().len() as int,
                    offset as int,
                    sz,
                    Self::is_growable(),
                );
                let avail = avail_from(newlen, offset as int);
                &&& final(self).wdata().len() == newlen
                &&& forall|i: int|
                    0 <= i < newlen && !(offset <= i < offset + sz) ==> final(self).wdata()[i]
                        == old_or_zero(old(self).wdata(), i)
                &&& match value.spec_write(ByteOrder::Little, avail) {
                    Ok(()) => r == sz && (r > 0 ==> offset + r <= newlen && final(self).wdata().subrange(offset as int, offset + sz) == value.bytes_of(
                        ByteOrder::Little,
                    )),
                    Err(_) => r == 0,
                }
            }),
    {
        match self.write_le(offset, value) {
            Ok(n) => n,
            Err(_) => 0,
        }
    }

    /// Same as [`Writer::write_be`], but returns `0` as the write size on
    /// any error.
    fn checked_write_be<T: EndianWrite>(&mut self, offset: usize, value: &T) -> (r: usize)
        requires
            value.spec_size() <= usize::MAX,
            Self::is_growable() ==> offset + value.spec_size() <= usize::MAX,
        ensures
            ({
                let sz = value.spec_size();
                let newlen = grown_len(
                    old(self).wdata().len() as int,
                    offset as int,
                    sz,
                    Self::is_growable(),
                );
                let avail = avail_from(newlen, offset as int);
                &&& final(self).wdata().len() == newlen
                &&& forall|i: int|
                    0 <= i < newlen && !(offset <= i < offset + sz) ==> final(self).wdata()[i]
                        == old_or_zero(old(self).wdata(), i)
                &&& match value.spec_write(ByteOrder::Big, avail) {
                    Ok(()) => r == sz && (r > 0 ==> offset + r <= newlen && final(self).wdata().subrange(offset as int, offset + sz) == value.bytes_of(
                        ByteOrder::Big,
                    )),
                    Err(_) => r == 0,
                }
            }),
    {
        match self.write_be(offset, value) {
            Ok(n) => n,
            Err(_) => 0,
        }
    }

    /// Writes the elements of an array one after another in the given byte
    /// order, each at the position after its predecessor, stopping at the
    /// first element whose write fails; the error names the absolute offset
    /// at which that element was being written.
    fn write_array<V: EndianWrite>(
        &mut self,
        order: ByteOrder,
        offset: usize,
        values: &[V],
    ) -> (r: WriterResult<usize>)
        requires
            offset + total_size(values@) <= usize::MAX,
        ensures
            ({
                let total = total_size(values@);
                let (outcome, flen) = array_outcome(
                    values@,
                    order,
                    Self::is_growable(),
                    old(self).wdata().len() as int,
                    offset as int,
                );
                &&& final(self).wdata().len() == flen
                &&& old(self).wdata().len() <= flen
                &&& forall|i: int|
                    0 <= i < flen && !(offset <= i < offset + total) ==> final(self).wdata()[i]
                        == old_or_zero(old(self).wdata(), i)
                &&& match (r, outcome) {
                    (Ok(k), Ok(())) => k == total && (k > 0 ==> offset + k <= flen && final(self).wdata().subrange(offset as int, offset + k) == concat_bytes(values@, order)),
                    (Err(e), Err(oe)) => e == oe,
                    _ => false,
                }
            }),
    {
        proof {
            lemma_total_size_nonneg::<V>(values@);
            assert(values@.skip(0) =~= values@);
            assert(values@.take(0) =~= Seq::<V>::empty());
        }
        let ghost old0 = old(self).wdata();
        let ghost growable = Self::is_growable();
        let mut write_size: usize = 0;
        let mut idx: usize = 0;
        while idx < values.len()
            invariant
                offset + total_size(values@) <= usize::MAX,
                idx <= values@.len(),
                write_size == total_size(values@.take(idx as int)),
                old0 == old(self).wdata(),
                growable == Self::is_growable(),
                old0.len() <= self.wdata().len(),
                array_outcome(values@, order, growable, old0.len() as int, offset as int)
                    == array_outcome(
                    values@.skip(idx as int),
                    order,
                    growable,
                    self.wdata().len() as int,
                    offset + write_size,
                ),
                write_size > 0 ==> offset + write_size <= self.wdata().len()
                    && self.wdata().subrange(offset as int, offset + write_size) == concat_bytes(
                    values@.take(idx as int),
                    order,
                ),
                forall|i: int|
                    0 <= i < self.wdata().len() && !(offset <= i < offset + write_size)
                        ==> self.wdata()[i] == old_or_zero(old0, i),
            decreases values@.len() - idx,
        {
            let ghost prev = self.wdata();
            let ghost iidx = idx as int;
            proof {
                lemma_total_size_split::<V>(values@, iidx);
                lemma_total_size_snoc::<V>(values@, iidx);
                values@[iidx].size_law(order);
                assert(values@.skip(iidx)[0] == values@[iidx]);
                assert(values@.skip(iidx).skip(1) =~= values@.skip(iidx + 1));
                lemma_total_size_nonneg::<V>(values@.skip(iidx + 1));
                assert(total_size(values@.skip(iidx)) == values@[iidx].spec_size() + total_size(
                    values@.skip(iidx + 1),
                ));
            }
            let val = vstd::slice::slice_index_get(values, idx);
            let res = match order {
                ByteOrder::Little => self.write_le(offset + write_size, val),
                ByteOrder::Big => self.write_be(offset + write_size, val),
            };
            let ghost sz = values@[iidx].spec_size();
            let ghost newlen = grown_len(prev.len() as int, offset + write_size, sz, growable);
            match res {
                Ok(n) => {
                    proof {
                        lemma_concat_snoc::<V>(values@, iidx, order);
                        assert(array_outcome(
                            values@.skip(iidx),
                            order,
                            growable,
                            prev.len() as int,
                            offset + write_size,
                        ) == array_outcome(
                            values@.skip(iidx + 1),
                            order,
                            growable,
                            newlen,
                            offset + write_size + sz,
                        ));
                        if n > 0 {
                            assert(self.wdata().subrange(
                                offset + write_size,
                                offset + write_size + sz,
                            ) == values@[iidx].bytes_of(order));
                        }
                        if write_size > 0 {
                            assert forall|j: int|
                                offset <= j < offset + write_size implies self.wdata()[j]
                                == prev[j] by {}
                            assert(self.wdata().subrange(offset as int, offset + write_size)
                                =~= prev.subrange(offset as int, offset + write_size));
                        }
                        if write_size + n > 0 {
                            assert(offset + write_size + sz <= self.wdata().len());
                            if write_size == 0 {
                                lemma_concat_len::<V>(values@.take(iidx), order);
                                assert(concat_bytes(values@.take(iidx), order) =~= Seq::<
                                    u8,
                                >::empty());
                                assert(self.wdata().subrange(offset as int, offset as int) =~= Seq::<
                                    u8,
                                >::empty());
                            }
                            if sz == 0 {
                                assert(values@[iidx].bytes_of(order) =~= Seq::<u8>::empty());
                                assert(self.wdata().subrange(
                                    offset + write_size,
                                    offset + write_size + sz,
                                ) =~= Seq::<u8>::empty());
                            }
                            assert(self.wdata().subrange(offset as int, offset + write_size + sz)
                                =~= self.wdata().subrange(offset as int, offset + write_size)
                                + self.wdata().subrange(
                                offset + write_size,
                                offset + write_size + sz,
                            ));
                            assert(self.wdata().subrange(offset as int, offset + write_size + sz)
                                == concat_bytes(values@.take(iidx + 1), order));
                        }
                        assert forall|i: int|
                            0 <= i < self.wdata().len() && !(offset <= i < offset + write_size
                                + sz) implies self.wdata()[i] == old_or_zero(old0, i) by {
                            assert(self.wdata()[i] == old_or_zero(prev, i));
                        }
                    }
                    write_size = write_size + n;
                    idx = idx + 1;
                },
                Err(e) => {
                    proof {
                        assert forall|i: int|
                            0 <= i < self.wdata().len() && !(offset <= i < offset + total_size(
                                values@,
                            )) implies self.wdata()[i] == old_or_zero(old0, i) by {
                            assert(self.wdata()[i] == old_or_zero(prev, i));
                        }
                    }
                    return Err(e);
                },
            }
        }
        proof {
            assert(values@.take(values@.len() as int) =~= values@);
            assert(values@.skip(values@.len() as int) =~= Seq::<V>::empty());
        }
        Ok(write_size)
    }

    /// Writes an array in its little endian representation.
    ///
    /// The array is written fully or until an element's write fails; the
    /// error then names the absolute offset at which it was encountered.
    fn write_array_le<V: EndianWrite>(&mut self, offset: usize, values: &[V]) -> (r:
        WriterResult<usize>)
        requires
            offset + total_size(values@) <= usize::MAX,
        ensures
            ({
                let total = total_size(values@);
                let (outcome, flen) = array_outcome(
                    values@,
                    ByteOrder::Little,
                    Self::is_growable(),
                    old(self).wdata().len() as int,
                    offset as int,
                );
                &&& final(self).wdata().len() == flen
                &&& old(self).wdata().len() <= flen
                &&& forall|i: int|
                    0 <= i < flen && !(offset <= i < offset + total) ==> final(self).wdata()[i]
                        == old_or_zero(old(self).wdata(), i)
                &&& match (r, outcome) {
                    (Ok(k), Ok(())) => k == total && (k > 0 ==> offset + k <= flen && final(self).wdata().subrange(offset as int, offset + k) == concat_bytes(
                        values@,
                        ByteOrder::Little,
                    )),
                    (Err(e), Err(oe)) => e == oe,
                    _ => false,
                }
            }),
    {
        self.write_array(ByteOrder::Little, offset, values)
    }

    /// Writes an array in its big endian representation; the mirror image
    /// of [`Writer::write_array_le`].
    fn write_array_be<V: EndianWrite>(&mut self, offset: usize, values: &[V]) -> (r:
        WriterResult<usize>)
        requires
            offset + total_size(values@) <= usize::MAX,
        ensures
            ({
                let total = total_size(values@);
                let (outcome, flen) = array_outcome(
                    values@,
                    ByteOrder::Big,
                    Self::is_growable(),
                    old(self).wdata().len() as int,
                    offset as int,
                );
                &&& final(self).wdata().len() == flen
                &&& old(self).wdata().len() <= flen
                &&& forall|i: int|
                    0 <= i < flen && !(offset <= i < offset + total) ==> final(self).wdata()[i]
                        == old_or_zero(old(self).wdata(), i)
                &&& match (r, outcome) {
                    (Ok(k), Ok(())) => k == total && (k > 0 ==> offset + k <= flen && final(self).wdata().subrange(offset as int, offset + k) == concat_bytes(
                        values@,
                        ByteOrder::Big,
                    )),
                    (Err(e), Err(oe)) => e == oe,
                    _ => false,
                }
            }),
    {
        self.write_array(ByteOrder::Big, offset, values)
    }

    /// Same as [`Writer::write_array`], but returns `0` as the write size,
    /// without touching the destination, if the whole array will not fit at
    /// the offset of the destination as it currently is; a growable
    /// destination is not grown. On an element failure after the check,
    /// `0` is returned and the elements already written remain.
    fn checked_write_array<V: EndianWrite>(
        &mut self,
        order: ByteOrder,
        offset: usize,
        values: &[V],
    ) -> (r: usize)
        requires
            offset + total_size(values@) <= usize::MAX,
        ensures
            ({
                let total = total_size(values@);
                if offset + total > old(self).wdata().len() {
                    r == 0 && final(self).wdata() == old(self).wdata()
                } else {
                    let (outcome, flen) = array_outcome(
                        values@,
                        order,
                        Self::is_growable(),
                        old(self).wdata().len() as int,
                        offset as int,
                    );
                    &&& final(self).wdata().len() == flen
                    &&& forall|i: int|
                        0 <= i < flen && !(offset <= i < offset + total) ==> final(self).wdata()[i]
                            == old_or_zero(old(self).wdata(), i)
                    &&& match outcome {
                        Ok(()) => r == total && (r > 0 ==> offset + r <= flen && final(self).wdata().subrange(offset as int, offset + r) == concat_bytes(
                            values@,
                            order,
                        )),
                        Err(_) => r == 0,
                    }
                }
            }),
    {
        proof {
            lemma_total_size_nonneg::<V>(values@);
            assert(values@.take(0) =~= Seq::<V>::empty());
        }
        let mut size: usize = 0;
        let mut i: usize = 0;
        while i < values.len()
            invariant
                i <= values@.len(),
                size == total_size(values@.take(i as int)),
                offset + total_size(values@) <= usize::MAX,
            decreases values@.len() - i,
        {
            let ghost ii = i as int;
            proof {
                lemma_total_size_split::<V>(values@, ii);
                lemma_total_size_snoc::<V>(values@, ii);
                values@[ii].size_law(order);
                assert(values@.skip(ii)[0] == values@[ii]);
                assert(values@.skip(ii).skip(1) =~= values@.skip(ii + 1));
                lemma_total_size_nonneg::<V>(values@.skip(ii + 1));
                assert(total_size(values@.skip(ii)) == values@[ii].spec_size() + total_size(
                    values@.skip(ii + 1),
                ));
            }
            let v = vstd::slice::slice_index_get(values, i);
            size = size + v.get_size();
            i = i + 1;
        }
        proof {
            assert(values@.take(values@.len() as int) =~= values@);
        }
        let len = self.data_len();
        if offset > len || size > len - offset {
            return 0;
        }
        match self.write_array(order, offset, values) {
            Ok(n) => n,
            Err(_) => 0,
        }
    }

    /// Same as [`Writer::write_array_le`], but returns `0` as the write
    /// size if the whole array will not fit at the offset.
    fn checked_write_array_le<V: EndianWrite>(&mut self, offset: usize, values: &[V]) -> (r: usize)
        requires
            offset + total_size(values@) <= usize::MAX,
        ensures
            ({
                let total = total_size(values@);
                if offset + total > old(self).wdata().len() {
                    r == 0 && final(self).wdata() == old(self).wdata()
                } else {
                    let (outcome, flen) = array_outcome(
                        values@,
                        ByteOrder::Little,
                        Self::is_growable(),
                        old(self).wdata().len() as int,
                        offset as int,
                    );
                    &&& final(self).wdata().len() == flen
                    &&& forall|i: int|
                        0 <= i < flen && !(offset <= i < offset + total) ==> final(self).wdata()[i]
                            == old_or_zero(old(self).wdata(), i)
                    &&& match outcome {
                        Ok(()) => r == total && (r > 0 ==> offset + r <= flen && final(self).wdata().subrange(offset as int, offset + r) == concat_bytes(
                            values@,
                            ByteOrder::Little,
                        )),
                        Err(_) => r == 0,
                    }
                }
            }),
    {
        self.checked_write_array(ByteOrder::Little, offset, values)
    }

    /// Same as [`Writer::write_array_be`], but returns `0` as the write
    /// size if the whole array will not fit at the offset.
    fn checked_write_array_be<V: EndianWrite>(&mut self, offset: usize, values: &[V]) -> (r: usize)
        requires
            offset + total_size(values@) <= usize::MAX,
        ensures
            ({
                let total = total_size(values@);
                if offset + total > old(self).wdata().len() {
                    r == 0 && final(self).wdata() == old(self).wdata()
                } else {
                    let (outcome, flen) = array_outcome(
                        values@,
                        ByteOrder::Big,
                        Self::is_growable(),
                        old(self).wdata().len() as int,
                        offset as int,
                    );
                    &&& final(self).wdata().len() == flen
                    &&& forall|i: int|
                        0 <= i < flen && !(offset <= i < offset + total) ==> final(self).wdata()[i]
                            == old_or_zero(old(self).wdata(), i)
                    &&& match outcome {
                        Ok(()) => r == total && (r > 0 ==> offset + r <= flen && final(self).wdata().subrange(offset as int, offset + r) == concat_bytes(
                            values@,
                            ByteOrder::Big,
                        )),
                        Err(_) => r == 0,
                    }
                }
            }),
    {
        self.checked_write_array(ByteOrder::Big, offset, values)
    }
}

impl Writer for Vec<u8> {
    open spec fn wdata(&self) -> Seq<u8> {
        self@
    }

    open spec fn is_growable() -> bool {
        true
    }

    fn data_len(&self) -> (n: usize) {
        self.len()
    }

    proof fn wdata_len_law(&self) {
        broadcast use vstd::std_specs::vec::axiom_spec_len;

        assert(self.len() <= usize::MAX);
    }

    fn write_bytes(&mut self, offset: usize, bytes: &[u8]) -> (r: WriterResult<usize>) {
        let end = offset + bytes.len();
        if end > self.len() {
            self.resize(end, 0u8);
        }
        proof {
            assert forall|i: int| 0 <= i < self@.len() && i >= old(self)@.len() implies self@[i]
                == 0u8 by {
                assert(cloned::<u8>(0u8, self@[i]));
            }
        }
        let ghost grown = self@;
        proof {
            assert(grown.len() <= usize::MAX);
        }
        let mut i: usize = 0;
        while i < bytes.len()
            invariant
                i <= bytes@.len(),
                self@.len() == grown.len(),
                grown.len() <= usize::MAX,
                offset + bytes@.len() <= grown.len(),
                forall|j: int| 0 <= j < i ==> self@[offset + j] == bytes@[j],
                forall|j: int|
                    0 <= j < grown.len() && !(offset <= j < offset + i) ==> self@[j] == grown[j],
            decreases bytes@.len() - i,
        {
            self[offset + i] = bytes[i];
            i = i + 1;
        }
        proof {
            assert(self@.subrange(offset as int, offset + bytes@.len()) =~= bytes@);
            assert forall|k: int|
                0 <= k < self@.len() && !(offset <= k < offset + bytes@.len()) implies self@[k]
                == old_or_zero(old(self)@, k) by {
                assert(self@[k] == grown[k]);
                if k < old(self)@.len() {
                    assert(old(self)@.subrange(0, old(self)@.len() as int) =~= old(self)@);
                    assert(grown[k] == old(self)@[k]);
                } else {
                    assert(grown[k] == 0);
                }
            }
        }
        Ok(bytes.len())
    }

    fn write_le<T: EndianWrite>(&mut self, offset: usize, value: &T) -> (r: WriterResult<usize>) {
        let size = value.get_size();
        let end = offset + size;
        if end > self.len() {
            self.resize(end, 0u8);
        }
        proof {
            assert forall|i: int| 0 <= i < self@.len() && i >= old(self)@.len() implies self@[i]
                == 0u8 by {
                assert(cloned::<u8>(0u8, self@[i]));
            }
        }
        let len = self.len();
        let res = value.try_write_le(self, offset);
        add_error_context(res, offset, len)
    }

    fn write_be<T: EndianWrite>(&mut self, offset: usize, value: &T) -> (r: WriterResult<usize>) {
        let size = value.get_size();
        let end = offset + size;
        if end > self.len() {
            self.resize(end, 0u8);
        }
        proof {
            assert forall|i: int| 0 <= i < self@.len() && i >= old(self)@.len() implies self@[i]
                == 0u8 by {
                assert(cloned::<u8>(0u8, self@[i]));
            }
        }
        let len = self.len();
        let res = value.try_write_be(self, offset);
        add_error_context(res, offset, len)
    }
}

} // verus!
