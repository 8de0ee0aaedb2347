use vstd::prelude::*;
use vstd::arithmetic::div_mod::{lemma_div_denominator, lemma_fundamental_div_mod, lemma_mod_bound};

use crate::byte_order::{tail_from, ByteOrder};
use crate::custom::{CustomFail, OffsetFail};
use crate::endian_read::EndianRead;
use crate::endian_write::EndianWrite;
use crate::error::Error;
use crate::primitives::{to_unsigned, FixedWidth};
use crate::primitives::{spec_u16_decode, spec_u32_decode};
use crate::records::{items_write, Composite, ListContainer, NestedContainer, PaddedRecord, Record};
use crate::writer::{lemma_total_size_nonneg, total_size};

verus! {

/// Round trip for `u8`: decoding the encoding of a value, in either byte
/// order, yields the value back and consumes its full width.
pub proof fn lemma_u8_round_trip(order: ByteOrder, v: u8)
    ensures
        u8::read_ok(order, v.bytes_of(order)),
        forall|w: u8, n: int| u8::read_match(order, v.bytes_of(order), w, n) ==> w == v && n == 1,
{
}

/// Round trip for `u16`, in either byte order.
pub proof fn lemma_u16_round_trip(order: ByteOrder, v: u16)
    ensures
        u16::read_ok(order, v.bytes_of(order)),
        forall|w: u16, n: int|
            u16::read_match(order, v.bytes_of(order), w, n) ==> w == v && n == 2,
{
    lemma_u16_digits(v as int);
}

/// Round trip for `u32`, in either byte order.
pub proof fn lemma_u32_round_trip(order: ByteOrder, v: u32)
    ensures
        u32::read_ok(order, v.bytes_of(order)),
        forall|w: u32, n: int|
            u32::read_match(order, v.bytes_of(order), w, n) ==> w == v && n == 4,
{
    lemma_u32_digits(v as int);
}

/// The two base-256 digits of a value below two to the sixteenth
/// recombine to the value, and the top digit fits a byte.
proof fn lemma_u16_digits(x: int)
    requires
        0 <= x < 0x10000,
    ensures
        x % 0x100 + (x / 0x100) * 0x100 == x,
        0 <= x / 0x100 < 0x100,
{
    lemma_fundamental_div_mod(x, 0x100);
    lemma_mod_bound(x, 0x100);
}

/// The four base-256 digits of a value below two to the thirty-second
/// recombine to the value, and the top digit fits a byte.
proof fn lemma_u32_digits(x: int)
    requires
        0 <= x < 0x100000000,
    ensures
        x % 0x100 + (x / 0x100 % 0x100) * 0x100 + (x / 0x10000 % 0x100) * 0x10000 + (x / 0x1000000)
            * 0x1000000 == x,
        0 <= x / 0x1000000 < 0x100,
{
    lemma_fundamental_div_mod(x, 0x100);
    lemma_div_denominator(x, 0x100, 0x100);
    lemma_fundamental_div_mod(x / 0x100, 0x100);
    lemma_div_denominator(x, 0x10000, 0x100);
    lemma_fundamental_div_mod(x / 0x10000, 0x100);
    lemma_fundamental_div_mod(x, 0x1000000);
    lemma_mod_bound(x, 0x1000000);
    lemma_mod_bound(x, 0x100);
    lemma_mod_bound(x / 0x100, 0x100);
    lemma_mod_bound(x / 0x10000, 0x100);
}

/// The eight base-256 digits of a value below two to the sixty-fourth
/// recombine to the value, and the top digit fits a byte.
proof fn lemma_u64_digits(x: int)
    requires
        0 <= x < 0x10000000000000000,
    ensures
        x % 0x100 + (x / 0x100 % 0x100) * 0x100 + (x / 0x10000 % 0x100) * 0x10000 + (x / 0x1000000
            % 0x100) * 0x1000000 + (x / 0x100000000 % 0x100) * 0x100000000 + (x / 0x10000000000
            % 0x100) * 0x10000000000 + (x / 0x1000000000000 % 0x100) * 0x1000000000000 + (x
            / 0x100000000000000) * 0x100000000000000 == x,
        0 <= x / 0x100000000000000 < 0x100,
{
    lemma_fundamental_div_mod(x, 0x100);
    lemma_div_denominator(x, 0x100, 0x100);
    lemma_fundamental_div_mod(x / 0x100, 0x100);
    lemma_div_denominator(x, 0x10000, 0x100);
    lemma_fundamental_div_mod(x / 0x10000, 0x100);
    lemma_div_denominator(x, 0x1000000, 0x100);
    lemma_fundamental_div_mod(x / 0x1000000, 0x100);
    lemma_div_denominator(x, 0x100000000, 0x100);
    lemma_fundamental_div_mod(x / 0x100000000, 0x100);
    lemma_div_denominator(x, 0x10000000000, 0x100);
    lemma_fundamental_div_mod(x / 0x10000000000, 0x100);
    lemma_div_denominator(x, 0x1000000000000, 0x100);
    lemma_fundamental_div_mod(x / 0x1000000000000, 0x100);
    lemma_fundamental_div_mod(x, 0x100000000000000);
    lemma_mod_bound(x, 0x100000000000000);
    lemma_mod_bound(x, 0x100);
    lemma_mod_bound(x / 0x100, 0x100);
    lemma_mod_bound(x / 0x10000, 0x100);
    lemma_mod_bound(x / 0x1000000, 0x100);
    lemma_mod_bound(x / 0x100000000, 0x100);
    lemma_mod_bound(x / 0x10000000000, 0x100);
    lemma_mod_bound(x / 0x1000000000000, 0x100);
}

/// Round trip for `u64`, in either byte order.
pub proof fn lemma_u64_round_trip(order: ByteOrder, v: u64)
    ensures
        u64::read_ok(order, v.bytes_of(order)),
        forall|w: u64, n: int|
            u64::read_match(order, v.bytes_of(order), w, n) ==> w == v && n == 8,
{
    lemma_u64_digits(v as int);
}

/// Round trip for `i8`, in either byte order.
pub proof fn lemma_i8_round_trip(order: ByteOrder, v: i8)
    ensures
        i8::read_ok(order, v.bytes_of(order)),
        forall|w: i8, n: int| i8::read_match(order, v.bytes_of(order), w, n) ==> w == v && n == 1,
{
}

/// Round trip for `i16`, in either byte order.
pub proof fn lemma_i16_round_trip(order: ByteOrder, v: i16)
    ensures
        i16::read_ok(order, v.bytes_of(order)),
        forall|w: i16, n: int|
            i16::read_match(order, v.bytes_of(order), w, n) ==> w == v && n == 2,
{
    lemma_u16_digits(to_unsigned(v as int, 0x10000));
}

/// Round trip for `i32`, in either byte order.
pub proof fn lemma_i32_round_trip(order: ByteOrder, v: i32)
    ensures
        i32::read_ok(order, v.bytes_of(order)),
        forall|w: i32, n: int|
            i32::read_match(order, v.bytes_of(order), w, n) ==> w == v && n == 4,
{
    lemma_u32_digits(to_unsigned(v as int, 0x100000000));
}

/// Round trip for `i64`, in either byte order.
pub proof fn lemma_i64_round_trip(order: ByteOrder, v: i64)
    ensures
        i64::read_ok(order, v.bytes_of(order)),
        forall|w: i64, n: int|
            i64::read_match(order, v.bytes_of(order), w, n) ==> w == v && n == 8,
{
    lemma_u64_digits(to_unsigned(v as int, 0x10000000000000000));
}

/// Round trip for `bool`, in either byte order.
pub proof fn lemma_bool_round_trip(order: ByteOrder, v: bool)
    ensures
        bool::read_ok(order, v.bytes_of(order)),
        forall|w: bool, n: int|
            bool::read_match(order, v.bytes_of(order), w, n) ==> w == v && n == 1,
{
}

/// Round trip for [`Record`], a struct codec without dynamic fields, in
/// either byte order.
#[verifier::rlimit(60)]
pub proof fn lemma_record_round_trip(order: ByteOrder, v: Record)
    ensures
        Record::read_ok(order, v.bytes_of(order)),
        forall|w: Record, n: int|
            Record::read_match(order, v.bytes_of(order), w, n) ==> w == v && n == 9,
{
    let enc = v.bytes_of(order);
    assert(enc.len() == 9);
    assert forall|w: Record, n: int| Record::read_match(order, enc, w, n) implies w == v && n
        == 9 by {
        assert(enc[0] == v.first.bytes_of(order)[0]);
        assert(tail_from(enc, 1)[0] == v.second.bytes_of(order)[0]);
        assert(tail_from(enc, 1)[1] == v.second.bytes_of(order)[1]);
        assert(tail_from(enc, 1)[2] == v.second.bytes_of(order)[2]);
        assert(tail_from(enc, 1)[3] == v.second.bytes_of(order)[3]);
        assert(tail_from(enc, 5)[0] == v.array.bytes_of(order)[0]);
        assert(tail_from(enc, 5)[1] == v.array.bytes_of(order)[1]);
        assert(tail_from(enc, 5)[2] == v.array.bytes_of(order)[2]);
        assert(tail_from(enc, 5)[3] == v.array.bytes_of(order)[3]);
        assert(w.second == v.second) by {
            lemma_u32_digits(v.second as int);
            assert(spec_u32_decode(order, tail_from(enc, 1)) == spec_u32_decode(
                order,
                v.second.bytes_of(order),
            ));
        }
        assert(w.array[0] == v.array[0]) by {
            lemma_u16_digits(v.array[0] as int);
            assert(spec_u16_decode(order, tail_from(enc, 5)) == spec_u16_decode(
                order,
                v.array.bytes_of(order),
            ));
        }
        assert(w.array[1] == v.array[1]) by {
            lemma_u16_digits(v.array[1] as int);
            assert(tail_from(tail_from(enc, 5), 2)[0] == v.array[1].bytes_of(order)[0]);
            assert(tail_from(tail_from(enc, 5), 2)[1] == v.array[1].bytes_of(order)[1]);
            assert(spec_u16_decode(order, tail_from(tail_from(enc, 5), 2)) == spec_u16_decode(
                order,
                v.array[1].bytes_of(order),
            ));
        }
        assert(w.array =~= v.array);
    }
}

/// Round trip for [`PaddedRecord`], in either byte order: the padding
/// bytes take no part in the decoded value.
pub proof fn lemma_padded_record_round_trip(order: ByteOrder, v: PaddedRecord)
    ensures
        PaddedRecord::read_ok(order, v.bytes_of(order)),
        forall|w: PaddedRecord, n: int|
            PaddedRecord::read_match(order, v.bytes_of(order), w, n) ==> w == v && n == 8,
{
    let enc = v.bytes_of(order);
    assert(enc.len() == 8);
    assert forall|w: PaddedRecord, n: int| PaddedRecord::read_match(order, enc, w, n) implies w
        == v && n == 8 by {
        assert(tail_from(enc, 1)[0] == v.first.bytes_of(order)[0]);
        assert(tail_from(enc, 4)[0] == v.second.bytes_of(order)[0]);
        assert(tail_from(enc, 4)[1] == v.second.bytes_of(order)[1]);
        assert(tail_from(enc, 4)[2] == v.second.bytes_of(order)[2]);
        assert(tail_from(enc, 4)[3] == v.second.bytes_of(order)[3]);
        assert(w.second == v.second) by {
            lemma_u32_digits(v.second as int);
            assert(spec_u32_decode(order, tail_from(enc, 4)) == spec_u32_decode(
                order,
                v.second.bytes_of(order),
            ));
        }
    }
}

/// Size truthfulness for every fixed-width scalar: a write into exactly
/// `width` bytes of room succeeds, and one into a single byte less fails
/// with [`Error::InvalidSize`].
pub proof fn lemma_fixed_width_write_exact<T: FixedWidth>(v: T, order: ByteOrder, avail: int)
    requires
        0 <= avail,
    ensures
        v.spec_write(order, avail) is Ok <==> avail >= v.spec_size(),
        avail < v.spec_size() ==> v.spec_write(order, avail) matches Err(Error::InvalidSize {
            ..
        }),
{
    v.write_law(order, avail);
}

/// Size truthfulness for [`Record`]: a write into exactly nine bytes of
/// room succeeds, and one into less fails with [`Error::InvalidSize`].
pub proof fn lemma_record_write_exact(v: Record, order: ByteOrder, avail: int)
    requires
        0 <= avail,
    ensures
        v.spec_write(order, avail) is Ok <==> avail >= v.spec_size(),
        avail < v.spec_size() ==> v.spec_write(order, avail) matches Err(Error::InvalidSize {
            ..
        }),
{
}

/// Size truthfulness for [`PaddedRecord`].
pub proof fn lemma_padded_record_write_exact(v: PaddedRecord, order: ByteOrder, avail: int)
    requires
        0 <= avail,
    ensures
        v.spec_write(order, avail) is Ok <==> avail >= v.spec_size(),
        avail < v.spec_size() ==> v.spec_write(order, avail) matches Err(Error::InvalidSize {
            ..
        }),
{
}

/// A sequence of fixed-width values writes in full whenever the room from
/// its starting position on holds their total size.
pub proof fn lemma_items_write_total<T: FixedWidth>(
    vals: Seq<T>,
    order: ByteOrder,
    avail: int,
    pos: int,
)
    requires
        0 <= pos,
        pos + total_size(vals) <= avail,
    ensures
        items_write(vals, order, avail, pos) is Ok,
    decreases vals.len(),
{
    if vals.len() > 0 {
        lemma_total_size_nonneg::<T>(vals);
        lemma_total_size_nonneg::<T>(vals.skip(1));
        vals[0].size_law(order);
        vals[0].write_law(order, avail - pos);
        vals[0].size_law(order);
        lemma_items_write_total(vals.skip(1), order, avail, pos + vals[0].spec_size());
    }
}

/// Size truthfulness for a list of fixed-width values whose count fits its
/// one-byte prefix: a write into exactly `spec_size` bytes of room
/// succeeds, and one into less fails with [`Error::InvalidSize`].
pub proof fn lemma_list_write_exact<T: FixedWidth>(
    v: ListContainer<T>,
    order: ByteOrder,
    avail: int,
)
    requires
        0 <= avail,
        v.0@.len() <= 255,
    ensures
        v.spec_write(order, avail) is Ok <==> avail >= v.spec_size(),
        avail < v.spec_size() ==> v.spec_write(order, avail) matches Err(Error::InvalidSize {
            ..
        }),
{
    lemma_total_size_nonneg::<T>(v.0@);
    if avail >= v.spec_size() {
        lemma_items_write_total(v.0@, order, avail, 1);
    }
}

/// Size truthfulness for a nested record around a fixed-width value.
pub proof fn lemma_nested_write_exact<T: FixedWidth>(
    v: NestedContainer<T>,
    order: ByteOrder,
    avail: int,
)
    requires
        0 <= avail,
    ensures
        v.spec_write(order, avail) is Ok <==> avail >= v.spec_size(),
        avail < v.spec_size() ==> v.spec_write(order, avail) matches Err(Error::InvalidSize {
            ..
        }),
{
    v.data.size_law(order);
    if avail >= 4 {
        v.data.write_law(order, avail - 4);
    }
}

/// Size truthfulness for [`Composite`]: its fixed-width record and its list
/// compose into one exact size.
pub proof fn lemma_composite_write_exact(v: Composite, order: ByteOrder, avail: int)
    requires
        0 <= avail,
        v.list.0@.len() <= 255,
    ensures
        v.spec_write(order, avail) is Ok <==> avail >= v.spec_size(),
        avail < v.spec_size() ==> v.spec_write(order, avail) matches Err(Error::InvalidSize {
            ..
        }),
{
    lemma_total_size_nonneg::<u32>(v.list.0@);
    if avail >= v.spec_size() {
        lemma_items_write_total(v.list.0@, order, avail - 9, 1);
    }
}

/// The two demonstration values whose encoders always fail are the stated
/// exception to size truthfulness: no amount of room makes their writes
/// succeed.
pub proof fn lemma_failing_writers_never_succeed(
    a: CustomFail,
    b: OffsetFail,
    order: ByteOrder,
    avail: int,
)
    ensures
        !(a.spec_write(order, avail) is Ok),
        !(b.spec_write(order, avail) is Ok),
{
}

} // verus!
