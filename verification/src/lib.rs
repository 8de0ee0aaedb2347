//! A binary serialization library for raw byte buffers.
//!
//! Values are read and written with explicit endianness, through
//! bounds-checked accessors, so that an out-of-bounds or misaligned access is
//! reported as a typed [`Error`] instead of causing a panic.
//!
//! [`Reader`] and [`Writer`] address a buffer by offset; [`StreamContainer`]
//! pairs a buffer with a [`Cursor`] so that a sequence of fields can be
//! decoded or encoded without manual offset arithmetic. Any type that
//! implements [`EndianRead`] and [`EndianWrite`] — the fixed-width scalars,
//! the record codecs, or a hand-written scheme of its own — composes with
//! both. A destination is either fixed-capacity ([`FixedBuffer`]), which
//! errors when a write would run past its end, or growable (`Vec<u8>`),
//! which extends itself, zero-filling new bytes.

mod buffer;
mod byte_order;
mod cursor;
mod custom;
mod endian_read;
mod endian_write;
mod error;
mod laws;
mod primitives;
mod reader;
mod records;
mod stream_container;
mod writer;

pub use buffer::FixedBuffer;
pub use byte_order::avail_from;
pub use byte_order::tail_from;
pub use byte_order::ByteOrder;
pub use cursor::Cursor;
pub use custom::CustomFail;
pub use custom::OffsetFail;
pub use custom::Repeat;
pub use custom::Sum;
pub use endian_read::EndianRead;
pub use endian_read::ReadOutput;
pub use endian_write::EndianWrite;
pub use error::add_error_context;
pub use error::spec_add_context;
pub use laws::lemma_bool_round_trip;
pub use laws::lemma_failing_writers_never_succeed;
pub use laws::lemma_composite_write_exact;
pub use laws::lemma_fixed_width_write_exact;
pub use laws::lemma_i16_round_trip;
pub use laws::lemma_i32_round_trip;
pub use laws::lemma_i64_round_trip;
pub use laws::lemma_i8_round_trip;
pub use laws::lemma_items_write_total;
pub use laws::lemma_list_write_exact;
pub use laws::lemma_nested_write_exact;
pub use laws::lemma_padded_record_round_trip;
pub use laws::lemma_padded_record_write_exact;
pub use laws::lemma_record_round_trip;
pub use laws::lemma_record_write_exact;
pub use laws::lemma_u16_round_trip;
pub use laws::lemma_u32_round_trip;
pub use laws::lemma_u64_round_trip;
pub use laws::lemma_u8_round_trip;
pub use error::rebase_error;
pub use error::Error;
pub use primitives::spec_u16_decode;
pub use primitives::spec_u16_encode;
pub use primitives::spec_u32_decode;
pub use primitives::spec_u32_encode;
pub use primitives::spec_u64_decode;
pub use primitives::spec_u64_encode;
pub use primitives::short_read_err;
pub use primitives::short_write_err;
pub use primitives::to_signed;
pub use primitives::to_unsigned;
pub use primitives::FixedWidth;
pub use reader::is_aligned;
pub use reader::Reader;
pub use records::items_read;
pub use records::items_read_err;
pub use records::items_read_ok;
pub use records::items_write;
pub use records::Composite;
pub use records::ListContainer;
pub use records::MacroArgs;
pub use records::NestedContainer;
pub use records::PaddedRecord;
pub use records::Record;
pub use reader::ReaderResult;
pub use stream_container::StreamContainer;
pub use writer::grown_len;
pub use writer::old_or_zero;
pub use writer::Writer;
pub use writer::WriterResult;
