use vstd::prelude::*;

verus! {

/// The failures that reads and writes can report.
///
/// Every fallible operation of this library returns one of these values;
/// nothing panics for ordinary bounds or alignment problems.
#[derive(Debug, Clone, Copy, PartialEq, Eq)]
pub enum Error {
    /// An operation needed `wanted_size` bytes starting at `offset`, but the
    /// buffer holds only `data_len` bytes in total.
    InvalidSize { wanted_size: usize, offset: usize, data_len: usize },
    /// A direct reinterpretation was attempted at an offset that does not
    /// meet the target type's alignment.
    InvalidAlignment { wanted_size: usize, source_size: usize, source_offset: usize },
    /// A custom decoder's own failure, with a static description.
    InvalidRead { message: &'static str },
    /// A custom encoder's own failure, with a static description.
    InvalidWrite { message: &'static str },
}

/// What `add_error_context` produces: an `InvalidSize` failure raised by a
/// sub-operation at a position relative to the caller's `offset` is rebased
/// to the caller's frame, and `data_len` is replaced by the caller's own
/// buffer length. Other failures pass through unchanged. A rebased offset
/// that would not fit in `usize` saturates.
pub open spec fn spec_add_context(e: Error, offset: int, data_len: int) -> Error {
    match e {
        Error::InvalidSize { wanted_size, offset: inner, data_len: _ } => {
            let rebased: int = offset + inner;
            Error::InvalidSize {
                wanted_size,
                offset: if rebased <= usize::MAX { rebased as usize } else { usize::MAX },
                data_len: data_len as usize,
            }
        },
        _ => e,
    }
}

/// Rebases the offset of an `InvalidSize` failure by the absolute position
/// of the sub-operation that raised it, so that the outermost caller always
/// sees an absolute position in its own buffer.
#[inline(always)]
pub fn add_error_context<T>(error: Result<T, Error>, offset: usize, data_len: usize) -> (r: Result<
    T,
    Error,
>)
    ensures
        match error {
            Ok(v) => r == Ok::<T, Error>(v),
            Err(e) => r == Err::<T, Error>(spec_add_context(e, offset as int, data_len as int)),
        },
{
    match error {
        Ok(v) => Ok(v),
        Err(e) => Err(
            match e {
                Error::InvalidSize { wanted_size, offset: inner, data_len: _ } => {
                    let rebased: usize = if inner <= usize::MAX - offset {
                        offset + inner
                    } else {
                        usize::MAX
                    };
                    Error::InvalidSize { wanted_size, offset: rebased, data_len }
                },
                _ => e,
            },
        ),
    }
}

/// Same as [`add_error_context`], but on a bare failure.
#[inline(always)]
pub fn rebase_error(e: Error, offset: usize, data_len: usize) -> (r: Error)
    ensures
        r == spec_add_context(e, offset as int, data_len as int),
{
    match e {
        Error::InvalidSize { wanted_size, offset: inner, data_len: _ } => {
            let rebased: usize = if inner <= usize::MAX - offset {
                offset + inner
            } else {
                usize::MAX
            };
            Error::InvalidSize { wanted_size, offset: rebased, data_len }
        },
        _ => e,
    }
}

} // verus!
