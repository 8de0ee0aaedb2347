use vstd::prelude::*;
use vstd::slice::slice_subrange;

verus! {

/// The byte order of an encoding, used by specifications to describe the
/// little- and big-endian forms of a value with one set of functions.
#[derive(Debug, Clone, Copy, PartialEq, Eq, Structural)]
pub enum ByteOrder {
    /// Least-significant byte first.
    Little,
    /// Most-significant byte first.
    Big,
}

/// How many bytes remain in a buffer of length `len` from position `offset`
/// on: the data a sub-operation at `offset` gets to see.
pub open spec fn avail_from(len: int, offset: int) -> int {
    if offset <= len {
        len - offset
    } else {
        0
    }
}

/// The tail of `data` from position `offset` on; empty when `offset` lies
/// past the end.
pub open spec fn tail_from(data: Seq<u8>, offset: int) -> Seq<u8> {
    if 0 <= offset <= data.len() {
        data.skip(offset)
    } else {
        Seq::empty()
    }
}

/// Returns the tail of `bytes` from `offset` on, or the empty slice when
/// `offset` lies past the end.
pub fn tail_of(bytes: &[u8], offset: usize) -> (r: &[u8])
    ensures
        r@ == tail_from(bytes@, offset as int),
{
    let r = if offset <= bytes.len() {
        slice_subrange(bytes, offset, bytes.len())
    } else {
        slice_subrange(bytes, 0, 0)
    };
    proof {
        assert(r@ =~= tail_from(bytes@, offset as int));
    }
    r
}

} // verus!
