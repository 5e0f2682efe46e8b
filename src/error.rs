use vstd::prelude::*;

verus! {

/// Why a byte stream could not be decoded.
#[derive(Clone, Copy, Debug, PartialEq, Eq, Structural)]
pub enum DecodeError {
    /// Fewer bytes remain than the field needs.
    TruncatedInput,
    /// A variable-length integer still continues after five bytes.
    MalformedVarInt,
    /// Text bytes that are not UTF-8.
    InvalidUtf8,
    /// A text length prefix above the bound for that field.
    TextTooLong,
    /// A sequence count that is negative or larger than the bytes left.
    SequenceTooLong,
    /// A presence flag other than 0 or 1.
    InvalidOptionFlag,
    /// An enumeration tag outside its variants.
    InvalidEnumTag,
}

/// The outcome of a decoder that started at `pos`, seen as a model value and
/// the number of bytes consumed.
pub open spec fn decoded<T: View>(r: Result<(T, usize), DecodeError>, pos: usize) -> Result<
    (T::V, int),
    DecodeError,
> {
    match r {
        Ok((v, p)) => Ok((v@, p - pos)),
        Err(e) => Err(e),
    }
}

/// A successful decoder stops inside the buffer, at or after where it began.
pub open spec fn within<T>(r: Result<(T, usize), DecodeError>, pos: usize, len: nat) -> bool {
    r matches Ok((_, p)) ==> pos <= p <= len
}

} // verus!
