use vstd::prelude::*;

verus! {

/// Errors raised while ingesting a sequence file.
#[derive(Debug, Clone, Copy, PartialEq, Eq, Structural)]
pub enum IngestError {
    /// The symbol table does not hold exactly five entries; carries its length.
    InvalidMapping(usize),
    /// The header starting at this byte offset is not a decimal `u64`.
    MalformedHeader(usize),
    /// The merged content is too long for its offsets to fit in an `i64`.
    ContentOverflow,
}

/// Errors raised while concatenating raw buffers.
#[derive(Debug, Clone, Copy, PartialEq, Eq, Structural)]
pub enum ConcatError {
    /// The buffer at this index has another element type than the first one.
    DtypeMismatch(usize),
    /// The buffer at this index is not contiguous.
    NonContiguous(usize),
}

} // verus!
