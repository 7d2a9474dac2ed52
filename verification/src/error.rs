use vstd::prelude::*;

verus! {

/// The ways reading an MDX image can fail. Every construction-time failure is
/// fatal and surfaced from `Mdx::new`; block-decode failures are surfaced per
/// item during iteration.
#[derive(Debug, Clone, Copy, PartialEq, Eq, Structural)]
pub enum MdxError {
    /// A decoder reached the end of its input before completing a field.
    Truncated,
    /// A declared length, count or offset disagrees with the data around it.
    Malformed,
    /// An unknown engine version, compression method or encryption method.
    Unsupported,
    /// The decompressor rejected a block's compressed payload.
    Decompress,
    /// Bytes that must be text are not valid in the declared encoding.
    TextDecoding,
}

} // verus!
