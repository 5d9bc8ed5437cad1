//! Core of a chunked-terrain engine: a dense, power-of-two-width,
//! N-dimensional chunk of per-cell values with a row-major coordinate
//! codec and a restartable cell iterator; a sparse registry of chunks
//! keyed by grid coordinate with an outdated (needs-remeshing) set; and
//! a mesh extractor that turns a 2D height chunk into vertex and index
//! buffers for a triangulated height field.

use vstd::prelude::*;

pub mod chunk;
pub mod chunkmap;
pub mod codec;
pub mod mesh;

verus! {

/// Failures surfaced by the terrain core.
#[derive(Clone, Copy, Debug, PartialEq, Eq, Structural)]
pub enum TerrainError {
    /// A cell coordinate component outside `[0, width)` was passed to a
    /// read or write.
    IndexOutOfRange,
    /// A chunk's mesh output was requested before any extraction had run
    /// for it (the chunk is absent or still marked outdated).
    UnmeshedAccess,
}

} // verus!
