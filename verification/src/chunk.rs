//! Dense chunk storage: a fixed-size, N-dimensional block of per-cell
//! values with bounds-checked reads and writes through the coordinate
//! codec, and a lazy, restartable iterator over every cell in ascending
//! flat-index order.

use vstd::prelude::*;
use vstd::arithmetic::power::{pow, lemma_pow_increases};
use vstd::arithmetic::div_mod::lemma_fundamental_div_mod;
use vstd::arithmetic::mul::lemma_mul_is_commutative;
use crate::TerrainError;
use crate::codec::{
    coord_in_bounds, lin_index, delin_coord, linearize, delinearize, lemma_lin_index_bounds,
    lemma_delin_of_lin,
};

verus! {

/// True when `w` is a power of two.
pub open spec fn is_pow2(w: nat) -> bool
    decreases w,
{
    if w == 0 {
        false
    } else if w == 1 {
        true
    } else {
        w % 2 == 0 && is_pow2(w / 2)
    }
}

/// A sequence of `n` zero-valued cells: the contents of a fresh chunk.
pub open spec fn zero_cells(n: int) -> Seq<u8> {
    Seq::new(n as nat, |i: int| 0u8)
}

/// Runtime check for the power-of-two width constraint, for callers
/// whose width arrives as configuration data.
pub fn width_is_pow2(w: usize) -> (b: bool)
    ensures
        b == is_pow2(w as nat),
{
    if w == 0 {
        return false;
    }
    let mut v: usize = w;
    while v > 1 && v % 2 == 0
        invariant
            v >= 1,
            is_pow2(w as nat) == is_pow2(v as nat),
        decreases v,
    {
        v = v / 2;
    }
    v == 1
}

/// Runtime validation of a chunk configuration, without allocating
/// anything: true exactly when the width is a power of two, there is at
/// least one axis, and `width^dims` fits in `usize`.
pub fn chunk_config_ok(width: usize, dims: usize) -> (ok: bool)
    ensures
        ok == (is_pow2(width as nat) && dims >= 1 && pow(width as int, dims as nat) <= usize::MAX),
{
    if !width_is_pow2(width) || dims == 0 {
        return false;
    }
    let mut size: usize = 1;
    let mut k: usize = 0;
    proof {
        reveal(pow);
    }
    while k < dims
        invariant
            k <= dims,
            width >= 1,
            dims >= 1,
            is_pow2(width as nat),
            size == pow(width as int, k as nat),
        decreases dims - k,
    {
        proof {
            reveal(pow);
            assert(pow(width as int, (k + 1) as nat) == width * pow(width as int, k as nat));
        }
        if size > usize::MAX / width {
            proof {
                let w = width as int;
                let q = (usize::MAX as int) / w;
                lemma_fundamental_div_mod(usize::MAX as int, w);
                assert(w * size > usize::MAX) by (nonlinear_arith)
                    requires
                        w >= 1,
                        size >= q + 1,
                        usize::MAX == w * q + (usize::MAX as int) % w,
                        0 <= (usize::MAX as int) % w < w,
                ;
                lemma_pow_increases(width as nat, (k + 1) as nat, dims as nat);
            }
            return false;
        }
        proof {
            let w = width as int;
            let q = (usize::MAX as int) / w;
            lemma_fundamental_div_mod(usize::MAX as int, w);
            assert(size * w <= usize::MAX) by (nonlinear_arith)
                requires
                    w >= 1,
                    0 <= size <= q,
                    usize::MAX == w * q + (usize::MAX as int) % w,
                    0 <= (usize::MAX as int) % w,
            ;
            lemma_mul_is_commutative(size as int, w);
            assert(size * width == pow(width as int, (k + 1) as nat));
        }
        size = size * width;
        k = k + 1;
    }
    true
}

/// The minimal read-only capability over chunk-shaped data: anything
/// that can be sampled at an N-dimensional coordinate. Code that only
/// reads cells can be written against this narrower interface; `Chunk`
/// implements it and offers the full write/iterate surface on top.
pub trait Sampleable {
    /// Side width of the sampled coordinate space.
    spec fn sample_width(&self) -> usize;

    /// Number of axes of the sampled coordinate space.
    spec fn sample_dims(&self) -> usize;

    /// The sampled contents, in flat row-major order.
    spec fn sample_cells(&self) -> Seq<u8>;

    /// When sampling this value is meaningful.
    spec fn sample_wf(&self) -> bool;

    /// Returns the element of data found at the coordinates given by
    /// `pos`, or `IndexOutOfRange` when a component of `pos` is not
    /// below the width.
    fn sample(&self, pos: &Vec<usize>) -> (r: Result<u8, TerrainError>)
        requires
            self.sample_wf(),
            pos@.len() == self.sample_dims(),
        ensures
            match r {
                Ok(v) => coord_in_bounds(pos@, self.sample_width()) && v
                    == self.sample_cells()[lin_index(pos@, self.sample_width())],
                Err(e) => !coord_in_bounds(pos@, self.sample_width()) && e
                    == TerrainError::IndexOutOfRange,
            },
    ;
}

/// A contiguous, `dims`-dimensional block of cell values with equal side
/// width on every axis. The backing buffer always holds exactly
/// `width^dims` cells, addressed through the row-major codec.
pub struct Chunk {
    width: usize,
    dims: usize,
    data: Vec<u8>,
}

impl Chunk {
    /// Side width of the chunk (equal on every axis).
    pub closed spec fn spec_width(&self) -> usize {
        self.width
    }

    /// Number of axes of the chunk's coordinate space.
    pub closed spec fn spec_dims(&self) -> usize {
        self.dims
    }

    /// The cell values, in flat storage order.
    pub closed spec fn cells(&self) -> Seq<u8> {
        self.data@
    }

    /// Total number of cells: `width^dims`.
    pub open spec fn size(&self) -> int {
        pow(self.spec_width() as int, self.spec_dims() as nat)
    }

    /// Structural invariant: a power-of-two width, at least one axis,
    /// and a backing buffer of exactly `width^dims` cells.
    pub open spec fn wf(&self) -> bool {
        &&& is_pow2(self.spec_width() as nat)
        &&& self.spec_width() >= 1
        &&& self.spec_dims() >= 1
        &&& self.size() <= usize::MAX
        &&& self.cells().len() == self.size()
    }

    #[verifier::when_used_as_spec(spec_width)]
    pub fn width(&self) -> (w: usize)
        ensures
            w == self.spec_width(),
    {
        self.width
    }

    #[verifier::when_used_as_spec(spec_dims)]
    pub fn dims(&self) -> (n: usize)
        ensures
            n == self.spec_dims(),
    {
        self.dims
    }

    /// Number of cells actually stored.
    pub fn len(&self) -> (n: usize)
        ensures
            n == self.cells().len(),
    {
        self.data.len()
    }

    /// Creates a zero-initialized chunk. Zero is the canonical
    /// empty/unset cell value.
    pub fn new(width: usize, dims: usize) -> (c: Chunk)
        requires
            is_pow2(width as nat),
            dims >= 1,
            pow(width as int, dims as nat) <= usize::MAX,
        ensures
            c.wf(),
            c.spec_width() == width,
            c.spec_dims() == dims,
            c.cells() == zero_cells(pow(width as int, dims as nat)),
    {
        let mut size: usize = 1;
        let mut k: usize = 0;
        proof {
            reveal(pow);
        }
        while k < dims
            invariant
                k <= dims,
                width >= 1,
                pow(width as int, dims as nat) <= usize::MAX,
                size == pow(width as int, k as nat),
            decreases dims - k,
        {
            proof {
                reveal(pow);
                assert(pow(width as int, (k + 1) as nat) == width * pow(width as int, k as nat));
                lemma_pow_increases(width as nat, (k + 1) as nat, dims as nat);
                assert(pow(width as int, (k + 1) as nat) <= usize::MAX);
                lemma_mul_is_commutative(size as int, width as int);
                assert(size * width == pow(width as int, (k + 1) as nat));
            }
            size = size * width;
            k = k + 1;
        }
        let mut data: Vec<u8> = Vec::new();
        let mut j: usize = 0;
        while j < size
            invariant
                j <= size,
                data@.len() == j,
                forall|i: int| 0 <= i < j ==> data@[i] == 0u8,
            decreases size - j,
        {
            data.push(0u8);
            j = j + 1;
        }
        proof {
            assert(data@ =~= zero_cells(pow(width as int, dims as nat)));
        }
        Chunk { width, dims, data }
    }

    /// Creates a zero-initialized chunk after checking the configuration
    /// at run time: `None` exactly when the width is not a power of two,
    /// the dimension is zero, or `width^dims` does not fit in `usize`.
    pub fn try_new(width: usize, dims: usize) -> (r: Option<Chunk>)
        ensures
            match r {
                Some(c) => {
                    &&& is_pow2(width as nat)
                    &&& dims >= 1
                    &&& pow(width as int, dims as nat) <= usize::MAX
                    &&& c.wf()
                    &&& c.spec_width() == width
                    &&& c.spec_dims() == dims
                    &&& c.cells() == zero_cells(pow(width as int, dims as nat))
                },
                None => !(is_pow2(width as nat) && dims >= 1 && pow(width as int, dims as nat)
                    <= usize::MAX),
            },
    {
        if chunk_config_ok(width, dims) {
            Some(Chunk::new(width, dims))
        } else {
            None
        }
    }

    /// Stores `val` at coordinate `pos`, leaving every other cell
    /// unchanged, or fails with `IndexOutOfRange` (and leaves the chunk
    /// untouched) when a component of `pos` is not below the width.
    pub fn write(&mut self, pos: &Vec<usize>, val: u8) -> (r: Result<(), TerrainError>)
        requires
            old(self).wf(),
            pos@.len() == old(self).spec_dims(),
        ensures
            final(self).wf(),
            final(self).spec_width() == old(self).spec_width(),
            final(self).spec_dims() == old(self).spec_dims(),
            match r {
                Ok(u) => coord_in_bounds(pos@, old(self).spec_width()) && final(self).cells()
                    == old(self).cells().update(lin_index(pos@, old(self).spec_width()), val),
                Err(e) => !coord_in_bounds(pos@, old(self).spec_width()) && e
                    == TerrainError::IndexOutOfRange && final(self).cells() == old(self).cells(),
            },
    {
        if !pos_in_bounds(pos, self.width) {
            return Err(TerrainError::IndexOutOfRange);
        }
        let idx = linearize(pos, self.width);
        self.data[idx] = val;
        Ok(())
    }

    /// Starts a fresh pass over all cells. Each call yields an
    /// independent iterator positioned at flat index 0, so iteration is
    /// restartable and never consumes or mutates the chunk.
    pub fn iter<'a>(&'a self) -> (it: ChunkIterator<'a>)
        ensures
            it.target() == *self,
            it.cursor() == 0,
            0 <= it.cursor(),
    {
        ChunkIterator { chunk: self, index: 0 }
    }
}

impl Sampleable for Chunk {
    open spec fn sample_width(&self) -> usize {
        self.spec_width()
    }

    open spec fn sample_dims(&self) -> usize {
        self.spec_dims()
    }

    open spec fn sample_cells(&self) -> Seq<u8> {
        self.cells()
    }

    open spec fn sample_wf(&self) -> bool {
        self.wf()
    }

    /// Reads the cell at coordinate `pos` through the codec, after a
    /// bounds check on every component.
    fn sample(&self, pos: &Vec<usize>) -> (r: Result<u8, TerrainError>) {
        if !pos_in_bounds(pos, self.width) {
            return Err(TerrainError::IndexOutOfRange);
        }
        let idx = linearize(pos, self.width);
        Ok(self.data[idx])
    }
}

/// Checks every component of `pos` against the width.
pub fn pos_in_bounds(pos: &Vec<usize>, width: usize) -> (b: bool)
    ensures
        b == coord_in_bounds(pos@, width),
{
    let n = pos.len();
    let mut k: usize = 0;
    while k < n
        invariant
            k <= n,
            n == pos@.len(),
            forall|j: int| 0 <= j < k ==> pos@[j] < width,
        decreases n - k,
    {
        if pos[k] >= width {
            return false;
        }
        k = k + 1;
    }
    true
}

/// A lazy pass over every cell of one chunk, yielding `(coordinate,
/// value)` pairs in ascending flat-index order: exactly `size` items,
/// one cell materialized per step.
pub struct ChunkIterator<'a> {
    chunk: &'a Chunk,
    index: usize,
}

impl<'a> ChunkIterator<'a> {
    /// The chunk this iterator walks.
    pub closed spec fn target(&self) -> Chunk {
        *self.chunk
    }

    /// Flat index of the next cell to be yielded.
    pub closed spec fn cursor(&self) -> int {
        self.index as int
    }

    /// Yields the coordinate and value of the cell at the cursor and
    /// advances, or `None` once every cell has been yielded.
    pub fn next(&mut self) -> (r: Option<(Vec<usize>, u8)>)
        requires
            old(self).target().wf(),
        ensures
            final(self).target() == old(self).target(),
            0 <= old(self).cursor(),
            0 <= final(self).cursor(),
            match r {
                Some(p) => {
                    &&& old(self).cursor() < old(self).target().size()
                    &&& final(self).cursor() == old(self).cursor() + 1
                    &&& p.0@ == delin_coord(
                        old(self).cursor(),
                        old(self).target().spec_width(),
                        old(self).target().spec_dims() as nat,
                    )
                    &&& p.0@.len() == old(self).target().spec_dims()
                    &&& coord_in_bounds(p.0@, old(self).target().spec_width())
                    &&& p.1 == old(self).target().cells()[old(self).cursor()]
                },
                None => old(self).cursor() >= old(self).target().size() && *final(self) == *old(
                    self,
                ),
            },
    {
        if self.index >= self.chunk.data.len() {
            None
        } else {
            let pos = delinearize(self.index, self.chunk.width, self.chunk.dims);
            let val = self.chunk.data[self.index];
            self.index = self.index + 1;
            Some((pos, val))
        }
    }
}

/// Law: a freshly created chunk holds the zero value at every in-bounds
/// coordinate, so sampling any cell of it yields zero.
pub proof fn lemma_fresh_chunk_is_zero(c: Chunk, pos: Seq<usize>)
    requires
        c.wf(),
        c.cells() == zero_cells(c.size()),
        pos.len() == c.spec_dims(),
        coord_in_bounds(pos, c.spec_width()),
    ensures
        c.cells()[lin_index(pos, c.spec_width())] == 0,
{
    lemma_lin_index_bounds(pos, c.spec_width());
}

/// Law: writing `v` at an in-bounds coordinate `c1` places `v` at that
/// coordinate's cell and leaves the cell of every other coordinate `c2`
/// unchanged, because distinct in-bounds coordinates linearize to
/// distinct indices.
pub proof fn lemma_write_read_roundtrip(
    cells: Seq<u8>,
    width: usize,
    c1: Seq<usize>,
    c2: Seq<usize>,
    v: u8,
)
    requires
        width >= 1,
        c1.len() == c2.len(),
        coord_in_bounds(c1, width),
        coord_in_bounds(c2, width),
        cells.len() == pow(width as int, c1.len()),
    ensures
        cells.update(lin_index(c1, width), v)[lin_index(c1, width)] == v,
        c1 != c2 ==> cells.update(lin_index(c1, width), v)[lin_index(c2, width)] == cells[lin_index(
            c2,
            width,
        )],
{
    lemma_lin_index_bounds(c1, width);
    lemma_lin_index_bounds(c2, width);
    if c1 != c2 && lin_index(c1, width) == lin_index(c2, width) {
        lemma_delin_of_lin(c1, width);
        lemma_delin_of_lin(c2, width);
    }
}

} // verus!
