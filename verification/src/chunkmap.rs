//! Sparse chunk registry: a mapping from integer chunk-grid coordinates
//! to owned chunks, a set of coordinates whose meshes are outdated and
//! pending a rebuild, and agent (observer) bookkeeping that decides
//! which chunks must be resident around a moving observer.

use vstd::prelude::*;
use vstd::map::*;
use vstd::arithmetic::power::pow;
use vstd::seq_lib::lemma_seq_contains_after_push;
use crate::TerrainError;
use crate::chunk::{Chunk, chunk_config_ok, is_pow2, zero_cells, pos_in_bounds};
use crate::codec::{coord_in_bounds, lin_index};
use crate::mesh::{MeshData, mesh_matches, extract_mesh};

verus! {

/// Integer coordinate of a chunk in the infinite chunk lattice
/// (distinct from in-chunk cell coordinates).
#[derive(Clone, Copy, Debug, PartialEq, Eq, Structural)]
pub struct GridCoord {
    pub x: u32,
    pub y: u32,
    pub z: u32,
}

/// Marker for an external observer whose position drives chunk
/// residency: its last known chunk-grid position, the channel (chunk
/// layer) it belongs to, and its residency radius in chunk-grid units.
#[derive(Clone, Copy, Debug, PartialEq, Eq, Structural)]
pub struct ChunkmapAgent {
    pub previous_position: GridCoord,
    pub channel: u8,
    pub radius: u32,
}

/// True when no two entries of the registry share a grid coordinate.
spec fn keys_unique(s: Seq<(GridCoord, Chunk)>) -> bool {
    forall|k1: int, k2: int| 0 <= k1 < k2 < s.len() ==> s[k1].0 != s[k2].0
}

/// The mathematical content of the registry: grid coordinate to cell
/// contents.
spec fn model_of(s: Seq<(GridCoord, Chunk)>) -> Map<GridCoord, Seq<u8>> {
    Map::new(
        |c: GridCoord| exists|k: int| 0 <= k < s.len() && s[k].0 == c,
        |c: GridCoord|
            s[choose|k: int| 0 <= k < s.len() && s[k].0 == c].1.cells(),
    )
}

/// An entry's coordinate is in the model, mapped to that entry's cells.
proof fn lemma_model_present(s: Seq<(GridCoord, Chunk)>, k: int)
    requires
        keys_unique(s),
        0 <= k < s.len(),
    ensures
        model_of(s).contains_key(s[k].0),
        model_of(s)[s[k].0] == s[k].1.cells(),
{
    let c = s[k].0;
    assert(exists|j: int| 0 <= j < s.len() && s[j].0 == c);
    let j = choose|j: int| 0 <= j < s.len() && s[j].0 == c;
    assert(j == k);
}

/// A coordinate on no entry is not in the model.
proof fn lemma_model_absent(s: Seq<(GridCoord, Chunk)>, c: GridCoord)
    requires
        forall|k: int| 0 <= k < s.len() ==> s[k].0 != c,
    ensures
        !model_of(s).contains_key(c),
{
}

/// Appending an entry with a fresh coordinate inserts it into the model.
proof fn lemma_model_push(s: Seq<(GridCoord, Chunk)>, c: GridCoord, ch: Chunk)
    requires
        keys_unique(s),
        forall|k: int| 0 <= k < s.len() ==> s[k].0 != c,
    ensures
        keys_unique(s.push((c, ch))),
        model_of(s.push((c, ch))) == model_of(s).insert(c, ch.cells()),
{
    let s2 = s.push((c, ch));
    assert(keys_unique(s2)) by {
        assert(forall|k: int| 0 <= k < s.len() ==> s2[k] == s[k]);
    }
    assert_maps_equal!(model_of(s2), model_of(s).insert(c, ch.cells()), d => {
        if d == c {
            lemma_model_present(s2, s.len() as int);
        } else {
            if model_of(s).contains_key(d) {
                let j = choose|j: int| 0 <= j < s.len() && s[j].0 == d;
                lemma_model_present(s, j);
                lemma_model_present(s2, j);
            } else {
                assert(forall|k: int| 0 <= k < s.len() ==> s[k].0 != d);
                assert(forall|k: int| 0 <= k < s2.len() ==> s2[k].0 != d) by {
                    assert(forall|k: int| 0 <= k < s.len() ==> s2[k] == s[k]);
                }
                lemma_model_absent(s2, d);
            }
        }
    });
}

/// Replacing the chunk of entry `k` (moving the entry to the back)
/// updates the model at that entry's coordinate.
proof fn lemma_model_replace(s: Seq<(GridCoord, Chunk)>, k: int, ch: Chunk)
    requires
        keys_unique(s),
        0 <= k < s.len(),
    ensures
        keys_unique(s.remove(k).push((s[k].0, ch))),
        model_of(s.remove(k).push((s[k].0, ch))) == model_of(s).insert(s[k].0, ch.cells()),
{
    let c = s[k].0;
    let s1 = s.remove(k);
    assert(keys_unique(s1)) by {
        assert(forall|j: int| 0 <= j < k ==> s1[j] == s[j]);
        assert(forall|j: int| k <= j < s1.len() ==> s1[j] == s[j + 1]);
    }
    assert(forall|j: int| 0 <= j < s1.len() ==> s1[j].0 != c) by {
        assert(forall|j: int| 0 <= j < k ==> s1[j] == s[j]);
        assert(forall|j: int| k <= j < s1.len() ==> s1[j] == s[j + 1]);
    }
    lemma_model_push(s1, c, ch);
    assert_maps_equal!(model_of(s1.push((c, ch))), model_of(s).insert(c, ch.cells()), d => {
        if d != c {
            if model_of(s).contains_key(d) {
                let j = choose|j: int| 0 <= j < s.len() && s[j].0 == d;
                let j1 = if j < k {
                    j
                } else {
                    j - 1
                };
                assert(s1[j1] == s[j]);
                lemma_model_present(s, j);
                lemma_model_present(s1, j1);
            } else {
                assert(forall|j: int| 0 <= j < s.len() ==> s[j].0 != d);
                assert(forall|j: int| 0 <= j < k ==> s1[j] == s[j]);
                assert(forall|j: int| k <= j < s1.len() ==> s1[j] == s[j + 1]);
                lemma_model_absent(s1, d);
            }
        }
    });
}

/// Removing entry `k` removes its coordinate from the model.
proof fn lemma_model_remove(s: Seq<(GridCoord, Chunk)>, k: int)
    requires
        keys_unique(s),
        0 <= k < s.len(),
    ensures
        keys_unique(s.remove(k)),
        model_of(s.remove(k)) == model_of(s).remove(s[k].0),
{
    let c = s[k].0;
    let s1 = s.remove(k);
    assert(keys_unique(s1)) by {
        assert(forall|j: int| 0 <= j < k ==> s1[j] == s[j]);
        assert(forall|j: int| k <= j < s1.len() ==> s1[j] == s[j + 1]);
    }
    assert_maps_equal!(model_of(s1), model_of(s).remove(c), d => {
        if d != c {
            if model_of(s).contains_key(d) {
                let j = choose|j: int| 0 <= j < s.len() && s[j].0 == d;
                let j1 = if j < k {
                    j
                } else {
                    j - 1
                };
                assert(s1[j1] == s[j]);
                lemma_model_present(s, j);
                lemma_model_present(s1, j1);
            } else {
                assert(forall|j: int| 0 <= j < s.len() ==> s[j].0 != d);
                assert(forall|j: int| 0 <= j < k ==> s1[j] == s[j]);
                assert(forall|j: int| k <= j < s1.len() ==> s1[j] == s[j + 1]);
                lemma_model_absent(s1, d);
            }
        } else {
            assert(forall|j: int| 0 <= j < k ==> s1[j] == s[j] && s[j].0 != c);
            assert(forall|j: int| k <= j < s1.len() ==> s1[j] == s[j + 1] && s[j + 1].0 != c);
            lemma_model_absent(s1, c);
        }
    });
}

/// The sparse chunk registry for one chunk layer. Chunks are created on
/// demand, zero-initialized, and marked outdated on creation; writes go
/// through `ensure_write`; `drain_outdated` and `mesh_outdated` run the
/// remeshing cycle.
pub struct Chunkmap {
    width: usize,
    dims: usize,
    channel: u8,
    chunks: Vec<(GridCoord, Chunk)>,
    outdated: Vec<GridCoord>,
}

impl Chunkmap {
    /// Side width of every chunk in this registry.
    pub closed spec fn spec_width(&self) -> usize {
        self.width
    }

    /// Dimensionality of every chunk in this registry.
    pub closed spec fn spec_dims(&self) -> usize {
        self.dims
    }

    /// The chunk layer this registry serves.
    pub closed spec fn spec_channel(&self) -> u8 {
        self.channel
    }

    /// Cell count of every chunk in this registry: `width^dims`.
    pub open spec fn chunk_size(&self) -> int {
        pow(self.spec_width() as int, self.spec_dims() as nat)
    }

    /// The registry's content: a sparse map from grid coordinate to that
    /// chunk's cells.
    pub closed spec fn chunk_model(&self) -> Map<GridCoord, Seq<u8>> {
        model_of(self.chunks@)
    }

    /// The set of coordinates whose meshes are stale and pending a
    /// rebuild.
    pub closed spec fn outdated_model(&self) -> Set<GridCoord> {
        self.outdated@.to_set()
    }

    /// Structural invariant: valid chunk configuration, well-formed
    /// chunks of that configuration, one entry per coordinate, and no
    /// duplicate outdated marks.
    pub closed spec fn wf(&self) -> bool {
        &&& is_pow2(self.width as nat)
        &&& self.width >= 1
        &&& self.dims >= 1
        &&& pow(self.width as int, self.dims as nat) <= usize::MAX
        &&& keys_unique(self.chunks@)
        &&& (forall|k: int|
            0 <= k < self.chunks@.len() ==> {
                let ch = #[trigger] self.chunks@[k].1;
                ch.wf() && ch.spec_width() == self.width && ch.spec_dims() == self.dims
            })
        &&& self.outdated@.no_duplicates()
    }

    #[verifier::when_used_as_spec(spec_width)]
    pub fn width(&self) -> (w: usize)
        ensures
            w == self.spec_width(),
    {
        self.width
    }

    #[verifier::when_used_as_spec(spec_dims)]
    pub fn dims(&self) -> (n: usize)
        ensures
            n == self.spec_dims(),
    {
        self.dims
    }

    #[verifier::when_used_as_spec(spec_channel)]
    pub fn channel(&self) -> (ch: u8)
        ensures
            ch == self.spec_channel(),
    {
        self.channel
    }

    /// Creates an empty registry for chunks of the given configuration.
    pub fn new(width: usize, dims: usize, channel: u8) -> (m: Chunkmap)
        requires
            is_pow2(width as nat),
            dims >= 1,
            pow(width as int, dims as nat) <= usize::MAX,
        ensures
            m.wf(),
            m.spec_width() == width,
            m.spec_dims() == dims,
            m.spec_channel() == channel,
            m.chunk_model() == Map::<GridCoord, Seq<u8>>::empty(),
            m.outdated_model() == Set::<GridCoord>::empty(),
    {
        let m = Chunkmap { width, dims, channel, chunks: Vec::new(), outdated: Vec::new() };
        proof {
            assert(m.chunk_model() =~= Map::<GridCoord, Seq<u8>>::empty());
            assert(m.outdated_model() =~= Set::<GridCoord>::empty());
        }
        m
    }

    /// Creates an empty registry after checking the chunk configuration
    /// at run time, for callers whose configuration arrives as data.
    pub fn try_new(width: usize, dims: usize, channel: u8) -> (r: Option<Chunkmap>)
        ensures
            match r {
                Some(m) => {
                    &&& is_pow2(width as nat)
                    &&& dims >= 1
                    &&& pow(width as int, dims as nat) <= usize::MAX
                    &&& m.wf()
                    &&& m.spec_width() == width
                    &&& m.spec_dims() == dims
                    &&& m.spec_channel() == channel
                    &&& m.chunk_model() == Map::<GridCoord, Seq<u8>>::empty()
                    &&& m.outdated_model() == Set::<GridCoord>::empty()
                },
                None => !(is_pow2(width as nat) && dims >= 1 && pow(width as int, dims as nat)
                    <= usize::MAX),
            },
    {
        if chunk_config_ok(width, dims) {
            Some(Chunkmap::new(width, dims, channel))
        } else {
            None
        }
    }

    /// Index of the entry holding `c`, if any.
    fn find(&self, c: GridCoord) -> (r: Option<usize>)
        ensures
            match r {
                Some(k) => k < self.chunks@.len() && self.chunks@[k as int].0 == c,
                None => forall|k: int| 0 <= k < self.chunks@.len() ==> self.chunks@[k].0 != c,
            },
    {
        let n = self.chunks.len();
        let mut k: usize = 0;
        while k < n
            invariant
                k <= n,
                n == self.chunks@.len(),
                forall|j: int| 0 <= j < k ==> self.chunks@[j].0 != c,
            decreases n - k,
        {
            if self.chunks[k].0 == c {
                return Some(k);
            }
            k = k + 1;
        }
        None
    }

    /// Whether `c` currently has a chunk.
    pub fn contains(&self, c: GridCoord) -> (b: bool)
        requires
            self.wf(),
        ensures
            b == self.chunk_model().contains_key(c),
    {
        match self.find(c) {
            Some(k) => {
                proof {
                    lemma_model_present(self.chunks@, k as int);
                }
                true
            },
            None => {
                proof {
                    lemma_model_absent(self.chunks@, c);
                }
                false
            },
        }
    }

    /// Whether `c` is currently marked outdated.
    pub fn is_outdated(&self, c: GridCoord) -> (b: bool)
        ensures
            b == self.outdated_model().contains(c),
    {
        let n = self.outdated.len();
        let mut k: usize = 0;
        while k < n
            invariant
                k <= n,
                n == self.outdated@.len(),
                forall|j: int| 0 <= j < k ==> self.outdated@[j] != c,
            decreases n - k,
        {
            if self.outdated[k] == c {
                assert(self.outdated@.contains(c));
                return true;
            }
            k = k + 1;
        }
        assert(!self.outdated@.contains(c));
        false
    }

    /// Idempotently records that the chunk at `c` must be remeshed; the
    /// chunks themselves are untouched.
    pub fn mark_outdated(&mut self, c: GridCoord)
        requires
            old(self).wf(),
        ensures
            final(self).wf(),
            final(self).spec_width() == old(self).spec_width(),
            final(self).spec_dims() == old(self).spec_dims(),
            final(self).spec_channel() == old(self).spec_channel(),
            final(self).chunk_model() == old(self).chunk_model(),
            final(self).outdated_model() == old(self).outdated_model().insert(c),
    {
        if !self.is_outdated(c) {
            let ghost before = self.outdated@;
            self.outdated.push(c);
            proof {
                assert(self.outdated@ =~= before + seq![c]);
                Seq::lemma_to_set_insert_commutes(before, c);
                assert(self.outdated@.no_duplicates()) by {
                    assert(forall|j: int| 0 <= j < before.len() ==> self.outdated@[j] == before[j]);
                    assert(!before.to_set().contains(c));
                    assert forall|j: int| 0 <= j < before.len() implies self.outdated@[j] != c by {
                        assert(before.contains(before[j]));
                    }
                }
                assert(self.chunk_model() =~= old(self).chunk_model());
            }
        } else {
            proof {
                assert(self.outdated_model() =~= old(self).outdated_model().insert(c));
                assert(self.chunk_model() =~= old(self).chunk_model());
            }
        }
    }

    /// Returns the chunk at `c`, creating a zero-initialized one — and
    /// marking `c` outdated — when absent. `created` reports which
    /// happened.
    pub fn ensure(&mut self, c: GridCoord) -> (created: bool)
        requires
            old(self).wf(),
        ensures
            final(self).wf(),
            final(self).spec_width() == old(self).spec_width(),
            final(self).spec_dims() == old(self).spec_dims(),
            final(self).spec_channel() == old(self).spec_channel(),
            created == !old(self).chunk_model().contains_key(c),
            final(self).chunk_model().contains_key(c),
            !created ==> final(self).chunk_model() == old(self).chunk_model()
                && final(self).outdated_model() == old(self).outdated_model(),
            created ==> final(self).chunk_model() == old(self).chunk_model().insert(
                c,
                zero_cells(old(self).chunk_size()),
            ) && final(self).outdated_model() == old(self).outdated_model().insert(c),
    {
        match self.find(c) {
            Some(k) => {
                proof {
                    lemma_model_present(self.chunks@, k as int);
                }
                false
            },
            None => {
                proof {
                    lemma_model_absent(self.chunks@, c);
                }
                let ch = Chunk::new(self.width, self.dims);
                proof {
                    lemma_model_push(self.chunks@, c, ch);
                }
                self.chunks.push((c, ch));
                proof {
                    assert(self.wf());
                    assert(self.chunk_model() == old(self).chunk_model().insert(
                        c,
                        zero_cells(old(self).chunk_size()),
                    ));
                    assert(self.chunk_model().contains_key(c)) by {
                        lemma_model_present(self.chunks@, self.chunks@.len() - 1);
                    }
                }
                self.mark_outdated(c);
                true
            },
        }
    }

    /// Read-only access to the chunk at `c`, if present.
    pub fn get_chunk(&self, c: GridCoord) -> (r: Option<&Chunk>)
        requires
            self.wf(),
        ensures
            match r {
                Some(ch) => {
                    &&& self.chunk_model().contains_key(c)
                    &&& ch.wf()
                    &&& ch.spec_width() == self.spec_width()
                    &&& ch.spec_dims() == self.spec_dims()
                    &&& ch.cells() == self.chunk_model()[c]
                },
                None => !self.chunk_model().contains_key(c),
            },
    {
        match self.find(c) {
            Some(k) => {
                proof {
                    lemma_model_present(self.chunks@, k as int);
                }
                Some(&self.chunks[k].1)
            },
            None => {
                proof {
                    lemma_model_absent(self.chunks@, c);
                }
                None
            },
        }
    }

    /// Returns every pending outdated coordinate — each exactly once, in
    /// unspecified order — and leaves the outdated set empty. The chunks
    /// themselves are untouched.
    pub fn drain_outdated(&mut self) -> (drained: Vec<GridCoord>)
        requires
            old(self).wf(),
        ensures
            final(self).wf(),
            final(self).spec_width() == old(self).spec_width(),
            final(self).spec_dims() == old(self).spec_dims(),
            final(self).spec_channel() == old(self).spec_channel(),
            final(self).chunk_model() == old(self).chunk_model(),
            final(self).outdated_model() == Set::<GridCoord>::empty(),
            drained@.no_duplicates(),
            drained@.to_set() == old(self).outdated_model(),
    {
        let drained = self.outdated.split_off(0);
        proof {
            assert(drained@ =~= old(self).outdated@);
            assert(self.outdated@ =~= Seq::<GridCoord>::empty());
            assert(self.outdated_model() =~= Set::<GridCoord>::empty());
            assert(self.chunk_model() =~= old(self).chunk_model());
        }
        drained
    }

    /// Handles a cell mutation request: ensures the chunk at `c` exists
    /// (creating a zero-initialized one, marked outdated, when absent)
    /// and stores `val` at cell coordinate `pos` within it. Fails with
    /// `IndexOutOfRange` — leaving the registry untouched — exactly when
    /// a component of `pos` is not below the chunk width. A write to an
    /// existing chunk does not mark it: callers mark explicitly after
    /// mutating.
    pub fn ensure_write(&mut self, c: GridCoord, pos: &Vec<usize>, val: u8) -> (r: Result<
        (),
        TerrainError,
    >)
        requires
            old(self).wf(),
            pos@.len() == old(self).spec_dims(),
        ensures
            final(self).wf(),
            final(self).spec_width() == old(self).spec_width(),
            final(self).spec_dims() == old(self).spec_dims(),
            final(self).spec_channel() == old(self).spec_channel(),
            match r {
                Ok(u) => coord_in_bounds(pos@, old(self).spec_width()) && {
                    let prior = if old(self).chunk_model().contains_key(c) {
                        old(self).chunk_model()[c]
                    } else {
                        zero_cells(old(self).chunk_size())
                    };
                    &&& final(self).chunk_model() == old(self).chunk_model().insert(
                        c,
                        prior.update(lin_index(pos@, old(self).spec_width()), val),
                    )
                    &&& final(self).outdated_model() == (if old(self).chunk_model().contains_key(c) {
                        old(self).outdated_model()
                    } else {
                        old(self).outdated_model().insert(c)
                    })
                },
                Err(e) => {
                    &&& e == TerrainError::IndexOutOfRange
                    &&& !coord_in_bounds(pos@, old(self).spec_width())
                    &&& final(self).chunk_model() == old(self).chunk_model()
                    &&& final(self).outdated_model() == old(self).outdated_model()
                },
            },
    {
        if !pos_in_bounds(pos, self.width) {
            proof {
                assert(self.chunk_model() =~= old(self).chunk_model());
                assert(self.outdated_model() =~= old(self).outdated_model());
            }
            return Err(TerrainError::IndexOutOfRange);
        }
        self.ensure(c);
        let k = match self.find(c) {
            Some(k) => k,
            None => {
                proof {
                    lemma_model_absent(self.chunks@, c);
                    assert(false);
                }
                0
            },
        };
        proof {
            lemma_model_present(self.chunks@, k as int);
        }
        let ghost mid = *self;
        let mut entry = self.chunks.remove(k);
        let res = entry.1.write(pos, val);
        proof {
            assert(res is Ok);
        }
        proof {
            lemma_model_replace(mid.chunks@, k as int, entry.1);
        }
        self.chunks.push(entry);
        proof {
            assert(self.chunks@ == mid.chunks@.remove(k as int).push(
                (mid.chunks@[k as int].0, entry.1),
            ));
            assert(self.wf()) by {
                assert(forall|j: int|
                    0 <= j < k ==> self.chunks@[j] == mid.chunks@[j]);
                assert(forall|j: int|
                    k <= j < self.chunks@.len() - 1 ==> self.chunks@[j] == mid.chunks@[j + 1]);
                assert(self.chunks@.last() == (c, entry.1));
            }
        }
        Ok(())
    }

    /// The mesh of the chunk at `c`, available only once the chunk
    /// exists and its mesh is current: `UnmeshedAccess` when no chunk is
    /// resident at `c` or `c` is still marked outdated, rather than
    /// stale or default geometry.
    pub fn mesh_of(&self, c: GridCoord) -> (r: Result<MeshData, TerrainError>)
        requires
            self.wf(),
            self.spec_dims() == 2,
            self.chunk_size() <= u32::MAX,
        ensures
            match r {
                Ok(m) => {
                    &&& self.chunk_model().contains_key(c)
                    &&& !self.outdated_model().contains(c)
                    &&& mesh_matches(m, self.chunk_model()[c], self.spec_width())
                },
                Err(e) => e == TerrainError::UnmeshedAccess && (!self.chunk_model().contains_key(c)
                    || self.outdated_model().contains(c)),
            },
    {
        if self.is_outdated(c) {
            return Err(TerrainError::UnmeshedAccess);
        }
        match self.find(c) {
            Some(k) => {
                proof {
                    lemma_model_present(self.chunks@, k as int);
                }
                Ok(extract_mesh(&self.chunks[k].1))
            },
            None => {
                proof {
                    lemma_model_absent(self.chunks@, c);
                }
                Err(TerrainError::UnmeshedAccess)
            },
        }
    }
}

/// Distance between `a` and `b` along one axis.
pub open spec fn abs_diff(a: u32, b: u32) -> int {
    if a >= b {
        a - b
    } else {
        b - a
    }
}

/// Chebyshev distance between two grid coordinates: the largest
/// per-axis distance, so the set of coordinates within a radius is a
/// cube around the center.
pub open spec fn cheb_dist(a: GridCoord, b: GridCoord) -> int {
    let dx = abs_diff(a.x, b.x);
    let dy = abs_diff(a.y, b.y);
    let dz = abs_diff(a.z, b.z);
    if dx >= dy && dx >= dz {
        dx
    } else if dy >= dz {
        dy
    } else {
        dz
    }
}

/// The residency rule: a chunk must stay loaded for an observer at
/// `center` exactly when it lies within the observer's radius.
pub open spec fn in_radius(c: GridCoord, center: GridCoord, radius: u32) -> bool {
    cheb_dist(c, center) <= radius
}

/// Computes the Chebyshev distance between two grid coordinates.
pub fn chebyshev_distance(a: GridCoord, b: GridCoord) -> (d: u32)
    ensures
        d == cheb_dist(a, b),
{
    let dx = if a.x >= b.x {
        a.x - b.x
    } else {
        b.x - a.x
    };
    let dy = if a.y >= b.y {
        a.y - b.y
    } else {
        b.y - a.y
    };
    let dz = if a.z >= b.z {
        a.z - b.z
    } else {
        b.z - a.z
    };
    let mut d = dx;
    if dy > d {
        d = dy;
    }
    if dz > d {
        d = dz;
    }
    d
}

/// What an agent's move means for residency: the chunks that newly fall
/// within its radius (to load) and those that newly fall outside it (to
/// evict, at the caller's discretion).
pub struct ResidencyDecision {
    pub load: Vec<GridCoord>,
    pub evict: Vec<GridCoord>,
}

/// The inclusive bounds of the coordinate interval within `radius` of
/// `center` along one axis, clamped to the `u32` lattice.
fn axis_range(center: u32, radius: u32) -> (r: (u32, u32))
    ensures
        forall|q: u32| (r.0 <= q && q <= r.1) <==> abs_diff(q, center) <= radius,
        r.0 <= center && center <= r.1,
{
    let lo = if center >= radius {
        center - radius
    } else {
        0
    };
    let hi = if center <= u32::MAX - radius {
        center + radius
    } else {
        u32::MAX
    };
    (lo, hi)
}

/// Collects every coordinate within `radius` of `center` but not within
/// `radius` of `other`, each exactly once.
fn coords_near_excluding(center: GridCoord, other: GridCoord, radius: u32) -> (v: Vec<GridCoord>)
    ensures
        forall|c: GridCoord|
            #[trigger] v@.contains(c) <==> (in_radius(c, center, radius) && !in_radius(
                c,
                other,
                radius,
            )),
        v@.no_duplicates(),
{
    let (xs, xe) = axis_range(center.x, radius);
    let (ys, ye) = axis_range(center.y, radius);
    let (zs, ze) = axis_range(center.z, radius);
    let mut v: Vec<GridCoord> = Vec::new();
    let mut cx: u64 = xs as u64;
    while cx <= xe as u64
        invariant
            xs as u64 <= cx <= xe as u64 + 1,
            ys <= ye,
            zs <= ze,
            forall|q: u32| (xs <= q && q <= xe) <==> abs_diff(q, center.x) <= radius,
            forall|q: u32| (ys <= q && q <= ye) <==> abs_diff(q, center.y) <= radius,
            forall|q: u32| (zs <= q && q <= ze) <==> abs_diff(q, center.z) <= radius,
            forall|c: GridCoord|
                #[trigger] v@.contains(c) ==> in_radius(c, center, radius) && !in_radius(
                    c,
                    other,
                    radius,
                ) && (c.x as int) < cx,
            forall|c: GridCoord|
                in_radius(c, center, radius) && !in_radius(c, other, radius) && (c.x as int) < cx
                    ==> #[trigger] v@.contains(c),
            v@.no_duplicates(),
        decreases xe as u64 + 1 - cx,
    {
        let mut cy: u64 = ys as u64;
        while cy <= ye as u64
            invariant
                xs as u64 <= cx <= xe as u64,
                ys as u64 <= cy <= ye as u64 + 1,
                zs <= ze,
                forall|q: u32| (xs <= q && q <= xe) <==> abs_diff(q, center.x) <= radius,
                forall|q: u32| (ys <= q && q <= ye) <==> abs_diff(q, center.y) <= radius,
                forall|q: u32| (zs <= q && q <= ze) <==> abs_diff(q, center.z) <= radius,
                forall|c: GridCoord|
                    #[trigger] v@.contains(c) ==> in_radius(c, center, radius) && !in_radius(
                        c,
                        other,
                        radius,
                    ) && ((c.x as int) < cx || ((c.x as int) == cx && (c.y as int) < cy)),
                forall|c: GridCoord|
                    in_radius(c, center, radius) && !in_radius(c, other, radius) && (c.x as int)
                        < cx ==> #[trigger] v@.contains(c),
                forall|c: GridCoord|
                    in_radius(c, center, radius) && !in_radius(c, other, radius) && (c.x as int)
                        == cx && (c.y as int) < cy ==> #[trigger] v@.contains(c),
                v@.no_duplicates(),
            decreases ye as u64 + 1 - cy,
        {
            let mut cz: u64 = zs as u64;
            while cz <= ze as u64
                invariant
                    xs as u64 <= cx <= xe as u64,
                    ys as u64 <= cy <= ye as u64,
                    zs as u64 <= cz <= ze as u64 + 1,
                    forall|q: u32| (xs <= q && q <= xe) <==> abs_diff(q, center.x) <= radius,
                    forall|q: u32| (ys <= q && q <= ye) <==> abs_diff(q, center.y) <= radius,
                    forall|q: u32| (zs <= q && q <= ze) <==> abs_diff(q, center.z) <= radius,
                    forall|c: GridCoord|
                        #[trigger] v@.contains(c) ==> in_radius(c, center, radius) && !in_radius(
                            c,
                            other,
                            radius,
                        ) && ((c.x as int) < cx || ((c.x as int) == cx && ((c.y as int) < cy || ((
                        c.y as int) == cy && (c.z as int) < cz)))),
                    forall|c: GridCoord|
                        in_radius(c, center, radius) && !in_radius(c, other, radius) && (c.x as int)
                            < cx ==> #[trigger] v@.contains(c),
                    forall|c: GridCoord|
                        in_radius(c, center, radius) && !in_radius(c, other, radius) && (c.x as int)
                            == cx && (c.y as int) < cy ==> #[trigger] v@.contains(c),
                    forall|c: GridCoord|
                        in_radius(c, center, radius) && !in_radius(c, other, radius) && (c.x as int)
                            == cx && (c.y as int) == cy && (c.z as int) < cz
                            ==> #[trigger] v@.contains(c),
                    v@.no_duplicates(),
                decreases ze as u64 + 1 - cz,
            {
                let c = GridCoord { x: cx as u32, y: cy as u32, z: cz as u32 };
                let ghost vpre = v@;
                if chebyshev_distance(c, other) > radius {
                    v.push(c);
                    proof {
                        broadcast use lemma_seq_contains_after_push;

                        assert(in_radius(c, center, radius));
                        assert(!vpre.contains(c));
                        assert(v@.no_duplicates()) by {
                            assert(forall|j: int| 0 <= j < vpre.len() ==> v@[j] == vpre[j]);
                            assert forall|j: int| 0 <= j < vpre.len() implies v@[j] != c by {
                                assert(vpre.contains(vpre[j]));
                            }
                        }
                    }
                }
                cz = cz + 1;
            }
            cy = cy + 1;
        }
        cx = cx + 1;
    }
    v
}

/// The default residency strategy for an agent that moved from `prev`
/// to `curr`: load what is within the radius around `curr` but was not
/// around `prev`; evict what was within the radius around `prev` but no
/// longer is around `curr`.
pub fn decide_residency(prev: GridCoord, curr: GridCoord, radius: u32) -> (d: ResidencyDecision)
    ensures
        forall|c: GridCoord|
            #[trigger] d.load@.contains(c) <==> (in_radius(c, curr, radius) && !in_radius(
                c,
                prev,
                radius,
            )),
        forall|c: GridCoord|
            #[trigger] d.evict@.contains(c) <==> (in_radius(c, prev, radius) && !in_radius(
                c,
                curr,
                radius,
            )),
        d.load@.no_duplicates(),
        d.evict@.no_duplicates(),
{
    let load = coords_near_excluding(curr, prev, radius);
    let evict = coords_near_excluding(prev, curr, radius);
    ResidencyDecision { load, evict }
}

/// The grid coordinates of a remeshing pass's output, in order.
pub open spec fn drained_coords(out: Seq<(GridCoord, MeshData)>) -> Seq<GridCoord> {
    out.map_values(|p: (GridCoord, MeshData)| p.0)
}

impl Chunkmap {
    /// Runs one whole remeshing cycle, as the meshing pass of the engine
    /// does: processes every outdated coordinate exactly once — creating
    /// a zero-initialized chunk where none is resident — extracts each
    /// chunk's mesh afresh, and leaves the outdated set empty. Chunks
    /// that were already resident keep their cells.
    pub fn mesh_outdated(&mut self) -> (out: Vec<(GridCoord, MeshData)>)
        requires
            old(self).wf(),
            old(self).spec_dims() == 2,
            old(self).chunk_size() <= u32::MAX,
        ensures
            final(self).wf(),
            final(self).spec_width() == old(self).spec_width(),
            final(self).spec_dims() == old(self).spec_dims(),
            final(self).spec_channel() == old(self).spec_channel(),
            final(self).outdated_model() == Set::<GridCoord>::empty(),
            forall|c: GridCoord|
                old(self).chunk_model().contains_key(c) ==> #[trigger] final(self).chunk_model().contains_key(c) && final(self).chunk_model()[c] == old(self).chunk_model()[c],
            forall|c: GridCoord|
                #[trigger] final(self).chunk_model().contains_key(c) ==> old(self).chunk_model().contains_key(c) || old(self).outdated_model().contains(c),
            forall|c: GridCoord|
                old(self).outdated_model().contains(c) ==> #[trigger] final(self).chunk_model().contains_key(c) && final(self).chunk_model()[c] == (if old(self).chunk_model().contains_key(c) {
                    old(self).chunk_model()[c]
                } else {
                    zero_cells(old(self).chunk_size())
                }),
            drained_coords(out@).no_duplicates(),
            drained_coords(out@).to_set() == old(self).outdated_model(),
            forall|i: int|
                0 <= i < out@.len() ==> final(self).chunk_model().contains_key(
                    (#[trigger] out@[i]).0,
                ) && mesh_matches(out@[i].1, final(self).chunk_model()[out@[i].0], old(self).spec_width()),
    {
        let ghost orig = *self;
        let ghost l = self.outdated@.len() as int;
        let mut out: Vec<(GridCoord, MeshData)> = Vec::new();
        proof {
            assert(self.outdated@ =~= orig.outdated@.take(l));
        }
        while self.outdated.len() > 0
            invariant
                self.wf(),
                orig.wf(),
                self.spec_width() == orig.spec_width(),
                self.spec_dims() == orig.spec_dims(),
                self.spec_dims() == 2,
                self.spec_channel() == orig.spec_channel(),
                self.chunk_size() == orig.chunk_size(),
                orig.chunk_size() <= u32::MAX,
                l == orig.outdated@.len(),
                out@.len() <= l,
                self.outdated@ == orig.outdated@.take(l - out@.len()),
                forall|i: int| 0 <= i < out@.len() ==> (#[trigger] out@[i]).0 == orig.outdated@[l
                    - 1 - i],
                forall|c2: GridCoord|
                    orig.chunk_model().contains_key(c2) ==> #[trigger] self.chunk_model().contains_key(
                        c2,
                    ) && self.chunk_model()[c2] == orig.chunk_model()[c2],
                forall|c2: GridCoord|
                    #[trigger] self.chunk_model().contains_key(c2) ==> orig.chunk_model().contains_key(
                        c2,
                    ) || exists|i: int| 0 <= i < out@.len() && (#[trigger] out@[i]).0 == c2,
                forall|i: int|
                    0 <= i < out@.len() ==> self.chunk_model().contains_key(
                        (#[trigger] out@[i]).0,
                    ) && self.chunk_model()[out@[i].0] == (if orig.chunk_model().contains_key(
                        out@[i].0,
                    ) {
                        orig.chunk_model()[out@[i].0]
                    } else {
                        zero_cells(orig.chunk_size())
                    }) && mesh_matches(out@[i].1, self.chunk_model()[out@[i].0], orig.spec_width()),
            decreases self.outdated@.len(),
        {
            let ghost t = out@.len() as int;
            let ghost pre = *self;
            let ghost out_pre = out@;
            let copt = self.outdated.pop();
            let c = match copt {
                Some(c) => c,
                None => {
                    proof {
                        assert(false);
                    }
                    GridCoord { x: 0, y: 0, z: 0 }
                },
            };
            proof {
                assert(c == orig.outdated@[l - 1 - t]);
                assert(self.outdated@ =~= orig.outdated@.take(l - t - 1));
                assert(orig.outdated@.no_duplicates());
                assert forall|i: int| 0 <= i < t implies (#[trigger] out_pre[i]).0 != c by {
                    assert(out_pre[i].0 == orig.outdated@[l - 1 - i]);
                }
            }
            let k = match self.find(c) {
                Some(k) => {
                    proof {
                        lemma_model_present(self.chunks@, k as int);
                        assert(self.chunk_model() == pre.chunk_model());
                    }
                    k
                },
                None => {
                    proof {
                        lemma_model_absent(self.chunks@, c);
                    }
                    let ch = Chunk::new(self.width, self.dims);
                    proof {
                        lemma_model_push(self.chunks@, c, ch);
                    }
                    self.chunks.push((c, ch));
                    proof {
                        lemma_model_present(self.chunks@, self.chunks@.len() - 1);
                        assert(self.wf()) by {
                            assert(forall|j: int|
                                0 <= j < pre.chunks@.len() ==> self.chunks@[j] == pre.chunks@[j]);
                        }
                        assert(self.chunk_model() == pre.chunk_model().insert(
                            c,
                            zero_cells(orig.chunk_size()),
                        ));
                        assert(!pre.chunk_model().contains_key(c));
                    }
                    self.chunks.len() - 1
                },
            };
            proof {
                lemma_model_present(self.chunks@, k as int);
            }
            let m = extract_mesh(&self.chunks[k].1);
            out.push((c, m));
            proof {
                assert(out@ =~= out_pre.push((c, m)));
                assert forall|c2: GridCoord| orig.chunk_model().contains_key(
                    c2,
                ) implies #[trigger] self.chunk_model().contains_key(c2) && self.chunk_model()[c2]
                    == orig.chunk_model()[c2] by {
                    assert(pre.chunk_model().contains_key(c2));
                }
                assert forall|c2: GridCoord| #[trigger] self.chunk_model().contains_key(
                    c2,
                ) implies orig.chunk_model().contains_key(c2) || exists|i: int|
                    0 <= i < out@.len() && (#[trigger] out@[i]).0 == c2 by {
                    if pre.chunk_model().contains_key(c2) {
                        if !orig.chunk_model().contains_key(c2) {
                            let j = choose|j: int|
                                0 <= j < out_pre.len() && (#[trigger] out_pre[j]).0 == c2;
                            assert(out@[j].0 == c2);
                        }
                    } else {
                        assert(c2 == c);
                        assert(out@[t].0 == c2);
                    }
                }
                assert forall|i: int| 0 <= i < out@.len() implies self.chunk_model().contains_key(
                    (#[trigger] out@[i]).0,
                ) && self.chunk_model()[out@[i].0] == (if orig.chunk_model().contains_key(
                    out@[i].0,
                ) {
                    orig.chunk_model()[out@[i].0]
                } else {
                    zero_cells(orig.chunk_size())
                }) && mesh_matches(out@[i].1, self.chunk_model()[out@[i].0], orig.spec_width()) by {
                    if i < t {
                        assert(out@[i] == out_pre[i]);
                        assert(out_pre[i].0 != c);
                        assert(pre.chunk_model().contains_key(out_pre[i].0));
                        assert(self.chunk_model()[out_pre[i].0] == pre.chunk_model()[out_pre[i].0]);
                    } else {
                        assert(out@[i] == (c, m));
                        if pre.chunk_model().contains_key(c) {
                            if !orig.chunk_model().contains_key(c) {
                                let j = choose|j: int|
                                    0 <= j < out_pre.len() && (#[trigger] out_pre[j]).0 == c;
                                assert(out_pre[j].0 != c);
                            }
                        } else {
                            if orig.chunk_model().contains_key(c) {
                                assert(pre.chunk_model().contains_key(c));
                            }
                        }
                    }
                }
            }
        }
        proof {
            let n = out@.len() as int;
            assert(n == l);
            assert(self.outdated@ =~= Seq::<GridCoord>::empty());
            assert(self.outdated_model() =~= Set::<GridCoord>::empty());
            let dc = drained_coords(out@);
            assert(dc.len() == l);
            assert(forall|i: int| 0 <= i < l ==> dc[i] == (#[trigger] out@[i]).0);
            assert(dc.no_duplicates()) by {
                assert forall|i: int, j: int| 0 <= i < j < l implies dc[i] != dc[j] by {
                    assert(dc[i] == orig.outdated@[l - 1 - i]);
                    assert(dc[j] == orig.outdated@[l - 1 - j]);
                }
            }
            assert(dc.to_set() =~= orig.outdated_model()) by {
                assert forall|x: GridCoord| dc.to_set().contains(x) implies orig.outdated@.to_set().contains(
                    x,
                ) by {
                    let i = choose|i: int| 0 <= i < dc.len() && dc[i] == x;
                    assert(orig.outdated@[l - 1 - i] == x);
                    assert(orig.outdated@.contains(x));
                }
                assert forall|x: GridCoord| orig.outdated@.to_set().contains(x) implies dc.to_set().contains(
                    x,
                ) by {
                    let i = choose|i: int| 0 <= i < orig.outdated@.len() && orig.outdated@[i] == x;
                    assert(dc[l - 1 - i] == orig.outdated@[l - 1 - (l - 1 - i)]);
                    assert(dc[l - 1 - i] == x);
                    assert(dc.contains(x));
                }
            }
            assert forall|c: GridCoord| #[trigger] self.chunk_model().contains_key(c) implies orig.chunk_model().contains_key(
                c,
            ) || orig.outdated_model().contains(c) by {
                if !orig.chunk_model().contains_key(c) {
                    let i = choose|i: int| 0 <= i < out@.len() && (#[trigger] out@[i]).0 == c;
                    assert(out@[i].0 == orig.outdated@[l - 1 - i]);
                    assert(orig.outdated@.contains(c));
                }
            }
            assert forall|c: GridCoord| orig.outdated_model().contains(c) implies #[trigger] self.chunk_model().contains_key(
                c,
            ) && self.chunk_model()[c] == (if orig.chunk_model().contains_key(c) {
                orig.chunk_model()[c]
            } else {
                zero_cells(orig.chunk_size())
            }) by {
                let i = choose|i: int| 0 <= i < orig.outdated@.len() && orig.outdated@[i] == c;
                assert(out@[l - 1 - i].0 == orig.outdated@[l - 1 - (l - 1 - i)]);
                assert(out@[l - 1 - i].0 == c);
            }
        }
        out
    }
}

impl Chunkmap {
    /// Records an agent's move to `pos` and applies the load half of the
    /// default residency decision: every chunk that newly falls within
    /// the agent's radius becomes resident (created zero-initialized
    /// when absent) and is marked outdated, so the next meshing pass
    /// picks it up; already-resident chunks keep their cells. Eviction
    /// is returned to the caller rather than applied: the eviction
    /// trigger is a policy decision outside this core.
    pub fn update_agent(&mut self, agent: &mut ChunkmapAgent, pos: GridCoord) -> (d:
        ResidencyDecision)
        requires
            old(self).wf(),
        ensures
            final(self).wf(),
            final(self).spec_width() == old(self).spec_width(),
            final(self).spec_dims() == old(self).spec_dims(),
            final(self).spec_channel() == old(self).spec_channel(),
            final(agent).previous_position == pos,
            final(agent).channel == old(agent).channel,
            final(agent).radius == old(agent).radius,
            forall|c: GridCoord|
                #[trigger] d.load@.contains(c) <==> (in_radius(c, pos, old(agent).radius)
                    && !in_radius(c, old(agent).previous_position, old(agent).radius)),
            forall|c: GridCoord|
                #[trigger] d.evict@.contains(c) <==> (in_radius(
                    c,
                    old(agent).previous_position,
                    old(agent).radius,
                ) && !in_radius(c, pos, old(agent).radius)),
            d.load@.no_duplicates(),
            d.evict@.no_duplicates(),
            forall|c: GridCoord|
                #[trigger] d.load@.contains(c) ==> final(self).chunk_model().contains_key(c),
            forall|c: GridCoord|
                old(self).chunk_model().contains_key(c) ==> #[trigger] final(self).chunk_model().contains_key(
                    c,
                ) && final(self).chunk_model()[c] == old(self).chunk_model()[c],
            forall|c: GridCoord|
                #[trigger] final(self).chunk_model().contains_key(c) ==> old(self).chunk_model().contains_key(
                    c,
                ) || d.load@.contains(c),
            forall|c: GridCoord|
                #[trigger] final(self).chunk_model().contains_key(c) && !old(self).chunk_model().contains_key(
                    c,
                ) ==> final(self).chunk_model()[c] == zero_cells(old(self).chunk_size()),
            forall|c: GridCoord|
                #[trigger] d.load@.contains(c) ==> final(self).outdated_model().contains(c),
            forall|c: GridCoord|
                old(self).outdated_model().contains(c) ==> #[trigger] final(self).outdated_model().contains(
                    c,
                ),
            forall|c: GridCoord|
                #[trigger] final(self).outdated_model().contains(c) ==> old(self).outdated_model().contains(
                    c,
                ) || d.load@.contains(c),
    {
        let d = decide_residency(agent.previous_position, pos, agent.radius);
        let ghost orig = *self;
        let mut i: usize = 0;
        while i < d.load.len()
            invariant
                self.wf(),
                orig.wf(),
                self.spec_width() == orig.spec_width(),
                self.spec_dims() == orig.spec_dims(),
                self.spec_channel() == orig.spec_channel(),
                self.chunk_size() == orig.chunk_size(),
                i <= d.load@.len(),
                forall|c2: GridCoord|
                    orig.chunk_model().contains_key(c2) ==> #[trigger] self.chunk_model().contains_key(
                        c2,
                    ) && self.chunk_model()[c2] == orig.chunk_model()[c2],
                forall|c2: GridCoord|
                    #[trigger] self.chunk_model().contains_key(c2) ==> orig.chunk_model().contains_key(
                        c2,
                    ) || d.load@.contains(c2),
                forall|c2: GridCoord|
                    #[trigger] self.chunk_model().contains_key(c2) && !orig.chunk_model().contains_key(
                        c2,
                    ) ==> self.chunk_model()[c2] == zero_cells(orig.chunk_size()),
                forall|j: int|
                    0 <= j < i ==> self.chunk_model().contains_key(#[trigger] d.load@[j]),
                forall|j: int|
                    0 <= j < i ==> self.outdated_model().contains(#[trigger] d.load@[j]),
                forall|c2: GridCoord|
                    orig.outdated_model().contains(c2) ==> #[trigger] self.outdated_model().contains(
                        c2,
                    ),
                forall|c2: GridCoord|
                    #[trigger] self.outdated_model().contains(c2) ==> orig.outdated_model().contains(
                        c2,
                    ) || d.load@.contains(c2),
            decreases d.load@.len() - i,
        {
            let c = d.load[i];
            let ghost pre = *self;
            proof {
                assert(d.load@.contains(c));
            }
            self.ensure(c);
            self.mark_outdated(c);
            proof {
                assert forall|c2: GridCoord| orig.chunk_model().contains_key(
                    c2,
                ) implies #[trigger] self.chunk_model().contains_key(c2) && self.chunk_model()[c2]
                    == orig.chunk_model()[c2] by {
                    assert(pre.chunk_model().contains_key(c2));
                }
                assert forall|c2: GridCoord| #[trigger] self.chunk_model().contains_key(
                    c2,
                ) implies orig.chunk_model().contains_key(c2) || d.load@.contains(c2) by {
                    if c2 != c {
                        assert(pre.chunk_model().contains_key(c2));
                    }
                }
                assert forall|c2: GridCoord| #[trigger] self.chunk_model().contains_key(c2)
                    && !orig.chunk_model().contains_key(c2) implies self.chunk_model()[c2]
                    == zero_cells(orig.chunk_size()) by {
                    if pre.chunk_model().contains_key(c2) {
                        assert(self.chunk_model()[c2] == pre.chunk_model()[c2]);
                    }
                }
                assert forall|j: int| 0 <= j < i + 1 implies self.chunk_model().contains_key(
                    #[trigger] d.load@[j],
                ) by {
                    if j < i {
                        assert(pre.chunk_model().contains_key(d.load@[j]));
                    }
                }
                assert forall|j: int| 0 <= j < i + 1 implies self.outdated_model().contains(
                    #[trigger] d.load@[j],
                ) by {
                    if j < i {
                        assert(pre.outdated_model().contains(d.load@[j]));
                    }
                }
                assert forall|c2: GridCoord| orig.outdated_model().contains(
                    c2,
                ) implies #[trigger] self.outdated_model().contains(c2) by {
                    assert(pre.outdated_model().contains(c2));
                }
                assert forall|c2: GridCoord| #[trigger] self.outdated_model().contains(
                    c2,
                ) implies orig.outdated_model().contains(c2) || d.load@.contains(c2) by {
                    if c2 != c {
                        assert(pre.outdated_model().contains(c2));
                    }
                }
            }
            i = i + 1;
        }
        agent.previous_position = pos;
        d
    }

    /// Evicts the chunk at `c`, freeing its storage and clearing any
    /// outdated mark, so the coordinate returns to the absent state.
    /// When to evict is the caller's policy; the registry only carries
    /// it out. Reports whether a chunk was resident at `c`.
    pub fn evict(&mut self, c: GridCoord) -> (was: bool)
        requires
            old(self).wf(),
        ensures
            final(self).wf(),
            final(self).spec_width() == old(self).spec_width(),
            final(self).spec_dims() == old(self).spec_dims(),
            final(self).spec_channel() == old(self).spec_channel(),
            was == old(self).chunk_model().contains_key(c),
            final(self).chunk_model() == old(self).chunk_model().remove(c),
            final(self).outdated_model() == old(self).outdated_model().remove(c),
    {
        let ghost pre = *self;
        let n = self.outdated.len();
        let mut j: usize = 0;
        let mut found_mark = false;
        while j < n && !found_mark
            invariant
                j <= n,
                n == self.outdated@.len(),
                *self == pre,
                !found_mark ==> forall|i: int| 0 <= i < j ==> self.outdated@[i] != c,
                found_mark ==> j < n && self.outdated@[j as int] == c,
            decreases n - j + (if found_mark {
                0int
            } else {
                1int
            }),
        {
            if self.outdated[j] == c {
                found_mark = true;
            } else {
                j = j + 1;
            }
        }
        if found_mark {
            self.outdated.remove(j);
            proof {
                assert(pre.outdated@.no_duplicates());
                assert(self.outdated@.no_duplicates()) by {
                    assert(forall|i: int| 0 <= i < j ==> self.outdated@[i] == pre.outdated@[i]);
                    assert(forall|i: int|
                        j <= i < self.outdated@.len() ==> self.outdated@[i] == pre.outdated@[i
                            + 1]);
                }
                assert(self.outdated@.to_set() =~= pre.outdated@.to_set().remove(c)) by {
                    assert(forall|i: int| 0 <= i < j ==> self.outdated@[i] == pre.outdated@[i]);
                    assert(forall|i: int|
                        j <= i < self.outdated@.len() ==> self.outdated@[i] == pre.outdated@[i
                            + 1]);
                    assert forall|x: GridCoord| self.outdated@.contains(x) implies
                        pre.outdated@.contains(x) && x != c by {
                        let i = choose|i: int|
                            0 <= i < self.outdated@.len() && self.outdated@[i] == x;
                        if i < j {
                            assert(pre.outdated@[i] == x);
                            if x == c {
                                assert(pre.outdated@[i] == pre.outdated@[j as int]);
                            }
                        } else {
                            assert(pre.outdated@[i + 1] == x);
                            if x == c {
                                assert(pre.outdated@[i + 1] == pre.outdated@[j as int]);
                            }
                        }
                    }
                    assert forall|x: GridCoord| pre.outdated@.contains(x) && x != c implies
                        self.outdated@.contains(x) by {
                        let i = choose|i: int|
                            0 <= i < pre.outdated@.len() && pre.outdated@[i] == x;
                        if i < j {
                            assert(self.outdated@[i] == x);
                        } else if i == j {
                        } else {
                            assert(self.outdated@[i - 1] == x);
                        }
                    }
                }
            }
        } else {
            proof {
                assert(!pre.outdated@.contains(c));
                assert(self.outdated@.to_set() =~= pre.outdated@.to_set().remove(c));
            }
        }
        match self.find(c) {
            Some(k) => {
                proof {
                    lemma_model_present(self.chunks@, k as int);
                    lemma_model_remove(self.chunks@, k as int);
                }
                let ghost mid = self.chunks@;
                self.chunks.remove(k);
                proof {
                    assert(self.wf()) by {
                        assert(forall|i: int| 0 <= i < k ==> self.chunks@[i] == mid[i]);
                        assert(forall|i: int|
                            k <= i < self.chunks@.len() ==> self.chunks@[i] == mid[i + 1]);
                    }
                }
                true
            },
            None => {
                proof {
                    lemma_model_absent(self.chunks@, c);
                    assert(self.chunk_model() =~= pre.chunk_model().remove(c));
                }
                false
            },
        }
    }
}

} // verus!
