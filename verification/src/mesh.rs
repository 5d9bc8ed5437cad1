//! Mesh extraction: turns one pass over a 2D height chunk into vertex
//! attribute buffers (positions, upward normals, texture coordinates —
//! one entry per cell) and a triangle index buffer (six indices per
//! interior quad, with one consistent winding for the whole mesh).
//!
//! Positions and texture coordinates are kept as exact integers: a cell
//! at grid `(x, z)` with stored height `h` stands for the world-space
//! point `(x / width, h / 255, z / width)`. The caller that uploads the
//! mesh performs that normalization.

use vstd::prelude::*;
use vstd::arithmetic::power::lemma_square_is_pow2;
use crate::chunk::Chunk;
use crate::codec::lemma_delin_coord_2d;

verus! {

/// One vertex of the height-field surface, as exact grid integers. The
/// world position is `(grid_x / width, height / 255, grid_z / width)`.
#[derive(Clone, Copy, Debug, PartialEq, Eq, Structural)]
pub struct MeshVertex {
    pub grid_x: usize,
    pub grid_z: usize,
    pub height: u8,
}

/// An integer normal vector; the extractor emits the upward unit normal
/// `(0, 1, 0)` for every cell of the flat-shaded height field.
#[derive(Clone, Copy, Debug, PartialEq, Eq, Structural)]
pub struct MeshNormal {
    pub x: i32,
    pub y: i32,
    pub z: i32,
}

/// A texture coordinate as exact grid integers, normalized by the
/// caller the same way as the vertex `x`/`z`.
#[derive(Clone, Copy, Debug, PartialEq, Eq, Structural)]
pub struct MeshUv {
    pub u: usize,
    pub v: usize,
}

/// The buffers produced by one whole-chunk extraction, handed to the
/// rendering collaborator along with the chunk's width for
/// normalization.
pub struct MeshData {
    pub width: usize,
    pub positions: Vec<MeshVertex>,
    pub normals: Vec<MeshNormal>,
    pub uvs: Vec<MeshUv>,
    pub indices: Vec<u32>,
}

/// The six indices of the two triangles covering the quad whose
/// lowest corner is cell `(qx, qz)`, in the mesh's uniform winding.
pub open spec fn quad_indices_at(ind: Seq<u32>, qx: int, qz: int, w: int) -> bool {
    let base = 6 * (qx * (w - 1) + qz);
    &&& ind[base] == qx + w * qz
    &&& ind[base + 1] == qx + w * (qz + 1)
    &&& ind[base + 2] == (qx + 1) + w * qz
    &&& ind[base + 3] == (qx + 1) + w * qz
    &&& ind[base + 4] == qx + w * (qz + 1)
    &&& ind[base + 5] == (qx + 1) + w * (qz + 1)
}

/// What extraction promises of its output for a 2D chunk with the given
/// cells and width: one vertex, normal and texture coordinate per cell
/// in ascending flat-index order, and six indices per interior quad —
/// `width^2` vertices and `6*(width-1)^2` indices in all, every index
/// below `width^2`.
pub open spec fn mesh_matches(m: MeshData, cells: Seq<u8>, width: usize) -> bool {
    let w = width as int;
    &&& m.width == width
    &&& m.positions.len() == w * w
    &&& (forall|i: int|
        0 <= i < w * w ==> (#[trigger] m.positions@[i]) == (MeshVertex {
            grid_x: (i % w) as usize,
            grid_z: (i / w) as usize,
            height: cells[i],
        }))
    &&& m.normals.len() == w * w
    &&& (forall|i: int|
        0 <= i < w * w ==> (#[trigger] m.normals@[i]) == (MeshNormal { x: 0, y: 1, z: 0 }))
    &&& m.uvs.len() == w * w
    &&& (forall|i: int|
        0 <= i < w * w ==> (#[trigger] m.uvs@[i]) == (MeshUv {
            u: (i % w) as usize,
            v: (i / w) as usize,
        }))
    &&& m.indices.len() == 6 * ((w - 1) * (w - 1))
    &&& (forall|qx: int, qz: int|
        0 <= qx < w - 1 && 0 <= qz < w - 1 ==> quad_indices_at(m.indices@, qx, qz, w))
    &&& (forall|k: int| 0 <= k < m.indices@.len() ==> (#[trigger] m.indices@[k]) < w * w)
}

/// Walks every cell of a 2D height chunk once, through the chunk's own
/// iterator, and builds the triangulated height-field surface.
/// Regeneration is whole-chunk: the output depends only on the current
/// cells.
pub fn extract_mesh(chunk: &Chunk) -> (m: MeshData)
    requires
        chunk.wf(),
        chunk.spec_dims() == 2,
        chunk.size() <= u32::MAX,
    ensures
        mesh_matches(m, chunk.cells(), chunk.spec_width()),
{
    let width = chunk.width();
    let size = chunk.len();
    let ghost w = width as int;
    proof {
        lemma_square_is_pow2(w);
    }
    let mut positions: Vec<MeshVertex> = Vec::new();
    let mut normals: Vec<MeshNormal> = Vec::new();
    let mut uvs: Vec<MeshUv> = Vec::new();
    let mut it = chunk.iter();
    let mut i: usize = 0;
    while i < size
        invariant
            chunk.wf(),
            chunk.spec_dims() == 2,
            width == chunk.spec_width(),
            w == chunk.spec_width() as int,
            size == chunk.cells().len(),
            size == w * w,
            chunk.size() == w * w,
            it.target() == *chunk,
            it.cursor() == i,
            i <= size,
            positions@.len() == i,
            normals@.len() == i,
            uvs@.len() == i,
            forall|j: int|
                0 <= j < i ==> (#[trigger] positions@[j]) == (MeshVertex {
                    grid_x: (j % w) as usize,
                    grid_z: (j / w) as usize,
                    height: chunk.cells()[j],
                }),
            forall|j: int|
                0 <= j < i ==> (#[trigger] normals@[j]) == (MeshNormal { x: 0, y: 1, z: 0 }),
            forall|j: int|
                0 <= j < i ==> (#[trigger] uvs@[j]) == (MeshUv {
                    u: (j % w) as usize,
                    v: (j / w) as usize,
                }),
        decreases size - i,
    {
        match it.next() {
            Some(pv) => {
                let (pos, val) = pv;
                proof {
                    lemma_delin_coord_2d(i as int, width);
                }
                let gx = pos[0];
                let gz = pos[1];
                positions.push(MeshVertex { grid_x: gx, grid_z: gz, height: val });
                normals.push(MeshNormal { x: 0, y: 1, z: 0 });
                uvs.push(MeshUv { u: gx, v: gz });
            },
            None => {
                proof {
                    assert(false);
                }
            },
        }
        i = i + 1;
    }
    let mut indices: Vec<u32> = Vec::new();
    let wm1 = width - 1;
    let mut qx: usize = 0;
    while qx < wm1
        invariant
            chunk.wf(),
            w == chunk.spec_width() as int,
            wm1 == w - 1,
            width == chunk.spec_width(),
            w * w <= u32::MAX,
            qx <= wm1,
            indices@.len() == 6 * (qx * wm1),
            forall|a: int, b: int|
                0 <= a < qx && 0 <= b < wm1 ==> quad_indices_at(indices@, a, b, w),
            forall|k: int| 0 <= k < indices@.len() ==> (#[trigger] indices@[k]) < w * w,
        decreases wm1 - qx,
    {
        let mut qz: usize = 0;
        while qz < wm1
            invariant
                chunk.wf(),
                w == chunk.spec_width() as int,
                wm1 == w - 1,
                width == chunk.spec_width(),
                w * w <= u32::MAX,
                qx < wm1,
                qz <= wm1,
                indices@.len() == 6 * (qx * wm1 + qz),
                forall|a: int, b: int|
                    0 <= a < qx && 0 <= b < wm1 ==> quad_indices_at(indices@, a, b, w),
                forall|b: int| 0 <= b < qz ==> quad_indices_at(indices@, qx as int, b, w),
                forall|k: int| 0 <= k < indices@.len() ==> (#[trigger] indices@[k]) < w * w,
            decreases wm1 - qz,
        {
            proof {
                assert((qx + 1) + w * (qz + 1) < w * w && qx + w * (qz + 1) < w * w && (qx + 1) + w
                    * qz < w * w && qx + w * qz < w * w) by (nonlinear_arith)
                    requires
                        0 <= qx < w - 1,
                        0 <= qz < w - 1,
                ;
            }
            let i00 = qx + width * qz;
            let i01 = qx + width * (qz + 1);
            let i10 = (qx + 1) + width * qz;
            let i11 = (qx + 1) + width * (qz + 1);
            let ghost before = indices@;
            indices.push(i00 as u32);
            indices.push(i01 as u32);
            indices.push(i10 as u32);
            indices.push(i10 as u32);
            indices.push(i01 as u32);
            indices.push(i11 as u32);
            proof {
                assert(indices@.len() == 6 * (qx * wm1 + qz) + 6);
                assert(quad_indices_at(indices@, qx as int, qz as int, w));
                assert forall|a: int, b: int|
                    0 <= a < qx && 0 <= b < wm1 implies quad_indices_at(indices@, a, b, w) by {
                    assert(6 * (a * (w - 1) + b) + 6 <= 6 * (qx * (w - 1) + qz))
                        by (nonlinear_arith)
                        requires
                            0 <= a < qx,
                            0 <= b < w - 1,
                            0 <= qz,
                    ;
                    assert(quad_indices_at(before, a, b, w));
                }
                assert forall|b: int| 0 <= b < qz + 1 implies quad_indices_at(
                    indices@,
                    qx as int,
                    b,
                    w,
                ) by {
                    if b < qz {
                        assert(6 * (qx * (w - 1) + b) + 6 <= 6 * (qx * (w - 1) + qz));
                        assert(quad_indices_at(before, qx as int, b, w));
                    }
                }
            }
            qz = qz + 1;
        }
        proof {
            assert(qx * wm1 + wm1 == (qx + 1) * wm1) by (nonlinear_arith);
        }
        qx = qx + 1;
    }
    proof {
        assert(6 * (wm1 * wm1) == 6 * ((w - 1) * (w - 1)));
    }
    MeshData { width, positions, normals, uvs, indices }
}

} // verus!
