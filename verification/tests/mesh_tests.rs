use terrain_chunks::chunk::{Chunk, Sampleable};
use terrain_chunks::mesh::{extract_mesh, MeshNormal};

#[test]
fn mesh_sizes_for_width_four() {
    let chunk = Chunk::try_new(4, 2).unwrap();
    let mesh = extract_mesh(&chunk);
    assert_eq!(mesh.width, 4);
    assert_eq!(mesh.positions.len(), 16);
    assert_eq!(mesh.normals.len(), 16);
    assert_eq!(mesh.uvs.len(), 16);
    // 6 * (4 - 1)^2 indices
    assert_eq!(mesh.indices.len(), 54);
    // every index addresses one of the 16 vertices
    assert!(mesh.indices.iter().all(|&i| (i as usize) < 16));
}

#[test]
fn mesh_sizes_for_degenerate_widths() {
    // width 1: a single vertex, no quads
    let chunk = Chunk::try_new(1, 2).unwrap();
    let mesh = extract_mesh(&chunk);
    assert_eq!(mesh.positions.len(), 1);
    assert_eq!(mesh.indices.len(), 0);
    // width 2: four vertices, one quad of two triangles
    let chunk = Chunk::try_new(2, 2).unwrap();
    let mesh = extract_mesh(&chunk);
    assert_eq!(mesh.positions.len(), 4);
    assert_eq!(mesh.indices.len(), 6);
}

#[test]
fn quad_winding_is_uniform() {
    // width 2: cells 0=(0,0) 1=(1,0) 2=(0,1) 3=(1,1); the one quad is
    // split into (00, 01, 10) and (10, 01, 11) with the same winding
    let chunk = Chunk::try_new(2, 2).unwrap();
    let mesh = extract_mesh(&chunk);
    assert_eq!(mesh.indices, vec![0, 2, 1, 1, 2, 3]);
    // width 4: first quad of the mesh follows the same pattern
    let chunk = Chunk::try_new(4, 2).unwrap();
    let mesh = extract_mesh(&chunk);
    assert_eq!(&mesh.indices[0..6], &[0, 4, 1, 1, 4, 5]);
    // second quad along the inner axis: base cell (0, 1)
    assert_eq!(&mesh.indices[6..12], &[4, 8, 5, 5, 8, 9]);
}

#[test]
fn vertices_follow_cells_in_index_order() {
    let mut chunk = Chunk::try_new(4, 2).unwrap();
    chunk.write(&vec![1, 2], 200).unwrap();
    chunk.write(&vec![3, 0], 10).unwrap();
    let mesh = extract_mesh(&chunk);
    for i in 0..16usize {
        let v = &mesh.positions[i];
        assert_eq!(v.grid_x, i % 4);
        assert_eq!(v.grid_z, i / 4);
        let t = &mesh.uvs[i];
        assert_eq!(t.u, i % 4);
        assert_eq!(t.v, i / 4);
        assert_eq!(mesh.normals[i], MeshNormal { x: 0, y: 1, z: 0 });
    }
    assert_eq!(mesh.positions[1 + 4 * 2].height, 200);
    assert_eq!(mesh.positions[3].height, 10);
    assert_eq!(mesh.positions[0].height, 0);
}

#[test]
fn width_four_scenario_normalizes_as_expected() {
    // all cells zero, then one cell written to 200: the vertex for
    // coordinate [1, 2] sits at x = 0.25, z = 0.5, y = 200/255
    let mut chunk = Chunk::try_new(4, 2).unwrap();
    chunk.write(&vec![1, 2], 200).unwrap();
    assert_eq!(chunk.sample(&vec![1, 2]), Ok(200));
    assert_eq!(chunk.sample(&vec![0, 0]), Ok(0));
    let mesh = extract_mesh(&chunk);
    assert_eq!(mesh.positions.len(), 16);
    assert_eq!(mesh.indices.len(), 54);
    let v = &mesh.positions[1 + 4 * 2];
    let x = v.grid_x as f32 / mesh.width as f32;
    let z = v.grid_z as f32 / mesh.width as f32;
    let y = v.height as f32 / u8::MAX as f32;
    assert_eq!(x, 0.25);
    assert_eq!(z, 0.5);
    assert_eq!(y, 200.0 / 255.0);
}
