use terrain_chunks::chunk::Sampleable;
use terrain_chunks::chunkmap::{
    chebyshev_distance, decide_residency, Chunkmap, ChunkmapAgent, GridCoord,
};
use terrain_chunks::TerrainError;

fn gc(x: u32, y: u32, z: u32) -> GridCoord {
    GridCoord { x, y, z }
}

#[test]
fn registry_config_checks() {
    assert!(Chunkmap::try_new(4, 2, 0).is_some());
    assert!(Chunkmap::try_new(5, 2, 0).is_none());
    assert!(Chunkmap::try_new(4, 0, 0).is_none());
    let map = Chunkmap::try_new(64, 2, 3).unwrap();
    assert_eq!(map.width(), 64);
    assert_eq!(map.dims(), 2);
    assert_eq!(map.channel(), 3);
}

#[test]
fn ensure_creates_zeroed_and_marks_outdated() {
    let mut map = Chunkmap::try_new(4, 2, 0).unwrap();
    let c = gc(0, 0, 0);
    assert!(!map.contains(c));
    assert!(!map.is_outdated(c));
    assert!(map.ensure(c));
    assert!(map.contains(c));
    assert!(map.is_outdated(c));
    let chunk = map.get_chunk(c).unwrap();
    assert_eq!(chunk.sample(&vec![2, 2]), Ok(0));
    // a second ensure finds the chunk and changes nothing
    assert!(!map.ensure(c));
    assert!(map.contains(c));
}

#[test]
fn marking_twice_does_not_duplicate() {
    let mut map = Chunkmap::try_new(4, 2, 0).unwrap();
    let c = gc(1, 2, 0);
    map.mark_outdated(c);
    map.mark_outdated(c);
    map.mark_outdated(c);
    let drained = map.drain_outdated();
    assert_eq!(drained, vec![c]);
    assert!(!map.is_outdated(c));
}

#[test]
fn drain_returns_each_pending_coordinate_exactly_once() {
    // two chunks at grid coordinates (0,0) and (1,0), both marked
    let mut map = Chunkmap::try_new(4, 2, 0).unwrap();
    let a = gc(0, 0, 0);
    let b = gc(1, 0, 0);
    map.mark_outdated(a);
    map.mark_outdated(b);
    let drained = map.drain_outdated();
    assert_eq!(drained.len(), 2);
    assert!(drained.contains(&a));
    assert!(drained.contains(&b));
    // the set is empty afterwards
    assert!(map.drain_outdated().is_empty());
    assert!(!map.is_outdated(a));
    assert!(!map.is_outdated(b));
}

#[test]
fn ensure_write_reaches_cells_and_rejects_bad_coords() {
    let mut map = Chunkmap::try_new(4, 2, 0).unwrap();
    let c = gc(7, 7, 0);
    assert_eq!(map.ensure_write(c, &vec![1, 2], 200), Ok(()));
    assert!(map.contains(c));
    let chunk = map.get_chunk(c).unwrap();
    assert_eq!(chunk.sample(&vec![1, 2]), Ok(200));
    assert_eq!(chunk.sample(&vec![0, 0]), Ok(0));
    assert_eq!(
        map.ensure_write(c, &vec![1, 4], 9),
        Err(TerrainError::IndexOutOfRange)
    );
    // the failed write changed nothing
    let chunk = map.get_chunk(c).unwrap();
    assert_eq!(chunk.sample(&vec![1, 2]), Ok(200));
}

#[test]
fn mesh_access_follows_the_outdated_lifecycle() {
    let mut map = Chunkmap::try_new(4, 2, 0).unwrap();
    let c = gc(0, 0, 0);
    // no chunk yet: nothing to render
    assert_eq!(map.mesh_of(c).err(), Some(TerrainError::UnmeshedAccess));
    map.ensure(c);
    // resident but dirty: still unmeshed
    assert_eq!(map.mesh_of(c).err(), Some(TerrainError::UnmeshedAccess));
    let meshes = map.mesh_outdated();
    assert_eq!(meshes.len(), 1);
    assert_eq!(meshes[0].0, c);
    // clean now: the mesh is available and sized for the whole chunk
    let mesh = map.mesh_of(c).unwrap();
    assert_eq!(mesh.positions.len(), 16);
    assert_eq!(mesh.indices.len(), 54);
}

#[test]
fn mesh_outdated_processes_every_pending_chunk_once() {
    let mut map = Chunkmap::try_new(4, 2, 0).unwrap();
    let a = gc(0, 0, 0);
    let b = gc(1, 0, 0);
    map.ensure_write(a, &vec![1, 2], 200).unwrap();
    map.mark_outdated(a);
    map.mark_outdated(b);
    let meshes = map.mesh_outdated();
    assert_eq!(meshes.len(), 2);
    let coords: Vec<GridCoord> = meshes.iter().map(|p| p.0).collect();
    assert!(coords.contains(&a));
    assert!(coords.contains(&b));
    // chunk b was created on demand, zero-initialized
    assert!(map.contains(b));
    assert_eq!(map.get_chunk(b).unwrap().sample(&vec![0, 0]), Ok(0));
    // chunk a kept its written cell
    assert_eq!(map.get_chunk(a).unwrap().sample(&vec![1, 2]), Ok(200));
    // the height written to a shows up in a's mesh
    for (coord, mesh) in &meshes {
        assert_eq!(mesh.positions.len(), 16);
        assert_eq!(mesh.indices.len(), 54);
        let expected = if *coord == a { 200 } else { 0 };
        assert_eq!(mesh.positions[1 + 4 * 2].height, expected);
    }
    // nothing left to remesh
    assert!(map.mesh_outdated().is_empty());
}

#[test]
fn evicting_returns_a_coordinate_to_absent() {
    let mut map = Chunkmap::try_new(4, 2, 0).unwrap();
    let a = gc(0, 0, 0);
    let b = gc(1, 0, 0);
    map.ensure_write(a, &vec![1, 1], 50).unwrap();
    map.ensure(b);
    // evicting a resident chunk drops its storage and its outdated mark
    assert!(map.evict(a));
    assert!(!map.contains(a));
    assert!(!map.is_outdated(a));
    assert!(map.contains(b));
    assert!(map.is_outdated(b));
    // evicting an absent coordinate reports false and changes nothing
    assert!(!map.evict(a));
    assert!(map.contains(b));
    // a recreated chunk starts from zero again
    map.ensure(a);
    assert_eq!(map.get_chunk(a).unwrap().sample(&vec![1, 1]), Ok(0));
}

#[test]
fn chebyshev_distance_is_the_largest_axis_gap() {
    assert_eq!(chebyshev_distance(gc(0, 0, 0), gc(0, 0, 0)), 0);
    assert_eq!(chebyshev_distance(gc(1, 2, 3), gc(4, 2, 3)), 3);
    assert_eq!(chebyshev_distance(gc(5, 1, 0), gc(2, 9, 1)), 8);
    assert_eq!(chebyshev_distance(gc(0, 0, 7), gc(1, 1, 0)), 7);
}

#[test]
fn residency_decision_tracks_a_small_move() {
    // an agent with radius 1 steps one chunk along x: the plane it left
    // behind is evicted, the plane ahead is loaded
    let d = decide_residency(gc(5, 5, 5), gc(6, 5, 5), 1);
    assert_eq!(d.load.len(), 9);
    assert_eq!(d.evict.len(), 9);
    assert!(d.load.iter().all(|c| c.x == 7));
    assert!(d.evict.iter().all(|c| c.x == 4));
    assert!(d.load.contains(&gc(7, 4, 5)));
    assert!(d.evict.contains(&gc(4, 6, 6)));
    // no move: nothing to do
    let d = decide_residency(gc(5, 5, 5), gc(5, 5, 5), 1);
    assert!(d.load.is_empty());
    assert!(d.evict.is_empty());
}

#[test]
fn update_agent_loads_newly_required_chunks() {
    let mut map = Chunkmap::try_new(4, 2, 0).unwrap();
    let mut agent = ChunkmapAgent {
        previous_position: gc(100, 100, 100),
        channel: 0,
        radius: 1,
    };
    // the agent jumps somewhere far from its previous position: the
    // whole 3x3x3 cube around the new position is loaded
    let d = map.update_agent(&mut agent, gc(5, 5, 5));
    assert_eq!(d.load.len(), 27);
    assert_eq!(agent.previous_position, gc(5, 5, 5));
    for dx in 4..=6u32 {
        for dy in 4..=6u32 {
            for dz in 4..=6u32 {
                assert!(map.contains(gc(dx, dy, dz)));
                assert!(map.is_outdated(gc(dx, dy, dz)));
            }
        }
    }
    assert!(!map.contains(gc(3, 5, 5)));
    // a chunk ahead of the agent already exists and is freshly meshed
    map.ensure(gc(7, 5, 5));
    map.mesh_outdated();
    assert!(!map.is_outdated(gc(7, 5, 5)));
    // stepping one chunk along x loads the next plane; every loaded
    // chunk is marked outdated, the already-resident one included
    let d = map.update_agent(&mut agent, gc(6, 5, 5));
    assert_eq!(d.load.len(), 9);
    assert_eq!(d.evict.len(), 9);
    for dy in 4..=6u32 {
        for dz in 4..=6u32 {
            assert!(map.contains(gc(7, dy, dz)));
            assert!(map.is_outdated(gc(7, dy, dz)));
        }
    }
}
