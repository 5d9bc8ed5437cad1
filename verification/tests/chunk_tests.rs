use terrain_chunks::chunk::{width_is_pow2, Chunk, Sampleable};
use terrain_chunks::TerrainError;

#[test]
fn pow2_check() {
    assert!(width_is_pow2(1));
    assert!(width_is_pow2(2));
    assert!(width_is_pow2(64));
    assert!(width_is_pow2(128));
    assert!(!width_is_pow2(0));
    assert!(!width_is_pow2(3));
    assert!(!width_is_pow2(6));
    assert!(!width_is_pow2(100));
}

#[test]
fn try_new_rejects_bad_config() {
    assert!(Chunk::try_new(3, 2).is_none());
    assert!(Chunk::try_new(0, 2).is_none());
    assert!(Chunk::try_new(4, 0).is_none());
    assert!(Chunk::try_new(4, 2).is_some());
}

#[test]
fn try_new_rejects_overflowing_size() {
    // width 2^32 squared does not fit in a 64-bit usize
    let width: usize = 1 << 32;
    assert!(Chunk::try_new(width, 2).is_none());
}

#[test]
fn fresh_chunk_is_zero_everywhere() {
    let chunk = Chunk::try_new(4, 2).unwrap();
    assert_eq!(chunk.len(), 16);
    for x in 0..4usize {
        for y in 0..4usize {
            assert_eq!(chunk.sample(&vec![x, y]), Ok(0));
        }
    }
}

#[test]
fn write_then_sample_round_trip() {
    let mut chunk = Chunk::try_new(4, 2).unwrap();
    assert_eq!(chunk.write(&vec![1, 2], 200), Ok(()));
    assert_eq!(chunk.sample(&vec![1, 2]), Ok(200));
    assert_eq!(chunk.sample(&vec![0, 0]), Ok(0));
    // every other cell is untouched
    for x in 0..4usize {
        for y in 0..4usize {
            if (x, y) != (1, 2) {
                assert_eq!(chunk.sample(&vec![x, y]), Ok(0));
            }
        }
    }
}

#[test]
fn out_of_range_coordinates_are_rejected() {
    let mut chunk = Chunk::try_new(4, 2).unwrap();
    assert_eq!(chunk.sample(&vec![4, 0]), Err(TerrainError::IndexOutOfRange));
    assert_eq!(chunk.sample(&vec![0, 4]), Err(TerrainError::IndexOutOfRange));
    assert_eq!(chunk.write(&vec![7, 7], 1), Err(TerrainError::IndexOutOfRange));
    // the failed write changed nothing
    for x in 0..4usize {
        for y in 0..4usize {
            assert_eq!(chunk.sample(&vec![x, y]), Ok(0));
        }
    }
}

#[test]
fn iteration_covers_every_cell_in_order() {
    let mut chunk = Chunk::try_new(4, 2).unwrap();
    chunk.write(&vec![1, 2], 200).unwrap();
    let mut it = chunk.iter();
    let mut count = 0usize;
    let mut seen = vec![false; 16];
    let mut i = 0usize;
    while let Some((pos, val)) = it.next() {
        // ascending linear-index order: component 0 varies fastest
        assert_eq!(pos, vec![i % 4, i / 4]);
        let idx = pos[0] + 4 * pos[1];
        assert!(!seen[idx]);
        seen[idx] = true;
        if pos == vec![1, 2] {
            assert_eq!(val, 200);
        } else {
            assert_eq!(val, 0);
        }
        count += 1;
        i += 1;
    }
    assert_eq!(count, 16);
    assert!(seen.iter().all(|&s| s));
    // exhausted iterator stays exhausted
    assert!(it.next().is_none());
}

#[test]
fn iteration_is_restartable() {
    let mut chunk = Chunk::try_new(4, 2).unwrap();
    chunk.write(&vec![3, 1], 7).unwrap();
    let mut first = Vec::new();
    let mut it = chunk.iter();
    while let Some(pair) = it.next() {
        first.push(pair);
    }
    // a second pass over the unmodified chunk yields the same sequence
    let mut second = Vec::new();
    let mut it2 = chunk.iter();
    while let Some(pair) = it2.next() {
        second.push(pair);
    }
    assert_eq!(first, second);
}

#[test]
fn three_dimensional_chunk_round_trip() {
    let mut chunk = Chunk::try_new(16, 3).unwrap();
    assert_eq!(chunk.len(), 4096);
    assert_eq!(chunk.write(&vec![1, 2, 3], 99), Ok(()));
    assert_eq!(chunk.sample(&vec![1, 2, 3]), Ok(99));
    assert_eq!(chunk.sample(&vec![3, 2, 1]), Ok(0));
    assert_eq!(chunk.sample(&vec![0, 0, 16]), Err(TerrainError::IndexOutOfRange));
}
