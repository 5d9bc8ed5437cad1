use terrain_chunks::codec::{delinearize, linearize};

#[test]
fn linearize_is_row_major_2d() {
    // index = x + y * width for a width-4 2D chunk
    assert_eq!(linearize(&vec![0, 0], 4), 0);
    assert_eq!(linearize(&vec![1, 0], 4), 1);
    assert_eq!(linearize(&vec![3, 0], 4), 3);
    assert_eq!(linearize(&vec![0, 1], 4), 4);
    assert_eq!(linearize(&vec![1, 2], 4), 9);
    assert_eq!(linearize(&vec![3, 3], 4), 15);
}

#[test]
fn linearize_is_row_major_3d() {
    // index = x + y * w + z * w^2 for a width-16 3D chunk
    assert_eq!(linearize(&vec![0, 0, 0], 16), 0);
    assert_eq!(linearize(&vec![5, 0, 0], 16), 5);
    assert_eq!(linearize(&vec![0, 1, 0], 16), 16);
    assert_eq!(linearize(&vec![0, 0, 1], 16), 256);
    assert_eq!(linearize(&vec![3, 2, 1], 16), 3 + 2 * 16 + 256);
}

#[test]
fn delinearize_inverts_linearize() {
    // every coordinate of the width-4 2D grid round-trips
    for x in 0..4usize {
        for y in 0..4usize {
            let idx = linearize(&vec![x, y], 4);
            assert_eq!(delinearize(idx, 4, 2), vec![x, y]);
        }
    }
}

#[test]
fn linearize_inverts_delinearize() {
    // every index of a width-4 2D grid round-trips
    for i in 0..16usize {
        let c = delinearize(i, 4, 2);
        assert_eq!(c.len(), 2);
        assert!(c[0] < 4 && c[1] < 4);
        assert_eq!(linearize(&c, 4), i);
    }
    // and of a width-2 3D grid
    for i in 0..8usize {
        let c = delinearize(i, 2, 3);
        assert_eq!(c.len(), 3);
        assert_eq!(linearize(&c, 2), i);
    }
}

#[test]
fn delinearize_width_one() {
    assert_eq!(delinearize(0, 1, 3), vec![0, 0, 0]);
}
