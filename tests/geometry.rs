use hgt_stitch::geometry::{exact_sqrt, resolve, resolve_grid_side, resolve_unit_side, GeometryError, TileGeometry};

#[test]
fn exact_sqrt_of_squares_and_non_squares() {
    assert_eq!(exact_sqrt(0), Some(0));
    assert_eq!(exact_sqrt(1), Some(1));
    assert_eq!(exact_sqrt(16), Some(4));
    assert_eq!(exact_sqrt(15), None);
    assert_eq!(exact_sqrt(17), None);
    assert_eq!(exact_sqrt(4294967295u64 * 4294967295u64), Some(4294967295));
    assert_eq!(exact_sqrt(u64::MAX), None);
}

#[test]
fn square_counts_resolve() {
    for n in [1usize, 4, 9, 16, 25] {
        let sizes = vec![8u64; n];
        let g = resolve(n, &sizes).unwrap();
        assert_eq!(g.tile_grid_side * g.tile_grid_side, n);
        assert_eq!(g.unit_side, 2);
    }
}

#[test]
fn non_square_counts_fail() {
    for n in [2usize, 3, 5, 8, 10, 15] {
        let sizes = vec![8u64; n];
        assert_eq!(resolve(n, &sizes), Err(GeometryError::NotSquareFileCount { count: n }));
    }
    assert_eq!(resolve_grid_side(7), Err(GeometryError::NotSquareFileCount { count: 7 }));
    assert_eq!(resolve_grid_side(49), Ok(7));
}

#[test]
fn empty_file_list_fails() {
    let sizes: Vec<u64> = Vec::new();
    assert_eq!(resolve(0, &sizes), Err(GeometryError::EmptyFileList));
    assert_eq!(resolve_grid_side(0), Err(GeometryError::EmptyFileList));
}

#[test]
fn twice_square_sizes_are_accepted() {
    for k in [0u64, 1, 2, 3, 100, 1201, 3601] {
        let sizes = vec![2 * k * k];
        let g = resolve(1, &sizes).unwrap();
        assert_eq!(g, TileGeometry { tile_grid_side: 1, unit_side: k as usize });
    }
    assert_eq!(resolve_unit_side(&[2 * 3601 * 3601, 2 * 3601 * 3601]), Ok(3601));
}

#[test]
fn other_sizes_are_not_square() {
    for size in [4u64, 6, 16, 20, 1000] {
        assert_eq!(resolve(1, &[size]), Err(GeometryError::TileNotSquare { index: 0, size }));
    }
}

#[test]
fn odd_sizes_are_not_square() {
    for size in [1u64, 3, 9, 19, 33] {
        assert_eq!(resolve(1, &[size]), Err(GeometryError::TileNotSquare { index: 0, size }));
    }
}

#[test]
fn mixed_unit_sides_are_a_mismatch() {
    assert_eq!(
        resolve(4, &[8, 8, 18, 8]),
        Err(GeometryError::TileSizeMismatch { index: 2, expected: 4, actual: 9 })
    );
    assert_eq!(
        resolve(4, &[18, 8, 8, 2]),
        Err(GeometryError::TileSizeMismatch { index: 1, expected: 9, actual: 4 })
    );
}

#[test]
fn odd_length_after_the_first_is_not_square() {
    assert_eq!(resolve(4, &[8, 8, 8, 9]), Err(GeometryError::TileNotSquare { index: 3, size: 9 }));
    assert_eq!(resolve(4, &[8, 9, 18, 8]), Err(GeometryError::TileNotSquare { index: 1, size: 9 }));
}

#[test]
fn same_cell_count_from_a_different_length_is_a_mismatch() {
    assert_eq!(
        resolve(4, &[32, 32, 32, 8]),
        Err(GeometryError::TileSizeMismatch { index: 3, expected: 16, actual: 4 })
    );
}

#[test]
fn count_is_checked_before_sizes() {
    assert_eq!(resolve(3, &[3, 8, 18]), Err(GeometryError::NotSquareFileCount { count: 3 }));
}

#[test]
fn resolving_twice_gives_the_same_geometry() {
    let sizes = vec![50u64; 9];
    let first = resolve(9, &sizes);
    let second = resolve(9, &sizes);
    assert_eq!(first, second);
    assert_eq!(first, Ok(TileGeometry { tile_grid_side: 3, unit_side: 5 }));
    let bad = vec![50u64, 50, 8, 50];
    assert_eq!(resolve(4, &bad), resolve(4, &bad));
}
