use hgt_stitch::compose::{compose_tiles, CompositeError, Compositor, Step};
use hgt_stitch::config::Config;
use hgt_stitch::geometry::TileGeometry;

/// A tile of side `side` whose cell `(r, c)` holds the bytes `[tag, r * side + c]`.
fn tile(tag: u8, side: usize) -> Vec<u8> {
    let mut t = Vec::new();
    for r in 0..side {
        for c in 0..side {
            t.push(tag);
            t.push((r * side + c) as u8);
        }
    }
    t
}

fn tile_row(t: &[u8], side: usize, r: usize) -> Vec<u8> {
    t[r * side * 2..(r + 1) * side * 2].to_vec()
}

#[test]
fn two_by_two_tiles_interleave() {
    let g = TileGeometry { tile_grid_side: 2, unit_side: 2 };
    let tiles = vec![
        vec![0xA, 0xA, 0xA, 0xA, 0xB, 0xB, 0xB, 0xB],
        vec![0xC, 0xC, 0xC, 0xC, 0xD, 0xD, 0xD, 0xD],
        vec![0xE, 0xE, 0xE, 0xE, 0xF, 0xF, 0xF, 0xF],
        vec![0x1, 0x1, 0x1, 0x1, 0x2, 0x2, 0x2, 0x2],
    ];
    let out = compose_tiles(&tiles, g).unwrap();
    let expected: Vec<u8> = vec![
        0xA, 0xA, 0xA, 0xA, 0xC, 0xC, 0xC, 0xC, //
        0xB, 0xB, 0xB, 0xB, 0xD, 0xD, 0xD, 0xD, //
        0xE, 0xE, 0xE, 0xE, 0x1, 0x1, 0x1, 0x1, //
        0xF, 0xF, 0xF, 0xF, 0x2, 0x2, 0x2, 0x2,
    ];
    assert_eq!(out, expected);
}

#[test]
fn rows_come_in_band_order() {
    let g = TileGeometry { tile_grid_side: 2, unit_side: 2 };
    let tiles: Vec<Vec<u8>> = (0..4).map(|i| tile(i as u8, 2)).collect();
    let out = compose_tiles(&tiles, g).unwrap();
    let mut expected = Vec::new();
    for (t, r) in [(0, 0), (1, 0), (0, 1), (1, 1), (2, 0), (3, 0), (2, 1), (3, 1)] {
        expected.extend(tile_row(&tiles[t], 2, r));
    }
    assert_eq!(out, expected);
    assert_eq!(out.len(), 2 * 2 * 2 * 2 * 2);
}

#[test]
fn three_by_three_grid_of_three_cell_tiles() {
    let g = TileGeometry { tile_grid_side: 3, unit_side: 3 };
    let tiles: Vec<Vec<u8>> = (0..9).map(|i| tile(i as u8, 3)).collect();
    let out = compose_tiles(&tiles, g).unwrap();
    assert_eq!(out.len(), 9 * 9 * 2);
    let mut expected = Vec::new();
    for y in 0..9 {
        for c in 0..3 {
            expected.extend(tile_row(&tiles[(y / 3) * 3 + c], 3, y % 3));
        }
    }
    assert_eq!(out, expected);
}

#[test]
fn single_tile_is_copied() {
    let g = TileGeometry { tile_grid_side: 1, unit_side: 4 };
    let tiles = vec![tile(7, 4)];
    assert_eq!(compose_tiles(&tiles, g).unwrap(), tiles[0]);
}

#[test]
fn empty_tiles_give_an_empty_mosaic() {
    let g = TileGeometry { tile_grid_side: 2, unit_side: 0 };
    let tiles: Vec<Vec<u8>> = vec![Vec::new(); 4];
    assert_eq!(compose_tiles(&tiles, g), Ok(Vec::new()));
}

#[test]
fn truncated_tile_is_a_short_read() {
    let g = TileGeometry { tile_grid_side: 2, unit_side: 2 };
    let mut tiles: Vec<Vec<u8>> = (0..4).map(|i| tile(i as u8, 2)).collect();
    tiles[1].truncate(6);
    assert_eq!(
        compose_tiles(&tiles, g),
        Err(CompositeError::ShortRead { tile_index: 1, row: 1, expected: 4, actual: 2 })
    );
}

#[test]
fn tile_missing_whole_rows_is_a_short_read() {
    let g = TileGeometry { tile_grid_side: 2, unit_side: 2 };
    let mut tiles: Vec<Vec<u8>> = (0..4).map(|i| tile(i as u8, 2)).collect();
    tiles[2].truncate(3);
    assert_eq!(
        compose_tiles(&tiles, g),
        Err(CompositeError::ShortRead { tile_index: 2, row: 2, expected: 4, actual: 3 })
    );
}

#[test]
fn longer_tiles_are_read_only_as_far_as_needed() {
    let g = TileGeometry { tile_grid_side: 1, unit_side: 1 };
    let tiles = vec![vec![1u8, 2, 3, 4]];
    assert_eq!(compose_tiles(&tiles, g), Ok(vec![1u8, 2]));
}

#[test]
fn compositor_steps_in_raster_order() {
    let g = TileGeometry { tile_grid_side: 2, unit_side: 1 };
    let mut c = Compositor::new(g).unwrap();
    let mut steps = Vec::new();
    loop {
        let step = c.next_step();
        steps.push(step);
        match step {
            Step::Read { tile_index, .. } => {
                c.supply(&[tile_index as u8, 0xFF]).unwrap();
            }
            Step::WriteRow => {
                if steps.len() == 3 {
                    assert_eq!(c.row(), &[0u8, 0xFF, 1, 0xFF]);
                } else {
                    assert_eq!(c.row(), &[2u8, 0xFF, 3, 0xFF]);
                }
                c.row_written();
            }
            Step::Done => break,
        }
    }
    assert_eq!(
        steps,
        vec![
            Step::Read { tile_index: 0, row: 0, len: 2 },
            Step::Read { tile_index: 1, row: 0, len: 2 },
            Step::WriteRow,
            Step::Read { tile_index: 2, row: 1, len: 2 },
            Step::Read { tile_index: 3, row: 1, len: 2 },
            Step::WriteRow,
            Step::Done,
        ]
    );
}

#[test]
fn short_chunk_leaves_the_compositor_unchanged() {
    let g = TileGeometry { tile_grid_side: 1, unit_side: 2 };
    let mut c = Compositor::new(g).unwrap();
    assert_eq!(
        c.supply(&[1, 2, 3]),
        Err(CompositeError::ShortRead { tile_index: 0, row: 0, expected: 4, actual: 3 })
    );
    assert_eq!(c.next_step(), Step::Read { tile_index: 0, row: 0, len: 4 });
    assert_eq!(c.row(), &[0u8, 0, 0, 0]);
    c.supply(&[1, 2, 3, 4]).unwrap();
    assert_eq!(c.next_step(), Step::WriteRow);
    assert_eq!(c.row(), &[1u8, 2, 3, 4]);
}

#[test]
fn oversized_geometry_is_refused() {
    assert!(Compositor::new(TileGeometry { tile_grid_side: usize::MAX, unit_side: 1 }).is_none());
    assert!(Compositor::new(TileGeometry { tile_grid_side: 1, unit_side: usize::MAX }).is_none());
    assert!(Compositor::new(TileGeometry { tile_grid_side: 0, unit_side: 0 }).is_some());
}

#[test]
fn empty_grid_is_done_at_once() {
    let c = Compositor::new(TileGeometry { tile_grid_side: 0, unit_side: 5 }).unwrap();
    assert_eq!(c.next_step(), Step::Done);
}

#[test]
fn config_holds_paths() {
    let c = Config::new(vec!["a.hgt".to_string(), "b.hgt".to_string()], "out.hgt".to_string());
    assert_eq!(c.files, vec!["a.hgt".to_string(), "b.hgt".to_string()]);
    assert_eq!(c.result, "out.hgt");
    let d = Config::default();
    assert!(d.files.is_empty());
    assert!(d.result.is_empty());
}
