use blocker::grid::{build_rotation_table, coord_to_idx, idx_to_coord};

const NUM_ROTATIONS: usize = 24;

#[test]
fn test_identity_rotation_is_unchanged_3x3x3() {
    let table = build_rotation_table(3);
    for cell in 0..27 {
        assert_eq!(
            table[0][cell], cell as u8,
            "Identity rotation should not move cell {cell}"
        );
    }
}

#[test]
fn test_identity_rotation_is_unchanged_4x4x4() {
    let table = build_rotation_table(4);
    for cell in 0..64 {
        assert_eq!(
            table[0][cell], cell as u8,
            "Identity rotation should not move cell {cell}"
        );
    }
}

#[test]
fn test_rotations_are_permutations_3x3x3() {
    let table = build_rotation_table(3);
    for rot in 0..NUM_ROTATIONS {
        let mut seen = [false; 27];
        for src in 0..27 {
            let dest = table[rot][src] as usize;
            assert!(dest < 27, "Rotation {rot} maps cell {src} to out-of-bounds {dest}");
            assert!(!seen[dest], "Rotation {rot} maps two cells to {dest}");
            seen[dest] = true;
        }
    }
}

#[test]
fn test_rotations_are_permutations_4x4x4() {
    let table = build_rotation_table(4);
    for rot in 0..NUM_ROTATIONS {
        let mut seen = [false; 64];
        for src in 0..64 {
            let dest = table[rot][src] as usize;
            assert!(dest < 64, "Rotation {rot} maps cell {src} to out-of-bounds {dest}");
            assert!(!seen[dest], "Rotation {rot} maps two cells to {dest}");
            seen[dest] = true;
        }
    }
}

#[test]
fn test_coordinate_conversion_roundtrip_3x3x3() {
    for idx in 0..27 {
        let (x, y, z) = idx_to_coord(3, idx);
        let recovered = coord_to_idx(3, x, y, z);
        assert_eq!(recovered, idx, "Roundtrip failed for index {idx}");
    }
}

#[test]
fn test_coordinate_conversion_roundtrip_4x4x4() {
    for idx in 0..64 {
        let (x, y, z) = idx_to_coord(4, idx);
        assert!(
            (x as usize) < 4 && (y as usize) < 4 && (z as usize) < 4,
            "idx_to_coord(4, {idx}) produced out-of-range ({x},{y},{z})"
        );
        let recovered = coord_to_idx(4, x, y, z);
        assert_eq!(recovered, idx, "Roundtrip failed for index {idx}");
    }
}

use blocker::grid::{canonical_key, format_solution, solution_to_grid};
use blocker::pieces::PlacedPiece;

fn piece(index: usize, cubes: &[(i32, i32, i32)]) -> PlacedPiece {
    let mut positions = [(0, 0, 0); 5];
    positions[..cubes.len()].copy_from_slice(cubes);
    PlacedPiece { piece_index: index, positions, cube_count: cubes.len() as u8 }
}

#[test]
fn grid_of_a_solution() {
    let solution = vec![piece(0, &[(0, 0, 0), (1, 0, 0)]), piece(1, &[(1, 1, 1)])];
    let grid = solution_to_grid(2, &solution);
    assert_eq!(grid, vec![1, 0, 0, 0, 1, 0, 0, 2]);
}

#[test]
fn format_of_a_small_solution() {
    let solution = vec![piece(0, &[(0, 0, 0), (1, 0, 0)]), piece(11, &[(1, 1, 1)])];
    let text = format_solution(2, &solution);
    assert_eq!(text, "z=0   z=1 \n..  .C\n11  ..\n");
}

#[test]
fn canonical_key_is_the_smallest_image() {
    // a single piece in the last cell moves to the first cell
    let solution = vec![piece(0, &[(1, 1, 1)])];
    assert_eq!(canonical_key(2, &solution, None), vec![0, 0, 0, 0, 0, 0, 0, 1]);
    let corner = vec![piece(0, &[(0, 0, 0)])];
    assert_eq!(canonical_key(2, &corner, None), canonical_key(2, &solution, None));
}

#[test]
fn canonical_key_swaps_chiral_pair_in_mirror() {
    // piece 0 on the left column, piece 2 beside it; the mirror image puts
    // piece 0's twin (piece 1) on the right column
    let solution = vec![piece(0, &[(0, 0, 0), (0, 1, 0)]), piece(2, &[(1, 0, 0)])];
    let mirrored = vec![piece(1, &[(1, 0, 0), (1, 1, 0)]), piece(2, &[(0, 0, 0)])];
    assert_eq!(canonical_key(2, &mirrored, Some((0, 1))), canonical_key(2, &solution, Some((0, 1))));
    // without the pair the two use different piece ids, so the keys differ
    assert_ne!(canonical_key(2, &mirrored, None), canonical_key(2, &solution, None));
}

#[test]
fn mirror_images_differ_without_chiral_pair() {
    // three pieces along x, y and z from one corner: a handed arrangement
    let solution = vec![piece(0, &[(0, 0, 0)]), piece(1, &[(1, 0, 0)]), piece(2, &[(0, 1, 0)]), piece(3, &[(0, 0, 1)])];
    let mirrored = vec![piece(0, &[(1, 0, 0)]), piece(1, &[(0, 0, 0)]), piece(2, &[(1, 1, 0)]), piece(3, &[(1, 0, 1)])];
    assert_ne!(canonical_key(2, &mirrored, None), canonical_key(2, &solution, None));
}
