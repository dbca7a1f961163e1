use blocker::grid::{build_rotation_table, coord_to_idx, idx_to_coord};
use blocker::pieces::{bedlam_puzzle, soma_puzzle, PlacedPiece, Puzzle};

fn masks(dim: usize, solution: &[PlacedPiece]) -> Vec<u64> {
    solution
        .iter()
        .map(|p| {
            p.cubes()
                .iter()
                .fold(0u64, |m, &(x, y, z)| m | (1u64 << coord_to_idx(dim, x, y, z)))
        })
        .collect()
}

#[test]
fn test_solution_count() {
    let solutions = soma_puzzle().solve(None);
    assert_eq!(solutions.len(), 240);
}

#[test]
fn solutions_are_exact_covers() {
    let puzzle = soma_puzzle();
    let solutions = puzzle.solve(None);
    for solution in &solutions {
        let ms = masks(3, solution);
        let all = ms.iter().fold(0u64, |a, m| a | m);
        assert_eq!(all, (1u64 << 27) - 1);
        for i in 0..ms.len() {
            for j in i + 1..ms.len() {
                assert_eq!(ms[i] & ms[j], 0);
            }
        }
        let mut indices: Vec<usize> = solution.iter().map(|p| p.piece_index).collect();
        indices.sort();
        assert_eq!(indices, vec![0, 1, 2, 3, 4, 5, 6]);
    }
}

#[test]
fn solutions_have_distinct_keys() {
    let puzzle = soma_puzzle();
    let solutions = puzzle.solve(None);
    let mut keys: Vec<Vec<u8>> = solutions.iter().map(|s| puzzle.canonical_key(s)).collect();
    keys.sort();
    keys.dedup();
    assert_eq!(keys.len(), 240);
}

#[test]
fn cap_stops_the_search() {
    let puzzle = soma_puzzle();
    assert_eq!(puzzle.solve(Some(5)).len(), 5);
    assert_eq!(puzzle.solve(Some(1)).len(), 1);
    // the cap is checked after a solution is recorded
    assert_eq!(puzzle.solve(Some(0)).len(), 1);
    assert_eq!(puzzle.solve(Some(1000)).len(), 240);
}

#[test]
fn capped_search_is_a_prefix_of_the_full_one() {
    let puzzle = soma_puzzle();
    let all = puzzle.solve(None);
    let some = puzzle.solve(Some(7));
    for (a, b) in all.iter().zip(some.iter()) {
        assert_eq!(puzzle.canonical_key(a), puzzle.canonical_key(b));
    }
}

#[test]
fn rotating_a_solution_keeps_its_key() {
    let puzzle = soma_puzzle();
    let solutions = puzzle.solve(Some(3));
    let table = build_rotation_table(3);
    for solution in &solutions {
        let key = puzzle.canonical_key(solution);
        for rot in 0..24 {
            let rotated: Vec<PlacedPiece> = solution
                .iter()
                .map(|p| {
                    let mut q = *p;
                    for c in 0..p.cube_count as usize {
                        let (x, y, z) = p.positions[c];
                        let dest = table[rot][coord_to_idx(3, x, y, z)] as usize;
                        q.positions[c] = idx_to_coord(3, dest);
                    }
                    q
                })
                .collect();
            assert_eq!(puzzle.canonical_key(&rotated), key, "rotation {rot}");
        }
    }
}

#[test]
fn mirrored_solution_with_swapped_chiral_pair_keeps_its_key() {
    let puzzle = soma_puzzle();
    let solutions = puzzle.solve(Some(3));
    for solution in &solutions {
        let mirrored: Vec<PlacedPiece> = solution
            .iter()
            .map(|p| {
                let mut q = *p;
                q.piece_index = match p.piece_index {
                    4 => 6,
                    6 => 4,
                    other => other,
                };
                for c in 0..p.cube_count as usize {
                    let (x, y, z) = p.positions[c];
                    q.positions[c] = (2 - x, y, z);
                }
                q
            })
            .collect();
        assert_eq!(puzzle.canonical_key(&mirrored), puzzle.canonical_key(solution));
    }
}

#[test]
fn two_by_two_cube_of_two_slabs() {
    // two 2x2x1 slabs fill a 2x2x2 cube in one way up to symmetry
    let slab = vec![(0, 0, 0), (1, 0, 0), (0, 1, 0), (1, 1, 0)];
    let puzzle = Puzzle::new(2, 8, 2, vec![slab.clone(), slab], None).unwrap();
    let solutions = puzzle.solve(None);
    assert_eq!(solutions.len(), 1);
    assert_eq!(solutions[0].len(), 2);
}

#[test]
fn unsolvable_puzzle_has_no_solutions() {
    // three cubes cannot fill eight cells
    let puzzle = Puzzle::new(2, 8, 1, vec![vec![(0, 0, 0), (1, 0, 0), (2, 0, 0)]], None).unwrap();
    assert!(puzzle.solve(None).is_empty());
}

#[test]
fn single_cube_puzzle() {
    let puzzle = Puzzle::new(1, 1, 1, vec![vec![(0, 0, 0)]], None).unwrap();
    let solutions = puzzle.solve(None);
    assert_eq!(solutions.len(), 1);
    assert_eq!(solutions[0][0].cubes(), &[(0, 0, 0)]);
}

#[test]
fn bedlam_preset_is_valid() {
    let puzzle = bedlam_puzzle();
    assert_eq!(puzzle.dim, 4);
    assert_eq!(puzzle.pieces.len(), 13);
    assert!(puzzle.chiral_pair.is_none());
    let total: usize = puzzle.pieces.iter().map(|p| p.len()).sum();
    assert_eq!(total, 64);
}

#[test]
fn pieces_fill_the_lowest_empty_cell_in_order() {
    let puzzle = soma_puzzle();
    for solution in &puzzle.solve(None) {
        let ms = masks(3, solution);
        let mut occupied = 0u64;
        for m in &ms {
            let lowest = occupied.trailing_ones();
            assert!(m & (1u64 << lowest) != 0);
            occupied |= m;
        }
    }
}

#[test]
fn two_runs_give_the_same_list() {
    let puzzle = soma_puzzle();
    let a = puzzle.solve(None);
    let b = puzzle.solve(None);
    assert_eq!(a.len(), b.len());
    for (x, y) in a.iter().zip(b.iter()) {
        assert_eq!(puzzle.canonical_key(x), puzzle.canonical_key(y));
        for (p, q) in x.iter().zip(y.iter()) {
            assert_eq!(p.piece_index, q.piece_index);
            assert_eq!(p.cubes(), q.cubes());
        }
    }
}
