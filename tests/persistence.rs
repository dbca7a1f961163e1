use blocker::persistence::{count, expected_piece_mask, load_all, save};
use blocker::pieces::{soma_puzzle, PlacedPiece};
use blocker::PuzzleOps;

fn same(a: &[Vec<PlacedPiece>], b: &[Vec<PlacedPiece>]) -> bool {
    a.len() == b.len()
        && a.iter().zip(b.iter()).all(|(x, y)| {
            x.len() == y.len()
                && x.iter().zip(y.iter()).all(|(p, q)| p.piece_index == q.piece_index && p.cubes() == q.cubes())
        })
}

#[test]
fn save_then_load_round_trip() {
    let puzzle = soma_puzzle();
    let solutions = puzzle.solve(Some(10));
    let (_, bytes) = save(3, 27, 7, &solutions);
    let loaded = load_all(&bytes, 3, 27, 7).unwrap();
    assert!(same(&loaded, &solutions));
    assert_eq!(count(&bytes, 3, 27, 7), Some(10));
}

#[test]
fn save_then_load_empty_set() {
    let (text, bytes) = save(3, 27, 7, &[]);
    assert_eq!(text, "Found 0 solutions:\n\n");
    assert_eq!(bytes, vec![66, 76, 75, 82, 1, 3, 27, 7, 0, 0, 0, 0]);
    assert_eq!(load_all(&bytes, 3, 27, 7).map(|s| s.len()), Some(0));
    assert_eq!(count(&bytes, 3, 27, 7), Some(0));
}

#[test]
fn save_text_lists_each_solution() {
    let puzzle = soma_puzzle();
    let solutions = puzzle.solve(Some(2));
    let (text, _) = save(3, 27, 7, &solutions);
    let expected = format!(
        "Found 2 solutions:\n\nSolution 1:\n{}\nSolution 2:\n{}\n",
        puzzle.format_solution(&solutions[0]),
        puzzle.format_solution(&solutions[1])
    );
    assert_eq!(text, expected);
}

fn one_solution_file(indices: &[u32]) -> Vec<u8> {
    let mut bytes = vec![66, 76, 75, 82, 1, 3, 27, 7];
    bytes.extend_from_slice(&1u32.to_le_bytes());
    bytes.extend_from_slice(&(indices.len() as u32).to_le_bytes());
    for &i in indices {
        bytes.extend_from_slice(&i.to_le_bytes());
        bytes.extend_from_slice(&1u32.to_le_bytes());
        bytes.extend_from_slice(&[0, 0, 0]);
    }
    bytes
}

#[test]
fn load_rejects_out_of_range_piece_index() {
    assert!(load_all(&one_solution_file(&[0, 1, 2, 3, 4, 5, 6]), 3, 27, 7).is_some());
    assert!(load_all(&one_solution_file(&[0, 1, 2, 3, 4, 5, 7]), 3, 27, 7).is_none());
}

#[test]
fn load_rejects_duplicated_piece_index() {
    assert!(load_all(&one_solution_file(&[0, 1, 2, 3, 4, 5, 5]), 3, 27, 7).is_none());
}

#[test]
fn load_rejects_wrong_piece_count_and_header() {
    assert!(load_all(&one_solution_file(&[0, 1, 2, 3, 4, 5]), 3, 27, 7).is_none());
    let good = one_solution_file(&[0, 1, 2, 3, 4, 5, 6]);
    assert!(load_all(&good, 4, 64, 7).is_none());
    let mut other_version = good.clone();
    other_version[4] = 2;
    assert!(load_all(&other_version, 3, 27, 7).is_none());
    assert_eq!(count(&other_version, 3, 27, 7), None);
}

#[test]
fn load_rejects_out_of_grid_cube_and_truncation() {
    let mut bad = one_solution_file(&[0, 1, 2, 3, 4, 5, 6]);
    let last = bad.len() - 1;
    bad[last] = 3;
    assert!(load_all(&bad, 3, 27, 7).is_none());
    let good = one_solution_file(&[0, 1, 2, 3, 4, 5, 6]);
    assert!(load_all(&good[..good.len() - 1], 3, 27, 7).is_none());
    assert!(load_all(&[], 3, 27, 7).is_none());
}

#[test]
fn legacy_file_without_header() {
    let puzzle = soma_puzzle();
    let solutions = puzzle.solve(Some(3));
    let (_, bytes) = save(3, 27, 7, &solutions);
    let legacy = bytes[8..].to_vec();
    let loaded = load_all(&legacy, 3, 27, 7).unwrap();
    assert!(same(&loaded, &solutions));
    assert_eq!(count(&legacy, 3, 27, 7), Some(3));
}

#[test]
fn puzzle_ops_save_and_load() {
    let puzzle = soma_puzzle();
    let solutions = PuzzleOps::solve(&puzzle, Some(4));
    let (_, bytes) = puzzle.save_solutions(&solutions);
    let loaded = puzzle.load_solutions(&bytes).unwrap();
    assert!(same(&loaded, &solutions));
    assert_eq!(puzzle.count_solutions(&bytes), Some(4));
    assert_eq!(puzzle.num_pieces(), 7);
}

#[test]
fn piece_masks() {
    assert_eq!(expected_piece_mask(7), 0x7f);
    assert_eq!(expected_piece_mask(32), u32::MAX);
    assert_eq!(expected_piece_mask(0), 0);
}
