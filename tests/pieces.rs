use blocker::pieces::{soma_pieces, PlacedPiece, Puzzle, PuzzleError, COORD_LIMIT};

#[test]
fn new_accepts_soma() {
    let p = Puzzle::new(3, 27, 7, soma_pieces(), Some((4, 6))).unwrap();
    assert_eq!(p.dim, 3);
    assert_eq!(p.pieces.len(), 7);
    assert_eq!(p.chiral_pair, Some((4, 6)));
}

#[test]
fn new_rejects_grid_size_mismatch() {
    assert_eq!(Puzzle::new(3, 26, 7, soma_pieces(), None).err(), Some(PuzzleError::GridSizeMismatch));
    assert_eq!(Puzzle::new(usize::MAX, 27, 7, soma_pieces(), None).err(), Some(PuzzleError::GridSizeMismatch));
}

#[test]
fn new_rejects_piece_count_mismatch() {
    assert_eq!(Puzzle::new(3, 27, 6, soma_pieces(), None).err(), Some(PuzzleError::PieceCountMismatch));
}

#[test]
fn new_rejects_too_many_cells() {
    assert_eq!(Puzzle::new(5, 125, 7, soma_pieces(), None).err(), Some(PuzzleError::TooManyCells));
}

#[test]
fn new_rejects_too_many_pieces() {
    let pieces = vec![vec![(0, 0, 0)]; 33];
    assert_eq!(Puzzle::new(4, 64, 33, pieces, None).err(), Some(PuzzleError::TooManyPieces));
}

#[test]
fn new_rejects_empty_grid() {
    assert_eq!(Puzzle::new(0, 0, 0, vec![], None).err(), Some(PuzzleError::EmptyGrid));
}

#[test]
fn new_rejects_large_piece() {
    let pieces = vec![vec![(0, 0, 0), (1, 0, 0), (2, 0, 0), (0, 1, 0), (1, 1, 0), (2, 1, 0)]];
    assert_eq!(Puzzle::new(3, 27, 1, pieces, None).err(), Some(PuzzleError::PieceTooLarge));
}

#[test]
fn new_rejects_empty_piece() {
    let pieces = vec![vec![(0, 0, 0)], vec![]];
    assert_eq!(Puzzle::new(3, 27, 2, pieces, None).err(), Some(PuzzleError::EmptyPiece));
}

#[test]
fn new_rejects_far_coordinates() {
    let pieces = vec![vec![(0, 0, 0), (COORD_LIMIT + 1, 0, 0)]];
    assert_eq!(Puzzle::new(3, 27, 1, pieces, None).err(), Some(PuzzleError::CoordinateOutOfRange));
    let pieces = vec![vec![(0, -COORD_LIMIT, 0)]];
    assert!(Puzzle::new(3, 27, 1, pieces, None).is_ok());
}

#[test]
fn new_rejects_chiral_pair_out_of_range() {
    assert_eq!(Puzzle::new(3, 27, 7, soma_pieces(), Some((4, 7))).err(), Some(PuzzleError::ChiralPairOutOfRange));
}

#[test]
fn new_reports_the_first_broken_rule() {
    // both the cell count and the piece count are wrong: the cell count comes first
    assert_eq!(Puzzle::new(3, 28, 2, soma_pieces(), None).err(), Some(PuzzleError::GridSizeMismatch));
}

#[test]
fn cubes_returns_the_used_positions() {
    let p = PlacedPiece { piece_index: 2, positions: [(1, 2, 3), (4, 5, 6), (7, 8, 9), (0, 0, 0), (0, 0, 0)], cube_count: 2 };
    assert_eq!(p.cubes(), &[(1, 2, 3), (4, 5, 6)]);
}

#[test]
fn new_rejects_repeated_cube() {
    let pieces = vec![vec![(0, 0, 0), (1, 0, 0), (0, 0, 0)]];
    assert_eq!(Puzzle::new(3, 27, 1, pieces, None).err(), Some(PuzzleError::DuplicateCube));
}
