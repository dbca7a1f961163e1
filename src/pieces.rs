//! Piece and puzzle definitions.

use vstd::prelude::*;

use crate::geometry::coords_within;

verus! {

/// A unit cube position `(x, y, z)`.
pub type Coord = (i32, i32, i32);

/// Maximum number of cubes in any single piece.
pub const MAX_CUBES: usize = 5;

/// Maximum number of cells in a grid (one bit each in a `u64`).
pub const MAX_CELLS: usize = 64;

/// Maximum number of pieces in a puzzle (one bit each in a `u32`).
pub const MAX_PIECES: usize = 32;

/// Largest magnitude of a coordinate in a piece definition, so that rotating,
/// normalizing and translating pieces stays within `i32`.
pub const COORD_LIMIT: i32 = 1048576;

/// A piece placed at specific coordinates within the grid.
#[derive(Clone, Copy)]
pub struct PlacedPiece {
    pub piece_index: usize,
    pub positions: [Coord; MAX_CUBES],
    pub cube_count: u8,
}

impl PlacedPiece {
    /// The cubes of this piece that are in use.
    pub open spec fn cubes_view(&self) -> Seq<Coord> {
        self.positions@.subrange(0, self.cube_count as int)
    }

    /// Returns the valid cube positions for this piece.
    pub fn cubes(&self) -> (r: &[Coord])
        requires
            self.cube_count <= MAX_CUBES,
        ensures
            r@ == self.cubes_view(),
    {
        vstd::slice::slice_subrange(self.positions.as_slice(), 0, self.cube_count as usize)
    }
}

/// Why a puzzle definition was rejected.
#[derive(Clone, Copy, Debug, PartialEq, Eq, Structural)]
pub enum PuzzleError {
    /// The cell count is not the cube of the dimension.
    GridSizeMismatch,
    /// The number of pieces given differs from the declared piece count.
    PieceCountMismatch,
    /// More cells than fit in a 64-bit occupancy mask.
    TooManyCells,
    /// More pieces than fit in a 32-bit piece mask.
    TooManyPieces,
    /// A grid without cells.
    EmptyGrid,
    /// A piece with more than `MAX_CUBES` cubes.
    PieceTooLarge,
    /// A piece without cubes.
    EmptyPiece,
    /// A piece coordinate beyond `COORD_LIMIT` in magnitude.
    CoordinateOutOfRange,
    /// A chiral pair naming a piece that does not exist.
    ChiralPairOutOfRange,
    /// A piece that lists the same cube twice.
    DuplicateCube,
}

/// A puzzle: a cube of side `dim` to fill with `pieces`, each usable in any
/// rotation, with an optional pair of pieces that are mirror images.
pub struct Puzzle {
    pub dim: usize,
    pub pieces: Vec<Vec<Coord>>,
    pub chiral_pair: Option<(usize, usize)>,
}

/// The cubes of each piece.
pub open spec fn pieces_view(pieces: Seq<Vec<Coord>>) -> Seq<Seq<Coord>> {
    pieces.map_values(|v: Vec<Coord>| v@)
}

/// What is wrong with one piece, if anything.
pub open spec fn piece_error(piece: Seq<Coord>) -> Option<PuzzleError> {
    if piece.len() > MAX_CUBES {
        Some(PuzzleError::PieceTooLarge)
    } else if piece.len() == 0 {
        Some(PuzzleError::EmptyPiece)
    } else if !coords_within(piece, COORD_LIMIT as int) {
        Some(PuzzleError::CoordinateOutOfRange)
    } else if !piece.no_duplicates() {
        Some(PuzzleError::DuplicateCube)
    } else {
        None
    }
}

/// The error of the first faulty piece from index `k` on, if any.
pub open spec fn first_piece_error(pieces: Seq<Seq<Coord>>, k: int) -> Option<PuzzleError>
    decreases pieces.len() - k,
{
    if k < 0 || k >= pieces.len() {
        None
    } else {
        match piece_error(pieces[k]) {
            Some(e) => Some(e),
            None => first_piece_error(pieces, k + 1),
        }
    }
}

/// The first rule that a puzzle definition breaks, checked in this order.
pub open spec fn puzzle_error(
    dim: int,
    grid_size: int,
    num_pieces: int,
    pieces: Seq<Seq<Coord>>,
    chiral_pair: Option<(usize, usize)>,
) -> Option<PuzzleError> {
    if dim * dim * dim != grid_size {
        Some(PuzzleError::GridSizeMismatch)
    } else if pieces.len() != num_pieces {
        Some(PuzzleError::PieceCountMismatch)
    } else if grid_size > MAX_CELLS {
        Some(PuzzleError::TooManyCells)
    } else if num_pieces > MAX_PIECES {
        Some(PuzzleError::TooManyPieces)
    } else if grid_size == 0 {
        Some(PuzzleError::EmptyGrid)
    } else if first_piece_error(pieces, 0) is Some {
        first_piece_error(pieces, 0)
    } else if chiral_pair matches Some(p) && (p.0 >= num_pieces || p.1 >= num_pieces) {
        Some(PuzzleError::ChiralPairOutOfRange)
    } else {
        None
    }
}

proof fn lemma_no_piece_error(pieces: Seq<Seq<Coord>>, k: int)
    requires
        0 <= k,
        first_piece_error(pieces, k) is None,
    ensures
        forall|j: int| k <= j < pieces.len() ==> piece_error(#[trigger] pieces[j]) is None,
    decreases pieces.len() - k,
{
    if k < pieces.len() {
        lemma_no_piece_error(pieces, k + 1);
    }
}

impl Puzzle {
    pub open spec fn num_cells(&self) -> int {
        self.dim * self.dim * self.dim
    }

    /// The puzzle satisfies every rule that `new` checks.
    pub open spec fn wf(&self) -> bool {
        puzzle_error(
            self.dim as int,
            self.num_cells(),
            self.pieces@.len() as int,
            pieces_view(self.pieces@),
            self.chiral_pair,
        ) is None
    }

    /// Every piece is non-empty, small, and within the coordinate limit.
    pub proof fn lemma_wf_pieces(&self)
        requires
            self.wf(),
        ensures
            0 < self.dim <= 4,
            0 < self.num_cells() <= MAX_CELLS,
            self.pieces@.len() <= MAX_PIECES,
            forall|k: int|
                0 <= k < self.pieces@.len() ==> 0 < (#[trigger] self.pieces@[k])@.len() <= MAX_CUBES
                    && coords_within(self.pieces@[k]@, COORD_LIMIT as int) && self.pieces@[k]@.no_duplicates(),
            self.chiral_pair matches Some(p) ==> p.0 < self.pieces@.len() && p.1 < self.pieces@.len(),
    {
        let v = pieces_view(self.pieces@);
        lemma_no_piece_error(v, 0);
        assert forall|k: int| 0 <= k < self.pieces@.len() implies 0 < (#[trigger] self.pieces@[k])@.len() <= MAX_CUBES
            && coords_within(self.pieces@[k]@, COORD_LIMIT as int) && self.pieces@[k]@.no_duplicates() by {
            assert(v[k] == self.pieces@[k]@);
            assert(piece_error(v[k]) is None);
        }
        let d = self.dim as int;
        assert(0 < d <= 4) by (nonlinear_arith)
            requires
                0 < d * d * d <= 64,
                0 <= d,
        ;
    }

    /// Number of cells of the grid.
    pub fn cell_count(&self) -> (n: usize)
        requires
            self.wf(),
        ensures
            n as int == self.num_cells(),
            0 < n <= MAX_CELLS,
    {
        proof {
            self.lemma_wf_pieces();
            assert(self.dim * self.dim <= 16) by (nonlinear_arith)
                requires
                    self.dim <= 4,
            ;
        }
        self.dim * self.dim * self.dim
    }

    /// Creates a puzzle definition, checking the rules of `puzzle_error`.
    pub fn new(
        dim: usize,
        grid_size: usize,
        num_pieces: usize,
        pieces: Vec<Vec<Coord>>,
        chiral_pair: Option<(usize, usize)>,
    ) -> (r: Result<Puzzle, PuzzleError>)
        ensures
            match r {
                Ok(p) => {
                    &&& puzzle_error(dim as int, grid_size as int, num_pieces as int, pieces_view(pieces@), chiral_pair) is None
                    &&& p.dim == dim
                    &&& p.pieces@ == pieces@
                    &&& p.chiral_pair == chiral_pair
                    &&& p.wf()
                },
                Err(e) => puzzle_error(dim as int, grid_size as int, num_pieces as int, pieces_view(pieces@), chiral_pair)
                    == Some(e),
            },
    {
        let ghost v = pieces_view(pieces@);
        let cube = match dim.checked_mul(dim) {
            Some(sq) => sq.checked_mul(dim),
            None => None,
        };
        proof {
            if dim as int * dim as int > usize::MAX {
                assert(dim as int * dim as int * dim as int >= dim as int * dim as int) by (nonlinear_arith)
                    requires
                        dim as int * dim as int > usize::MAX,
                        dim >= 0,
                ;
            }
        }
        match cube {
            Some(c) => {
                if c != grid_size {
                    return Err(PuzzleError::GridSizeMismatch);
                }
            },
            None => {
                return Err(PuzzleError::GridSizeMismatch);
            },
        }
        if pieces.len() != num_pieces {
            return Err(PuzzleError::PieceCountMismatch);
        }
        if grid_size > MAX_CELLS {
            return Err(PuzzleError::TooManyCells);
        }
        if num_pieces > MAX_PIECES {
            return Err(PuzzleError::TooManyPieces);
        }
        if grid_size == 0 {
            return Err(PuzzleError::EmptyGrid);
        }
        let mut k: usize = 0;
        while k < pieces.len()
            invariant
                k <= pieces@.len(),
                v == pieces_view(pieces@),
                dim as int * dim as int * dim as int == grid_size as int,
                pieces@.len() == num_pieces,
                0 < grid_size <= MAX_CELLS,
                num_pieces <= MAX_PIECES,
                first_piece_error(v, 0) == first_piece_error(v, k as int),
            decreases pieces@.len() - k,
        {
            let piece = &pieces[k];
            assert(v[k as int] == piece@);
            if piece.len() > MAX_CUBES {
                return Err(PuzzleError::PieceTooLarge);
            }
            if piece.len() == 0 {
                return Err(PuzzleError::EmptyPiece);
            }
            let mut j: usize = 0;
            while j < piece.len()
                invariant
                    j <= piece@.len(),
                    k < pieces@.len(),
                    piece@ == v[k as int],
                    0 < piece@.len() <= MAX_CUBES,
                    v == pieces_view(pieces@),
                    dim as int * dim as int * dim as int == grid_size as int,
                    pieces@.len() == num_pieces,
                    0 < grid_size <= MAX_CELLS,
                    num_pieces <= MAX_PIECES,
                    first_piece_error(v, 0) == first_piece_error(v, k as int),
                    forall|i: int| 0 <= i < j ==> crate::geometry::coord_within(#[trigger] piece@[i], COORD_LIMIT as int),
                decreases piece@.len() - j,
            {
                let (x, y, z) = piece[j];
                if x < -COORD_LIMIT || x > COORD_LIMIT || y < -COORD_LIMIT || y > COORD_LIMIT || z < -COORD_LIMIT
                    || z > COORD_LIMIT {
                    assert(!crate::geometry::coord_within(piece@[j as int], COORD_LIMIT as int));
                    return Err(PuzzleError::CoordinateOutOfRange);
                }
                j = j + 1;
            }
            // a piece is a set of cubes: no cube twice
            let mut a: usize = 0;
            while a < piece.len()
                invariant
                    a <= piece@.len(),
                    k < pieces@.len(),
                    piece@ == v[k as int],
                    0 < piece@.len() <= MAX_CUBES,
                    v == pieces_view(pieces@),
                    dim as int * dim as int * dim as int == grid_size as int,
                    pieces@.len() == num_pieces,
                    0 < grid_size <= MAX_CELLS,
                    num_pieces <= MAX_PIECES,
                    first_piece_error(v, 0) == first_piece_error(v, k as int),
                    coords_within(piece@, COORD_LIMIT as int),
                    forall|i: int, l: int| 0 <= i < a && i < l < piece@.len() ==> piece@[i] != piece@[l],
                decreases piece@.len() - a,
            {
                let mut b: usize = a + 1;
                while b < piece.len()
                    invariant
                        a < b <= piece@.len(),
                        k < pieces@.len(),
                        piece@ == v[k as int],
                        0 < piece@.len() <= MAX_CUBES,
                        v == pieces_view(pieces@),
                        dim as int * dim as int * dim as int == grid_size as int,
                        pieces@.len() == num_pieces,
                        0 < grid_size <= MAX_CELLS,
                        num_pieces <= MAX_PIECES,
                        first_piece_error(v, 0) == first_piece_error(v, k as int),
                        coords_within(piece@, COORD_LIMIT as int),
                        forall|i: int, l: int| 0 <= i < a && i < l < piece@.len() ==> piece@[i] != piece@[l],
                        forall|l: int| a < l < b ==> piece@[a as int] != piece@[l],
                    decreases piece@.len() - b,
                {
                    let (x1, y1, z1) = piece[a];
                    let (x2, y2, z2) = piece[b];
                    if x1 == x2 && y1 == y2 && z1 == z2 {
                        assert(!piece@.no_duplicates());
                        return Err(PuzzleError::DuplicateCube);
                    }
                    b = b + 1;
                }
                a = a + 1;
            }
            assert(piece@.no_duplicates());
            k = k + 1;
        }
        if let Some((a, b)) = chiral_pair {
            if a >= num_pieces || b >= num_pieces {
                return Err(PuzzleError::ChiralPairOutOfRange);
            }
        }
        Ok(Puzzle { dim, pieces, chiral_pair })
    }
}

/// Indices of the mirror-image pair among the Soma pieces.
pub const SOMA_CHIRAL_PAIR: (usize, usize) = (4, 6);

/// Soma puzzle dimensions.
pub const SOMA_DIM: usize = 3;
pub const SOMA_GRID_SIZE: usize = 27;
pub const SOMA_NUM_PIECES: usize = 7;

/// Bedlam puzzle dimensions.
pub const BEDLAM_DIM: usize = 4;
pub const BEDLAM_GRID_SIZE: usize = 64;
pub const BEDLAM_NUM_PIECES: usize = 13;

/// The seven Soma pieces, which fill a 3x3x3 cube.
pub fn soma_pieces() -> (pieces: Vec<Vec<Coord>>)
    ensures
        pieces@.len() == SOMA_NUM_PIECES,
        first_piece_error(pieces_view(pieces@), 0) is None,
        pieces_view(pieces@) == seq![
            seq![(0i32, 0i32, 0i32), (1i32, 0i32, 0i32), (2i32, 0i32, 0i32), (0i32, 1i32, 0i32)],
            seq![(0i32, 0i32, 0i32), (1i32, 0i32, 0i32), (2i32, 0i32, 0i32), (1i32, 1i32, 0i32)],
            seq![(0i32, 0i32, 0i32), (1i32, 0i32, 0i32), (1i32, 1i32, 0i32), (2i32, 1i32, 0i32)],
            seq![(0i32, 0i32, 0i32), (1i32, 0i32, 0i32), (0i32, 1i32, 0i32)],
            seq![(0i32, 0i32, 0i32), (1i32, 0i32, 0i32), (0i32, 1i32, 0i32), (1i32, 0i32, 1i32)],
            seq![(0i32, 0i32, 0i32), (1i32, 0i32, 0i32), (0i32, 1i32, 0i32), (0i32, 0i32, 1i32)],
            seq![(0i32, 0i32, 0i32), (1i32, 0i32, 0i32), (0i32, 1i32, 0i32), (0i32, 1i32, 1i32)],
        ],
{
    let pieces = vec![
        // L-shaped piece (4 cubes)
        vec![(0, 0, 0), (1, 0, 0), (2, 0, 0), (0, 1, 0)],
        // T-shaped piece (4 cubes)
        vec![(0, 0, 0), (1, 0, 0), (2, 0, 0), (1, 1, 0)],
        // S-shaped piece (4 cubes)
        vec![(0, 0, 0), (1, 0, 0), (1, 1, 0), (2, 1, 0)],
        // small L piece (3 cubes)
        vec![(0, 0, 0), (1, 0, 0), (0, 1, 0)],
        // 3d corner piece variant A (4 cubes)
        vec![(0, 0, 0), (1, 0, 0), (0, 1, 0), (1, 0, 1)],
        // 3d corner piece variant B (4 cubes)
        vec![(0, 0, 0), (1, 0, 0), (0, 1, 0), (0, 0, 1)],
        // 3d corner piece variant C (4 cubes)
        vec![(0, 0, 0), (1, 0, 0), (0, 1, 0), (0, 1, 1)],
    ];
    proof {
        reveal_with_fuel(first_piece_error, 8);
        assert(pieces_view(pieces@) =~= seq![pieces@[0]@, pieces@[1]@, pieces@[2]@, pieces@[3]@, pieces@[4]@, pieces@[5]@, pieces@[6]@]);
    }
    pieces
}

/// The thirteen Bedlam pieces, which fill a 4x4x4 cube.
pub fn bedlam_pieces() -> (pieces: Vec<Vec<Coord>>)
    ensures
        pieces@.len() == BEDLAM_NUM_PIECES,
        first_piece_error(pieces_view(pieces@), 0) is None,
        pieces_view(pieces@) == seq![
            seq![(0i32, 0i32, 0i32), (0i32, 1i32, 0i32), (1i32, 0i32, 0i32), (0i32, 0i32, 1i32)],
            seq![(0i32, 0i32, 0i32), (1i32, 0i32, 0i32), (2i32, 0i32, 0i32), (3i32, 0i32, 0i32), (3i32, 1i32, 0i32)],
            seq![(0i32, 0i32, 0i32), (0i32, 1i32, 0i32), (1i32, 1i32, 0i32), (1i32, 2i32, 0i32), (2i32, 2i32, 0i32)],
            seq![(0i32, 0i32, 0i32), (0i32, 1i32, 0i32), (1i32, 1i32, 0i32), (1i32, 2i32, 0i32), (1i32, 1i32, 1i32)],
            seq![(0i32, 0i32, 0i32), (1i32, 0i32, 0i32), (1i32, 0i32, 1i32), (1i32, 1i32, 1i32), (2i32, 1i32, 1i32)],
            seq![(0i32, 0i32, 0i32), (1i32, 0i32, 0i32), (1i32, 1i32, 0i32), (1i32, 1i32, 1i32), (2i32, 1i32, 1i32)],
            seq![(0i32, 0i32, 0i32), (1i32, 0i32, 0i32), (2i32, 0i32, 0i32), (1i32, 1i32, 0i32), (1i32, 0i32, 1i32)],
            seq![(0i32, 0i32, 0i32), (1i32, 0i32, 0i32), (1i32, 1i32, 0i32), (2i32, 1i32, 0i32), (1i32, 0i32, 1i32)],
            seq![(0i32, 0i32, 0i32), (0i32, 1i32, 0i32), (1i32, 1i32, 0i32), (2i32, 1i32, 0i32), (1i32, 2i32, 0i32)],
            seq![(0i32, 0i32, 0i32), (1i32, 0i32, 0i32), (2i32, 0i32, 0i32), (0i32, 1i32, 0i32), (2i32, 1i32, 0i32)],
            seq![(0i32, 0i32, 0i32), (1i32, 0i32, 0i32), (1i32, 1i32, 0i32), (2i32, 1i32, 0i32), (2i32, 2i32, 0i32)],
            seq![(0i32, 0i32, 1i32), (0i32, 1i32, 0i32), (0i32, 1i32, 1i32), (1i32, 1i32, 0i32), (1i32, 2i32, 0i32)],
            seq![(0i32, 0i32, 0i32), (0i32, 1i32, 0i32), (0i32, 1i32, 1i32), (1i32, 1i32, 0i32), (1i32, 2i32, 0i32)],
        ],
{
    let pieces = vec![
        // little corner (4 cubes)
        vec![(0, 0, 0), (0, 1, 0), (1, 0, 0), (0, 0, 1)],
        // long stick (5 cubes)
        vec![(0, 0, 0), (1, 0, 0), (2, 0, 0), (3, 0, 0), (3, 1, 0)],
        // hat (5 cubes)
        vec![(0, 0, 0), (0, 1, 0), (1, 1, 0), (1, 2, 0), (2, 2, 0)],
        // bucket (5 cubes)
        vec![(0, 0, 0), (0, 1, 0), (1, 1, 0), (1, 2, 0), (1, 1, 1)],
        // screw (5 cubes)
        vec![(0, 0, 0), (1, 0, 0), (1, 0, 1), (1, 1, 1), (2, 1, 1)],
        // twist (5 cubes)
        vec![(0, 0, 0), (1, 0, 0), (1, 1, 0), (1, 1, 1), (2, 1, 1)],
        // signpost (5 cubes)
        vec![(0, 0, 0), (1, 0, 0), (2, 0, 0), (1, 1, 0), (1, 0, 1)],
        // ducktail (5 cubes)
        vec![(0, 0, 0), (1, 0, 0), (1, 1, 0), (2, 1, 0), (1, 0, 1)],
        // plane (5 cubes)
        vec![(0, 0, 0), (0, 1, 0), (1, 1, 0), (2, 1, 0), (1, 2, 0)],
        // bridge (5 cubes)
        vec![(0, 0, 0), (1, 0, 0), (2, 0, 0), (0, 1, 0), (2, 1, 0)],
        // staircase (5 cubes)
        vec![(0, 0, 0), (1, 0, 0), (1, 1, 0), (2, 1, 0), (2, 2, 0)],
        // spikey zag (5 cubes)
        vec![(0, 0, 1), (0, 1, 0), (0, 1, 1), (1, 1, 0), (1, 2, 0)],
        // middle zig (5 cubes)
        vec![(0, 0, 0), (0, 1, 0), (0, 1, 1), (1, 1, 0), (1, 2, 0)],
    ];
    proof {
        reveal_with_fuel(first_piece_error, 14);
        assert(pieces_view(pieces@) =~= seq![pieces@[0]@, pieces@[1]@, pieces@[2]@, pieces@[3]@, pieces@[4]@, pieces@[5]@, pieces@[6]@, pieces@[7]@, pieces@[8]@, pieces@[9]@, pieces@[10]@, pieces@[11]@, pieces@[12]@]);
    }
    pieces
}

/// The Soma puzzle: seven pieces into a 3x3x3 cube, two of them mirror
/// images of each other.
pub fn soma_puzzle() -> (p: Puzzle)
    ensures
        p.wf(),
        p.dim == SOMA_DIM,
        p.pieces@.len() == SOMA_NUM_PIECES,
        pieces_view(p.pieces@) == seq![
            seq![(0i32, 0i32, 0i32), (1i32, 0i32, 0i32), (2i32, 0i32, 0i32), (0i32, 1i32, 0i32)],
            seq![(0i32, 0i32, 0i32), (1i32, 0i32, 0i32), (2i32, 0i32, 0i32), (1i32, 1i32, 0i32)],
            seq![(0i32, 0i32, 0i32), (1i32, 0i32, 0i32), (1i32, 1i32, 0i32), (2i32, 1i32, 0i32)],
            seq![(0i32, 0i32, 0i32), (1i32, 0i32, 0i32), (0i32, 1i32, 0i32)],
            seq![(0i32, 0i32, 0i32), (1i32, 0i32, 0i32), (0i32, 1i32, 0i32), (1i32, 0i32, 1i32)],
            seq![(0i32, 0i32, 0i32), (1i32, 0i32, 0i32), (0i32, 1i32, 0i32), (0i32, 0i32, 1i32)],
            seq![(0i32, 0i32, 0i32), (1i32, 0i32, 0i32), (0i32, 1i32, 0i32), (0i32, 1i32, 1i32)],
        ],
        p.chiral_pair == Some(SOMA_CHIRAL_PAIR),
{
    Puzzle { dim: SOMA_DIM, pieces: soma_pieces(), chiral_pair: Some(SOMA_CHIRAL_PAIR) }
}

/// The Bedlam puzzle: thirteen pieces into a 4x4x4 cube.
pub fn bedlam_puzzle() -> (p: Puzzle)
    ensures
        p.wf(),
        p.dim == BEDLAM_DIM,
        p.pieces@.len() == BEDLAM_NUM_PIECES,
        pieces_view(p.pieces@) == seq![
            seq![(0i32, 0i32, 0i32), (0i32, 1i32, 0i32), (1i32, 0i32, 0i32), (0i32, 0i32, 1i32)],
            seq![(0i32, 0i32, 0i32), (1i32, 0i32, 0i32), (2i32, 0i32, 0i32), (3i32, 0i32, 0i32), (3i32, 1i32, 0i32)],
            seq![(0i32, 0i32, 0i32), (0i32, 1i32, 0i32), (1i32, 1i32, 0i32), (1i32, 2i32, 0i32), (2i32, 2i32, 0i32)],
            seq![(0i32, 0i32, 0i32), (0i32, 1i32, 0i32), (1i32, 1i32, 0i32), (1i32, 2i32, 0i32), (1i32, 1i32, 1i32)],
            seq![(0i32, 0i32, 0i32), (1i32, 0i32, 0i32), (1i32, 0i32, 1i32), (1i32, 1i32, 1i32), (2i32, 1i32, 1i32)],
            seq![(0i32, 0i32, 0i32), (1i32, 0i32, 0i32), (1i32, 1i32, 0i32), (1i32, 1i32, 1i32), (2i32, 1i32, 1i32)],
            seq![(0i32, 0i32, 0i32), (1i32, 0i32, 0i32), (2i32, 0i32, 0i32), (1i32, 1i32, 0i32), (1i32, 0i32, 1i32)],
            seq![(0i32, 0i32, 0i32), (1i32, 0i32, 0i32), (1i32, 1i32, 0i32), (2i32, 1i32, 0i32), (1i32, 0i32, 1i32)],
            seq![(0i32, 0i32, 0i32), (0i32, 1i32, 0i32), (1i32, 1i32, 0i32), (2i32, 1i32, 0i32), (1i32, 2i32, 0i32)],
            seq![(0i32, 0i32, 0i32), (1i32, 0i32, 0i32), (2i32, 0i32, 0i32), (0i32, 1i32, 0i32), (2i32, 1i32, 0i32)],
            seq![(0i32, 0i32, 0i32), (1i32, 0i32, 0i32), (1i32, 1i32, 0i32), (2i32, 1i32, 0i32), (2i32, 2i32, 0i32)],
            seq![(0i32, 0i32, 1i32), (0i32, 1i32, 0i32), (0i32, 1i32, 1i32), (1i32, 1i32, 0i32), (1i32, 2i32, 0i32)],
            seq![(0i32, 0i32, 0i32), (0i32, 1i32, 0i32), (0i32, 1i32, 1i32), (1i32, 1i32, 0i32), (1i32, 2i32, 0i32)],
        ],
        p.chiral_pair is None,
{
    Puzzle { dim: BEDLAM_DIM, pieces: bedlam_pieces(), chiral_pair: None }
}

} // verus!
