//! Enumerates the geometrically distinct ways to pack a set of polycube
//! pieces into a cube, deduplicating solutions under the cube's symmetries.

pub mod geometry;
pub mod grid;
pub mod persistence;
pub mod pieces;
pub mod solver;
pub mod symmetry;

use vstd::prelude::*;

use grid::{grid_of, grid_text, solution_fits_grid};
use persistence::{
    binary_file, count_file, cube_counts_ok, decode_file, printable, solution_records,
    solutions_text, Record,
};
use pieces::{PlacedPiece, Puzzle, MAX_PIECES};

verus! {

/// The operations of a puzzle, for callers that choose one at run time.
///
/// Saving and loading work on file contents; reading and writing the files
/// is left to the caller.
pub trait PuzzleOps {
    /// The puzzle definition is valid.
    spec fn ops_wf(&self) -> bool;

    /// The solutions can be formatted and saved for this puzzle.
    spec fn accepts(&self, solutions: Seq<Vec<PlacedPiece>>) -> bool;

    /// The solution can be formatted for this puzzle.
    spec fn displays(&self, solution: Seq<PlacedPiece>) -> bool;

    /// The list holds solutions of this puzzle, each listing its pieces in
    /// the order they filled the lowest empty cell, no two symmetric.
    spec fn found(&self, solutions: Seq<Vec<PlacedPiece>>) -> bool;

    /// The number of pieces.
    spec fn piece_count(&self) -> nat;

    /// The text listing of solutions.
    spec fn listing(&self, solutions: Seq<Vec<PlacedPiece>>) -> Seq<char>;

    /// The binary file of solutions.
    spec fn file_of(&self, solutions: Seq<Vec<PlacedPiece>>) -> Seq<u8>;

    /// The solutions a binary file holds for this puzzle, if it is valid.
    spec fn decoded(&self, bytes: Seq<u8>) -> Option<Seq<Seq<Record>>>;

    /// The solution count a binary file reports for this puzzle.
    spec fn counted(&self, bytes: Seq<u8>) -> Option<int>;

    /// The text of one solution.
    spec fn text_of(&self, solution: Seq<PlacedPiece>) -> Seq<char>;

    fn solve(&self, max_solutions: Option<usize>) -> (solutions: Vec<Vec<PlacedPiece>>)
        requires
            self.ops_wf(),
        ensures
            self.accepts(solutions@),
            self.found(solutions@),
    ;

    /// The text listing and the binary file of the solutions.
    fn save_solutions(&self, solutions: &[Vec<PlacedPiece>]) -> (files: (String, Vec<u8>))
        requires
            self.ops_wf(),
            self.accepts(solutions@),
        ensures
            files.0@ == self.listing(solutions@),
            files.1@ == self.file_of(solutions@),
    ;

    /// The solutions held by a binary file, if it is valid for this puzzle.
    fn load_solutions(&self, bytes: &[u8]) -> (r: Option<Vec<Vec<PlacedPiece>>>)
        requires
            self.ops_wf(),
        ensures
            match r {
                Some(solutions) => self.decoded(bytes@) == Some(solution_records(solutions@)),
                None => self.decoded(bytes@) is None,
            },
    ;

    /// The number of solutions in a binary file, if it is valid for this
    /// puzzle.
    fn count_solutions(&self, bytes: &[u8]) -> (r: Option<usize>)
        requires
            self.ops_wf(),
        ensures
            match r {
                Some(c) => self.counted(bytes@) == Some(c as int),
                None => self.counted(bytes@) is None,
            },
    ;

    fn format_solution(&self, solution: &[PlacedPiece]) -> (text: String)
        requires
            self.ops_wf(),
            self.displays(solution@),
        ensures
            text@ == self.text_of(solution@),
    ;

    fn num_pieces(&self) -> (n: usize)
        ensures
            n == self.piece_count(),
    ;
}

impl PuzzleOps for Puzzle {
    open spec fn ops_wf(&self) -> bool {
        self.wf()
    }

    open spec fn accepts(&self, solutions: Seq<Vec<PlacedPiece>>) -> bool {
        printable(self.dim as int, solutions) && cube_counts_ok(solutions)
    }

    open spec fn found(&self, solutions: Seq<Vec<PlacedPiece>>) -> bool {
        &&& forall|i: int| 0 <= i < solutions.len() ==> self.is_solution(#[trigger] solutions[i]@)
        &&& forall|i: int| 0 <= i < solutions.len() ==> solver::fills_lowest_first(self.dim as int, #[trigger] solutions[i]@)
        &&& forall|i: int, j: int|
            0 <= i < j < solutions.len() ==> self.key_of(#[trigger] solutions[i]@) != self.key_of(
                #[trigger] solutions[j]@,
            )
    }

    open spec fn piece_count(&self) -> nat {
        self.pieces@.len()
    }

    open spec fn listing(&self, solutions: Seq<Vec<PlacedPiece>>) -> Seq<char> {
        solutions_text(self.dim as int, solutions)
    }

    open spec fn file_of(&self, solutions: Seq<Vec<PlacedPiece>>) -> Seq<u8> {
        binary_file(self.dim, (self.dim * self.dim * self.dim) as usize, self.pieces@.len() as usize, solutions)
    }

    open spec fn decoded(&self, bytes: Seq<u8>) -> Option<Seq<Seq<Record>>> {
        decode_file(bytes, self.dim, (self.dim * self.dim * self.dim) as usize, self.pieces@.len() as usize)
    }

    open spec fn counted(&self, bytes: Seq<u8>) -> Option<int> {
        count_file(bytes, self.dim, (self.dim * self.dim * self.dim) as usize, self.pieces@.len() as usize)
    }

    open spec fn text_of(&self, solution: Seq<PlacedPiece>) -> Seq<char> {
        grid_text(self.dim as int, grid_of(self.dim as int, solution))
    }

    open spec fn displays(&self, solution: Seq<PlacedPiece>) -> bool {
        solution_fits_grid(self.dim as int, solution) && forall|k: int|
            0 <= k < solution.len() ==> (#[trigger] solution[k]).piece_index < MAX_PIECES
    }

    fn solve(&self, max_solutions: Option<usize>) -> (solutions: Vec<Vec<PlacedPiece>>) {
        let solutions = Puzzle::solve(self, max_solutions);
        proof {
            self.lemma_wf_pieces();
            assert forall|i: int| 0 <= i < solutions@.len() implies solution_fits_grid(self.dim as int, #[trigger] solutions@[i]@) && forall|k: int|
                0 <= k < solutions@[i]@.len() ==> (#[trigger] solutions@[i]@[k]).piece_index < MAX_PIECES by {
                self.lemma_partial_fits_grid(solutions@[i]@);
                assert forall|k: int| 0 <= k < solutions@[i]@.len() implies (#[trigger] solutions@[i]@[k]).piece_index < MAX_PIECES by {
                    assert(self.is_placed_piece(solutions@[i]@[k]));
                }
            }
            assert forall|i: int, k: int|
                0 <= i < solutions@.len() && 0 <= k < solutions@[i]@.len() implies (#[trigger] solutions@[i]@[k]).cube_count <= pieces::MAX_CUBES by {
                assert(self.is_placed_piece(solutions@[i]@[k]));
            }
        }
        solutions
    }

    fn save_solutions(&self, solutions: &[Vec<PlacedPiece>]) -> (files: (String, Vec<u8>)) {
        proof {
            self.lemma_wf_pieces();
        }
        persistence::save(self.dim, self.cell_count(), self.pieces.len(), solutions)
    }

    fn load_solutions(&self, bytes: &[u8]) -> (r: Option<Vec<Vec<PlacedPiece>>>) {
        proof {
            self.lemma_wf_pieces();
        }
        persistence::load_all(bytes, self.dim, self.cell_count(), self.pieces.len())
    }

    fn count_solutions(&self, bytes: &[u8]) -> (r: Option<usize>) {
        proof {
            self.lemma_wf_pieces();
        }
        persistence::count(bytes, self.dim, self.cell_count(), self.pieces.len())
    }

    fn format_solution(&self, solution: &[PlacedPiece]) -> (text: String) {
        proof {
            self.lemma_wf_pieces();
        }
        grid::format_solution(self.dim, solution)
    }

    fn num_pieces(&self) -> (n: usize) {
        self.pieces.len()
    }
}

} // verus!
