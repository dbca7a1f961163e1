//! Backtracking search for the symmetry-distinct solutions of a puzzle.
//!
//! Every legal (piece, target cell) placement is computed once, with its
//! cells as a bitmask, so that an overlap test in the search is one `&`.
//! The search always fills the lowest empty cell, and drops any partial
//! arrangement whose canonical key was met before: a symmetric image of it
//! has been explored already.

use vstd::prelude::*;
use vstd::std_specs::bits::{axiom_u64_trailing_ones, u64_trailing_ones};

use rustc_hash::{FxBuildHasher, FxHashSet};
use std::collections::HashSet;

use crate::geometry::{
    all_orientations, coord_within, coords_within, cubes_sorted, is_orientation_of, lemma_sorted_same_cubes,
    listed, lists_rotations, orientation_of, NUM_ROTATIONS,
};
use crate::grid::{
    build_rotation_table, canonical_form, canonical_key_with, cell_of_coord, coord_in_grid,
    coord_to_idx, fits_grid, grid_of, idx_to_coord, is_rotation_table, num_cells,
    solution_fits_grid, MAX_DIM,
};
use crate::persistence::expected_piece_mask;
use crate::pieces::{Coord, PlacedPiece, Puzzle, COORD_LIMIT, MAX_CELLS, MAX_CUBES};

verus! {

#[verifier::external_type_specification]
#[verifier::external_body]
pub struct ExFxBuildHasher(FxBuildHasher);

/// The keys held by a set of canonical keys.
pub uninterp spec fn key_set(s: HashSet<Vec<u8>, FxBuildHasher>) -> Set<Seq<u8>>;

/// Relies on `FxHashSet::default` (std's `HashSet` with rustc_hash's
/// hasher): the new set is empty.
#[verifier::external_body]
fn new_key_set() -> (s: FxHashSet<Vec<u8>>)
    ensures
        key_set(s) == Set::<Seq<u8>>::empty(),
{
    FxHashSet::default()
}

/// Relies on `HashSet::insert`: the key is added, and the result tells
/// whether it was absent before.
#[verifier::external_body]
fn insert_key(s: &mut FxHashSet<Vec<u8>>, key: Vec<u8>) -> (added: bool)
    ensures
        key_set(*final(s)) == key_set(*old(s)).insert(key@),
        added == !key_set(*old(s)).contains(key@),
{
    s.insert(key)
}

/// The mask of a grid whose first `n` cells are all filled.
pub open spec fn full_mask(n: u64) -> u64 {
    if n >= 64 {
        0xffff_ffff_ffff_ffffu64
    } else {
        ((1u64 << n) - 1) as u64
    }
}

/// Bit `i` of `m` is set.
pub open spec fn bit64(m: u64, i: u64) -> bool {
    (m >> i) & 1u64 == 1u64
}

/// Bit `i` of `m` is set.
pub open spec fn bit32(m: u32, i: u32) -> bool {
    (m >> i) & 1u32 == 1u32
}

/// The occupancy bitmask of a list of cubes: one bit per cell covered.
pub open spec fn mask_of(d: int, cubes: Seq<Coord>) -> u64
    decreases cubes.len(),
{
    if cubes.len() == 0 {
        0
    } else {
        mask_of(d, cubes.drop_last()) | (1u64 << (cell_of_coord(d, cubes.last()) as u64))
    }
}

/// The occupancy bitmask of a placed piece.
pub open spec fn piece_mask(d: int, p: PlacedPiece) -> u64 {
    mask_of(d, p.cubes_view())
}

/// The bitwise OR of the occupancy masks of the pieces.
pub open spec fn or_masks(d: int, pieces: Seq<PlacedPiece>) -> u64
    decreases pieces.len(),
{
    if pieces.len() == 0 {
        0
    } else {
        or_masks(d, pieces.drop_last()) | piece_mask(d, pieces.last())
    }
}

/// No two pieces share a cell bit.
pub open spec fn masks_disjoint(d: int, pieces: Seq<PlacedPiece>) -> bool {
    forall|i: int, j: int|
        0 <= i < j < pieces.len() ==> #[trigger] piece_mask(d, pieces[i]) & #[trigger] piece_mask(
            d,
            pieces[j],
        ) == 0
}

/// Every cube of `cubes` lies inside the grid.
pub open spec fn all_in_grid(d: int, cubes: Seq<Coord>) -> bool {
    forall|j: int| 0 <= j < cubes.len() ==> coord_in_grid(d, #[trigger] cubes[j])
}

/// The cubes moved by `(dx, dy, dz)`.
pub open spec fn translated(o: Seq<Coord>, dx: int, dy: int, dz: int) -> Seq<Coord> {
    o.map_values(|c: Coord| ((c.0 + dx) as i32, (c.1 + dy) as i32, (c.2 + dz) as i32))
}

/// `cubes` is an orientation of `piece`, moved somewhere inside the grid.
pub open spec fn is_placement_of(d: int, piece: Seq<Coord>, cubes: Seq<Coord>) -> bool {
    &&& exists|o: Seq<Coord>, dx: int, dy: int, dz: int|
        is_orientation_of(piece, o) && cubes == #[trigger] translated(o, dx, dy, dz)
    &&& all_in_grid(d, cubes)
}

/// Moving two lists of the same cubes moves them to the same cubes.
proof fn lemma_translated_cubes(a: Seq<Coord>, b: Seq<Coord>, dx: int, dy: int, dz: int)
    requires
        a.to_set() == b.to_set(),
    ensures
        translated(a, dx, dy, dz).to_set() == translated(b, dx, dy, dz).to_set(),
{
    let ta = translated(a, dx, dy, dz);
    let tb = translated(b, dx, dy, dz);
    assert forall|x: Coord| ta.to_set().contains(x) <==> tb.to_set().contains(x) by {
        if ta.to_set().contains(x) {
            let i = choose|i: int| 0 <= i < ta.len() && ta[i] == x;
            assert(a.to_set().contains(a[i]));
            let j = choose|j: int| 0 <= j < b.len() && b[j] == a[i];
            assert(tb[j] == x);
        }
        if tb.to_set().contains(x) {
            let i = choose|i: int| 0 <= i < tb.len() && tb[i] == x;
            assert(b.to_set().contains(b[i]));
            let j = choose|j: int| 0 <= j < a.len() && a[j] == b[i];
            assert(ta[j] == x);
        }
    }
    assert(ta.to_set() =~= tb.to_set());
}

/// Two lists of the same cubes lie in the grid together.
proof fn lemma_same_cubes_in_grid(d: int, a: Seq<Coord>, b: Seq<Coord>)
    requires
        a.to_set() == b.to_set(),
        all_in_grid(d, a),
    ensures
        all_in_grid(d, b),
{
    assert forall|j: int| 0 <= j < b.len() implies coord_in_grid(d, #[trigger] b[j]) by {
        assert(b.to_set().contains(b[j]));
        let i = choose|i: int| 0 <= i < a.len() && a[i] == b[j];
        assert(coord_in_grid(d, a[i]));
    }
}

proof fn lemma_or_disjoint(a: u64, b: u64, m: u64)
    by (bit_vector)
    requires
        (a | b) & m == 0,
    ensures
        a & m == 0,
        b & m == 0,
{
}

proof fn lemma_or_within(a: u64, b: u64, f: u64)
    by (bit_vector)
    requires
        a & !f == 0,
        b & !f == 0,
    ensures
        (a | b) & !f == 0,
{
}

proof fn lemma_cell_bit_within(c: u64, n: u64)
    by (bit_vector)
    requires
        c < n,
        n <= 64,
    ensures
        (1u64 << c) & !full_mask(n) == 0,
{
}

/// A placement's mask lies within the grid's first `n` cells.
proof fn lemma_mask_within(d: int, cubes: Seq<Coord>)
    requires
        0 < d <= MAX_DIM,
        all_in_grid(d, cubes),
    ensures
        mask_of(d, cubes) & !full_mask(num_cells(d) as u64) == 0,
    decreases cubes.len(),
{
    let n = num_cells(d);
    assert(0 < n <= 64) by (nonlinear_arith)
        requires
            0 < d <= 4,
            n == d * d * d,
    ;
    if cubes.len() > 0 {
        assert forall|j: int| 0 <= j < cubes.drop_last().len() implies coord_in_grid(d, #[trigger] cubes.drop_last()[j]) by {
            assert(coord_in_grid(d, cubes[j]));
        }
        lemma_mask_within(d, cubes.drop_last());
        let c = cubes.last();
        assert(coord_in_grid(d, cubes[cubes.len() - 1]));
        crate::grid::lemma_coord_of_cell(d, c.0 as int, c.1 as int, c.2 as int);
        lemma_cell_bit_within(cell_of_coord(d, c) as u64, n as u64);
        lemma_or_within(mask_of(d, cubes.drop_last()), 1u64 << (cell_of_coord(d, c) as u64), full_mask(n as u64));
    } else {
        assert(0u64 & !full_mask(n as u64) == 0) by (bit_vector);
    }
}

/// A precomputed placement of a piece orientation at a target cell.
#[derive(Clone, Copy)]
struct Placement {
    // bitmask used for fast overlap checks
    occupied_mask: u64,
    // absolute cube positions used to build output solutions
    cube_positions: [Coord; MAX_CUBES],
    // number of valid coordinates in cube_positions
    cube_count: u8,
}

impl Placement {
    spec fn cubes_view(&self) -> Seq<Coord> {
        self.cube_positions@.subrange(0, self.cube_count as int)
    }
}

/// `p` is a legal placement of `piece`, with its mask.
spec fn placement_ok(d: int, piece: Seq<Coord>, p: Placement) -> bool {
    &&& p.cube_count <= MAX_CUBES
    &&& p.cube_count as int == piece.len()
    &&& p.occupied_mask == mask_of(d, p.cubes_view())
    &&& is_placement_of(d, piece, p.cubes_view())
}

/// Lays `orientation` so that its cube `anchor` lands on `target`; `None`
/// when a cube would fall outside the grid.
fn try_create_placement(dim: usize, orientation: &Vec<Coord>, target: Coord, anchor: Coord) -> (r: Option<Placement>)
    requires
        0 < dim <= MAX_DIM,
        orientation@.len() <= MAX_CUBES,
        coords_within(orientation@, 2 * COORD_LIMIT as int),
        coord_in_grid(dim as int, target),
        coord_within(anchor, 2 * COORD_LIMIT as int),
    ensures
        ({
            let moved = translated(
                orientation@,
                target.0 - anchor.0,
                target.1 - anchor.1,
                target.2 - anchor.2,
            );
            match r {
                Some(p) => {
                    &&& p.cube_count as int == orientation@.len()
                    &&& p.cubes_view() == moved
                    &&& all_in_grid(dim as int, moved)
                    &&& p.occupied_mask == mask_of(dim as int, moved)
                },
                None => !all_in_grid(dim as int, moved),
            }
        }),
{
    let ghost d = dim as int;
    let ghost moved = translated(
        orientation@,
        target.0 - anchor.0,
        target.1 - anchor.1,
        target.2 - anchor.2,
    );
    let mut occupied_mask: u64 = 0;
    let mut cube_positions: [Coord; MAX_CUBES] = [(0, 0, 0), (0, 0, 0), (0, 0, 0), (0, 0, 0), (0, 0, 0)];
    // shift the orientation so that the anchor lands on the target
    let offset = (target.0 - anchor.0, target.1 - anchor.1, target.2 - anchor.2);
    let dim_i = dim as i32;
    let mut cube_index: usize = 0;
    assert(moved.subrange(0, 0) =~= Seq::<Coord>::empty());
    while cube_index < orientation.len()
        invariant
            0 < dim <= MAX_DIM,
            d == dim as int,
            dim_i == dim,
            orientation@.len() <= MAX_CUBES,
            coords_within(orientation@, 2 * COORD_LIMIT as int),
            coord_in_grid(d, target),
            coord_within(anchor, 2 * COORD_LIMIT as int),
            offset.0 == target.0 - anchor.0,
            offset.1 == target.1 - anchor.1,
            offset.2 == target.2 - anchor.2,
            moved == translated(orientation@, target.0 - anchor.0, target.1 - anchor.1, target.2 - anchor.2),
            cube_index <= orientation@.len(),
            cube_positions@.subrange(0, cube_index as int) == moved.subrange(0, cube_index as int),
            all_in_grid(d, moved.subrange(0, cube_index as int)),
            occupied_mask == mask_of(d, moved.subrange(0, cube_index as int)),
        decreases orientation@.len() - cube_index,
    {
        let (piece_x, piece_y, piece_z) = orientation[cube_index];
        assert(coord_within(orientation@[cube_index as int], 2 * COORD_LIMIT as int));
        let absolute_x = piece_x + offset.0;
        let absolute_y = piece_y + offset.1;
        let absolute_z = piece_z + offset.2;
        assert(moved[cube_index as int] == (absolute_x, absolute_y, absolute_z));
        // reject placements that leave the grid
        if absolute_x < 0 || absolute_x >= dim_i || absolute_y < 0 || absolute_y >= dim_i || absolute_z < 0
            || absolute_z >= dim_i {
            assert(!coord_in_grid(d, moved[cube_index as int]));
            return None;
        }
        let cell = coord_to_idx(dim, absolute_x, absolute_y, absolute_z);
        proof {
            assert(d * d * d <= 64) by (nonlinear_arith)
                requires
                    0 < d <= 4,
            ;
        }
        let ghost before = cube_positions@;
        occupied_mask = occupied_mask | (1u64 << cell as u64);
        cube_positions[cube_index] = (absolute_x, absolute_y, absolute_z);
        proof {
            let next = moved.subrange(0, cube_index as int + 1);
            assert(next.drop_last() =~= moved.subrange(0, cube_index as int));
            assert(cube_positions@.subrange(0, cube_index as int + 1) =~= next) by {
                assert forall|j: int| 0 <= j < cube_index as int implies #[trigger] before[j] == moved[j] by {
                    assert(before.subrange(0, cube_index as int)[j] == before[j]);
                }
            }
            assert forall|j: int| 0 <= j < next.len() implies coord_in_grid(d, #[trigger] next[j]) by {
                if j < cube_index {
                    assert(moved.subrange(0, cube_index as int)[j] == next[j]);
                }
            }
        }
        cube_index = cube_index + 1;
    }
    assert(moved.subrange(0, orientation@.len() as int) =~= moved);
    Some(Placement { occupied_mask, cube_positions, cube_count: orientation.len() as u8 })
}

/// `p` is a legal placement of `piece` that covers cell `t`.
spec fn placement_at(d: int, piece: Seq<Coord>, t: int, p: Placement) -> bool {
    &&& placement_ok(d, piece, p)
    &&& bit64(p.occupied_mask, t as u64)
}

/// A mask has the bit of each of its cubes.
proof fn lemma_mask_has_bit(d: int, cubes: Seq<Coord>, j: int)
    requires
        0 < d <= MAX_DIM,
        all_in_grid(d, cubes),
        0 <= j < cubes.len(),
    ensures
        bit64(mask_of(d, cubes), cell_of_coord(d, cubes[j]) as u64),
    decreases cubes.len(),
{
    let front = cubes.drop_last();
    let c = cubes.last();
    assert(coord_in_grid(d, cubes[j]));
    crate::grid::lemma_coord_of_cell(d, cubes[j].0 as int, cubes[j].1 as int, cubes[j].2 as int);
    assert(num_cells(d) <= 64) by (nonlinear_arith)
        requires
            0 < d <= 4,
    ;
    let x = cell_of_coord(d, cubes[j]) as u64;
    let a = mask_of(d, front);
    assert(coord_in_grid(d, cubes[cubes.len() - 1]));
    crate::grid::lemma_coord_of_cell(d, c.0 as int, c.1 as int, c.2 as int);
    let b = 1u64 << (cell_of_coord(d, c) as u64);
    if j == cubes.len() - 1 {
        assert(((a | (1u64 << x)) >> x) & 1u64 == 1u64) by (bit_vector)
            requires
                x < 64,
        ;
    } else {
        assert forall|i: int| 0 <= i < front.len() implies coord_in_grid(d, #[trigger] front[i]) by {
            assert(coord_in_grid(d, cubes[i]));
        }
        assert(front[j] == cubes[j]);
        lemma_mask_has_bit(d, front, j);
        assert(((a | b) >> x) & 1u64 == 1u64) by (bit_vector)
            requires
                x < 64,
                (a >> x) & 1u64 == 1u64,
        ;
    }
}

/// Every placement at every target of every piece is legal and covers the
/// target.
spec fn table_ok(d: int, pieces: Seq<Vec<Coord>>, table: Seq<Vec<Vec<Placement>>>) -> bool {
    &&& table.len() == pieces.len()
    &&& forall|p: int| 0 <= p < table.len() ==> (#[trigger] table[p])@.len() == num_cells(d)
    &&& forall|p: int, t: int, k: int|
        0 <= p < table.len() && 0 <= t < table[p]@.len() && 0 <= k < table[p]@[t]@.len()
            ==> placement_at(d, pieces[p]@, t, #[trigger] table[p]@[t]@[k])
}

/// Orientation `o` moved so that its cube `a` lies on `target`.
pub open spec fn anchored(o: Seq<Coord>, a: Coord, target: Coord) -> Seq<Coord> {
    translated(o, target.0 - a.0, target.1 - a.1, target.2 - a.2)
}

/// Some placement in the list covers exactly `cubes`.
spec fn has_placement(placements: Seq<Placement>, cubes: Seq<Coord>) -> bool {
    exists|k: int| 0 <= k < placements.len() && #[trigger] placements[k].cubes_view() == cubes
}

/// Every cube of the first `n` orientations, laid on `target`, gives a listed
/// placement when it fits the grid (for orientation `n`, the first `m`
/// cubes).
spec fn lists_fitting(
    d: int,
    orientations: Seq<Vec<Coord>>,
    target: Coord,
    placements: Seq<Placement>,
    n: int,
    m: int,
) -> bool {
    forall|i: int, j: int|
        0 <= i < orientations.len() && 0 <= j < orientations[i]@.len() && (i < n || (i == n && j < m))
            && all_in_grid(d, #[trigger] anchored(orientations[i]@, orientations[i]@[j], target))
            ==> has_placement(placements, anchored(orientations[i]@, orientations[i]@[j], target))
}

proof fn lemma_lists_fitting_push(
    d: int,
    orientations: Seq<Vec<Coord>>,
    target: Coord,
    placements: Seq<Placement>,
    p: Placement,
    n: int,
    m: int,
)
    requires
        lists_fitting(d, orientations, target, placements, n, m),
    ensures
        lists_fitting(d, orientations, target, placements.push(p), n, m),
{
    let q = placements.push(p);
    assert forall|i: int, j: int|
        0 <= i < orientations.len() && 0 <= j < orientations[i]@.len() && (i < n || (i == n && j < m))
            && all_in_grid(d, #[trigger] anchored(orientations[i]@, orientations[i]@[j], target))
            implies has_placement(q, anchored(orientations[i]@, orientations[i]@[j], target)) by {
        let c = anchored(orientations[i]@, orientations[i]@[j], target);
        assert(has_placement(placements, c));
        let w = choose|k: int| 0 <= k < placements.len() && #[trigger] placements[k].cubes_view() == c;
        assert(q[w] == placements[w]);
    }
}

/// The placements of `piece` that cover `target`: for each orientation, each
/// cube of it laid on the target, when the result fits the grid.
fn placements_at(dim: usize, piece: &Vec<Coord>, orientations: &Vec<Vec<Coord>>, target: Coord) -> (placements: Vec<Placement>)
    requires
        0 < dim <= MAX_DIM,
        piece@.len() <= MAX_CUBES,
        coord_in_grid(dim as int, target),
        forall|i: int| 0 <= i < orientations@.len() ==> is_orientation_of(piece@, #[trigger] orientations@[i]@),
        forall|i: int|
            0 <= i < orientations@.len() ==> coords_within(#[trigger] orientations@[i]@, 2 * COORD_LIMIT as int),
        forall|i: int| 0 <= i < orientations@.len() ==> (#[trigger] orientations@[i]@).len() == piece@.len(),
    ensures
        forall|k: int| 0 <= k < placements@.len() ==> placement_at(dim as int, piece@, cell_of_coord(dim as int, target), #[trigger] placements@[k]),
        lists_fitting(dim as int, orientations@, target, placements@, orientations@.len() as int, 0),
{
    let mut placements: Vec<Placement> = Vec::new();
    let mut oi: usize = 0;
    while oi < orientations.len()
        invariant
            0 < dim <= MAX_DIM,
            piece@.len() <= MAX_CUBES,
            coord_in_grid(dim as int, target),
            forall|i: int| 0 <= i < orientations@.len() ==> is_orientation_of(piece@, #[trigger] orientations@[i]@),
            forall|i: int|
                0 <= i < orientations@.len() ==> coords_within(#[trigger] orientations@[i]@, 2 * COORD_LIMIT as int),
            forall|i: int| 0 <= i < orientations@.len() ==> (#[trigger] orientations@[i]@).len() == piece@.len(),
            forall|k: int| 0 <= k < placements@.len() ==> placement_at(dim as int, piece@, cell_of_coord(dim as int, target), #[trigger] placements@[k]),
            oi <= orientations@.len(),
            lists_fitting(dim as int, orientations@, target, placements@, oi as int, 0),
        decreases orientations@.len() - oi,
    {
        let orientation = &orientations[oi];
        assert(is_orientation_of(piece@, orientations@[oi as int]@));
        assert(coords_within(orientation@, 2 * COORD_LIMIT as int));
        // try each cube of the orientation as the one on the target
        let mut ai: usize = 0;
        while ai < orientation.len()
            invariant
                0 < dim <= MAX_DIM,
                orientation@.len() == piece@.len(),
                piece@.len() <= MAX_CUBES,
                coord_in_grid(dim as int, target),
                coords_within(orientation@, 2 * COORD_LIMIT as int),
                is_orientation_of(piece@, orientation@),
                forall|k: int| 0 <= k < placements@.len() ==> placement_at(dim as int, piece@, cell_of_coord(dim as int, target), #[trigger] placements@[k]),
                oi < orientations@.len(),
                orientation == orientations@[oi as int],
                ai <= orientation@.len(),
                lists_fitting(dim as int, orientations@, target, placements@, oi as int, ai as int),
            decreases orientation@.len() - ai,
        {
            let anchor = orientation[ai];
            assert(coord_within(orientation@[ai as int], 2 * COORD_LIMIT as int));
            let ghost before = placements@;
            let ghost cubes = anchored(orientation@, anchor, target);
            if let Some(placement) = try_create_placement(dim, orientation, target, anchor) {
                proof {
                    lemma_lists_fitting_push(dim as int, orientations@, target, before, placement, oi as int, ai as int);
                    let dx = target.0 - anchor.0;
                    let dy = target.1 - anchor.1;
                    let dz = target.2 - anchor.2;
                    assert(placement.cubes_view() == translated(orientation@, dx, dy, dz));
                    assert(placement_ok(dim as int, piece@, placement));
                    assert(cubes[ai as int] == target);
                    lemma_mask_has_bit(dim as int, cubes, ai as int);
                    assert(placement_at(dim as int, piece@, cell_of_coord(dim as int, target), placement));
                }
                placements.push(placement);
                proof {
                    assert(placements@[before.len() as int].cubes_view() == cubes);
                    assert(has_placement(placements@, cubes));
                }
            }
            proof {
                assert forall|i: int, j: int|
                    0 <= i < orientations@.len() && 0 <= j < orientations@[i]@.len() && (i < oi || (i == oi && j < ai + 1))
                        && all_in_grid(dim as int, #[trigger] anchored(orientations@[i]@, orientations@[i]@[j], target))
                        implies has_placement(placements@, anchored(orientations@[i]@, orientations@[i]@[j], target)) by {
                    if i == oi && j == ai {
                        assert(anchored(orientations@[i]@, orientations@[i]@[j], target) == cubes);
                    }
                }
            }
            ai = ai + 1;
        }
        oi = oi + 1;
    }
    placements
}

/// The cube at the coordinates of cell `t`.
pub open spec fn cell_coord(d: int, t: int) -> Coord {
    let p = crate::grid::coord_of(d, t);
    (p.0 as i32, p.1 as i32, p.2 as i32)
}

/// Some placement in the list covers exactly the cubes of `cells`.
spec fn has_placement_of_cubes(placements: Seq<Placement>, cells: Set<Coord>) -> bool {
    exists|k: int| 0 <= k < placements.len() && (#[trigger] placements[k]).cubes_view().to_set() == cells
}

/// Every rotation of `piece`, laid with any of its cubes on cell `t`, is in
/// `placements` when it fits the grid; with the orientation's cubes sorted,
/// as `all_orientations` lists them, it is there in that very order.
spec fn target_complete(d: int, piece: Seq<Coord>, t: int, placements: Seq<Placement>) -> bool {
    &&& forall|r: int, j: int|
        0 <= r < NUM_ROTATIONS && 0 <= j < piece.len() && all_in_grid(
            d,
            #[trigger] anchored(orientation_of(piece, r), orientation_of(piece, r)[j], cell_coord(d, t)),
        ) ==> has_placement_of_cubes(
            placements,
            anchored(orientation_of(piece, r), orientation_of(piece, r)[j], cell_coord(d, t)).to_set(),
        )
        &&& forall|o: Seq<Coord>, j: int|
            is_orientation_of(piece, o) && cubes_sorted(o) && 0 <= j < o.len() && all_in_grid(
                d,
                #[trigger] anchored(o, o[j], cell_coord(d, t)),
            ) ==> has_placement(placements, anchored(o, o[j], cell_coord(d, t)))
}

/// The table lists every legal placement of every piece at every cell.
spec fn table_complete(d: int, pieces: Seq<Vec<Coord>>, table: Seq<Vec<Vec<Placement>>>) -> bool {
    forall|p: int, t: int|
        0 <= p < table.len() && 0 <= t < table[p]@.len() ==> target_complete(d, pieces[p]@, t, #[trigger] table[p]@[t]@)
}

impl Puzzle {
    /// For every piece and target cell, the legal placements covering it:
    /// exactly those listed, all of them legal.
    fn build_placement_table(&self) -> (table: Vec<Vec<Vec<Placement>>>)
        requires
            self.wf(),
        ensures
            table_ok(self.dim as int, self.pieces@, table@),
            table_complete(self.dim as int, self.pieces@, table@),
    {
        proof {
            self.lemma_wf_pieces();
        }
        let ghost d = self.dim as int;
        let dim = self.dim;
        let grid_size = self.cell_count();
        let mut table: Vec<Vec<Vec<Placement>>> = Vec::new();
        let mut pi: usize = 0;
        while pi < self.pieces.len()
            invariant
                self.wf(),
                d == dim as int,
                dim == self.dim,
                0 < dim <= MAX_DIM,
                grid_size == num_cells(d),
                grid_size <= MAX_CELLS,
                pi <= self.pieces@.len(),
                table@.len() == pi,
                forall|k: int|
                    0 <= k < self.pieces@.len() ==> 0 < (#[trigger] self.pieces@[k])@.len() <= MAX_CUBES
                        && coords_within(self.pieces@[k]@, COORD_LIMIT as int) && self.pieces@[k]@.no_duplicates(),
                forall|p: int| 0 <= p < pi ==> (#[trigger] table@[p])@.len() == num_cells(d),
                forall|p: int, t: int, k: int|
                    0 <= p < pi && 0 <= t < table@[p]@.len() && 0 <= k < table@[p]@[t]@.len()
                        ==> placement_at(d, self.pieces@[p]@, t, #[trigger] table@[p]@[t]@[k]),
                forall|p: int, t: int|
                    0 <= p < pi && 0 <= t < table@[p]@.len() ==> target_complete(d, self.pieces@[p]@, t, #[trigger] table@[p]@[t]@),
            decreases self.pieces@.len() - pi,
        {
            let piece = &self.pieces[pi];
            assert(0 < piece@.len() <= MAX_CUBES && coords_within(piece@, COORD_LIMIT as int) && piece@.no_duplicates());
            let orientations = all_orientations(piece.as_slice());
            let mut per_target: Vec<Vec<Placement>> = Vec::new();
            let mut target_cell: usize = 0;
            while target_cell < grid_size
                invariant
                    0 < dim <= MAX_DIM,
                    d == dim as int,
                    grid_size == num_cells(d),
                    target_cell <= grid_size,
                    per_target@.len() == target_cell,
                    0 < piece@.len() <= MAX_CUBES,
                    forall|i: int| 0 <= i < orientations@.len() ==> is_orientation_of(piece@, #[trigger] orientations@[i]@),
                    forall|i: int|
                        0 <= i < orientations@.len() ==> coords_within(#[trigger] orientations@[i]@, 2 * COORD_LIMIT as int),
                    forall|i: int| 0 <= i < orientations@.len() ==> (#[trigger] orientations@[i]@).len() == piece@.len(),
                    forall|t: int, k: int|
                        0 <= t < target_cell && 0 <= k < per_target@[t]@.len()
                            ==> placement_at(d, piece@, t, #[trigger] per_target@[t]@[k]),
                    forall|t: int| 0 <= t < target_cell ==> target_complete(d, piece@, t, #[trigger] per_target@[t]@),
                    lists_rotations(piece@, orientations@, NUM_ROTATIONS as int),
                    forall|i: int| 0 <= i < orientations@.len() ==> cubes_sorted(#[trigger] orientations@[i]@),
                    coords_within(piece@, COORD_LIMIT as int),
                decreases grid_size - target_cell,
            {
                let target_position = idx_to_coord(dim, target_cell);
                let placements = placements_at(dim, piece, &orientations, target_position);
                proof {
                    assert(target_position == cell_coord(d, target_cell as int));
                    crate::grid::lemma_cell_of_coord(d, target_cell as int);
                    assert(cell_of_coord(d, target_position) == target_cell);
                    assert forall|r: int, j: int|
                        0 <= r < NUM_ROTATIONS && 0 <= j < piece@.len() && all_in_grid(
                            d,
                            #[trigger] anchored(orientation_of(piece@, r), orientation_of(piece@, r)[j], target_position),
                        ) implies has_placement_of_cubes(placements@, anchored(orientation_of(piece@, r), orientation_of(piece@, r)[j], target_position).to_set()) by {
                        let o = orientation_of(piece@, r);
                        assert(listed(piece@, orientations@, r));
                        let i = choose|i: int| 0 <= i < orientations@.len() && (#[trigger] orientations@[i])@.to_set() == o.to_set();
                        crate::geometry::lemma_orientation_shape(piece@, r);
                        let c = o[j];
                        assert(o.to_set().contains(c));
                        assert(orientations@[i]@.to_set().contains(c));
                        let jj = choose|jj: int| 0 <= jj < orientations@[i]@.len() && orientations@[i]@[jj] == c;
                        let a1 = anchored(orientations@[i]@, orientations@[i]@[jj], target_position);
                        let a2 = anchored(o, c, target_position);
                        lemma_translated_cubes(orientations@[i]@, o, target_position.0 - c.0, target_position.1 - c.1, target_position.2 - c.2);
                        lemma_same_cubes_in_grid(d, a2, a1);
                        assert(has_placement(placements@, a1));
                        let k = choose|k: int| 0 <= k < placements@.len() && #[trigger] placements@[k].cubes_view() == a1;
                        assert(placements@[k].cubes_view().to_set() == a2.to_set());
                    }
                    assert forall|o: Seq<Coord>, j: int|
                        is_orientation_of(piece@, o) && cubes_sorted(o) && 0 <= j < o.len() && all_in_grid(
                            d,
                            #[trigger] anchored(o, o[j], target_position),
                        ) implies has_placement(placements@, anchored(o, o[j], target_position)) by {
                        let r = choose|r: int| 0 <= r < NUM_ROTATIONS && o.to_set() == #[trigger] orientation_of(piece@, r).to_set();
                        assert(listed(piece@, orientations@, r));
                        let i = choose|i: int| 0 <= i < orientations@.len() && (#[trigger] orientations@[i])@.to_set() == orientation_of(piece@, r).to_set();
                        assert(cubes_sorted(orientations@[i]@));
                        lemma_sorted_same_cubes(orientations@[i]@, o);
                        assert(orientations@[i]@.len() == piece@.len());
                    }
                    assert(target_complete(d, piece@, target_cell as int, placements@));
                }
                per_target.push(placements);
                target_cell = target_cell + 1;
            }
            table.push(per_target);
            pi = pi + 1;
        }
        table
    }
}

/// `trailing_ones` never passes a clear bit below `n` when the mask has
/// no bit at or above `n`.
proof fn lemma_first_empty(occupied: u64, n: u64)
    requires
        n <= 64,
        occupied & !full_mask(n) == 0,
        occupied != full_mask(n),
    ensures
        u64_trailing_ones(occupied) < n,
{
    axiom_u64_trailing_ones(occupied);
    let t = u64_trailing_ones(occupied) as u64;
    if t >= n {
        let s = vstd::prelude::sub(64u64, t);
        assert((!occupied) << s == 0);
        assert(false) by (bit_vector)
            requires
                t >= n,
                t <= 64,
                n <= 64,
                s == vstd::prelude::sub(64u64, t),
                (!occupied) << s == 0,
                occupied & !full_mask(n) == 0,
                occupied != full_mask(n),
        ;
    }
}

/// The mask with the first `grid_size` cells filled.
fn all_filled(grid_size: usize) -> (m: u64)
    requires
        grid_size <= 64,
    ensures
        m == full_mask(grid_size as u64),
{
    if grid_size == 64 {
        u64::MAX
    } else {
        let g = grid_size as u64;
        assert(1u64 << g >= 1) by (bit_vector)
            requires
                g < 64,
        ;
        (1u64 << g) - 1
    }
}

/// The lowest empty cell, or `None` when every cell is filled.
///
/// With filled cells as ones, the count of trailing ones is the index of the
/// first empty cell.
fn find_first_empty_cell(occupied: u64, grid_size: usize) -> (r: Option<usize>)
    requires
        grid_size <= 64,
        occupied & !full_mask(grid_size as u64) == 0,
    ensures
        match r {
            None => occupied == full_mask(grid_size as u64),
            Some(t) => {
                &&& t < grid_size
                &&& !bit64(occupied, t as u64)
                &&& forall|j: u64| j < t ==> #[trigger] bit64(occupied, j)
            },
        },
{
    if occupied == all_filled(grid_size) {
        None
    } else {
        proof {
            lemma_first_empty(occupied, grid_size as u64);
            axiom_u64_trailing_ones(occupied);
        }
        Some(occupied.trailing_ones() as usize)
    }
}

/// Cell `t` is the lowest cell that the mask `m` leaves empty.
pub open spec fn is_lowest_empty(m: u64, t: u64) -> bool {
    &&& t < 64
    &&& !bit64(m, t)
    &&& forall|j: u64| j < t ==> #[trigger] bit64(m, j)
}

/// Piece `k` covers the lowest cell left empty by the pieces before it.
pub open spec fn covers_lowest(d: int, s: Seq<PlacedPiece>, k: int) -> bool {
    exists|t: u64| #[trigger] is_lowest_empty(or_masks(d, s.subrange(0, k)), t) && bit64(piece_mask(d, s[k]), t)
}

/// The pieces are listed in the order in which they filled the lowest empty
/// cell: each covers the lowest cell that the ones before it leave empty.
pub open spec fn fills_lowest_first(d: int, s: Seq<PlacedPiece>) -> bool {
    forall|k: int| 0 <= k < s.len() ==> #[trigger] covers_lowest(d, s, k)
}

/// With a cap of `m`, the search stops once it has `m` solutions (at least
/// one, since the cap is checked after each solution is recorded).
pub open spec fn solution_cap(m: usize) -> int {
    if m == 0 {
        1
    } else {
        m as int
    }
}

/// The search may still record a solution.
pub open spec fn below_cap(found: int, max_solutions: Option<usize>) -> bool {
    match max_solutions {
        Some(m) => found < solution_cap(m),
        None => true,
    }
}

proof fn lemma_bit_clear(r: u32, i: u32, j: u32)
    by (bit_vector)
    requires
        i < 32,
        j < 32,
    ensures
        ((r & !(1u32 << i)) >> j) & 1u32 == 1u32 <==> ((r >> j) & 1u32 == 1u32 && j != i),
{
}

proof fn lemma_bit_clear_decreases(r: u32, i: u32)
    by (bit_vector)
    requires
        i < 32,
        (r >> i) & 1u32 == 1u32,
    ensures
        (r & !(1u32 << i)) < r,
{
}

proof fn lemma_bit_test(r: u32, i: u32)
    by (bit_vector)
    requires
        i < 32,
    ensures
        (r & (1u32 << i)) != 0 <==> (r >> i) & 1u32 == 1u32,
{
}

/// Each piece's mask is disjoint from `m` when their union is.
proof fn lemma_or_masks_disjoint(d: int, pieces: Seq<PlacedPiece>, m: u64)
    requires
        or_masks(d, pieces) & m == 0,
    ensures
        forall|k: int| 0 <= k < pieces.len() ==> #[trigger] piece_mask(d, pieces[k]) & m == 0,
    decreases pieces.len(),
{
    if pieces.len() > 0 {
        lemma_or_disjoint(or_masks(d, pieces.drop_last()), piece_mask(d, pieces.last()), m);
        lemma_or_masks_disjoint(d, pieces.drop_last(), m);
        assert forall|k: int| 0 <= k < pieces.len() implies #[trigger] piece_mask(d, pieces[k]) & m == 0 by {
            if k < pieces.len() - 1 {
                assert(pieces.drop_last()[k] == pieces[k]);
            }
        }
    }
}

impl Puzzle {
    /// `p` is a legal placement of one of this puzzle's pieces: one of its
    /// orientations, moved to lie inside the grid.
    pub open spec fn is_placed_piece(&self, p: PlacedPiece) -> bool {
        &&& p.piece_index < self.pieces@.len()
        &&& p.cube_count <= MAX_CUBES
        &&& p.cube_count as int == self.pieces@[p.piece_index as int]@.len()
        &&& is_placement_of(self.dim as int, self.pieces@[p.piece_index as int]@, p.cubes_view())
    }

    /// Legal placements of distinct pieces, no two sharing a cell.
    pub open spec fn is_partial_solution(&self, s: Seq<PlacedPiece>) -> bool {
        &&& forall|k: int| 0 <= k < s.len() ==> self.is_placed_piece(#[trigger] s[k])
        &&& forall|i: int, j: int|
            0 <= i < j < s.len() ==> (#[trigger] s[i]).piece_index != (#[trigger] s[j]).piece_index
        &&& masks_disjoint(self.dim as int, s)
    }

    /// Legal placements of distinct pieces that fill every cell exactly
    /// once: their occupancy masks are pairwise disjoint and together give
    /// the full-grid mask.
    pub open spec fn is_solution(&self, s: Seq<PlacedPiece>) -> bool {
        &&& self.is_partial_solution(s)
        &&& or_masks(self.dim as int, s) == full_mask(self.num_cells() as u64)
    }

    /// The canonical key of an arrangement of this puzzle's pieces.
    pub open spec fn key_of(&self, s: Seq<PlacedPiece>) -> Seq<u8> {
        canonical_form(self.dim as int, self.chiral_pair, grid_of(self.dim as int, s))
    }

    /// Every recorded solution is one, has its key among `seen`, and no two
    /// have the same key.
    pub open spec fn found_ok(&self, found: Seq<Vec<PlacedPiece>>, seen: Set<Seq<u8>>) -> bool {
        &&& forall|i: int|
            0 <= i < found.len() ==> self.is_solution(#[trigger] found[i]@) && seen.contains(
                self.key_of(found[i]@),
            ) && fills_lowest_first(self.dim as int, found[i]@)
        &&& forall|i: int, j: int|
            0 <= i < j < found.len() ==> self.key_of(#[trigger] found[i]@) != self.key_of(
                #[trigger] found[j]@,
            )
    }

    /// The state of one search frame is consistent.
    spec fn frame_ok(
        &self,
        table: Seq<Vec<Vec<Placement>>>,
        rotations: Seq<Vec<u8>>,
        path: Seq<PlacedPiece>,
        remaining: u32,
        occupied: u64,
    ) -> bool {
        &&& self.wf()
        &&& table_ok(self.dim as int, self.pieces@, table)
        &&& is_rotation_table(self.dim as int, rotations)
        &&& self.is_partial_solution(path)
        &&& occupied == or_masks(self.dim as int, path)
        &&& occupied & !full_mask(self.num_cells() as u64) == 0
        &&& forall|k: int| 0 <= k < path.len() ==> !bit32(remaining, (#[trigger] path[k]).piece_index as u32)
        &&& fills_lowest_first(self.dim as int, path)
    }

    pub proof fn lemma_partial_fits_grid(&self, s: Seq<PlacedPiece>)
        requires
            self.wf(),
            self.is_partial_solution(s),
        ensures
            solution_fits_grid(self.dim as int, s),
    {
        self.lemma_wf_pieces();
        assert forall|k: int| 0 <= k < s.len() implies fits_grid(self.dim as int, #[trigger] s[k]) by {
            let p = s[k];
            assert(self.is_placed_piece(p));
            assert forall|j: int| 0 <= j < p.cube_count implies coord_in_grid(self.dim as int, #[trigger] p.positions@[j]) by {
                assert(p.cubes_view()[j] == p.positions@[j]);
            }
        }
    }

    /// Copies the pieces placed so far.
    fn copy_pieces(path: &Vec<PlacedPiece>) -> (copy: Vec<PlacedPiece>)
        ensures
            copy@ == path@,
    {
        let mut copy: Vec<PlacedPiece> = Vec::new();
        let mut i: usize = 0;
        while i < path.len()
            invariant
                i <= path@.len(),
                copy@ == path@.subrange(0, i as int),
            decreases path@.len() - i,
        {
            copy.push(path[i]);
            assert(copy@ =~= path@.subrange(0, i as int + 1));
            i = i + 1;
        }
        assert(path@.subrange(0, path@.len() as int) =~= path@);
        copy
    }

    /// Explores every extension of the pieces placed so far, in order,
    /// recording complete ones. Returns whether the solution cap was reached.
    fn search(
        &self,
        table: &Vec<Vec<Vec<Placement>>>,
        rotations: &Vec<Vec<u8>>,
        path: &mut Vec<PlacedPiece>,
        remaining: u32,
        occupied: u64,
        seen: &mut FxHashSet<Vec<u8>>,
        solutions: &mut Vec<Vec<PlacedPiece>>,
        max_solutions: Option<usize>,
    ) -> (stop: bool)
        requires
            self.frame_ok(table@, rotations@, old(path)@, remaining, occupied),
            self.found_ok(old(solutions)@, key_set(*old(seen))),
            key_set(*old(seen)).contains(self.key_of(old(path)@)),
            forall|i: int|
                0 <= i < old(solutions)@.len() ==> self.key_of(#[trigger] old(solutions)@[i]@) != self.key_of(
                    old(path)@,
                ),
            below_cap(old(solutions)@.len() as int, max_solutions),
        ensures
            final(path)@ == old(path)@,
            key_set(*old(seen)).subset_of(key_set(*final(seen))),
            self.found_ok(final(solutions)@, key_set(*final(seen))),
            !stop ==> below_cap(final(solutions)@.len() as int, max_solutions),
            max_solutions matches Some(m) ==> final(solutions)@.len() <= solution_cap(m),
        decreases remaining, 1int,
    {
        let grid_size = self.cell_count();
        // always fill the first empty cell
        let target_cell = match find_first_empty_cell(occupied, grid_size) {
            Some(cell) => cell,
            None => {
                // no empty cell: the pieces placed form a solution
                let solution = Self::copy_pieces(path);
                solutions.push(solution);
                let stop = match max_solutions {
                    Some(max) => solutions.len() >= max,
                    None => false,
                };
                return stop;
            },
        };
        let num_pieces = self.pieces.len();
        let ghost path0 = path@;
        let ghost seen0 = key_set(*seen);
        let mut piece_index: usize = 0;
        while piece_index < num_pieces
            invariant
                num_pieces == self.pieces@.len(),
                piece_index <= num_pieces,
                target_cell < grid_size,
                is_lowest_empty(occupied, target_cell as u64),
                grid_size as int == self.num_cells(),
                path@ == path0,
                path0 == old(path)@,
                seen0 == key_set(*old(seen)),
                self.frame_ok(table@, rotations@, path0, remaining, occupied),
                seen0.subset_of(key_set(*seen)),
                self.found_ok(solutions@, key_set(*seen)),
                below_cap(solutions@.len() as int, max_solutions),
                max_solutions matches Some(m) ==> solutions@.len() <= solution_cap(m),
            decreases num_pieces - piece_index,
        {
            proof {
                self.lemma_wf_pieces();
                lemma_bit_test(remaining, piece_index as u32);
            }
            if remaining & (1u32 << piece_index as u32) != 0 {
                // every placement here covers the target cell
                let valid_placements = &table[piece_index][target_cell];
                let mut k: usize = 0;
                while k < valid_placements.len()
                    invariant
                        num_pieces == self.pieces@.len(),
                        piece_index < num_pieces,
                        target_cell < grid_size,
                        is_lowest_empty(occupied, target_cell as u64),
                        grid_size as int == self.num_cells(),
                        bit32(remaining, piece_index as u32),
                        valid_placements == table@[piece_index as int]@[target_cell as int],
                        path@ == path0,
                        path0 == old(path)@,
                        seen0 == key_set(*old(seen)),
                        self.frame_ok(table@, rotations@, path0, remaining, occupied),
                        seen0.subset_of(key_set(*seen)),
                        self.found_ok(solutions@, key_set(*seen)),
                        below_cap(solutions@.len() as int, max_solutions),
                        max_solutions matches Some(m) ==> solutions@.len() <= solution_cap(m),
                    decreases valid_placements@.len() - k,
                {
                    let placement = valid_placements[k];
                    proof {
                        assert(table@[piece_index as int]@.len() == num_cells(self.dim as int));
                        assert(placement_at(self.dim as int, self.pieces@[piece_index as int]@, target_cell as int, table@[piece_index as int]@[target_cell as int]@[k as int]));
                    }
                    // a shared bit means this placement overlaps a placed piece
                    if occupied & placement.occupied_mask == 0 {
                        let stop = self.try_placement(
                            table,
                            rotations,
                            path,
                            remaining,
                            occupied,
                            piece_index,
                            placement,
                            target_cell,
                            seen,
                            solutions,
                            max_solutions,
                        );
                        if stop {
                            return true;
                        }
                    }
                    k = k + 1;
                }
            }
            piece_index = piece_index + 1;
        }
        false
    }

    /// Places one more piece; when the arrangement's canonical key is new,
    /// records it and searches on from there.
    fn try_placement(
        &self,
        table: &Vec<Vec<Vec<Placement>>>,
        rotations: &Vec<Vec<u8>>,
        path: &mut Vec<PlacedPiece>,
        remaining: u32,
        occupied: u64,
        piece_index: usize,
        placement: Placement,
        target_cell: usize,
        seen: &mut FxHashSet<Vec<u8>>,
        solutions: &mut Vec<Vec<PlacedPiece>>,
        max_solutions: Option<usize>,
    ) -> (stop: bool)
        requires
            self.frame_ok(table@, rotations@, old(path)@, remaining, occupied),
            self.found_ok(old(solutions)@, key_set(*old(seen))),
            below_cap(old(solutions)@.len() as int, max_solutions),
            is_lowest_empty(occupied, target_cell as u64),
            bit64(placement.occupied_mask, target_cell as u64),
            piece_index < self.pieces@.len(),
            bit32(remaining, piece_index as u32),
            placement_ok(self.dim as int, self.pieces@[piece_index as int]@, placement),
            occupied & placement.occupied_mask == 0,
        ensures
            final(path)@ == old(path)@,
            key_set(*old(seen)).subset_of(key_set(*final(seen))),
            self.found_ok(final(solutions)@, key_set(*final(seen))),
            !stop ==> below_cap(final(solutions)@.len() as int, max_solutions),
            max_solutions matches Some(m) ==> final(solutions)@.len() <= solution_cap(m),
        decreases remaining, 0int,
    {
        let ghost d = self.dim as int;
        let ghost path0 = path@;
        let ghost seen0 = key_set(*seen);
        proof {
            self.lemma_wf_pieces();
        }
        let new_piece = PlacedPiece {
            piece_index,
            positions: placement.cube_positions,
            cube_count: placement.cube_count,
        };
        assert(new_piece.cubes_view() == placement.cubes_view());
        path.push(new_piece);
        let ghost path1 = path@;
        proof {
            assert(path1.drop_last() =~= path0);
            assert(path1.last() == new_piece);
            assert forall|k: int| 0 <= k < path1.len() implies #[trigger] covers_lowest(d, path1, k) by {
                if k < path0.len() {
                    assert(path1.subrange(0, k) =~= path0.subrange(0, k));
                    assert(path1[k] == path0[k]);
                    assert(covers_lowest(d, path0, k));
                } else {
                    assert(path1.subrange(0, k) =~= path0);
                    assert(piece_mask(d, path1[k]) == placement.occupied_mask);
                    assert(is_lowest_empty(or_masks(d, path1.subrange(0, k)), target_cell as u64));
                }
            }
            lemma_or_masks_disjoint(d, path0, placement.occupied_mask);
            assert forall|k: int| 0 <= k < path0.len() implies (#[trigger] path0[k]).piece_index != piece_index by {
                assert(!bit32(remaining, path0[k].piece_index as u32));
            }
            assert forall|k: int| 0 <= k < path1.len() implies self.is_placed_piece(#[trigger] path1[k]) by {
                if k < path0.len() {
                    assert(path1[k] == path0[k]);
                }
            }
            assert forall|i: int, j: int| 0 <= i < j < path1.len() implies (#[trigger] path1[i]).piece_index != (#[trigger] path1[j]).piece_index by {
                assert(path1[i] == path0[i]);
                if j < path0.len() {
                    assert(path1[j] == path0[j]);
                }
            }
            assert forall|i: int, j: int| 0 <= i < j < path1.len() implies #[trigger] piece_mask(d, path1[i]) & #[trigger] piece_mask(d, path1[j]) == 0 by {
                assert(path1[i] == path0[i]);
                if j < path0.len() {
                    assert(path1[j] == path0[j]);
                } else {
                    assert(piece_mask(d, path0[i]) & placement.occupied_mask == 0);
                }
            }
            assert(self.is_partial_solution(path1));
            self.lemma_partial_fits_grid(path1);
        }
        // canonical key of the extended arrangement: equal keys mean
        // symmetric arrangements
        let canonical = canonical_key_with(self.dim, rotations, path.as_slice(), self.chiral_pair);
        let added = insert_key(seen, canonical);
        let mut stop = false;
        if added {
            // clear the bit of the piece just placed
            let new_remaining = remaining & !(1u32 << piece_index as u32);
            let new_occupied = occupied | placement.occupied_mask;
            proof {
                lemma_bit_clear_decreases(remaining, piece_index as u32);
                assert forall|k: int| 0 <= k < path1.len() implies !bit32(new_remaining, (#[trigger] path1[k]).piece_index as u32) by {
                    lemma_bit_clear(remaining, piece_index as u32, path1[k].piece_index as u32);
                    if k < path0.len() {
                        assert(path1[k] == path0[k]);
                    }
                }
                assert(or_masks(d, path1) == new_occupied);
                lemma_mask_within(d, placement.cubes_view());
                lemma_or_within(occupied, placement.occupied_mask, full_mask(self.num_cells() as u64));
                assert forall|i: int| 0 <= i < solutions@.len() implies self.key_of(#[trigger] solutions@[i]@) != self.key_of(path1) by {
                    assert(seen0.contains(self.key_of(solutions@[i]@)));
                }
            }
            stop = self.search(
                table,
                rotations,
                path,
                new_remaining,
                new_occupied,
                seen,
                solutions,
                max_solutions,
            );
        }
        path.pop();
        assert(path@ =~= path0);
        stop
    }

    /// Finds the symmetry-distinct solutions of the puzzle, stopping once
    /// `max_solutions` have been found when a cap is given.
    pub fn solve(&self, max_solutions: Option<usize>) -> (solutions: Vec<Vec<PlacedPiece>>)
        requires
            self.wf(),
        ensures
            forall|i: int| 0 <= i < solutions@.len() ==> self.is_solution(#[trigger] solutions@[i]@),
            forall|i: int| 0 <= i < solutions@.len() ==> fills_lowest_first(self.dim as int, #[trigger] solutions@[i]@),
            forall|i: int, j: int|
                0 <= i < j < solutions@.len() ==> self.key_of(#[trigger] solutions@[i]@) != self.key_of(
                    #[trigger] solutions@[j]@,
                ),
            max_solutions matches Some(m) ==> solutions@.len() <= solution_cap(m),
    {
        proof {
            self.lemma_wf_pieces();
        }
        let placement_table = self.build_placement_table();
        let rotations = build_rotation_table(self.dim);
        let num_pieces = self.pieces.len();
        let mut solutions: Vec<Vec<PlacedPiece>> = Vec::new();
        let mut seen_states = new_key_set();
        let mut path: Vec<PlacedPiece> = Vec::new();
        proof {
            self.lemma_partial_fits_grid(path@);
        }
        // the empty arrangement counts as explored
        let empty_key = canonical_key_with(self.dim, &rotations, path.as_slice(), self.chiral_pair);
        let _ = insert_key(&mut seen_states, empty_key);
        // one bit for each piece still to place
        let initial_remaining = expected_piece_mask(num_pieces);
        proof {
            assert(0u64 & !full_mask(self.num_cells() as u64) == 0) by (bit_vector);
        }
        self.search(
            &placement_table,
            &rotations,
            &mut path,
            initial_remaining,
            0,
            &mut seen_states,
            &mut solutions,
            max_solutions,
        );
        solutions
    }
}

} // verus!
